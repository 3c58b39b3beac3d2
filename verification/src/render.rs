//! Text: decimal numbers, lists of numbers, and the picture of a tree.

use crate::topo;
use crate::topo::{NodeId, Shape, ROOT};
use crate::tree::RadixTree;
use crate::tree_model;
use crate::tree_model::RadixState;
use vstd::prelude::*;
use vstd::string::StringExecFns;

verus! {

/// The digit for `d`.
pub open spec fn digit(d: nat) -> char {
    (48 + d) as char
}

/// `n` in decimal.
pub open spec fn digits(n: nat) -> Seq<char>
    decreases n,
{
    if n < 10 {
        seq![digit(n)]
    } else {
        digits(n / 10).push(digit(n % 10))
    }
}

/// `n` in decimal, with a sign if it is negative.
pub open spec fn decimal(n: int) -> Seq<char> {
    if n < 0 {
        seq!['-'] + digits((-n) as nat)
    } else {
        digits(n as nat)
    }
}

/// `items` in decimal with commas between them.
pub open spec fn listed(items: Seq<i64>) -> Seq<char>
    decreases items.len(),
{
    if items.len() == 0 {
        Seq::empty()
    } else if items.len() == 1 {
        decimal(items[0] as int)
    } else {
        listed(items.drop_last()) + seq![',', ' '] + decimal(items.last() as int)
    }
}

/// `n` spaces.
pub open spec fn spaces(n: nat) -> Seq<char> {
    Seq::new(n, |i: int| ' ')
}

/// Adds one digit.
fn append_digit(out: &mut String, d: u128)
    requires
        d < 10,
    ensures
        final(out)@ == old(out)@.push(digit(d as nat)),
{
    proof {
        reveal_strlit("0");
        reveal_strlit("1");
        reveal_strlit("2");
        reveal_strlit("3");
        reveal_strlit("4");
        reveal_strlit("5");
        reveal_strlit("6");
        reveal_strlit("7");
        reveal_strlit("8");
        reveal_strlit("9");
    }
    let s = if d == 0 {
        "0"
    } else if d == 1 {
        "1"
    } else if d == 2 {
        "2"
    } else if d == 3 {
        "3"
    } else if d == 4 {
        "4"
    } else if d == 5 {
        "5"
    } else if d == 6 {
        "6"
    } else if d == 7 {
        "7"
    } else if d == 8 {
        "8"
    } else {
        "9"
    };
    assert(s@ =~= seq![digit(d as nat)]);
    let ghost before = out@;
    out.append(s);
    assert(out@ =~= before.push(digit(d as nat)));
}

/// Adds `n` in decimal.
fn append_digits(out: &mut String, n: u128)
    ensures
        final(out)@ == old(out)@ + digits(n as nat),
    decreases n,
{
    let ghost before = out@;
    if n >= 10 {
        append_digits(out, n / 10);
    }
    append_digit(out, n % 10);
    assert(out@ =~= before + digits(n as nat));
}

/// Adds `n` in decimal, with a sign if it is negative.
pub(crate) fn append_decimal(out: &mut String, n: i128)
    requires
        n > i128::MIN,
    ensures
        final(out)@ == old(out)@ + decimal(n as int),
{
    let ghost before = out@;
    if n < 0 {
        proof {
            reveal_strlit("-");
        }
        out.append("-");
        append_digits(out, (-n) as u128);
        assert(out@ =~= before + decimal(n as int));
    } else {
        append_digits(out, n as u128);
    }
}

/// Adds `items` in decimal with commas between them.
pub(crate) fn append_list(out: &mut String, items: &[i64])
    ensures
        final(out)@ == old(out)@ + listed(items@),
{
    let ghost before = out@;
    let mut k: usize = 0;
    proof {
        reveal_strlit(", ");
        assert(items@.take(0).len() == 0);
        assert(before + listed(items@.take(0)) =~= before);
    }
    while k < items.len()
        invariant
            k <= items@.len(),
            ", "@ == seq![',', ' '],
            out@ == before + listed(items@.take(k as int)),
        decreases items@.len() - k,
    {
        let ghost part = listed(items@.take(k as int));
        if k > 0 {
            out.append(", ");
        }
        append_decimal(out, items[k] as i128);
        proof {
            let next = items@.take(k + 1);
            assert(next.drop_last() =~= items@.take(k as int));
            assert(out@ =~= before + listed(next));
        }
        k += 1;
    }
    assert(items@.take(k as int) =~= items@);
}

/// Adds `n` spaces.
fn append_spaces(out: &mut String, n: usize)
    ensures
        final(out)@ == old(out)@ + spaces(n as nat),
{
    let ghost before = out@;
    let mut k: usize = 0;
    proof {
        reveal_strlit(" ");
        assert(before + spaces(0) =~= before);
    }
    while k < n
        invariant
            k <= n,
            " "@ == seq![' '],
            out@ == before + spaces(k as nat),
        decreases n - k,
    {
        out.append(" ");
        k += 1;
        assert(out@ =~= before + spaces(k as nat));
    }
}

// ---- the picture of a tree ----

/// The children of `p` below `k`, by id.
pub open spec fn kids_below(s: Shape, p: NodeId, k: int) -> Seq<NodeId>
    decreases k,
{
    if k <= 0 {
        Seq::empty()
    } else if s.is_child(p, (k - 1) as NodeId) {
        kids_below(s, p, k - 1).push((k - 1) as NodeId)
    } else {
        kids_below(s, p, k - 1)
    }
}

impl RadixState {
    /// The line for `id`, `depth` steps below the root: units of the key,
    /// its first elements, and how often it is locked.
    pub open spec fn line(self, id: NodeId, depth: nat) -> Seq<char> {
        let key = self.shape.nodes[id as int].key;
        let head = if key.len() < 10 {
            key
        } else {
            key.take(10)
        };
        spaces(2 * depth) + decimal(self.shape.units(id as int)) + seq![' ', '['] + listed(head) + seq![
            ']',
            ' ',
            'r',
            '=',
        ] + decimal(self.nodes[id as int].lock_ref as int) + seq!['\n']
    }

    /// The lines of the subtree of `id`: its own, then those of its
    /// children, by id.
    pub open spec fn subtree_lines(self, id: NodeId, depth: nat, fuel: nat) -> Seq<char>
        decreases fuel, 0nat,
    {
        if fuel == 0 {
            Seq::empty()
        } else {
            self.line(id, depth) + self.forest_lines(
                kids_below(self.shape, id, self.nodes.len() as int),
                depth + 1,
                (fuel - 1) as nat,
            )
        }
    }

    /// The lines of the subtrees of `ids`.
    pub open spec fn forest_lines(self, ids: Seq<NodeId>, depth: nat, fuel: nat) -> Seq<char>
        decreases fuel, ids.len() + 1,
    {
        if ids.len() == 0 {
            Seq::empty()
        } else {
            self.forest_lines(ids.drop_last(), depth, fuel) + self.subtree_lines(ids.last(), depth, fuel)
        }
    }

    /// The picture of the tree: a line for each node, and one for all tokens.
    pub open spec fn picture(self) -> Seq<char> {
        self.subtree_lines(ROOT, 0, self.nodes.len()) + "#tokens: "@ + decimal(self.size()) + seq!['\n']
    }
}

impl RadixTree {
    /// The children of `p`, by id.
    fn sorted_children(&self, p: NodeId) -> (r: Vec<NodeId>)
        requires
            self.wf(),
            p < self@.nodes.len(),
        ensures
            r@ == kids_below(self@.shape, p, self@.nodes.len() as int),
            forall|k: int| 0 <= k < r@.len() ==> self@.shape.is_child(p, #[trigger] r@[k]),
    {
        proof {
            self.lemma_wf();
        }
        let n = self.len();
        let mut r: Vec<NodeId> = Vec::new();
        let mut c: usize = 0;
        while c < n
            invariant
                self.wf(),
                c <= n,
                n == self@.nodes.len(),
                n == self@.shape.nodes.len(),
                n <= NodeId::MAX,
                r@ == kids_below(self@.shape, p, c as int),
                forall|k: int| 0 <= k < r@.len() ==> self@.shape.is_child(p, #[trigger] r@[k]),
            decreases n - c,
        {
            if c > 0 && self.is_child(p, c as NodeId) {
                r.push(c as NodeId);
            }
            c += 1;
        }
        r
    }

    /// Adds the line for `id`.
    fn append_line(&self, out: &mut String, id: NodeId, depth: usize)
        requires
            self.wf(),
            id < self@.nodes.len(),
            self@.shape.units(id as int) <= i64::MAX,
        ensures
            final(out)@ == old(out)@ + self@.line(id, depth as nat),
    {
        let ghost before = out@;
        proof {
            reveal_strlit(" [");
            reveal_strlit("] r=");
            reveal_strlit("\n");
            assert(" ["@ =~= seq![' ', '[']);
            assert("] r="@ =~= seq![']', ' ', 'r', '=']);
            assert("\n"@ =~= seq!['\n']);
        }
        append_spaces(out, depth);
        append_spaces(out, depth);
        assert(spaces(depth as nat) + spaces(depth as nat) =~= spaces(2 * depth as nat));
        let (key, units) = self.key_of(id);
        append_decimal(out, units as i128);
        out.append(" [");
        let head = if key.len() < 10 {
            key
        } else {
            vstd::slice::slice_subrange(key, 0, 10)
        };
        assert(key@.len() >= 10 ==> head@ =~= key@.take(10));
        append_list(out, head);
        out.append("] r=");
        append_decimal(out, self.node_lock_ref(id) as i128);
        out.append("\n");
        assert(out@ =~= before + self@.line(id, depth as nat));
    }

    /// Adds the lines of the subtree of `id`.
    fn append_subtree(&self, out: &mut String, id: NodeId, depth: usize, fuel: usize)
        requires
            self.wf(),
            self@.shape.has(id),
            self@.shape.nodes[id as int].attached,
            depth + fuel <= self@.nodes.len(),
        ensures
            final(out)@ == old(out)@ + self@.subtree_lines(id, depth as nat, fuel as nat),
        decreases fuel,
    {
        let ghost before = out@;
        if fuel == 0 {
            assert(before =~= before + Seq::<char>::empty());
            return ;
        }
        proof {
            self.lemma_wf();
            assert(id != ROOT ==> self@.node_ok(id as int));
            self.lemma_short(id);
        }
        self.append_line(out, id, depth);
        let ghost head = out@;
        let kids = self.sorted_children(id);
        let mut k: usize = 0;
        proof {
            assert(kids@.take(0).len() == 0);
            assert(head + Seq::<char>::empty() =~= head);
        }
        while k < kids.len()
            invariant
                self.wf(),
                k <= kids@.len(),
                fuel > 0,
                depth + fuel <= self@.nodes.len(),
                self@.nodes.len() <= NodeId::MAX,
                forall|k: int| 0 <= k < kids@.len() ==> self@.shape.is_child(id, #[trigger] kids@[k]),
                out@ == head + self@.forest_lines(kids@.take(k as int), (depth + 1) as nat, (fuel - 1) as nat),
            decreases kids@.len() - k,
        {
            let c = kids[k];
            let ghost part = self@.forest_lines(kids@.take(k as int), (depth + 1) as nat, (fuel - 1) as nat);
            assert(self@.shape.is_child(id, kids@[k as int]));
            self.append_subtree(out, c, depth + 1, fuel - 1);
            proof {
                let next = kids@.take(k + 1);
                assert(next.drop_last() =~= kids@.take(k as int));
                assert(out@ =~= head + self@.forest_lines(next, (depth + 1) as nat, (fuel - 1) as nat));
            }
            k += 1;
        }
        proof {
            assert(kids@.take(k as int) =~= kids@);
            assert(out@ =~= before + self@.subtree_lines(id, depth as nat, fuel as nat));
        }
    }

    /// A picture of the tree: a line for each node, indented below its
    /// parent's, and one for all tokens.
    pub fn pretty_print(&self) -> (r: String)
        requires
            self.wf(),
        ensures
            r@ == self@.picture(),
    {
        proof {
            self.lemma_wf();
            reveal_strlit("\n");
            assert("\n"@ =~= seq!['\n']);
        }
        let mut out = String::new();
        self.append_subtree(&mut out, ROOT, 0, self.len());
        out.append("#tokens: ");
        append_decimal(&mut out, self.total_size() as i128);
        out.append("\n");
        assert(out@ =~= self@.picture());
        out
    }
}

} // verus!
