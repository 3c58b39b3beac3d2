# sglang_radix

Radix-tree caches for the key/value indices of a language-model server, written
in Verus: every operation has a contract, and every contract is proved.

Five trees share one arena of links (`src/topo.rs`):

| Tree | What a node holds |
| --- | --- |
| `RadixTree` | one device run |
| `HiRadixTree` | a device run and a host copy |
| `SWARadixTree` | full runs, and window slots that may be gone |
| `MambaRadixTree` | runs, and at most one state |
| `UnifiedRadixTree` | all of these, by component, on device and host |

For each tree a `*_model.rs` file (for the unified tree `src/unified/model.rs`)
describes its state and what each operation makes of it; the contract of an
operation is that the tree after the call is that description applied to the
tree before. The `*_laws.rs` files, and `hi_backups.rs`, `mamba_holds.rs`,
`tree_holds.rs`, `swa_reads.rs` and `unified/progress.rs`, state what holds
across operations: what a match finds after an insert, what a lock and its
release leave behind, what an eviction hands out. What an audit of the unified
tree reports, message by message, is in `unified/findings.rs`.

Two calls into the standard library are taken on trust, in `src/policy.rs`:
lowering a policy's name to ASCII lower case, and quoting it in an error.
