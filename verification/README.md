# anchors

Anchors are values that are kept up to date. An `Engine` holds a graph of them: variables, constants, and anchors that are
calculated from others. When a variable is set, only what depends on it is calculated again, and only when it is asked for
or observed.

The library is verified with Verus. Its contracts say what a poll of each kind of anchor does, and what an engine makes of
the answers.

- `src/expert.rs` has the vocabulary: handles, answers, and the two traits that anchors and contexts implement. Below it
  stand the kinds of anchors: variables (`var`, `var_val_or_anchor`, `var_either_anchor`), anchors calculated from
  others (`ext`), and anchors of several kinds in one graph (`mixed`).
- `src/singlethread.rs` has the engine: the graph (`graph2`, `height`, `dirty`), what a polled anchor sees of it
  (`context`), recalculation (`recalc`, `stabilize`, `pending`), reading and setting (`engine`, `access`), figures
  (`stats`), drawings (`dot`), what holds of all of it (`laws`), and how single nodes get out of it (`trouble`).
- `src/collections.rs` has anchors that gather the outputs of many (`collect`, `small`, `ord_set`, `ord_map_collect`,
  `dynamic_keyed_vector_collect` with `keyed_laws`), and anchors that follow the changes of a dictionary or a set (`fold`,
  `ord_map_methods`, `ord_set_methods`).
- `app/` has engines for a program: shared by handles, set up from the environment, with reports.

Three crates are called from the library: `im-rc`, `indexmap` and `smallvec`, behind the trusted items in
`collections/persistent.rs`, `collections/sequence.rs`, `singlethread/pending.rs` and `singlethread/dot.rs`.
