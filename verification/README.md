# tpch_engine

An out-of-core query engine for TPC-H data, with a simulated disk, a data
generator and a monitor that runs queries and checks their answers.  The
engine's logic is a library verified with Verus; the programs around it
(process setup, pipes, files, floating-point output) are ordinary Rust.

## Layout

- `src/` — the verified library.
  - `data`, `row`, `bytes`, `disk_run`, `runs`: column values, the byte
    encoding of rows and blocks, runs of blocks written and read back
    (encoding and decoding are proved inverse).
  - `buffer_pool`: the frame cache with LRU, MRU and CLOCK eviction.  It
    never touches the disk itself: it records requests and queued writes,
    and takes the disk's answers (`take_request`, `take_writes`,
    `provide_*`).  Which block a miss evicts (under LRU the least
    recently used, with the stale entries a hit leaves behind skipped),
    and what is written back, is stated exactly, as is that a read the
    disk has answered succeeds.
  - `query`, `catalog`, `predicate`, `plan`, `planner`: the query tree,
    table statistics, predicate compilation, and the planner that turns a
    query into a plan (join choice, projection pushdown, sort elision).
  - `engine`, `executor`: the operators (scan, filter, project, cross
    product, nested-loop, hash and sort-merge joins, external sort) as
    step functions over the buffer pool, and the memory budgets.  Every
    row an operator hands out has its declared column types and satisfies
    the operator's own predicates or join keys.  A scan hands out exactly
    the kept rows of the blocks the disk returned, in file order, and
    moves closer to its end at each step that is not waiting on the disk;
    a sort hands out no row after a larger one that was waiting; a hash
    join's build side publishes a filter that admits every build key.
    Each operator records the rows it hands out: a filter hands out
    exactly its input's rows that pass, a projection exactly its input's
    rows cut to the kept columns, an in-memory cross product exactly every
    pair of input rows, an in-memory sort exactly its input's rows in key
    order; a finished operator has finished its inputs.
  - `sort`, `hash_join`, `stats`: stable sorting by keys, hashing and the
    join filter, column statistics (HyperLogLog registers).
  - `disk_manager`, `disk_sim`: the disk protocol (commands, replies,
    file layout, reads and writes of the simulated disk, I/O metrics).
  - `generator`, `monitor`, `workload`, `text`, `cli`: packing table files,
    SQL text for SQLite, the monitor's commands and output check, the
    workload's configuration, and the number and word parsing they share.
- `app/` — the programs: `database`, `disk`, `generator`, `monitor`,
  `tests-gen` and `demo-query-printer`, as subcommands of one binary.
- `tests/` — tests of the library: in-memory disks drive whole queries
  through the engine, and the workload's queries are planned on the
  TPC-H tables.
