# database

A small relational query engine, verified with Verus. It takes a query (scans,
filters, projections, cross products and sorts over the tables of a
configuration), plans it, reads the tables from a block device, and hands the
rows of the answer to a consumer. Sorts and joins plan their use of memory by a
limit, and write to a scratch area of the device what does not fit.

- `src/semantics.rs` says what the answer of a query is.
- `src/executor/` runs queries. `execute_query` hands out a right answer
  wherever the device gives back what was written to it and the tables that the
  query reads are what the configuration says of them. It gives all blocks of the
  scratch area back, unless it gives up the table of a side of a join by keys, for
  want of memory, while that side, itself a join or a sort, holds blocks. It says
  for which reasons a query can fail. Bounds on memory are shown for the
  rows that a table of a hash join, a side of a join or a part of a sort keeps:
  what they are held to take is within the budget that the part was given, or it
  is a single row. What the allocator takes beside that, and the blocks that are
  being read or written, are not counted.
- `src/optimizer/` rewrites queries, guided by the estimates of
  `src/estimation.rs` and `src/selectivity.rs`. These compute in the IEEE 754
  64-bit format, which `src/float.rs` implements on bit patterns.
  `src/optimizer/laws.rs` shows that every right answer of a rewritten query is
  a right answer of the query. Each name in the query then means one column, the
  tables that are read are sound and in files of their own, and no two of its
  predicates that differ have one key, the text by which predicates are told
  apart. The columns of a join may come in another order unless a
  projection above it says theirs.
- `src/scan_pipeline.rs` runs a chain of filters and projections in one pass over
  a table.
- `src/storage/` holds the client of the block device, the row format, and the
  scratch area to which sorts and joins write what does not fit into memory.
- `src/monitor_client.rs` talks to the process that sends the query and takes the
  rows.
- `app/` is the program: command line, file descriptors, and JSON.

Columns and literals of floating-point types are held as their bit patterns. A
literal also has the text that stands for it in the keys of predicates.
