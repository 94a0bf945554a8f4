# ChronosDB

A transactional storage engine: slotted pages, MVCC tuple versions, a
write-ahead log with idempotent redo, checkpoints, a buffer pool and vacuum.

`src/` is the verified core. Every rule that decides something lives there
with a contract: page and record formats, tuple visibility and write
conflicts, the transaction manager, log and checkpoint encodings, redo,
transaction recovery, buffer-pool frame bookkeeping and the placement of
versions into heap pages. Proof functions state the laws the engine relies
on, such as that redo is idempotent, that a stored log or checkpoint reads
back as written, and that vacuum never removes a version an active snapshot
can see.

`app/` holds the parts that touch files: the disk and log managers, the
buffer pool's reads and writes, the heap files, the durable transaction
manager and the engine facades that run the verified rules against them,
plus a small benchmark.

`tests/` exercises the library on concrete values.
