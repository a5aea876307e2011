# systems

A collection of systems building blocks, written in Verus: each data structure, algorithm,
parser and protocol state machine states its behaviour in `requires`/`ensures` contracts over
mathematical models (`Seq`, `Map`, `Set`, spec functions), and Verus proves the code meets them.

## Layout

- `src/` — the verified library, one module per component: caches (LRU, LFU, ARC, sharded
  LRU), allocators (buddy, slab, bump), storage engines (LSM tree, log-structured store,
  Bitcask, MVCC), a SQL engine, a GraphQL lexer and parser, an HTTP request parser and router,
  a git object store, DEFLATE compression, a cron parser, a CLI argument parser, Raft, a job
  queue, a task scheduler, rate limiters, a circuit breaker, a connection pool's bookkeeping,
  consistent hashing, a Bloom filter, an inverted index, Snowflake ids, an entity-component
  store and the mark phase of a garbage collector. Laws that relate several operations are
  public proof functions (`lemma_*`) beside the code they speak of.
- `src/clock.rs` and a few small wrappers are the trusted edge: calls into std whose
  contracts are stated, not proved, each with a doc comment saying what it claims.
- `tests/` — tests of the library on concrete values.
- `app/` — ordinary Rust around the library: sockets, threads, locks and condition variables,
  files, clocks, floating point, and the parts built on trait objects, closures shared through
  `Rc<RefCell<..>>` or raw pointers. Where a part of it makes a decision the library can make,
  it calls the library.
