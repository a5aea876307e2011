//! Verified building blocks for systems software: calendars, schedulers,
//! allocators, caches, consensus, compression and small language front ends.

pub mod text;
pub mod clock;
pub mod datetime;
pub mod raft;
pub mod slab_allocator;
pub mod lru_cache;
pub mod lfu_cache;
pub mod arc_cache;
pub mod design_twitter;
pub mod cron;
pub mod cli_parser;
pub mod buddy_allocator;
pub mod metrics_registry;
pub mod consistent_hashing;
pub mod http_server;
pub mod ecs;
pub mod garbage_collector;
pub mod circuit_breaker;
pub mod rate_limiter;
pub mod graphql;
pub mod git_core;
pub mod bloom_filter;
pub mod sql_engine;
pub mod deflate;
pub mod snowflake;
pub mod mvcc;
pub mod connection_pool;
pub mod log_structured_storage;
pub mod bump_allocator;
pub mod job_queue;
pub mod lsm_tree;
pub mod bitcask;
pub mod inverted_index;
pub mod concurrent_cache;
pub mod task_scheduler;
