//! A small in-process concurrency toolkit: a bounded multi-producer
//! multi-consumer channel built on a ring buffer with wait-lists, a batching
//! request coalescer that groups keyed lookups into batched fetches, a
//! frequency-decaying cache that ranks eviction candidates by recent use,
//! and a mutual-exclusion primitive guarding a single owned value.
//!
//! The data structures here hold the state and every state transition of the
//! toolkit; suspension and resumption hooks are kept abstract as a type
//! parameter, so an embedding runtime decides how a suspended party is
//! actually woken.

pub mod spinlock;
pub mod mpmc;
pub mod dataloader;
pub mod cache;
