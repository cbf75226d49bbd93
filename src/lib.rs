//! A master/worker external sort: workers sort chunks of student rankings
//! locally, and a coordinator hands out the chunks and merges the results.
//!
//! `record` holds the data and its order, `sort` the stable local sort,
//! `heap` a min-heap of chunk heads, `kmerge` the merge of sorted chunks,
//! `queue` the coordinator's shared state, `protocol` the framing and the coordinator's answer to each message, and
//! `worker` the worker's connection retries and session steps.
pub mod record;
pub mod sort;
pub mod heap;
pub mod kmerge;
pub mod queue;
pub mod protocol;
pub mod worker;
