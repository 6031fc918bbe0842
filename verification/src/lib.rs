//! Search for statistical bias between tuples of header bits and single nonce bits.
//!
//! For every strictly increasing tuple of header-bit positions and every nonce-bit
//! position the library builds a histogram of the nonce bit's outcomes, keyed by the
//! value that the tuple takes in each record, and keeps the buckets that hold enough
//! samples and that the caller's information test accepts.
//!
//! - [`data_structures`]: records, addresses, histograms and messages.
//! - [`enumerator`]: the tuples and addresses of a search, and their generator.
//! - [`statistics`]: counting, totals and the threshold filter.
//! - [`dispatcher`]: the cut of the addresses into batches.
//! - [`coordinator`] and [`worker`]: the two sides of the protocol, each as a step.
//! - [`protocol`]: the run as a whole, whoever moves next.
//! - [`search`]: the whole search in one thread.
//! - [`file`], [`arguments`] and [`numbers`]: the input formats.

pub mod arguments;
pub mod coordinator;
pub mod data_structures;
pub mod dispatcher;
pub mod enumerator;
pub mod file;
pub mod numbers;
pub mod protocol;
pub mod search;
pub mod statistics;
pub mod worker;
