//! Retrieval of canned replies: a corpus index pairing historical requests
//! with their recorded responses, a fuzzy subsequence scorer that ranks
//! candidate requests against a query, and an engine that picks the
//! best-scoring entry and returns one of its responses.

pub mod casefold;
pub mod scorer;
pub mod corpus;
pub mod engine;
