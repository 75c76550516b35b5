//! Statistics over findings that stand without floating point: shingles and
//! MinHash signatures, content-defined chunking, and baseline matching.

pub mod poly;
pub mod dedup;
pub mod lsh;
pub mod union_find;
pub mod minhash;
pub mod fingerprint;
