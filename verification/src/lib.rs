//! Embeddable asset tables backed by a minimal perfect hash function.
//!
//! Given a fixed set of distinct byte-string keys, the library constructs a
//! layered minimal perfect hash function (an iterative-peeling construction
//! over seeded hashes), places the associated values into a dense table in
//! hash order, and answers lookups in constant time through succinct bit
//! vectors with precomputed rank checkpoints.

pub mod bits;
pub mod bitvector;
pub mod builder;
pub mod compress;
pub mod config;
pub mod hashing;
pub mod laws;
pub mod mphf;
pub mod paths;
pub mod store;
pub mod table;

pub use bitvector::BitVector;
pub use bitvector::BitVectorIter;
pub use builder::build;
pub use builder::ConstructionError;
pub use builder::Gamma;
pub use compress::compress_assets;
pub use compress::Codec;
pub use config::Config;
pub use mphf::Mphf;
pub use mphf::QueryError;
pub use store::Entry;
pub use store::File;
pub use store::Wheatley;
pub use table::build_hash_table;
pub use table::permute;

