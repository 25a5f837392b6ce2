//! Query engine over a KMC k-mer count database.
//!
//! The database is a pair of byte buffers (the `.kmc_pre` and `.kmc_suf`
//! files). It is opened either for random access (point lookup of one k-mer's
//! count) or for listing (ordered iteration over every stored k-mer and its
//! count). K-mers are packed two bits per symbol into a `u64`.
pub mod codec;
pub mod db;
pub mod error;
pub mod format;

pub use codec::{canonicalize, decode, reverse_complement, Kmer};
pub use db::{KmcFile, Mode};
pub use error::KmcError;
pub use format::parse_database;
