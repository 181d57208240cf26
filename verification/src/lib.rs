//! A small key-value table with string keys, stored in chained buckets that
//! are indexed directly by an additive digest of the key.
//!
//! - [`hash_funs`] holds the digest.
//! - [`model`] describes a table's layout as sequences and says what each
//!   operation does to it.
//! - [`table`] holds the table, whose contracts speak of that model.
//! - [`lemmas`] proves what the table's proofs need of the model.
//! - [`laws`] states what holds of the operations taken together.

pub mod hash_funs;
pub mod laws;
pub mod lemmas;
pub mod model;
pub mod table;
