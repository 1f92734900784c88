//! A search provider over the locally installed Steam games: an immutable
//! index of the installed titles, a case-insensitive keyword matcher over it,
//! the metadata shown for each result, and the launch URI of a result.

pub mod filter;
pub mod text;
pub mod index;
pub mod provider;
