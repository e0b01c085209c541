//! A minimizer-sampled suffix array: an index over a reference text that keeps
//! only the suffixes starting at window minimizers, with exact-match queries.
pub mod minimizers;
pub mod order;
pub mod sa;
pub mod records;
pub mod query;
pub mod determinism;

pub use minimizers::{
    CharScheme, Scheme, Selector, char_minimizer, hash_minimizer, lexicographical_minimizer, minimizer,
    preprocess_char_scheme, preprocess_minimizer_scheme, scheme_minimizer, str_to_bin,
};
pub use order::longest_common_prefix_length;
pub use query::{query, search, verify};
pub use records::{Sequence, parse_records};
pub use sa::{IndexError, Rule, SENTINEL, SuffixArray, build};

