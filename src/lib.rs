//! Extraction of the leading token of a text: the characters before its first space.

mod token;

pub use token::{
    first_word,
    is_first_space,
    is_leading_token,
    lemma_leading_token_idempotent,
    lemma_leading_token_unique,
    no_space,
};
