//! Random strings from compact, regex-like patterns.
//!
//! A pattern is turned into one sample in three passes: every alternation
//! group `(a|b|c)` is replaced by one of its options, the shorthand markers
//! `\d`, `\s` and `\w` are replaced by the characters they stand for, and every
//! character class `[...]`, with its optional `{min}` or `{min,max}`
//! quantifier, is replaced by characters drawn from its pool.

pub mod alternation;
pub mod class;
pub mod digit;
pub mod error;
pub mod generate;
pub mod laws;
pub mod pool;
pub mod quantifier;
pub mod random;
pub mod shorthand;
pub mod text;
