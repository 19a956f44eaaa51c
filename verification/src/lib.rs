//! Line-oriented text utilities: a tally of lines, words, bytes and
//! characters, a collapser of adjacent duplicate lines, the options of a
//! utility that shows the head of its inputs, and an echo of arguments. Each
//! is stated over sequences of characters and proved against that statement.

pub mod decimal;
pub mod echor;
pub mod headr;
pub mod text;
pub mod uniqr;
pub mod wcr;
