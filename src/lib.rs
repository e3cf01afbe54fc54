//! A spell checker for source code and text files: it splits file contents
//! into words, splits camelCase and snake_case words into sub-words, looks
//! each up in a sorted dictionary, and leaves out the misspellings that a
//! per-file baseline accepts.
pub mod baseline;
pub mod checker;
pub mod dictionary;
pub mod text;
pub mod word;
