//! A word-toggling resolver: given a word and an optional context tag, it
//! consults a configuration of cyclic word groups, organised in named scopes
//! with an `extends` inheritance relation rooted at a `"global"` scope, and
//! returns the next word of whichever group contains the word.

pub mod config;
pub mod cycle;
pub mod scopes;
