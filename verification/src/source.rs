//! Book sources: the rule sheets that say how to search a site and read a
//! book from it.
pub mod rule;
pub mod replace;
pub mod url;
pub mod selector;
