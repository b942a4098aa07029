//! Consistency checks for translation catalogs: a base language's flat key
//! space against every other language's.
pub mod seqs;
pub mod keyspace;
pub mod placeholder;
pub mod tree;
pub mod catalog;
pub mod usage;
pub mod report;
pub mod laws;
