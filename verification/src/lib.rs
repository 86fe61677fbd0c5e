//! Selecting and exporting the PDFs of a Zotero collection branch.
pub mod seqs;
pub mod text;
pub mod order;
pub mod tree;
pub mod lineage;
pub mod library;
pub mod display;
pub mod paths;
pub mod nesting;
pub mod branches;
pub mod plan;
pub mod tags;
pub mod fuzzy;
pub mod selection;
pub mod numbers;
pub mod picker;
pub mod query;
pub mod matching;
pub mod database;
pub mod export;
pub mod cli;
