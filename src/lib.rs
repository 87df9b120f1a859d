//! Structural annotation of markdown documents, and extraction of catalog entries from the
//! bulleted link lists of "awesome" style documents.
//!
//! - `ranges`: union and subtraction of half-open ranges.
//! - `parser`: the annotator, from a tokenizer's events to a flat text and its annotations.
//! - `tree`: ancestor, descendant, parent, child and sibling queries over annotations.
//! - `awesome_links`: the extraction of catalog entries from the annotations.
//! - `markdown`: the tokenizer and the URL parser that the two ends rely on.
//! - `crawl`: which repositories a crawl visits after reading a catalog.
pub mod anns;
pub mod awesome_links;
pub mod crawl;
pub mod markdown;
pub mod order;
pub mod parser;
pub mod ranges;
pub mod text;
pub mod tree;
