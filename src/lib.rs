//! An in-memory inverted index over a corpus of documents, with the
//! frequency bookkeeping that a TF-IDF ranking of free-text queries needs.
pub mod model;
pub mod searching;
pub mod structures;
