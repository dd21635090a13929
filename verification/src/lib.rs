//! An embedded full-text inverted index: documents are turned into per-field
//! segments with a fixed six-file layout, and readers discover committed
//! segments by their directory names.

pub mod bitmap;
pub mod decimal;
pub mod dictionary;
pub mod document;
pub mod error;
pub mod field;
pub mod frame;
pub mod ident;
pub mod index;
pub mod layout;
pub mod le;
pub mod naming;
pub mod order;
pub mod postings;
pub mod query;
pub mod reader;
pub mod roundtrip;
pub mod sorted;
pub mod writer;
