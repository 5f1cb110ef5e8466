//! Note store and link-graph engine of a slip-box application.
//!
//! A note is one file: an optional delimited front-matter block holding
//! key/value metadata, followed by free-form body text. The library decodes
//! and encodes that format, extracts the outgoing links a body references,
//! and answers the derived queries of the slip-box: enumerate, search by
//! title, backlinks. All file reading and writing is left to the caller;
//! every function here works on plain values and is verified.

pub mod config;
pub mod frontmatter;
pub mod kasten;
pub mod links;
pub mod zettel;
pub mod text;
