//! A content store: turns a directory of plain-text documents into an
//! ordered catalog of structured entries, and renders any one document
//! into hierarchically numbered HTML with a table of contents.
//!
//! The store itself performs no I/O: callers hand it directory listings
//! and file bytes, and it hands back decisions and fully built values.

pub mod date;
pub mod errors;
pub mod feeds;
pub mod front_matter;
pub mod index;
pub mod md;
pub mod num;
pub mod post;
pub mod scan;
pub mod slugs;
pub mod store;
pub mod yaml;

pub use date::Date;
pub use errors::Error;
pub use front_matter::{FrontMatter, Metadata};
pub use post::{Heading, HeadingLevel, InvalidHeadingLevel, Post};
pub use store::Store;
