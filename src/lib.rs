//! Bookmark collections as a graph of entities keyed by URL, read from a markdown journal
//! or a Netscape HTML export.

pub mod belnap;
pub mod bitplane;
pub mod collection;
pub mod entity;
pub mod error;
pub mod format;
pub mod html;
pub mod kleene;
pub mod markdown;
pub mod strings;
