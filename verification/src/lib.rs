//! Notal: the logic of a lean Obsidian-vault server, verified.
//!
//! The library reads Markdown notes (frontmatter, wikilinks, tags,
//! titles), resolves note paths inside a vault, and makes the decisions
//! of the vault tools (listing, searching, linking, reading).
pub mod frontmatter;
pub mod text;

pub mod parser;
pub mod tags;
pub mod title;
pub mod wikilinks;
pub mod link_laws;
pub mod vault;
pub mod search;
pub mod tools;
