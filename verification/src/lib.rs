//! A quiet local reader for the Markdown already in your repositories.
//!
//! The library decides; it does not look at the file system or the network itself. A walk through
//! a directory is handed in step by step and becomes a [`catalog::Catalog`]. Requests are answered
//! from a catalog with the views in [`pages`] and the replies in [`server`], and the links of a
//! page are resolved by [`markdown::LinkResolver`].

pub mod assembly;
pub mod catalog;
pub mod catalog_laws;
pub mod change_laws;
pub mod cli;
pub mod cli_laws;
pub mod discovery;
pub mod discovery_laws;
pub mod link_laws;
pub mod markdown;
pub mod markdown_laws;
pub mod order;
pub mod page_laws;
pub mod pages;
pub mod path_laws;
pub mod paths;
pub mod pathing;
pub mod pathing_laws;
pub mod places;
pub mod places_laws;
pub mod reading;
pub mod reading_laws;
pub mod render_laws;
pub mod rendering;
pub mod reply_laws;
pub mod server;
pub mod server_laws;
pub mod text;
pub mod title_laws;
pub mod titles;
pub mod walk;
pub mod walk_laws;
pub mod watcher;
pub mod watcher_laws;
pub mod word_laws;
