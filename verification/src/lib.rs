//! A terminal heatmap of daily activity counts, with a file-backed
//! stale-while-revalidate cache.
//!
//! The crate holds the verified core: the calendar model, the cache store
//! and its serialized file format, the heatmap layout and coloring, and the
//! watch-loop refresh decisions. Terminal painting, networking and process
//! control live outside the library.

pub mod app;
pub mod background;
pub mod cache;
pub mod codec;
pub mod config;
pub mod models;
pub mod ui;
pub mod watch;
