//! A segmented HTTP downloader's decisions, verified.
//!
//! A download asks the server once, learns from the response whether the
//! resource can be fetched in byte ranges, and then either fetches the
//! ranges of a plan over several connections and puts the chunks together
//! as they arrive, or copies the resource as one stream. This library holds
//! every decision on that way; sending requests, running threads and
//! writing the file are left to its caller.
//!
//! - [`config`]: the settings of a download and their builder.
//! - [`probe`]: what the first response says of the resource.
//! - [`planner`]: the split of a resource into byte ranges.
//! - [`fetch`]: the progress of one worker through its range.
//! - [`assembler`]: the file put together from chunks in any order.
//! - [`fallback`]: the copy of a resource as one stream.
//! - [`filename`]: the name of the output file.
//! - [`downloader`]: the engine that decides between ranges and stream.
//! - [`error`]: the ways a download can fail.
//! - [`range`], [`text`]: byte ranges and character-level helpers.

pub mod assembler;
pub mod config;
pub mod downloader;
pub mod error;
pub mod fallback;
pub mod fetch;
pub mod filename;
pub mod planner;
pub mod probe;
pub mod range;
pub mod text;

pub use crate::config::{Config, ConfigBuilder};
pub use crate::downloader::Downloader;
