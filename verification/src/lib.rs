//! A proxy between OPDS clients and a Storyteller server. It shows the books that Storyteller
//! offers in the readaloud format, leads the links of its catalogs through itself, and serves the
//! books without audio and media overlays.

pub mod config;
pub mod download;
pub mod download_queue;
pub mod error;
pub mod http;
pub mod laws;
pub mod numbers;
pub mod opds;
pub mod rewriting;
pub mod text;
pub mod web_url;
pub mod xml;
pub mod zip_path;
