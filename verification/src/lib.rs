//! Core logic of an HTTP directory browser that serves listings and
//! on-demand tar/zip archives of a directory tree.
//!
//! The modules hold the pure logic: size formatting, HTML/URL encoding,
//! request-path resolution, tar stream encoding and zip building. The
//! surrounding binary does the network and filesystem work and hands
//! plain values in and out.

pub mod encoding;
pub mod listing;
pub mod paths;
pub mod size_format;
pub mod tar;
pub mod zip_build;
