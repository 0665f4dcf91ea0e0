//! Verified core of a One Pace media-library manager: release filename
//! grammar, magnet and URL encoding, metadata conversion, source selection
//! and the decisions behind the download and generate commands.

pub mod cli;
pub mod dl;
pub mod fs_util;
pub mod generate;
pub mod json;
pub mod download;
pub mod matcher;
pub mod model;
pub mod nfo;
pub mod paths;
pub mod qbittorrent;
pub mod reorder;
pub mod scan;
pub mod source;
pub mod text;
