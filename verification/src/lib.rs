//! A virtual drive that mirrors configured folders and strips metadata from
//! files as they are read: the verified core of the filesystem, its
//! configuration and its path rules.

pub mod cli;
pub mod config;
pub mod daemon;
pub mod fs;
pub mod pathname;
pub mod paths;
pub mod stripper;
pub mod text;
