//! A resolution and reconciliation engine for directory-shaped agent skills.
//!
//! The engine works on snapshots of directory trees and on plain strings. It
//! parses remote addresses, discovers groups and skills in a source library,
//! classifies what a target directory holds, and computes the state that an
//! install, an uninstall or an update leaves behind.

pub mod command;
pub mod copy;
pub mod error;
pub mod installed;
pub mod library;
pub mod listing;
pub mod manifest;
pub mod paths;
pub mod reconcile;
pub mod remote;
pub mod selector;
pub mod text;
pub mod tree;
pub mod uninstall;
pub mod update;
