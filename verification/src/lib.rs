//! License-aware package registry: identities, lock parsing, rewrite
//! resolution, license classification and dependency-tree rendering.

pub mod documentation;
pub mod graph;
pub mod package;
pub mod package_closure;
pub mod package_registry;
pub mod packages_downloader;
pub mod scan;
pub mod text;
pub mod util;
