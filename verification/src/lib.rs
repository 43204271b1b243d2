//! A minimal content-addressed version-control core: an object store for
//! immutable blobs, trees and commits, a staging index, a commit graph with
//! named references, and a repository facade composing the three.

pub mod error;
pub mod index;
pub mod object;
pub mod oid;
pub mod refs;
pub mod repo;
pub mod store;
pub mod tree;

pub use crate::error::Error;
