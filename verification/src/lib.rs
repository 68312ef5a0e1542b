//! A cache-and-build coordinator for Python source distributions.
//!
//! Given a reference to a source distribution (from a registry, a direct
//! archive URL, a Git repository, or a local path), the coordinator decides
//! how to fetch it, where its built wheels live in a content-addressed cache,
//! whether a cached wheel is compatible with the target tag set, and what to
//! persist after a build. All of those decisions and data transformations are
//! verified here; the surrounding I/O (HTTP, Git, the build backend, the
//! filesystem) is performed by a driver through capability interfaces.

pub mod text;
pub mod filename;
pub mod metadata;
pub mod codec;
pub mod cache;
pub mod source;
pub mod coordinator;
