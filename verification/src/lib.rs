//! A minimal content-addressed version-control backend: blobs stored under
//! the digest of their contents, a staging index from paths to digests, and a
//! linear chain of commit objects.

pub mod add;
pub mod commit;
pub mod digest;
pub mod error;
pub mod file;
pub mod filemap;
pub mod index;
pub mod layout;
pub mod text;
pub mod types;
