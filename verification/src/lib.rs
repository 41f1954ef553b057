//! A content-addressed media file store: filenames are made safe for every
//! common filesystem, and payloads are stored under names that never hide
//! differing content.
pub mod digest;
pub mod error;
pub mod filename;
pub mod store;
pub mod text;
pub mod unicode;
