//! A small content-addressed object store in the style of a version-control
//! system: blobs, trees and commits, framed, hashed and compressed.

pub mod hex;
pub mod object;
pub mod id;
pub mod codec;
pub mod tree;
pub mod commit;
pub mod store;
