//! Front door of a content-addressable repository service: validated
//! hierarchical namespaces, request dispatch, and streaming multi-algorithm
//! digests with a canonical text encoding.


pub mod algorithm;
pub mod hashing;
pub mod streams;
pub mod algorithms;
pub mod split;
pub mod base64;
pub mod content_digest;
pub mod name;
pub mod namespace;
pub mod dispatch;

pub use algorithm::Algorithm;
pub use content_digest::{ContentDigest, DigestError};
pub use hashing::Hasher;
pub use streams::{HasherSet, Reader, Writer};
pub use algorithms::Algorithms;
pub use name::{Name, NameError};
pub use namespace::{Namespace, NamespaceError};
pub use dispatch::{dispatch, Component, Dispatch, RoutingTable};
