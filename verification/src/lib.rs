//! A local secret store.
//!
//! Logical, human-chosen paths such as `alice/email` are mapped to opaque,
//! randomly generated filenames, so that a directory listing reveals nothing
//! about which secrets are stored. Payloads are encrypted and authenticated
//! under a single long-lived symmetric key before they reach the disk.
//!
//! This crate holds the verified core: the path index, the byte encodings of
//! the index, the key and the secret files, the key lifecycle with
//! authenticated encryption, and the tag-map payload model. All file and
//! terminal I/O lives outside, in the surrounding binary.

pub mod assoc;
pub mod codec;
pub mod mapper;
pub mod repository;
pub mod entry;
pub mod errors;
pub mod keystore;
