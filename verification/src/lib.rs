//! An append-only Merkle accumulator over the BN254 scalar field, with the
//! byte codecs and registry logic that surround it.
//!
//! The central piece is [`tree::LeanIMTBN254`], an incremental Merkle tree of
//! fixed depth whose root is recomputed along a single leaf-to-root path on
//! every insertion.  Node values are 32-byte big-endian encodings of BN254
//! scalar field elements; the compression function is the host-provided
//! Poseidon2 permutation, reached through the trusted boundary in [`host`].

pub mod host;
pub mod registry;
pub mod tree;
pub mod groth16;
pub mod zk;
