//! A codec for the binary form of a compiled class: it decodes a byte
//! sequence into a structured, immutable class model and re-encodes that
//! model to bytes, round-tripping exactly even for attribute kinds it does
//! not recognize.
pub mod classfile;
pub mod encoding;
pub mod io;
