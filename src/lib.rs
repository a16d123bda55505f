//! Decryption of S-63 encrypted chart cells: the permit file that grants cell
//! keys to an installation, the engine that decrypts a cell with those keys,
//! and the user permits that bind a hardware id to an installation key.
use vstd::prelude::*;

pub mod decrypter;
pub mod permit;
pub mod primitives;
pub mod text;
pub mod up;
