//! In-memory model of a hosts file: a mapping from address to a set of
//! hostnames, parsed from text, mutated by adding or removing associations,
//! and rendered back to canonical text.
//!
//! [`hostfile`] holds the executable `Hostfile` and its operations; their
//! contracts are stated over the map model of [`model`], which in turn rests
//! on the character-level text theory of [`text`].

pub mod config;
pub mod hostfile;
pub mod model;
pub mod text;
