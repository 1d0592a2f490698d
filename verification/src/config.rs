//! Lists of addresses and hostnames as read from a configuration file.
//!
//! The surrounding command-line layer deserializes its configuration into its
//! own copy of this struct and converts; the core only carries the plain
//! values.

use vstd::prelude::*;

verus! {

/// A batch of addresses and hostnames: the caller applies the full Cartesian
/// product of `addresses` and `hostnames` through repeated `add` or `remove`
/// calls on a `Hostfile`.
pub struct Config {
    pub addresses: Vec<String>,
    pub hostnames: Vec<String>,
}

} // verus!
