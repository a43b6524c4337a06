//! A hasher which just proxies for the `u64` it is given. Used by caches
//! that pre-hash their keys, where mixing the digest a second time in the
//! storage map would buy nothing.

use std::hash::{BuildHasher, Hasher};
use vstd::prelude::*;

verus! {

/// Proxies a key's own 64 bits for themselves instead of mixing them.
pub struct NullHasher(pub u64);

impl Hasher for NullHasher {
    /// Reads back the eight bytes that `Hasher::write_u64` produced for the
    /// key. Writes of any other width leave the state alone.
    ///
    /// Relies on `u64::from_ne_bytes` to undo the byte split the standard
    /// library's `write_u64` performed. The integer an eight-byte write
    /// leaves behind follows the machine's own byte order, so no contract
    /// names it; what the contract does say is that nothing else changes
    /// the state.
    #[verifier::external_body]
    fn write(&mut self, bytes: &[u8])
        ensures
            bytes@.len() != 8 ==> final(self).0 == old(self).0,
    {
        if let Ok(arr) = bytes.try_into() {
            self.0 = u64::from_ne_bytes(arr);
        }
    }

    /// Hands the current state back unmixed.
    fn finish(&self) -> (r: u64)
        ensures
            r == self.0,
    {
        self.0
    }
}

/// Builds new `NullHasher`s on demand.
pub struct BuildNullHasher;

impl BuildHasher for BuildNullHasher {
    type Hasher = NullHasher;

    /// A fresh hasher starts from state zero.
    fn build_hasher(&self) -> (h: NullHasher)
        ensures
            h.0 == 0,
    {
        NullHasher(0)
    }
}

} // verus!
