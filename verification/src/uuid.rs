//! The identifier of an archive.
use vstd::prelude::*;

verus! {

/// A unique id, as an archive's header stores it.
#[derive(Debug, Clone, Copy, PartialEq, Eq, Hash)]
pub struct Uuid {
    bytes: [u8; 16],
}

impl View for Uuid {
    type V = Seq<u8>;

    closed spec fn view(&self) -> Seq<u8> {
        self.bytes@
    }
}

impl Uuid {
    pub fn new(bytes: [u8; 16]) -> (uuid: Uuid)
        ensures
            uuid@ == bytes@,
    {
        Uuid { bytes }
    }

    /// The bytes of the id, in the order they are stored.
    pub fn as_bytes(&self) -> (bytes: &[u8; 16])
        ensures
            bytes@ == self@,
    {
        &self.bytes
    }
}

} // verus!
