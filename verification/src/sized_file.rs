//! Immutable in-memory byte buffers.

use vstd::prelude::*;

verus! {

/// The contents of a file held in memory, together with their length.
pub struct SizedFile {
    bytes: Vec<u8>,
    size: usize,
}

impl View for SizedFile {
    type V = Seq<u8>;

    closed spec fn view(&self) -> Seq<u8> {
        self.bytes@
    }
}

impl Clone for SizedFile {
    /// A copy of the contents.
    fn clone(&self) -> (copy: SizedFile)
        ensures
            copy@ == self@,
    {
        SizedFile::from_bytes(self.bytes.clone())
    }
}

impl SizedFile {
    #[verifier::type_invariant]
    spec fn length_is_cached(self) -> bool {
        self.size == self.bytes@.len()
    }

    /// Wraps a buffer that was read from a file.
    pub fn from_bytes(bytes: Vec<u8>) -> (file: SizedFile)
        ensures
            file@ == bytes@,
    {
        let size: usize = bytes.len();
        SizedFile { bytes, size }
    }

    /// The number of bytes in the buffer.
    pub fn size(&self) -> (size: usize)
        ensures
            size == self@.len(),
    {
        proof {
            use_type_invariant(self);
        }
        self.size
    }

    /// The buffer itself.
    pub fn bytes(&self) -> (bytes: &Vec<u8>)
        ensures
            bytes@ == self@,
    {
        &self.bytes
    }
}

} // verus!
