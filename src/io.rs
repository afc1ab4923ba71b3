//! Byte streams that a device offers to the rest of the kernel.
use vstd::prelude::*;

verus! {

/// A source of bytes.
pub trait Read {
    type Error;

    /// Reads some bytes into `buf`; returns how many.
    fn read(&mut self, buf: &mut [u8]) -> Result<usize, Self::Error>;

    /// Reads until `buf` is full or the source is exhausted; returns how many
    /// bytes were read.
    fn read_all(&mut self, buf: &mut [u8]) -> Result<usize, Self::Error>;
}

/// A sink for bytes.
pub trait Write {
    type Error;

    /// Writes some bytes of `buf`; returns how many.
    fn write(&mut self, buf: &[u8]) -> Result<usize, Self::Error>;
}

} // verus!
