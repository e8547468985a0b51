use vstd::prelude::*;

verus! {

/// One access to a memory-mapped device register, one byte wide.
#[derive(PartialEq, Eq, Structural, Clone, Copy, Debug)]
pub enum Access {
    /// Read the byte at `addr`.
    Read { addr: usize },
    /// Write `value` to the byte at `addr`.
    Write { addr: usize, value: u8 },
}

} // verus!
