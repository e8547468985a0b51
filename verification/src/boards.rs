use vstd::prelude::*;

verus! {

/// Base address of the UART (an NS16550A) on the QEMU `virt` machine.
pub const UART_BASE: usize = 0x1000_0000;

/// Address of the machine timer compare register.
pub const MTIMECMP: usize = 0x0200_4000;

/// Address of the machine timer register.
pub const MTIME: usize = 0x0200_BFF8;

/// Frequency of the machine timer, in ticks per second.
pub const CLOCK_FREQ: u64 = 10_000_000;

/// Size of the heap (1 MiB).
pub const HEAP_SIZE: usize = 0x100000;

} // verus!
