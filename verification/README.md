# A minimal RISC-V kernel, verified with Verus

`src/` is the kernel's logic with its proofs:

- `memory/` — the bump allocator and the first-fit free-list allocator of the heap, with the
  rounding of addresses to an alignment;
- `drivers/uart.rs` — the polled NS16550A serial port: sending a message byte by byte, reading a
  received byte, and the line editor behind the shell prompt;
- `arch/interrupts.rs` — what a machine trap is, from `mcause`;
- `time/timer.rs` — when the next timer interrupt is due;
- `utils/parser.rs` — splitting a command line into words and choosing the built-in command;
- `boards.rs` — the addresses and sizes of the QEMU `virt` machine.

The device drivers decide which register access comes next; `app/` performs the accesses,
reads the control and status registers, holds the allocators behind a spin lock and runs the
shell loop.
