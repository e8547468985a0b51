pub mod interrupts;
