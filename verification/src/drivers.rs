pub mod uart;
