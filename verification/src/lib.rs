pub mod arch;
pub mod boards;
pub mod drivers;
pub mod hal;
pub mod memory;
pub mod time;
pub mod utils;
