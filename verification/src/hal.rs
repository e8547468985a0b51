pub mod mmio;
