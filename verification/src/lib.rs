//! An emulator core for a 32-bit register machine with segmented memory:
//! a bit-field codec, a segment store, the register file with one operation
//! per opcode, and the fetch-decode-dispatch cycle that binds them.

pub mod arith;
pub mod bitpack;
pub mod memory;
pub mod instructions;
pub mod machine;
pub mod loader;
