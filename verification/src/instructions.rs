//! The register file: eight 32-bit registers and one operation for each
//! opcode that reads or writes them.

use vstd::prelude::*;
use crate::memory::MemObj;

verus! {

/// The sum of two words, modulo 2^32.
pub open spec fn add_words(x: u32, y: u32) -> u32 {
    ((x + y) % 0x1_0000_0000) as u32
}

/// The product of two words, modulo 2^32.
pub open spec fn mul_words(x: u32, y: u32) -> u32 {
    ((x * y) % 0x1_0000_0000) as u32
}

/// The quotient of two words, rounded down; the divisor is not 0.
pub open spec fn div_words(x: u32, y: u32) -> u32 {
    (x as int / y as int) as u32
}

/// The bitwise complement of the bitwise AND of two words.
pub open spec fn nand_words(x: u32, y: u32) -> u32 {
    !(x & y)
}

/// The word that an input leaves in a register: the byte read, or all ones
/// at the end of the input.
pub open spec fn input_word(byte: Option<u8>) -> u32 {
    match byte {
        Some(b) => b as u32,
        None => 0xffff_ffffu32,
    }
}

/// The eight general-purpose registers.
pub struct Register {
    registers: [u32; 8],
}

impl View for Register {
    type V = Seq<u32>;

    closed spec fn view(&self) -> Seq<u32> {
        self.registers@
    }
}

impl Register {
    /// A register file always has eight registers.
    pub proof fn lemma_eight(&self)
        ensures
            self@.len() == 8,
    {
    }

    /// A register file that holds `registers`.
    pub fn new(registers: [u32; 8]) -> (r: Register)
        ensures
            r@ == registers@,
    {
        Register { registers }
    }

    /// The word in register `index`.
    pub fn get(&self, index: u8) -> (word: u32)
        requires
            index < 8,
        ensures
            word == self@[index as int],
    {
        self.registers[index as usize]
    }

    /// Copies register `rb` to register `ra` unless register `rc` holds 0.
    pub fn conditional_move(&mut self, ra: u8, rb: u8, rc: u8)
        requires
            ra < 8,
            rb < 8,
            rc < 8,
        ensures
            final(self)@ == if old(self)@[rc as int] != 0 {
                old(self)@.update(ra as int, old(self)@[rb as int])
            } else {
                old(self)@
            },
    {
        if self.registers[rc as usize] != 0 {
            self.registers[ra as usize] = self.registers[rb as usize];
        }
    }

    /// Loads into register `ra` the word of `memory` at the segment named by
    /// register `rb` and the offset named by register `rc`.
    pub fn seg_load(&mut self, ra: u8, rb: u8, rc: u8, memory: &MemObj)
        requires
            ra < 8,
            rb < 8,
            rc < 8,
            memory@.has_word(old(self)@[rb as int] as int, old(self)@[rc as int] as int),
        ensures
            final(self)@ == old(self)@.update(
                ra as int,
                memory@.word(old(self)@[rb as int] as int, old(self)@[rc as int] as int),
            ),
    {
        self.registers[ra as usize] = memory.get_word(
            self.registers[rb as usize] as usize,
            self.registers[rc as usize] as usize,
        );
    }

    /// Stores register `rc` into `memory` at the segment named by register
    /// `ra` and the offset named by register `rb`.
    pub fn seg_store(&self, ra: u8, rb: u8, rc: u8, memory: &mut MemObj)
        requires
            ra < 8,
            rb < 8,
            rc < 8,
            old(memory).wf(),
            old(memory)@.has_word(self@[ra as int] as int, self@[rb as int] as int),
        ensures
            final(memory).wf(),
            final(memory)@ == old(memory)@.store(
                self@[ra as int] as int,
                self@[rb as int] as int,
                self@[rc as int],
            ),
    {
        *memory.get_ref(self.registers[ra as usize], self.registers[rb as usize]) =
            self.registers[rc as usize];
    }

    /// Sets register `ra` to the sum of registers `rb` and `rc`, modulo 2^32.
    pub fn add(&mut self, ra: u8, rb: u8, rc: u8)
        requires
            ra < 8,
            rb < 8,
            rc < 8,
        ensures
            final(self)@ == old(self)@.update(
                ra as int,
                add_words(old(self)@[rb as int], old(self)@[rc as int]),
            ),
    {
        self.registers[ra as usize] = self.registers[rb as usize].wrapping_add(
            self.registers[rc as usize],
        );
    }

    /// Sets register `ra` to the product of registers `rb` and `rc`, modulo
    /// 2^32.
    pub fn mult(&mut self, ra: u8, rb: u8, rc: u8)
        requires
            ra < 8,
            rb < 8,
            rc < 8,
        ensures
            final(self)@ == old(self)@.update(
                ra as int,
                mul_words(old(self)@[rb as int], old(self)@[rc as int]),
            ),
    {
        self.registers[ra as usize] = self.registers[rb as usize].wrapping_mul(
            self.registers[rc as usize],
        );
    }

    /// Sets register `ra` to the quotient of register `rb` by register `rc`,
    /// which must not hold 0.
    pub fn div(&mut self, ra: u8, rb: u8, rc: u8)
        requires
            ra < 8,
            rb < 8,
            rc < 8,
            old(self)@[rc as int] != 0,
        ensures
            final(self)@ == old(self)@.update(
                ra as int,
                div_words(old(self)@[rb as int], old(self)@[rc as int]),
            ),
    {
        self.registers[ra as usize] = self.registers[rb as usize] / self.registers[rc as usize];
    }

    /// Sets register `ra` to the bitwise NAND of registers `rb` and `rc`.
    pub fn nand(&mut self, ra: u8, rb: u8, rc: u8)
        requires
            ra < 8,
            rb < 8,
            rc < 8,
        ensures
            final(self)@ == old(self)@.update(
                ra as int,
                nand_words(old(self)@[rb as int], old(self)@[rc as int]),
            ),
    {
        self.registers[ra as usize] = !(self.registers[rb as usize] & self.registers[rc as usize]);
    }

    /// Maps a segment of as many zero words as register `rc` says and puts
    /// its index into register `rb`.
    pub fn map_segment(&mut self, rb: u8, rc: u8, memory: &mut MemObj)
        requires
            rb < 8,
            rc < 8,
            old(memory).wf(),
            old(memory)@.can_allocate(),
        ensures
            final(memory).wf(),
            final(memory)@ == old(memory)@.allocate(old(self)@[rc as int] as nat),
            final(self)@ == old(self)@.update(rb as int, final(self)@[rb as int]),
            final(self)@[rb as int] == old(memory)@.next_index(),
    {
        proof {
            crate::memory::lemma_allocate(memory@, self@[rc as int] as nat);
        }
        self.registers[rb as usize] = memory.malloc(self.registers[rc as usize]);
    }

    /// Unmaps the segment named by register `rc`, which must be mapped and
    /// not segment 0.
    pub fn unmap_segment(&self, rc: u8, memory: &mut MemObj)
        requires
            rc < 8,
            old(memory).wf(),
            old(memory)@.is_mapped(self@[rc as int] as int),
            self@[rc as int] != 0,
        ensures
            final(memory).wf(),
            final(memory)@ == old(memory)@.release(self@[rc as int]),
    {
        memory.free(self.registers[rc as usize]);
    }

    /// The byte that an output of register `rc` emits: the register's
    /// value, if it is at most 255; a larger value cannot be emitted.
    pub fn output(&self, rc: u8) -> (byte: Option<u8>)
        requires
            rc < 8,
        ensures
            byte is Some <==> self@[rc as int] <= 255,
            byte matches Some(b) ==> b == self@[rc as int],
    {
        let word = self.registers[rc as usize];
        if word > 255 {
            None
        } else {
            Some(word as u8)
        }
    }

    /// Puts into register `rc` what an input read: the byte, or all ones at
    /// the end of the input.
    pub fn input(&mut self, rc: u8, byte: Option<u8>)
        requires
            rc < 8,
        ensures
            final(self)@ == old(self)@.update(rc as int, input_word(byte)),
    {
        self.registers[rc as usize] = match byte {
            Some(b) => b as u32,
            None => u32::MAX,
        };
    }

    /// Unless register `rb` holds 0, replaces segment 0 by a copy of the
    /// segment that it names, which must be mapped. Returns the new program
    /// counter, the value of register `rc`.
    pub fn load_program(&self, rb: u8, rc: u8, memory: &mut MemObj) -> (counter: usize)
        requires
            rb < 8,
            rc < 8,
            old(memory).wf(),
            self@[rb as int] != 0 ==> old(memory)@.is_mapped(self@[rb as int] as int),
        ensures
            final(memory).wf(),
            final(memory)@ == if self@[rb as int] != 0 {
                old(memory)@.duplicate_into_zero(self@[rb as int] as int)
            } else {
                old(memory)@
            },
            counter == self@[rc as int],
    {
        if self.registers[rb as usize] != 0 {
            memory.load_program(self.registers[rb as usize]);
        }
        return self.registers[rc as usize] as usize;
    }

    /// Sets register `ra` to `value`.
    pub fn load_value(&mut self, ra: u8, value: u32)
        requires
            ra < 8,
        ensures
            final(self)@ == old(self)@.update(ra as int, value),
    {
        self.registers[ra as usize] = value;
    }
}

} // verus!
