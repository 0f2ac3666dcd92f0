//! The machine: instruction decoding and the fetch-decode-dispatch cycle over
//! the register file and the segment store.
//!
//! One call of [`Machine::step`] runs one cycle and tells its caller what to
//! do next: go on, emit a byte, read a byte, or stop. The caller owns the
//! byte streams; [`Machine::run`] is the same loop over an input held in
//! memory.

use vstd::prelude::*;
use vstd::arithmetic::power2::lemma2_to64;
use crate::bitpack::{field_unsigned, getu, lemma_field_bound};
use crate::instructions::{add_words, div_words, input_word, mul_words, nand_words, Register};
use crate::memory::{lemma_allocate, lemma_release, lemma_same_shape, MemObj, MemState};

verus! {

/// A decoded instruction, with the operands that its opcode uses.
#[derive(Clone, Copy, Debug, PartialEq, Eq)]
pub enum Instruction {
    /// Opcode 0: copy register `b` to register `a` unless register `c` is 0.
    ConditionalMove { a: u8, b: u8, c: u8 },
    /// Opcode 1: load into register `a` the word at segment `b`, offset `c`.
    SegLoad { a: u8, b: u8, c: u8 },
    /// Opcode 2: store register `c` at segment `a`, offset `b`.
    SegStore { a: u8, b: u8, c: u8 },
    /// Opcode 3: register `a` becomes the sum of registers `b` and `c`.
    Add { a: u8, b: u8, c: u8 },
    /// Opcode 4: register `a` becomes the product of registers `b` and `c`.
    Mult { a: u8, b: u8, c: u8 },
    /// Opcode 5: register `a` becomes the quotient of register `b` by `c`.
    Div { a: u8, b: u8, c: u8 },
    /// Opcode 6: register `a` becomes the NAND of registers `b` and `c`.
    Nand { a: u8, b: u8, c: u8 },
    /// Opcode 7: stop the machine.
    Halt,
    /// Opcode 8: map a segment of register `c` words; its index goes to `b`.
    MapSegment { b: u8, c: u8 },
    /// Opcode 9: unmap the segment named by register `c`.
    UnmapSegment { c: u8 },
    /// Opcode 10: emit register `c` as one byte.
    Output { c: u8 },
    /// Opcode 11: read one byte into register `c`.
    Input { c: u8 },
    /// Opcode 12: load the segment named by register `b` as the program and
    /// jump to the offset in register `c`.
    LoadProgram { b: u8, c: u8 },
    /// Opcode 13: register `a` becomes the 25-bit `value`.
    LoadValue { a: u8, value: u32 },
}

impl Instruction {
    /// Whether every register operand is one of the eight registers, and an
    /// immediate value has at most 25 bits.
    pub open spec fn wf(self) -> bool {
        match self {
            Instruction::ConditionalMove { a, b, c } => a < 8 && b < 8 && c < 8,
            Instruction::SegLoad { a, b, c } => a < 8 && b < 8 && c < 8,
            Instruction::SegStore { a, b, c } => a < 8 && b < 8 && c < 8,
            Instruction::Add { a, b, c } => a < 8 && b < 8 && c < 8,
            Instruction::Mult { a, b, c } => a < 8 && b < 8 && c < 8,
            Instruction::Div { a, b, c } => a < 8 && b < 8 && c < 8,
            Instruction::Nand { a, b, c } => a < 8 && b < 8 && c < 8,
            Instruction::Halt => true,
            Instruction::MapSegment { b, c } => b < 8 && c < 8,
            Instruction::UnmapSegment { c } => c < 8,
            Instruction::Output { c } => c < 8,
            Instruction::Input { c } => c < 8,
            Instruction::LoadProgram { b, c } => b < 8 && c < 8,
            Instruction::LoadValue { a, value } => a < 8 && value < 0x200_0000,
        }
    }
}

/// The opcode of an instruction word: its bits 31 to 28.
pub open spec fn opcode_of(word: u32) -> nat {
    field_unsigned(word as nat, 4, 28)
}

/// The instruction that `word` encodes, if its opcode is one of the fourteen
/// that are defined. Opcode 13 keeps its register in bits 27 to 25 and its
/// value in bits 24 to 0; every other opcode keeps registers A, B and C in
/// bits 8 to 6, 5 to 3 and 2 to 0.
pub open spec fn decode_spec(word: u32) -> Option<Instruction> {
    let w = word as nat;
    let a = field_unsigned(w, 3, 6) as u8;
    let b = field_unsigned(w, 3, 3) as u8;
    let c = field_unsigned(w, 3, 0) as u8;
    let op = opcode_of(word);
    if op == 0 {
        Some(Instruction::ConditionalMove { a, b, c })
    } else if op == 1 {
        Some(Instruction::SegLoad { a, b, c })
    } else if op == 2 {
        Some(Instruction::SegStore { a, b, c })
    } else if op == 3 {
        Some(Instruction::Add { a, b, c })
    } else if op == 4 {
        Some(Instruction::Mult { a, b, c })
    } else if op == 5 {
        Some(Instruction::Div { a, b, c })
    } else if op == 6 {
        Some(Instruction::Nand { a, b, c })
    } else if op == 7 {
        Some(Instruction::Halt)
    } else if op == 8 {
        Some(Instruction::MapSegment { b, c })
    } else if op == 9 {
        Some(Instruction::UnmapSegment { c })
    } else if op == 10 {
        Some(Instruction::Output { c })
    } else if op == 11 {
        Some(Instruction::Input { c })
    } else if op == 12 {
        Some(Instruction::LoadProgram { b, c })
    } else if op == 13 {
        Some(
            Instruction::LoadValue {
                a: field_unsigned(w, 3, 25) as u8,
                value: field_unsigned(w, 25, 0) as u32,
            },
        )
    } else {
        None
    }
}

/// Every instruction that decoding gives names registers below 8 and an
/// immediate value below 2^25.
pub proof fn lemma_decode_wf(word: u32)
    ensures
        decode_spec(word) matches Some(ins) ==> ins.wf(),
{
    lemma2_to64();
    lemma_field_bound(word as nat, 3, 6);
    lemma_field_bound(word as nat, 3, 3);
    lemma_field_bound(word as nat, 3, 0);
    lemma_field_bound(word as nat, 3, 25);
    lemma_field_bound(word as nat, 25, 0);
}

/// Reads one field of an instruction word.
fn field(word: u32, width: u64, lsb: u64) -> (value: u32)
    requires
        lsb + width <= 32,
    ensures
        value == field_unsigned(word as nat, width as nat, lsb as nat),
{
    proof {
        lemma_field_bound(word as nat, width as nat, lsb as nat);
    }
    getu(word as u64, width, lsb).unwrap() as u32
}

/// Decodes an instruction word. Opcodes 14 and 15 encode no instruction.
pub fn decode(word: u32) -> (r: Option<Instruction>)
    ensures
        r == decode_spec(word),
        r is None <==> opcode_of(word) > 13,
        r matches Some(ins) ==> ins.wf(),
{
    proof {
        lemma_decode_wf(word);
        lemma2_to64();
        lemma_field_bound(word as nat, 3, 6);
        lemma_field_bound(word as nat, 3, 3);
        lemma_field_bound(word as nat, 3, 0);
        lemma_field_bound(word as nat, 3, 25);
        lemma_field_bound(word as nat, 4, 28);
    }
    let a = field(word, 3, 6) as u8;
    let b = field(word, 3, 3) as u8;
    let c = field(word, 3, 0) as u8;
    let op = field(word, 4, 28);
    match op {
        0 => Some(Instruction::ConditionalMove { a, b, c }),
        1 => Some(Instruction::SegLoad { a, b, c }),
        2 => Some(Instruction::SegStore { a, b, c }),
        3 => Some(Instruction::Add { a, b, c }),
        4 => Some(Instruction::Mult { a, b, c }),
        5 => Some(Instruction::Div { a, b, c }),
        6 => Some(Instruction::Nand { a, b, c }),
        7 => Some(Instruction::Halt),
        8 => Some(Instruction::MapSegment { b, c }),
        9 => Some(Instruction::UnmapSegment { c }),
        10 => Some(Instruction::Output { c }),
        11 => Some(Instruction::Input { c }),
        12 => Some(Instruction::LoadProgram { b, c }),
        13 => Some(
            Instruction::LoadValue { a: field(word, 3, 25) as u8, value: field(word, 25, 0) },
        ),
        _ => None,
    }
}

/// Why a machine stopped abruptly.
#[derive(Clone, Copy, Debug, PartialEq, Eq)]
pub enum Fault {
    /// A fetch, load or store outside a mapped segment, an unmapping of
    /// segment 0 or of an index that is not mapped, or a program load from an
    /// index that is not mapped.
    MemoryAccess,
    /// A division by a register that holds 0.
    DivisionByZero,
    /// An output of a value above 255.
    OutputRange,
    /// A mapping when every 32-bit index is in use.
    OutOfSegments,
}

/// What one cycle asks of the machine's caller.
#[derive(Clone, Copy, Debug, PartialEq, Eq)]
pub enum Action {
    /// Nothing: run the next cycle.
    Continue,
    /// Emit this byte, then run the next cycle.
    Output(u8),
    /// Read one byte, hand it to `supply_input` for this register, then run
    /// the next cycle.
    Input(u8),
    /// The program halted: stop, cleanly.
    Halt,
    /// The word fetched encodes no instruction: report it and stop.
    Invalid,
    /// The instruction could not be carried out: stop.
    Fault(Fault),
}

/// The mathematical state of a machine.
#[verifier::ext_equal]
pub struct MachineState {
    /// The eight registers.
    pub regs: Seq<u32>,
    /// The segment store.
    pub mem: MemState,
    /// The program counter: the offset in segment 0 of the next instruction.
    pub pc: nat,
}

impl MachineState {
    /// The invariant of a machine: eight registers and a well-formed store.
    pub open spec fn wf(self) -> bool {
        self.regs.len() == 8 && self.mem.wf()
    }

    /// The state in which a machine starts `program`: all registers 0, the
    /// program in segment 0, nothing else mapped, the counter at 0.
    pub open spec fn initial(program: Seq<u32>) -> MachineState {
        MachineState {
            regs: Seq::new(8, |i: int| 0u32),
            mem: MemState { segments: seq![program], free: Seq::empty() },
            pc: 0,
        }
    }

    /// This state with `value` in register `r`.
    pub open spec fn with_reg(self, r: u8, value: u32) -> MachineState {
        MachineState { regs: self.regs.update(r as int, value), ..self }
    }

    /// This state with the store `mem`.
    pub open spec fn with_mem(self, mem: MemState) -> MachineState {
        MachineState { mem, ..self }
    }

    /// This state after the byte that an input read, or the end of the
    /// input, has been handed to register `r`.
    pub open spec fn supply_input(self, r: u8, byte: Option<u8>) -> MachineState {
        self.with_reg(r, input_word(byte))
    }

    /// What `ins` does to this state, whose counter already points past the
    /// instruction, and what it asks of the caller. An instruction that
    /// faults changes nothing.
    pub open spec fn execute(self, ins: Instruction) -> (MachineState, Action) {
        let regs = self.regs;
        let mem = self.mem;
        match ins {
            Instruction::ConditionalMove { a, b, c } => (
                if regs[c as int] != 0 {
                    self.with_reg(a, regs[b as int])
                } else {
                    self
                },
                Action::Continue,
            ),
            Instruction::SegLoad { a, b, c } => if mem.has_word(
                regs[b as int] as int,
                regs[c as int] as int,
            ) {
                (
                    self.with_reg(a, mem.word(regs[b as int] as int, regs[c as int] as int)),
                    Action::Continue,
                )
            } else {
                (self, Action::Fault(Fault::MemoryAccess))
            },
            Instruction::SegStore { a, b, c } => if mem.has_word(
                regs[a as int] as int,
                regs[b as int] as int,
            ) {
                (
                    self.with_mem(
                        mem.store(regs[a as int] as int, regs[b as int] as int, regs[c as int]),
                    ),
                    Action::Continue,
                )
            } else {
                (self, Action::Fault(Fault::MemoryAccess))
            },
            Instruction::Add { a, b, c } => (
                self.with_reg(a, add_words(regs[b as int], regs[c as int])),
                Action::Continue,
            ),
            Instruction::Mult { a, b, c } => (
                self.with_reg(a, mul_words(regs[b as int], regs[c as int])),
                Action::Continue,
            ),
            Instruction::Div { a, b, c } => if regs[c as int] != 0 {
                (self.with_reg(a, div_words(regs[b as int], regs[c as int])), Action::Continue)
            } else {
                (self, Action::Fault(Fault::DivisionByZero))
            },
            Instruction::Nand { a, b, c } => (
                self.with_reg(a, nand_words(regs[b as int], regs[c as int])),
                Action::Continue,
            ),
            Instruction::Halt => (self, Action::Halt),
            Instruction::MapSegment { b, c } => if mem.can_allocate() {
                (
                    MachineState {
                        regs: regs.update(b as int, mem.next_index() as u32),
                        mem: mem.allocate(regs[c as int] as nat),
                        pc: self.pc,
                    },
                    Action::Continue,
                )
            } else {
                (self, Action::Fault(Fault::OutOfSegments))
            },
            Instruction::UnmapSegment { c } => if regs[c as int] != 0 && mem.is_mapped(
                regs[c as int] as int,
            ) {
                (self.with_mem(mem.release(regs[c as int])), Action::Continue)
            } else {
                (self, Action::Fault(Fault::MemoryAccess))
            },
            Instruction::Output { c } => if regs[c as int] <= 255 {
                (self, Action::Output(regs[c as int] as u8))
            } else {
                (self, Action::Fault(Fault::OutputRange))
            },
            Instruction::Input { c } => (self, Action::Input(c)),
            Instruction::LoadProgram { b, c } => if regs[b as int] == 0 {
                (MachineState { pc: regs[c as int] as nat, ..self }, Action::Continue)
            } else if mem.is_mapped(regs[b as int] as int) {
                (
                    MachineState {
                        regs,
                        mem: mem.duplicate_into_zero(regs[b as int] as int),
                        pc: regs[c as int] as nat,
                    },
                    Action::Continue,
                )
            } else {
                (self, Action::Fault(Fault::MemoryAccess))
            },
            Instruction::LoadValue { a, value } => (self.with_reg(a, value), Action::Continue),
        }
    }

    /// One cycle: fetch the word at the counter in segment 0, advance the
    /// counter, decode, execute. A counter outside segment 0 is a fault that
    /// changes nothing; a word that encodes no instruction leaves only the
    /// counter advanced.
    pub open spec fn step(self) -> (MachineState, Action) {
        if !self.mem.has_word(0, self.pc as int) {
            (self, Action::Fault(Fault::MemoryAccess))
        } else {
            let next = MachineState { pc: self.pc + 1, ..self };
            match decode_spec(self.mem.word(0, self.pc as int)) {
                Some(ins) => next.execute(ins),
                None => (next, Action::Invalid),
            }
        }
    }
}

/// Executing a well-formed instruction in a well-formed state leaves a
/// well-formed state.
pub proof fn lemma_execute_wf(s: MachineState, ins: Instruction)
    requires
        s.wf(),
        ins.wf(),
    ensures
        s.execute(ins).0.wf(),
{
    match ins {
        Instruction::SegStore { a, b, c } => {
            let t = s.mem.store(s.regs[a as int] as int, s.regs[b as int] as int, s.regs[c as int]);
            if s.mem.has_word(s.regs[a as int] as int, s.regs[b as int] as int) {
                lemma_same_shape(s.mem, t);
            }
        },
        Instruction::MapSegment { b, c } => {
            if s.mem.can_allocate() {
                lemma_allocate(s.mem, s.regs[c as int] as nat);
            }
        },
        Instruction::UnmapSegment { c } => {
            if s.regs[c as int] != 0 && s.mem.is_mapped(s.regs[c as int] as int) {
                lemma_release(s.mem, s.regs[c as int]);
            }
        },
        Instruction::LoadProgram { b, c } => {
            if s.regs[b as int] != 0 && s.mem.is_mapped(s.regs[b as int] as int) {
                lemma_same_shape(s.mem, s.mem.duplicate_into_zero(s.regs[b as int] as int));
            }
        },
        _ => {},
    }
}

/// A cycle keeps the machine's invariant, and an input that it asks for is
/// for one of the eight registers.
pub proof fn lemma_step_wf(s: MachineState)
    requires
        s.wf(),
    ensures
        s.step().0.wf(),
        s.step().1 matches Action::Input(r) ==> r < 8,
{
    if s.mem.has_word(0, s.pc as int) {
        let word = s.mem.word(0, s.pc as int);
        lemma_decode_wf(word);
        if let Some(ins) = decode_spec(word) {
            lemma_execute_wf(MachineState { pc: s.pc + 1, ..s }, ins);
        }
    }
}

/// How a run ended.
#[derive(Clone, Copy, Debug, PartialEq, Eq)]
pub enum Exit {
    /// The program halted.
    Halted,
    /// A word that encodes no instruction was fetched.
    Invalid,
    /// An instruction could not be carried out.
    Fault(Fault),
    /// The cycles granted to the run were used up.
    OutOfCycles,
}

/// What a run leaves behind, apart from the machine's state.
#[derive(Clone, Debug, PartialEq, Eq)]
pub struct Outcome {
    /// The bytes emitted, in order.
    pub output: Vec<u8>,
    /// How many bytes of the input were read.
    pub consumed: usize,
    /// How the run ended.
    pub exit: Exit,
}

/// The mathematical result of a run.
#[verifier::ext_equal]
pub struct RunState {
    /// The machine's state at the end.
    pub machine: MachineState,
    /// The bytes emitted, in order.
    pub output: Seq<u8>,
    /// How many bytes of the input were read.
    pub consumed: nat,
    /// How the run ended.
    pub exit: Exit,
}

/// Runs up to `cycles` cycles from state `s`, with `consumed` bytes of
/// `input` already read and `output` already emitted. Each cycle is one
/// `step`; a byte emitted joins the output; an input takes the next byte of
/// `input`, or the end-of-input word when none is left; a halt, an invalid
/// word or a fault ends the run at once.
pub open spec fn run_spec(
    s: MachineState,
    input: Seq<u8>,
    consumed: nat,
    output: Seq<u8>,
    cycles: nat,
) -> RunState
    decreases cycles,
{
    if cycles == 0 {
        RunState { machine: s, output, consumed, exit: Exit::OutOfCycles }
    } else {
        let (next, action) = s.step();
        let rest = (cycles - 1) as nat;
        match action {
            Action::Continue => run_spec(next, input, consumed, output, rest),
            Action::Output(byte) => run_spec(next, input, consumed, output.push(byte), rest),
            Action::Input(r) => if consumed < input.len() {
                run_spec(
                    next.supply_input(r, Some(input[consumed as int])),
                    input,
                    consumed + 1,
                    output,
                    rest,
                )
            } else {
                run_spec(next.supply_input(r, None), input, consumed, output, rest)
            },
            Action::Halt => RunState { machine: next, output, consumed, exit: Exit::Halted },
            Action::Invalid => RunState { machine: next, output, consumed, exit: Exit::Invalid },
            Action::Fault(fault) => RunState {
                machine: next,
                output,
                consumed,
                exit: Exit::Fault(fault),
            },
        }
    }
}

/// A run ends at the first cycle that halts, fetches a word that encodes no
/// instruction, or faults: whatever cycles are left, the state is the one
/// that this cycle left, and nothing more is emitted or read.
pub proof fn lemma_run_ends_at_stop(
    s: MachineState,
    input: Seq<u8>,
    consumed: nat,
    output: Seq<u8>,
    cycles: nat,
)
    requires
        cycles > 0,
        s.step().1 is Halt || s.step().1 is Invalid || s.step().1 is Fault,
    ensures
        run_spec(s, input, consumed, output, cycles).machine == s.step().0,
        run_spec(s, input, consumed, output, cycles).output == output,
        run_spec(s, input, consumed, output, cycles).consumed == consumed,
        run_spec(s, input, consumed, output, cycles).exit == match s.step().1 {
            Action::Halt => Exit::Halted,
            Action::Invalid => Exit::Invalid,
            Action::Fault(fault) => Exit::Fault(fault),
            _ => Exit::OutOfCycles,
        },
{
}

/// A division by a register that holds 0 ends the run with a fault: where
/// the word at the counter encodes a division whose divisor register holds 0,
/// the run ends in that cycle with the division fault; the counter has moved
/// past the instruction and nothing else has changed.
pub proof fn lemma_division_by_zero_ends_run(
    s: MachineState,
    input: Seq<u8>,
    consumed: nat,
    output: Seq<u8>,
    cycles: nat,
)
    requires
        cycles > 0,
        s.mem.has_word(0, s.pc as int),
        decode_spec(s.mem.word(0, s.pc as int)) matches Some(Instruction::Div { a, b, c })
            && s.regs[c as int] == 0,
    ensures
        run_spec(s, input, consumed, output, cycles) == (RunState {
            machine: MachineState { pc: s.pc + 1, ..s },
            output,
            consumed,
            exit: Exit::Fault(Fault::DivisionByZero),
        }),
{
    lemma_run_ends_at_stop(s, input, consumed, output, cycles);
}

/// The machine: eight registers, the segment store and the program counter.
pub struct Machine {
    regs: Register,
    mem: MemObj,
    pc: usize,
}

impl View for Machine {
    type V = MachineState;

    closed spec fn view(&self) -> MachineState {
        MachineState { regs: self.regs@, mem: self.mem@, pc: self.pc as nat }
    }
}

impl Machine {
    /// The private part of the invariant: that of the store.
    pub closed spec fn store_inv(&self) -> bool {
        self.mem.wf()
    }

    /// The invariant that `new` establishes and every method keeps.
    pub open spec fn wf(&self) -> bool {
        self@.wf() && self.store_inv()
    }

    /// A machine about to run `program`: all registers 0, the program in
    /// segment 0, the counter at 0.
    pub fn new(program: Vec<u32>) -> (m: Machine)
        ensures
            m.wf(),
            m@ == MachineState::initial(program@),
    {
        let regs = Register::new([0, 0, 0, 0, 0, 0, 0, 0]);
        let m = Machine { regs, mem: MemObj::new(program), pc: 0 };
        assert(m@.regs =~= Seq::new(8, |i: int| 0u32));
        m
    }

    /// The word in register `index`.
    pub fn register(&self, index: u8) -> (word: u32)
        requires
            index < 8,
        ensures
            word == self@.regs[index as int],
    {
        self.regs.get(index)
    }

    /// The program counter.
    pub fn counter(&self) -> (pc: usize)
        ensures
            pc == self@.pc,
    {
        self.pc
    }

    /// The segment store.
    pub fn memory(&self) -> (mem: &MemObj)
        ensures
            mem@ == self@.mem,
            self.wf() ==> mem.wf(),
    {
        &self.mem
    }

    /// Carries out an instruction already fetched and decoded; the counter
    /// points past it.
    pub fn execute(&mut self, ins: Instruction) -> (action: Action)
        requires
            old(self).wf(),
            ins.wf(),
        ensures
            final(self).wf(),
            (final(self)@, action) == old(self)@.execute(ins),
    {
        proof {
            self.regs.lemma_eight();
            lemma_execute_wf(self@, ins);
        }
        match ins {
            Instruction::ConditionalMove { a, b, c } => {
                self.regs.conditional_move(a, b, c);
                Action::Continue
            },
            Instruction::SegLoad { a, b, c } => {
                if self.mem.has_word(self.regs.get(b) as usize, self.regs.get(c) as usize) {
                    self.regs.seg_load(a, b, c, &self.mem);
                    Action::Continue
                } else {
                    Action::Fault(Fault::MemoryAccess)
                }
            },
            Instruction::SegStore { a, b, c } => {
                if self.mem.has_word(self.regs.get(a) as usize, self.regs.get(b) as usize) {
                    self.regs.seg_store(a, b, c, &mut self.mem);
                    Action::Continue
                } else {
                    Action::Fault(Fault::MemoryAccess)
                }
            },
            Instruction::Add { a, b, c } => {
                self.regs.add(a, b, c);
                Action::Continue
            },
            Instruction::Mult { a, b, c } => {
                self.regs.mult(a, b, c);
                Action::Continue
            },
            Instruction::Div { a, b, c } => {
                if self.regs.get(c) != 0 {
                    self.regs.div(a, b, c);
                    Action::Continue
                } else {
                    Action::Fault(Fault::DivisionByZero)
                }
            },
            Instruction::Nand { a, b, c } => {
                self.regs.nand(a, b, c);
                Action::Continue
            },
            Instruction::Halt => Action::Halt,
            Instruction::MapSegment { b, c } => {
                if self.mem.can_allocate() {
                    self.regs.map_segment(b, c, &mut self.mem);
                    Action::Continue
                } else {
                    Action::Fault(Fault::OutOfSegments)
                }
            },
            Instruction::UnmapSegment { c } => {
                if self.regs.get(c) != 0 && self.mem.is_mapped(self.regs.get(c)) {
                    self.regs.unmap_segment(c, &mut self.mem);
                    Action::Continue
                } else {
                    Action::Fault(Fault::MemoryAccess)
                }
            },
            Instruction::Output { c } => {
                match self.regs.output(c) {
                    Some(byte) => Action::Output(byte),
                    None => Action::Fault(Fault::OutputRange),
                }
            },
            Instruction::Input { c } => Action::Input(c),
            Instruction::LoadProgram { b, c } => {
                if self.regs.get(b) == 0 || self.mem.is_mapped(self.regs.get(b)) {
                    self.pc = self.regs.load_program(b, c, &mut self.mem);
                    Action::Continue
                } else {
                    Action::Fault(Fault::MemoryAccess)
                }
            },
            Instruction::LoadValue { a, value } => {
                self.regs.load_value(a, value);
                Action::Continue
            },
        }
    }

    /// Runs one cycle: fetches the word at the counter, advances the
    /// counter, decodes the word and carries the instruction out.
    pub fn step(&mut self) -> (action: Action)
        requires
            old(self).wf(),
        ensures
            final(self).wf(),
            (final(self)@, action) == old(self)@.step(),
    {
        if !self.mem.has_word(0, self.pc) {
            return Action::Fault(Fault::MemoryAccess);
        }
        let word = self.mem.get_word(0, self.pc);
        proof {
            self.mem.lemma_lengths_fit();
        }
        self.pc = self.pc + 1;
        match decode(word) {
            Some(ins) => self.execute(ins),
            None => Action::Invalid,
        }
    }

    /// Hands to register `rc` the byte that an input read, or the end of the
    /// input.
    pub fn supply_input(&mut self, rc: u8, byte: Option<u8>)
        requires
            old(self).wf(),
            rc < 8,
        ensures
            final(self).wf(),
            final(self)@ == old(self)@.supply_input(rc, byte),
    {
        self.regs.input(rc, byte);
    }

    /// Runs the machine for at most `max_cycles` cycles, reading from `input`
    /// and collecting what the program emits. The run ends when the program
    /// halts, fetches a word that encodes no instruction, or faults; nothing
    /// is executed after that.
    pub fn run(&mut self, input: &[u8], max_cycles: u64) -> (r: Outcome)
        requires
            old(self).wf(),
        ensures
            final(self).wf(),
            ({
                let end = run_spec(old(self)@, input@, 0, Seq::empty(), max_cycles as nat);
                &&& final(self)@ == end.machine
                &&& r.output@ == end.output
                &&& r.consumed == end.consumed
                &&& r.exit == end.exit
            }),
    {
        let mut output: Vec<u8> = Vec::new();
        let mut consumed: usize = 0;
        let mut cycles = max_cycles;
        let ghost goal = run_spec(self@, input@, 0, Seq::empty(), max_cycles as nat);
        while cycles > 0
            invariant
                self.wf(),
                consumed <= input@.len(),
                run_spec(self@, input@, consumed as nat, output@, cycles as nat) == goal,
                goal == run_spec(old(self)@, input@, 0, Seq::empty(), max_cycles as nat),
            decreases cycles,
        {
            proof {
                lemma_step_wf(self@);
            }
            cycles = cycles - 1;
            match self.step() {
                Action::Continue => {},
                Action::Output(byte) => {
                    output.push(byte);
                },
                Action::Input(rc) => {
                    if consumed < input.len() {
                        self.supply_input(rc, Some(input[consumed]));
                        consumed = consumed + 1;
                    } else {
                        self.supply_input(rc, None);
                    }
                },
                Action::Halt => {
                    return Outcome { output, consumed, exit: Exit::Halted };
                },
                Action::Invalid => {
                    return Outcome { output, consumed, exit: Exit::Invalid };
                },
                Action::Fault(fault) => {
                    return Outcome { output, consumed, exit: Exit::Fault(fault) };
                },
            }
        }
        Outcome { output, consumed, exit: Exit::OutOfCycles }
    }
}

} // verus!
