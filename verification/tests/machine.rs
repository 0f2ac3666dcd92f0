use rum::bitpack;
use rum::loader::load;
use rum::machine::{decode, Action, Exit, Fault, Instruction, Machine};

fn three(op: u64, a: u64, b: u64, c: u64) -> u32 {
    let mut word = bitpack::newu(0, 4, 28, op).unwrap();
    word = bitpack::newu(word, 3, 6, a).unwrap();
    word = bitpack::newu(word, 3, 3, b).unwrap();
    word = bitpack::newu(word, 3, 0, c).unwrap();
    word as u32
}

fn load_value(a: u64, value: u64) -> u32 {
    let mut word = bitpack::newu(0, 4, 28, 13).unwrap();
    word = bitpack::newu(word, 3, 25, a).unwrap();
    word = bitpack::newu(word, 25, 0, value).unwrap();
    word as u32
}

fn output(c: u64) -> u32 {
    three(10, 0, 0, c)
}

fn halt() -> u32 {
    three(7, 0, 0, 0)
}

#[test]
fn decode_reads_opcode_and_registers() {
    assert_eq!(decode(three(0, 1, 2, 3)), Some(Instruction::ConditionalMove { a: 1, b: 2, c: 3 }));
    assert_eq!(decode(three(1, 7, 0, 5)), Some(Instruction::SegLoad { a: 7, b: 0, c: 5 }));
    assert_eq!(decode(three(2, 4, 4, 4)), Some(Instruction::SegStore { a: 4, b: 4, c: 4 }));
    assert_eq!(decode(three(3, 0, 1, 2)), Some(Instruction::Add { a: 0, b: 1, c: 2 }));
    assert_eq!(decode(three(4, 2, 1, 0)), Some(Instruction::Mult { a: 2, b: 1, c: 0 }));
    assert_eq!(decode(three(5, 6, 5, 4)), Some(Instruction::Div { a: 6, b: 5, c: 4 }));
    assert_eq!(decode(three(6, 7, 7, 7)), Some(Instruction::Nand { a: 7, b: 7, c: 7 }));
    assert_eq!(decode(three(7, 1, 2, 3)), Some(Instruction::Halt));
    assert_eq!(decode(three(8, 1, 2, 3)), Some(Instruction::MapSegment { b: 2, c: 3 }));
    assert_eq!(decode(three(9, 1, 2, 3)), Some(Instruction::UnmapSegment { c: 3 }));
    assert_eq!(decode(three(10, 1, 2, 3)), Some(Instruction::Output { c: 3 }));
    assert_eq!(decode(three(11, 1, 2, 3)), Some(Instruction::Input { c: 3 }));
    assert_eq!(decode(three(12, 1, 2, 3)), Some(Instruction::LoadProgram { b: 2, c: 3 }));
}

#[test]
fn decode_reads_the_load_value_layout() {
    assert_eq!(decode(load_value(5, 10)), Some(Instruction::LoadValue { a: 5, value: 10 }));
    assert_eq!(decode(0xd000_0000), Some(Instruction::LoadValue { a: 0, value: 0 }));
    assert_eq!(
        decode(0xdfff_ffff),
        Some(Instruction::LoadValue { a: 7, value: 0x1ff_ffff })
    );
    assert_eq!(decode(0xd200_0001), Some(Instruction::LoadValue { a: 1, value: 1 }));
}

#[test]
fn decode_ignores_the_unused_bits() {
    assert_eq!(decode(0x3fff_fe00 | 0o123), Some(Instruction::Add { a: 1, b: 2, c: 3 }));
    assert_eq!(decode(0x7abc_de00), Some(Instruction::Halt));
}

#[test]
fn decode_refuses_opcodes_14_and_15() {
    assert_eq!(decode(0xe000_0000), None);
    assert_eq!(decode(0xf000_0000), None);
    assert_eq!(decode(0xffff_ffff), None);
    assert_eq!(decode(three(14, 1, 2, 3)), None);
    assert_eq!(decode(three(15, 0, 0, 0)), None);
}

#[test]
fn load_value_output_halt_emits_ten_and_halts() {
    let mut machine = Machine::new(vec![load_value(0, 10), output(0), halt()]);
    let outcome = machine.run(&[], 1000);
    assert_eq!(outcome.output, vec![10_u8]);
    assert_eq!(outcome.exit, Exit::Halted);
    assert_eq!(outcome.consumed, 0);
    assert_eq!(machine.counter(), 3);
    assert_eq!(machine.register(0), 10);
}

#[test]
fn load_value_output_halt_step_by_step() {
    let mut machine = Machine::new(vec![load_value(0, 10), output(0), halt()]);
    assert_eq!(machine.step(), Action::Continue);
    assert_eq!(machine.register(0), 10);
    assert_eq!(machine.step(), Action::Output(10));
    assert_eq!(machine.step(), Action::Halt);
    assert_eq!(machine.counter(), 3);
}

#[test]
fn division_by_zero_is_fatal_and_nothing_follows() {
    // r1 = 7; r0 = r1 / r2 with r2 = 0; then an output that must not happen
    let program = vec![load_value(1, 7), load_value(0, 65), three(5, 0, 1, 2), output(0), halt()];
    let mut machine = Machine::new(program);
    let outcome = machine.run(&[], 1000);
    assert_eq!(outcome.exit, Exit::Fault(Fault::DivisionByZero));
    assert_eq!(outcome.output, Vec::<u8>::new());
    assert_eq!(machine.counter(), 3);
    assert_eq!(machine.register(0), 65);
    assert_eq!(machine.register(1), 7);
}

#[test]
fn division_by_zero_step() {
    let mut machine = Machine::new(vec![three(5, 0, 1, 2)]);
    assert_eq!(machine.step(), Action::Fault(Fault::DivisionByZero));
}

#[test]
fn a_new_machine_starts_at_zero() {
    let machine = Machine::new(vec![halt(), 5]);
    assert_eq!(machine.counter(), 0);
    for r in 0..8 {
        assert_eq!(machine.register(r), 0);
    }
    assert_eq!(machine.memory().get_word(0, 1), 5);
    assert!(machine.memory().is_mapped(0));
    assert!(!machine.memory().is_mapped(1));
}

#[test]
fn arithmetic_program() {
    // r1 = 6, r2 = 7, r3 = r1 * r2, r4 = r3 + r1, r5 = r4 / r2, r6 = nand(r1, r2)
    let program = vec![
        load_value(1, 6),
        load_value(2, 7),
        three(4, 3, 1, 2),
        three(3, 4, 3, 1),
        three(5, 5, 4, 2),
        three(6, 6, 1, 2),
        halt(),
    ];
    let mut machine = Machine::new(program);
    let outcome = machine.run(&[], 100);
    assert_eq!(outcome.exit, Exit::Halted);
    assert_eq!(machine.register(3), 42);
    assert_eq!(machine.register(4), 48);
    assert_eq!(machine.register(5), 6);
    assert_eq!(machine.register(6), !6_u32);
}

#[test]
fn conditional_move_program() {
    let program = vec![
        load_value(1, 9),
        three(0, 2, 1, 3), // r3 == 0: no move
        load_value(3, 1),
        three(0, 4, 1, 3), // r3 != 0: r4 = r1
        halt(),
    ];
    let mut machine = Machine::new(program);
    assert_eq!(machine.run(&[], 100).exit, Exit::Halted);
    assert_eq!(machine.register(2), 0);
    assert_eq!(machine.register(4), 9);
}

#[test]
fn invalid_opcode_stops_the_run() {
    let mut machine = Machine::new(vec![load_value(0, 66), 0xe000_0000, output(0), halt()]);
    let outcome = machine.run(&[], 100);
    assert_eq!(outcome.exit, Exit::Invalid);
    assert_eq!(outcome.output, Vec::<u8>::new());
    assert_eq!(machine.counter(), 2);
    let mut machine = Machine::new(vec![0xf000_0000]);
    assert_eq!(machine.step(), Action::Invalid);
    assert_eq!(machine.counter(), 1);
}

#[test]
fn running_off_the_program_is_a_memory_fault() {
    let mut machine = Machine::new(vec![load_value(0, 1)]);
    let outcome = machine.run(&[], 100);
    assert_eq!(outcome.exit, Exit::Fault(Fault::MemoryAccess));
    assert_eq!(machine.counter(), 1);
    let mut machine = Machine::new(vec![]);
    assert_eq!(machine.step(), Action::Fault(Fault::MemoryAccess));
    assert_eq!(machine.counter(), 0);
}

#[test]
fn output_above_255_is_a_fault() {
    let mut machine = Machine::new(vec![load_value(0, 256), output(0), halt()]);
    let outcome = machine.run(&[], 100);
    assert_eq!(outcome.exit, Exit::Fault(Fault::OutputRange));
    assert_eq!(outcome.output, Vec::<u8>::new());
    let mut machine = Machine::new(vec![load_value(0, 255), output(0), halt()]);
    let outcome = machine.run(&[], 100);
    assert_eq!(outcome.exit, Exit::Halted);
    assert_eq!(outcome.output, vec![255_u8]);
}

#[test]
fn input_reads_bytes_then_all_ones() {
    // read into r1, r2, r3; echo r1 and r2
    let program = vec![
        three(11, 0, 0, 1),
        three(11, 0, 0, 2),
        three(11, 0, 0, 3),
        output(1),
        output(2),
        halt(),
    ];
    let mut machine = Machine::new(program);
    let outcome = machine.run(&[72, 105], 100);
    assert_eq!(outcome.exit, Exit::Halted);
    assert_eq!(outcome.output, vec![72_u8, 105]);
    assert_eq!(outcome.consumed, 2);
    assert_eq!(machine.register(3), u32::MAX);
}

#[test]
fn input_step_asks_for_a_byte() {
    let mut machine = Machine::new(vec![three(11, 0, 0, 6), halt()]);
    assert_eq!(machine.step(), Action::Input(6));
    assert_eq!(machine.register(6), 0);
    machine.supply_input(6, Some(200));
    assert_eq!(machine.register(6), 200);
    machine.supply_input(6, None);
    assert_eq!(machine.register(6), u32::MAX);
    assert_eq!(machine.step(), Action::Halt);
}

#[test]
fn run_stops_when_cycles_run_out() {
    // r0 = 0; load program from segment 0 (r0 == 0: no copy), jump to r1 = 0
    let mut machine = Machine::new(vec![three(12, 0, 0, 1)]);
    let outcome = machine.run(&[], 50);
    assert_eq!(outcome.exit, Exit::OutOfCycles);
    assert_eq!(machine.counter(), 0);
    let mut machine = Machine::new(vec![halt()]);
    let outcome = machine.run(&[], 0);
    assert_eq!(outcome.exit, Exit::OutOfCycles);
    assert_eq!(machine.counter(), 0);
}

#[test]
fn map_store_load_unmap_program() {
    let program = vec![
        load_value(1, 4),   // r1 = 4 (length)
        three(8, 0, 2, 1),  // r2 = map(r1)
        load_value(3, 3),   // r3 = 3 (offset)
        load_value(4, 77),  // r4 = 77
        three(2, 2, 3, 4),  // mem[r2][r3] = r4
        three(1, 5, 2, 3),  // r5 = mem[r2][r3]
        three(1, 6, 2, 0),  // r6 = mem[r2][r0] = 0
        output(5),
        three(9, 0, 0, 2),  // unmap r2
        three(8, 0, 7, 3),  // r7 = map(r3): reuses the index
        halt(),
    ];
    let mut machine = Machine::new(program);
    let outcome = machine.run(&[], 100);
    assert_eq!(outcome.exit, Exit::Halted);
    assert_eq!(outcome.output, vec![77_u8]);
    assert_eq!(machine.register(2), 1);
    assert_eq!(machine.register(5), 77);
    assert_eq!(machine.register(6), 0);
    assert_eq!(machine.register(7), 1);
    assert!(machine.memory().has_word(1, 2));
    assert!(!machine.memory().has_word(1, 3));
    assert_eq!(machine.memory().get_word(1, 2), 0);
}

#[test]
fn memory_faults_of_load_and_store() {
    // load from a segment that was never mapped
    let mut machine = Machine::new(vec![load_value(1, 5), three(1, 0, 1, 2), halt()]);
    assert_eq!(machine.run(&[], 100).exit, Exit::Fault(Fault::MemoryAccess));
    assert_eq!(machine.counter(), 2);
    // load past the end of segment 0
    let mut machine = Machine::new(vec![load_value(2, 3), three(1, 0, 1, 2), halt()]);
    assert_eq!(machine.run(&[], 100).exit, Exit::Fault(Fault::MemoryAccess));
    // store past the end of segment 0
    let mut machine = Machine::new(vec![load_value(2, 3), three(2, 1, 2, 0), halt()]);
    assert_eq!(machine.run(&[], 100).exit, Exit::Fault(Fault::MemoryAccess));
    // store into a segment after it was unmapped
    let program = vec![
        load_value(1, 2),
        three(8, 0, 2, 1),
        three(9, 0, 0, 2),
        three(2, 2, 0, 1),
        halt(),
    ];
    let mut machine = Machine::new(program);
    assert_eq!(machine.run(&[], 100).exit, Exit::Fault(Fault::MemoryAccess));
    assert_eq!(machine.counter(), 4);
}

#[test]
fn unmapping_segment_zero_or_twice_is_a_fault() {
    let mut machine = Machine::new(vec![three(9, 0, 0, 0), halt()]);
    assert_eq!(machine.run(&[], 100).exit, Exit::Fault(Fault::MemoryAccess));
    let mut machine = Machine::new(vec![load_value(1, 9), three(9, 0, 0, 1), halt()]);
    assert_eq!(machine.run(&[], 100).exit, Exit::Fault(Fault::MemoryAccess));
    let program = vec![three(8, 0, 2, 1), three(9, 0, 0, 2), three(9, 0, 0, 2), halt()];
    let mut machine = Machine::new(program);
    assert_eq!(machine.run(&[], 100).exit, Exit::Fault(Fault::MemoryAccess));
    assert_eq!(machine.counter(), 3);
}

#[test]
fn load_program_replaces_segment_zero_and_jumps() {
    // Build in a new segment the program [output r3; halt], then jump into it.
    let tail = [output(3), halt()];
    // Each word is put together 8 bits at a time and stored in the segment.
    let mut program = vec![
        load_value(1, 2),   // r1 = 2
        three(8, 0, 2, 1),  // r2 = map(r1)
        load_value(6, 256), // r6 = 256
    ];
    for (offset, word) in tail.iter().enumerate() {
        let bytes = word.to_be_bytes();
        program.push(load_value(4, bytes[0] as u64));
        for byte in &bytes[1..] {
            program.push(three(4, 4, 4, 6)); // r4 = r4 * 256
            program.push(load_value(5, *byte as u64));
            program.push(three(3, 4, 4, 5)); // r4 = r4 + byte
        }
        program.push(load_value(5, offset as u64));
        program.push(three(2, 2, 5, 4)); // mem[r2][offset] = r4
    }
    program.push(load_value(3, 33));
    program.push(load_value(5, 0));
    program.push(three(12, 0, 2, 5)); // load segment r2, jump to r5 = 0
    let mut machine = Machine::new(program);
    let outcome = machine.run(&[], 1000);
    assert_eq!(outcome.exit, Exit::Halted);
    assert_eq!(outcome.output, vec![33_u8]);
    assert_eq!(machine.counter(), 2);
    assert!(machine.memory().has_word(0, 1));
    assert!(!machine.memory().has_word(0, 2));
    assert_eq!(machine.memory().get_word(0, 0), output(3));
}

#[test]
fn load_program_from_an_unmapped_segment_is_a_fault() {
    let mut machine = Machine::new(vec![load_value(1, 3), three(12, 0, 1, 0), halt()]);
    assert_eq!(machine.run(&[], 100).exit, Exit::Fault(Fault::MemoryAccess));
    assert_eq!(machine.counter(), 2);
}

#[test]
fn load_program_with_zero_only_jumps() {
    let program = vec![load_value(1, 3), three(12, 0, 0, 1), output(1), halt()];
    let mut machine = Machine::new(program);
    let outcome = machine.run(&[], 100);
    assert_eq!(outcome.exit, Exit::Halted);
    assert_eq!(outcome.output, Vec::<u8>::new());
    assert_eq!(machine.counter(), 4);
}

#[test]
fn execute_carries_out_a_decoded_instruction() {
    let mut machine = Machine::new(vec![]);
    assert_eq!(machine.execute(Instruction::LoadValue { a: 2, value: 40 }), Action::Continue);
    assert_eq!(machine.execute(Instruction::Add { a: 3, b: 2, c: 2 }), Action::Continue);
    assert_eq!(machine.register(3), 80);
    assert_eq!(machine.execute(Instruction::Output { c: 3 }), Action::Output(80));
    assert_eq!(machine.execute(Instruction::Halt), Action::Halt);
    assert_eq!(machine.counter(), 0);
}

#[test]
fn a_program_image_runs_after_loading() {
    let words = [load_value(0, 10), output(0), halt()];
    let mut image = Vec::new();
    for word in words.iter() {
        image.extend_from_slice(&word.to_be_bytes());
    }
    let mut machine = Machine::new(load(&image));
    let outcome = machine.run(&[], 10);
    assert_eq!(outcome.output, vec![10_u8]);
    assert_eq!(outcome.exit, Exit::Halted);
}
