use actionkv::cpu::{Fault, CPU};

fn blank() -> CPU {
    CPU {
        program_counter: 0,
        registers: [0; 16],
        memory: [0; 4096],
        stack: [0; 16],
        stack_pointer: 0,
    }
}

fn load(cpu: &mut CPU, at: usize, program: &[u8]) {
    cpu.memory[at..at + program.len()].copy_from_slice(program);
}

#[test]
fn add_twice_through_two_calls() {
    let mut cpu = blank();
    cpu.registers[0] = 5;
    cpu.registers[1] = 10;
    cpu.registers[2] = 10;
    cpu.registers[3] = 10;
    load(&mut cpu, 0x100, &[0x80, 0x14, 0x80, 0x14, 0x00, 0xee]);
    load(&mut cpu, 0, &[0x21, 0x00, 0x21, 0x00]);

    assert_eq!(cpu.run(), Ok(()));
    assert_eq!(cpu.registers[0], 45);
    assert_eq!(cpu.registers[1], 10);
    assert_eq!(cpu.registers[0xf], 0);
    assert_eq!(cpu.program_counter, 6);
    assert_eq!(cpu.stack_pointer, 0);
}

#[test]
fn empty_memory_halts_at_once() {
    let mut cpu = blank();
    assert_eq!(cpu.run(), Ok(()));
    assert_eq!(cpu.program_counter, 2);
}

#[test]
fn read_opcode_puts_the_first_byte_in_front() {
    let mut cpu = blank();
    load(&mut cpu, 0x10, &[0x81, 0x24]);
    cpu.program_counter = 0x10;
    assert_eq!(cpu.read_opcode(), 0x8124);
    cpu.program_counter = 0x11;
    assert_eq!(cpu.read_opcode(), 0x2400);
    cpu.program_counter = 4094;
    cpu.memory[4094] = 0xab;
    cpu.memory[4095] = 0xcd;
    assert_eq!(cpu.read_opcode(), 0xabcd);
}

#[test]
fn add_xy_without_carry() {
    let mut cpu = blank();
    cpu.registers[1] = 200;
    cpu.registers[2] = 55;
    cpu.registers[0xf] = 9;
    cpu.add_xy(1, 2);
    assert_eq!(cpu.registers[1], 255);
    assert_eq!(cpu.registers[2], 55);
    assert_eq!(cpu.registers[0xf], 0);
}

#[test]
fn add_xy_with_carry() {
    let mut cpu = blank();
    cpu.registers[1] = 200;
    cpu.registers[2] = 56;
    cpu.add_xy(1, 2);
    assert_eq!(cpu.registers[1], 0);
    assert_eq!(cpu.registers[0xf], 1);
    cpu.registers[3] = 255;
    cpu.add_xy(3, 3);
    assert_eq!(cpu.registers[3], 254);
    assert_eq!(cpu.registers[0xf], 1);
}

#[test]
fn add_xy_into_the_carry_register_leaves_the_carry() {
    let mut cpu = blank();
    cpu.registers[0xf] = 7;
    cpu.registers[1] = 3;
    cpu.add_xy(0xf, 1);
    assert_eq!(cpu.registers[0xf], 0);
    cpu.registers[0xf] = 255;
    cpu.add_xy(0xf, 1);
    assert_eq!(cpu.registers[0xf], 1);
}

#[test]
fn call_then_ret() {
    let mut cpu = blank();
    cpu.program_counter = 0x202;
    cpu.call(0x300);
    assert_eq!(cpu.program_counter, 0x300);
    assert_eq!(cpu.stack_pointer, 1);
    assert_eq!(cpu.stack[0], 0x202);
    cpu.call(0x400);
    assert_eq!(cpu.stack[1], 0x300);
    assert_eq!(cpu.stack_pointer, 2);
    cpu.ret();
    assert_eq!(cpu.program_counter, 0x300);
    assert_eq!(cpu.stack_pointer, 1);
    cpu.ret();
    assert_eq!(cpu.program_counter, 0x202);
    assert_eq!(cpu.stack_pointer, 0);
}

#[test]
fn call_cuts_the_program_counter_to_16_bits() {
    let mut cpu = blank();
    cpu.program_counter = 0x1_2345;
    cpu.call(0x10);
    assert_eq!(cpu.stack[0], 0x2345);
}

#[test]
fn unknown_opcode_is_a_fault() {
    let mut cpu = blank();
    load(&mut cpu, 0, &[0x80, 0x14, 0x12, 0x34]);
    assert_eq!(cpu.run(), Err(Fault::UnknownOpcode(0x1234)));
    assert_eq!(cpu.program_counter, 4);
    let mut cpu = blank();
    load(&mut cpu, 0, &[0x80, 0x15]);
    assert_eq!(cpu.run(), Err(Fault::UnknownOpcode(0x8015)));
    let mut cpu = blank();
    load(&mut cpu, 0, &[0x00, 0xe0]);
    assert_eq!(cpu.run(), Err(Fault::UnknownOpcode(0x00e0)));
}

#[test]
fn call_of_itself_overflows_the_stack() {
    let mut cpu = blank();
    load(&mut cpu, 0, &[0x20, 0x00]);
    assert_eq!(cpu.run(), Err(Fault::StackOverflow));
    assert_eq!(cpu.stack_pointer, 16);
    assert_eq!(cpu.stack, [2; 16]);
}

#[test]
fn ret_with_an_empty_stack_underflows() {
    let mut cpu = blank();
    load(&mut cpu, 0, &[0x00, 0xee]);
    assert_eq!(cpu.run(), Err(Fault::StackUnderflow));
    assert_eq!(cpu.program_counter, 2);
}

#[test]
fn ret_with_a_stack_pointer_behind_the_stack_is_a_fault() {
    let mut cpu = blank();
    cpu.stack_pointer = 17;
    load(&mut cpu, 0, &[0x00, 0xee]);
    assert_eq!(cpu.run(), Err(Fault::StackOverflow));
}

#[test]
fn running_off_the_memory_is_a_fault() {
    let mut cpu = blank();
    cpu.memory = [0x80; 4096];
    for i in 0..2048 {
        cpu.memory[2 * i + 1] = 0x14;
    }
    assert_eq!(cpu.run(), Err(Fault::MemoryOverrun));
    assert_eq!(cpu.program_counter, 4096);

    let mut cpu = blank();
    cpu.program_counter = 4095;
    assert_eq!(cpu.run(), Err(Fault::MemoryOverrun));
    assert_eq!(cpu.program_counter, 4095);

    let mut cpu = blank();
    cpu.program_counter = usize::MAX;
    assert_eq!(cpu.run(), Err(Fault::MemoryOverrun));
}

#[test]
fn ret_to_an_address_outside_the_memory_is_a_fault() {
    let mut cpu = blank();
    cpu.stack[0] = 0xffff;
    cpu.stack_pointer = 1;
    load(&mut cpu, 0, &[0x00, 0xee]);
    assert_eq!(cpu.run(), Err(Fault::MemoryOverrun));
    assert_eq!(cpu.program_counter, 0xffff);
    assert_eq!(cpu.stack_pointer, 0);
}

#[test]
fn nested_calls_return_in_order() {
    let mut cpu = blank();
    cpu.registers[1] = 1;
    load(&mut cpu, 0x000, &[0x22, 0x00, 0x80, 0x14, 0x00, 0x00]);
    load(&mut cpu, 0x200, &[0x80, 0x14, 0x23, 0x00, 0x80, 0x14, 0x00, 0xee]);
    load(&mut cpu, 0x300, &[0x80, 0x14, 0x00, 0xee]);
    assert_eq!(cpu.run(), Ok(()));
    assert_eq!(cpu.registers[0], 4);
    assert_eq!(cpu.program_counter, 6);
    assert_eq!(cpu.stack_pointer, 0);
}
