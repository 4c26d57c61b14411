use super8::cpu::Cpu;
use super8::machine::new_memory;

fn program(words: &[u16]) -> Vec<u8> {
    let mut bytes = Vec::new();
    for w in words {
        bytes.push((w >> 8) as u8);
        bytes.push((w & 0xff) as u8);
    }
    bytes
}

fn machine(words: &[u16]) -> (Cpu, Vec<u8>) {
    let mut memory = new_memory();
    Cpu::load_prog_into_memory(&program(words), &mut memory);
    (Cpu::new(), memory)
}

fn run(cpu: &mut Cpu, memory: &mut Vec<u8>) {
    assert!(cpu.can_step(memory));
    cpu.step(memory);
}

#[test]
fn new_cpu_starts_at_program() {
    let cpu = Cpu::new();
    assert_eq!(cpu.program_counter(), 0x200);
    assert_eq!(cpu.call_depth(), 0);
}

#[test]
fn load_program_copies_bytes() {
    let mut memory = new_memory();
    Cpu::load_prog_into_memory(&[1, 2, 3], &mut memory);
    assert_eq!(&memory[0x1FF..0x204], &[0, 1, 2, 3, 0]);
}

#[test]
fn steps_advance_and_jump() {
    let (mut cpu, mut memory) = machine(&[0x6105, 0x1208, 0x0000, 0x0000, 0x7101]);
    run(&mut cpu, &mut memory);
    assert_eq!(cpu.program_counter(), 0x202);
    assert_eq!(memory[1], 5);
    run(&mut cpu, &mut memory);
    assert_eq!(cpu.program_counter(), 0x208);
    run(&mut cpu, &mut memory);
    assert_eq!(memory[1], 6);
    assert_eq!(cpu.program_counter(), 0x20A);
}

#[test]
fn call_and_return() {
    let (mut cpu, mut memory) = machine(&[0x2206, 0x6207, 0x0000, 0x6309, 0x00EE]);
    run(&mut cpu, &mut memory);
    assert_eq!(cpu.call_depth(), 1);
    assert_eq!(cpu.program_counter(), 0x206);
    run(&mut cpu, &mut memory);
    assert_eq!(memory[3], 9);
    run(&mut cpu, &mut memory);
    assert_eq!(cpu.call_depth(), 0);
    assert_eq!(cpu.program_counter(), 0x202);
    run(&mut cpu, &mut memory);
    assert_eq!(memory[2], 7);
}

#[test]
fn skip_skips_one_instruction() {
    let (mut cpu, mut memory) = machine(&[0x3000, 0x6101, 0x6202]);
    run(&mut cpu, &mut memory);
    assert_eq!(cpu.program_counter(), 0x204);
    run(&mut cpu, &mut memory);
    assert_eq!((memory[1], memory[2]), (0, 2));
}

#[test]
fn random_step_respects_mask() {
    let (mut cpu, mut memory) = machine(&[0xC50F, 0xC600]);
    run(&mut cpu, &mut memory);
    assert_eq!(memory[5] & 0xF0, 0);
    memory[6] = 0x77;
    run(&mut cpu, &mut memory);
    assert_eq!(memory[6], 0);
    assert_eq!(cpu.program_counter(), 0x204);
}

#[test]
fn step_with_uses_given_random_byte() {
    let (mut cpu, mut memory) = machine(&[0xC5F0]);
    cpu.step_with(&mut memory, 0xAB);
    assert_eq!(memory[5], 0xA0);
}

#[test]
fn faulting_steps_are_refused() {
    // return with no pending call
    let (cpu, memory) = machine(&[0x00EE]);
    assert!(!cpu.can_step(&memory));
    // jump below address 2
    let (cpu, memory) = machine(&[0x1001]);
    assert!(!cpu.can_step(&memory));
    // unknown arithmetic operation
    let (cpu, memory) = machine(&[0x8128]);
    assert!(!cpu.can_step(&memory));
    // unknown key operation
    let (cpu, memory) = machine(&[0xE1FF]);
    assert!(!cpu.can_step(&memory));
    // instruction past the end of memory
    let cpu = Cpu::new();
    assert!(!cpu.can_step(&vec![0u8; 0x201]));
}

#[test]
fn call_stack_overflows_after_fifteen_calls() {
    let (mut cpu, mut memory) = machine(&[0x2200]);
    for depth in 1..16 {
        run(&mut cpu, &mut memory);
        assert_eq!(cpu.call_depth(), depth);
    }
    assert!(!cpu.can_step(&memory));
}

#[test]
fn execute_passes_outcome_through() {
    let cpu = Cpu::new();
    let mut memory = new_memory();
    assert_eq!(cpu.execute(0x1456, &mut memory), Ok((1, 0x456)));
    assert_eq!(cpu.execute(0x812F, &mut memory), Err("Whoops!"));
    cpu.execute(0xC100, &mut memory).unwrap();
    assert_eq!(memory[1], 0);
}

#[test]
fn frame_latches_key_steps_and_ticks() {
    // V1 = key, V2 = 3, delay = V2, sound = V2
    let (mut cpu, mut memory) = machine(&[0xF10A, 0x6203, 0xF215, 0xF218, 0x1208]);
    memory[98] = 9;
    assert_eq!(cpu.run_frame(&mut memory, 0xB), Some(true));
    assert_eq!(memory[100], 0xB);
    assert_eq!(memory[1], 0xB);
    assert_eq!((memory[98], memory[99]), (2, 2));
    assert_eq!(cpu.program_counter(), 0x208);
    assert_eq!(cpu.run_frame(&mut memory, 0), Some(true));
    assert_eq!((memory[98], memory[99]), (1, 1));
    assert_eq!(cpu.run_frame(&mut memory, 0), Some(true));
    assert_eq!(cpu.run_frame(&mut memory, 0), Some(false));
    assert_eq!((memory[98], memory[99]), (0, 0));
}

#[test]
fn frame_stops_at_a_faulting_step() {
    let (mut cpu, mut memory) = machine(&[0x6101, 0x00EE, 0x6202]);
    assert_eq!(cpu.run_frame(&mut memory, 0), None);
    assert_eq!(memory[1], 1);
    assert_eq!(memory[2], 0);
}
