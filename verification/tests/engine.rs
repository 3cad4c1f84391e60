use chip8::cpu::{Chip8, StepResult};
use chip8::instruction::encode;
use chip8::instruction::Instruction::{CALL, DRAW, LOAD, RAND, RTS, SKNE, SKUP, SYS};

fn new_test(code: &[chip8::instruction::Instruction]) -> Chip8 {
    let mut bytes: Vec<u8> = Vec::new();
    for instr in code {
        let word = encode(*instr);
        bytes.push((word >> 8) as u8);
        bytes.push((word & 0xFF) as u8);
    }
    Chip8::new(&bytes, false)
}

fn run_to_end(cpu: &mut Chip8) {
    loop {
        match cpu.step() {
            Ok(StepResult::Continue(_)) => {}
            _ => break,
        }
    }
}

#[test]
fn load() {
    let mut cpu = new_test(&[LOAD(0, 10)]);
    run_to_end(&mut cpu);

    assert_eq!(cpu.reg[0], 10);
    assert_eq!(cpu.pc, 0x202);
}

#[test]
fn skne_not() {
    let mut cpu = new_test(&[SKNE(0, 10), LOAD(1, 42)]);
    cpu.reg[0] = 10;
    run_to_end(&mut cpu);

    assert_eq!(cpu.reg[1], 42);
    assert_eq!(cpu.pc, 0x204);
}

#[test]
fn skne_yes() {
    let mut cpu = new_test(&[SKNE(0, 10), LOAD(1, 42)]);
    cpu.reg[0] = 110;
    cpu.reg[1] = 142;
    run_to_end(&mut cpu);

    assert_eq!(cpu.reg[1], 142);
    assert_eq!(cpu.pc, 0x204);
}

#[test]
fn call_rts() {
    let mut cpu = new_test(&[
        CALL(0x210), // 0x200
        LOAD(0, 42), // 0x202
        SYS(0),      // 0x204
        SYS(0),      // 0x206
        SYS(0),      // 0x208
        SYS(0),      // 0x20a
        SYS(0),      // 0x20c
        SYS(0),      // 0x20e
        RTS,         // 0x210
    ]);
    run_to_end(&mut cpu);

    assert_eq!(cpu.reg[0], 42);
    assert!(cpu.stack.is_empty());
}

#[test]
fn rand_limit() {
    for _ in 0..100 {
        let mut cpu = new_test(&[RAND(0, 10)]);
        run_to_end(&mut cpu);
        assert!(cpu.reg[0] < 10);
    }
}

#[test]
fn skup_pressed() {
    let mut cpu = new_test(&[SKUP(0), LOAD(1, 42)]);
    cpu.reg[0] = 5;
    cpu.io.keystate[5] = true;
    cpu.reg[1] = 0;
    run_to_end(&mut cpu);

    assert_eq!(cpu.reg[1], 42);
}

#[test]
fn skup_up() {
    let mut cpu = new_test(&[SKUP(0), LOAD(1, 42)]);
    cpu.reg[0] = 5;
    cpu.io.keystate[5] = false;
    cpu.reg[1] = 0;
    run_to_end(&mut cpu);

    assert_eq!(cpu.reg[1], 0);
}

#[test]
fn draw_xor_true_begin() {
    let mut cpu = new_test(&[DRAW(0, 1, 2)]);
    cpu.reg[0] = 0;
    cpu.reg[1] = 0;
    cpu.idx = 0x300;
    cpu.mem[0x300] = 0xFF;
    cpu.mem[0x301] = 0xFF;
    cpu.io.display[0][0] = true;
    run_to_end(&mut cpu);

    assert_eq!(cpu.reg[0xF], 1);
}

#[test]
fn draw_xor_true_end() {
    let mut cpu = new_test(&[DRAW(0, 1, 2)]);
    cpu.reg[0] = 0;
    cpu.reg[1] = 0;
    cpu.idx = 0x300;
    cpu.mem[0x300] = 0xFF;
    cpu.mem[0x301] = 0xFF;
    cpu.io.display[1][7] = true;
    run_to_end(&mut cpu);

    assert_eq!(cpu.reg[0xF], 1);
}

#[test]
fn draw_xor_false() {
    let mut cpu = new_test(&[DRAW(0, 1, 2)]);
    cpu.reg[0] = 0;
    cpu.reg[1] = 0;
    cpu.idx = 0x300;
    cpu.mem[0x300] = 0xFF;
    cpu.mem[0x301] = 0xFF;
    run_to_end(&mut cpu);

    assert_eq!(cpu.reg[0xF], 0);
}
