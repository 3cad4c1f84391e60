use chip8::cpu::{Chip8, EngineError, StepResult};
use chip8::instruction::encode;
use chip8::instruction::Instruction::{
    ADD, ADDI, ADDR, AND, BCD, CALL, CLR, DRAW, JUMP, JUMPI, KEYD, LDSPR, LOAD, LOADD, LOADI,
    MOVE, MOVED, OR, RAND, READ, RTS, SHL, SHR, SKE, SKPR, SKRE, STOR, SUB, SYS, XOR,
};

fn new_test(code: &[chip8::instruction::Instruction]) -> Chip8 {
    let mut bytes: Vec<u8> = Vec::new();
    for instr in code {
        let word = encode(*instr);
        bytes.push((word >> 8) as u8);
        bytes.push((word & 0xFF) as u8);
    }
    Chip8::new(&bytes, false)
}

fn run_to_end(cpu: &mut Chip8) {
    loop {
        match cpu.step() {
            Ok(StepResult::Continue(_)) => {}
            _ => break,
        }
    }
}

/// A program of ADD(0, 255) then ADD(0, 1) leaves register 0 at 0, with the
/// carry flag set after the second instruction.
#[test]
fn add_wraps_and_carries() {
    let mut cpu = new_test(&[ADD(0, 255), ADD(0, 1)]);
    run_to_end(&mut cpu);

    assert_eq!(cpu.reg[0], 0);
    assert_eq!(cpu.reg[0xF], 1);
}

#[test]
fn add_no_carry_clears_flag() {
    let mut cpu = new_test(&[ADD(0, 200), ADD(1, 55)]);
    cpu.reg[0xF] = 1;
    run_to_end(&mut cpu);

    assert_eq!(cpu.reg[0], 200);
    assert_eq!(cpu.reg[1], 55);
    assert_eq!(cpu.reg[0xF], 0);
}

#[test]
fn addr_carry() {
    let mut cpu = new_test(&[ADDR(0, 1)]);
    cpu.reg[0] = 200;
    cpu.reg[1] = 100;
    assert!(matches!(cpu.step(), Ok(StepResult::Continue(false))));

    assert_eq!(cpu.reg[0], 44);
    assert_eq!(cpu.reg[0xF], 1);
}

#[test]
fn sub_wraps_silently() {
    let mut cpu = new_test(&[SUB(0, 1)]);
    cpu.reg[0] = 5;
    cpu.reg[1] = 10;
    cpu.reg[0xF] = 0;
    cpu.step().unwrap();

    assert_eq!(cpu.reg[0], 251);
    assert_eq!(cpu.reg[0xF], 0);
}

/// The skip family only ever moves the program counter by 2 or 4.
#[test]
fn skip_taken_moves_four() {
    let mut cpu = new_test(&[SKE(0, 5)]);
    cpu.reg[0] = 5;
    cpu.step().unwrap();
    assert_eq!(cpu.pc, 0x204);
}

#[test]
fn skip_not_taken_moves_two() {
    let mut cpu = new_test(&[SKE(0, 5)]);
    cpu.reg[0] = 4;
    cpu.step().unwrap();
    assert_eq!(cpu.pc, 0x202);
}

/// The register-compare skips take the branch when the registers differ.
#[test]
fn skre_skips_on_difference() {
    let mut cpu = new_test(&[SKRE(0, 1)]);
    cpu.reg[0] = 1;
    cpu.reg[1] = 2;
    cpu.step().unwrap();
    assert_eq!(cpu.pc, 0x204);

    let mut cpu2 = new_test(&[SKRE(0, 1)]);
    cpu2.reg[0] = 7;
    cpu2.reg[1] = 7;
    cpu2.step().unwrap();
    assert_eq!(cpu2.pc, 0x202);
}

/// CALL then RTS returns the program counter to the call site plus two,
/// with the stack empty again.
#[test]
fn call_rts_round_trip_pc() {
    let mut cpu = new_test(&[
        CALL(0x210), // 0x200
        LOAD(0, 42), // 0x202
        SYS(0),      // 0x204
        SYS(0),      // 0x206
        SYS(0),      // 0x208
        SYS(0),      // 0x20a
        SYS(0),      // 0x20c
        SYS(0),      // 0x20e
        RTS,         // 0x210
    ]);
    cpu.step().unwrap();
    assert_eq!(cpu.pc, 0x210);
    assert_eq!(cpu.stack.len(), 1);
    assert_eq!(cpu.stack[0], 0x200);

    cpu.step().unwrap();
    assert_eq!(cpu.pc, 0x202);
    assert!(cpu.stack.is_empty());
}

/// A jump targeting its own address reports a tight loop instead of
/// spinning inside step.
#[test]
fn self_jump_reports_loop() {
    let mut cpu = new_test(&[JUMP(0x200)]);
    assert_eq!(cpu.step(), Ok(StepResult::Loop));
    assert_eq!(cpu.pc, 0x200);
}

#[test]
fn self_call_reports_loop() {
    let mut cpu = new_test(&[CALL(0x200)]);
    assert_eq!(cpu.step(), Ok(StepResult::Loop));
    assert_eq!(cpu.pc, 0x200);
    assert!(cpu.stack.is_empty());
}

#[test]
fn jump_sets_pc() {
    let mut cpu = new_test(&[JUMP(0x300)]);
    cpu.step().unwrap();
    assert_eq!(cpu.pc, 0x300);
}

#[test]
fn jumpi_adds_register_zero() {
    let mut cpu = new_test(&[JUMPI(0x300)]);
    cpu.reg[0] = 4;
    cpu.step().unwrap();
    assert_eq!(cpu.pc, 0x304);
}

#[test]
fn sys_zero_halts() {
    let mut cpu = new_test(&[SYS(0)]);
    assert_eq!(cpu.step(), Ok(StepResult::End));
    assert_eq!(cpu.pc, 0x200);
}

#[test]
fn sys_nonzero_is_fatal() {
    let mut cpu = new_test(&[SYS(0x123)]);
    assert_eq!(cpu.step(), Err(EngineError::Sys(0x123)));
}

#[test]
fn rts_on_empty_stack_is_fatal() {
    let mut cpu = new_test(&[RTS]);
    assert_eq!(cpu.step(), Err(EngineError::EmptyStack));
}

#[test]
fn unknown_word_is_fatal() {
    let mut cpu = new_test(&[]);
    cpu.mem[0x200] = 0x50;
    cpu.mem[0x201] = 0x01;
    assert_eq!(cpu.step(), Err(EngineError::UnknownInstruction(0x5001)));
}

#[test]
fn ldspr_points_at_glyph() {
    let mut cpu = new_test(&[LOAD(0, 0xF), LDSPR(0)]);
    run_to_end(&mut cpu);
    assert_eq!(cpu.idx, 75);
}

#[test]
fn ldspr_rejects_bad_glyph() {
    let mut cpu = new_test(&[LOAD(0, 16), LDSPR(0)]);
    cpu.step().unwrap();
    assert_eq!(cpu.step(), Err(EngineError::SpriteIndex(16)));
}

#[test]
fn bcd_writes_digits() {
    let mut cpu = new_test(&[LOAD(0, 234), LOADI(0x300), BCD(0)]);
    run_to_end(&mut cpu);
    assert_eq!(cpu.mem[0x300], 2);
    assert_eq!(cpu.mem[0x301], 3);
    assert_eq!(cpu.mem[0x302], 4);
}

#[test]
fn stor_then_read_round_trips() {
    let mut cpu = new_test(&[LOAD(0, 11), LOAD(1, 22), LOADI(0x300), STOR(1)]);
    run_to_end(&mut cpu);
    assert_eq!(cpu.mem[0x300], 11);
    assert_eq!(cpu.mem[0x301], 22);
    assert_eq!(cpu.idx, 0x302);

    let mut cpu2 = new_test(&[LOADI(0x300), READ(1)]);
    cpu2.mem[0x300] = 33;
    cpu2.mem[0x301] = 44;
    run_to_end(&mut cpu2);
    assert_eq!(cpu2.reg[0], 33);
    assert_eq!(cpu2.reg[1], 44);
    assert_eq!(cpu2.idx, 0x302);
}

#[test]
fn stor_past_end_is_fatal() {
    let mut cpu = new_test(&[STOR(1)]);
    cpu.idx = 0xFFF;
    assert_eq!(cpu.step(), Err(EngineError::MemoryOutOfRange));
}

#[test]
fn draw_past_end_is_fatal() {
    let mut cpu = new_test(&[DRAW(0, 1, 2)]);
    cpu.idx = 0xFFF;
    assert_eq!(cpu.step(), Err(EngineError::MemoryOutOfRange));
}

#[test]
fn keyd_waits_for_a_key() {
    let mut cpu = new_test(&[KEYD(3)]);
    assert_eq!(cpu.step(), Ok(StepResult::Continue(false)));
    assert_eq!(cpu.pc, 0x200);

    cpu.io.keystate[7] = true;
    assert_eq!(cpu.step(), Ok(StepResult::Continue(false)));
    assert_eq!(cpu.reg[3], 7);
    assert_eq!(cpu.pc, 0x202);
}

#[test]
fn timer_reads_and_writes() {
    let mut cpu = new_test(&[LOAD(0, 5), LOADD(0), MOVED(1)]);
    run_to_end(&mut cpu);
    assert_eq!(cpu.delay, 5);
    assert_eq!(cpu.reg[1], 5);
}

#[test]
fn tick_timer_saturates_at_zero() {
    let mut cpu = new_test(&[]);
    cpu.delay = 2;
    cpu.tick_timer();
    assert_eq!(cpu.delay, 1);
    cpu.tick_timer();
    assert_eq!(cpu.delay, 0);
    cpu.tick_timer();
    assert_eq!(cpu.delay, 0);
}

#[test]
fn addi_advances_index() {
    let mut cpu = new_test(&[LOADI(0x300), LOAD(0, 5), ADDI(0)]);
    run_to_end(&mut cpu);
    assert_eq!(cpu.idx, 0x305);
}

/// The shifts write into the second operand register and derive the flag
/// from the second operand's value.
#[test]
fn shr_uses_second_operand() {
    let mut cpu = new_test(&[SHR(0, 1)]);
    cpu.reg[0] = 5;
    cpu.reg[1] = 3;
    cpu.step().unwrap();
    assert_eq!(cpu.reg[0xF], 1);
    assert_eq!(cpu.reg[1], 2);
    assert_eq!(cpu.reg[0], 5);
}

#[test]
fn shl_uses_second_operand() {
    let mut cpu = new_test(&[SHL(0, 1)]);
    cpu.reg[0] = 0x90;
    cpu.reg[1] = 0x70;
    cpu.step().unwrap();
    assert_eq!(cpu.reg[0xF], 0x60);
    assert_eq!(cpu.reg[1], 0x20);
    assert_eq!(cpu.reg[0], 0x90);
}

#[test]
fn rand_zero_bound_gives_zero() {
    let mut cpu = new_test(&[RAND(0, 0)]);
    cpu.reg[0] = 99;
    cpu.step().unwrap();
    assert_eq!(cpu.reg[0], 0);
}

/// The collision flag is set exactly when a sprite bit lands on a lit
/// pixel; pixels are XORed either way.
#[test]
fn draw_collision_turns_pixel_off() {
    let mut cpu = new_test(&[DRAW(0, 1, 1)]);
    cpu.idx = 0x300;
    cpu.mem[0x300] = 0x80;
    cpu.io.display[0][0] = true;
    assert_eq!(cpu.step(), Ok(StepResult::Continue(true)));
    assert_eq!(cpu.reg[0xF], 1);
    assert!(!cpu.io.display[0][0]);
}

#[test]
fn draw_wraps_coordinates() {
    let mut cpu = new_test(&[DRAW(0, 1, 1)]);
    cpu.reg[0] = 62;
    cpu.reg[1] = 31;
    cpu.idx = 0x300;
    cpu.mem[0x300] = 0xFF;
    cpu.step().unwrap();
    assert_eq!(cpu.reg[0xF], 0);
    assert!(cpu.io.display[31][62]);
    assert!(cpu.io.display[31][63]);
    assert!(cpu.io.display[31][0]);
    assert!(cpu.io.display[31][5]);
}

#[test]
fn clr_blanks_display() {
    let mut cpu = new_test(&[DRAW(0, 1, 1), CLR]);
    cpu.idx = 0x300;
    cpu.mem[0x300] = 0xFF;
    assert_eq!(cpu.step(), Ok(StepResult::Continue(true)));
    assert!(cpu.io.display[0][3]);
    cpu.step().unwrap();
    for row in &cpu.io.display {
        for pixel in row {
            assert!(!pixel);
        }
    }
}

#[test]
fn paused_machine_does_nothing() {
    let mut cpu = new_test(&[LOAD(0, 10)]);
    cpu.paused = true;
    assert_eq!(cpu.step(), Ok(StepResult::Continue(false)));
    assert_eq!(cpu.pc, 0x200);
    assert_eq!(cpu.reg[0], 0);
}

#[test]
fn reset_restores_initial_snapshot() {
    let mut cpu = new_test(&[LOAD(0, 10), LOAD(1, 20)]);
    run_to_end(&mut cpu);
    cpu.mem[0x300] = 77;
    cpu.io.keystate[2] = true;
    cpu.reset();

    assert_eq!(cpu.pc, 0x200);
    assert_eq!(cpu.reg[0], 0);
    assert_eq!(cpu.reg[1], 0);
    assert_eq!(cpu.mem[0x300], 0);
    assert!(cpu.stack.is_empty());
    assert!(!cpu.io.keystate[2]);
    // the program survives the reset
    run_to_end(&mut cpu);
    assert_eq!(cpu.reg[0], 10);
    assert_eq!(cpu.reg[1], 20);
}

#[test]
fn font_is_preloaded() {
    let cpu = new_test(&[]);
    assert_eq!(cpu.mem[0], 0xF0);
    assert_eq!(cpu.mem[79], 0x80);
    assert_eq!(cpu.mem[80], 0);
}

#[test]
fn pc_out_of_range_is_fatal() {
    let mut cpu = new_test(&[JUMPI(0xFFF)]);
    cpu.reg[0] = 4;
    cpu.step().unwrap();
    assert_eq!(cpu.pc, 0x1003);
    assert_eq!(cpu.step(), Err(EngineError::PcOutOfRange));
}

#[test]
fn addi_overflow_is_fatal() {
    let mut cpu = new_test(&[ADDI(0)]);
    cpu.idx = 0xFFFF;
    cpu.reg[0] = 1;
    assert_eq!(cpu.step(), Err(EngineError::MemoryOutOfRange));
}

#[test]
fn bcd_past_end_is_fatal() {
    let mut cpu = new_test(&[BCD(0)]);
    cpu.idx = 0xFFE;
    assert_eq!(cpu.step(), Err(EngineError::MemoryOutOfRange));
}

#[test]
fn skpr_skips_when_pressed() {
    let mut cpu = new_test(&[SKPR(0)]);
    cpu.reg[0] = 5;
    cpu.io.keystate[5] = true;
    cpu.step().unwrap();
    assert_eq!(cpu.pc, 0x204);
}

/// A key index past the keypad reads as "not pressed", not as an error.
#[test]
fn skpr_out_of_range_key_reads_unpressed() {
    let mut cpu = new_test(&[SKPR(0)]);
    cpu.reg[0] = 200;
    cpu.step().unwrap();
    assert_eq!(cpu.pc, 0x202);
}

#[test]
fn register_ops() {
    let mut cpu = new_test(&[MOVE(2, 0), OR(3, 1), AND(4, 1), XOR(5, 1)]);
    cpu.reg[0] = 0x0F;
    cpu.reg[1] = 0x33;
    cpu.reg[3] = 0x0F;
    cpu.reg[4] = 0x0F;
    cpu.reg[5] = 0x0F;
    run_to_end(&mut cpu);
    assert_eq!(cpu.reg[2], 0x0F);
    assert_eq!(cpu.reg[3], 0x3F);
    assert_eq!(cpu.reg[4], 0x03);
    assert_eq!(cpu.reg[5], 0x3C);
}
