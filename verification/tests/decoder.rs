use chip8::instruction::Instruction::{
    ADD, ADDI, ADDR, AND, BCD, CALL, CLR, DRAW, JUMP, JUMPI, KEYD, LDSPR, LOAD, LOADD, LOADI,
    LOADS, MOVE, MOVED, OR, RAND, READ, RTS, SHL, SHR, SKE, SKNE, SKPR, SKRE, SKRNE, SKUP, STOR,
    SUB, SYS, XOR,
};
use chip8::instruction::{decode, encode, DecodeError, Instruction};

#[test]
fn decode_each_variant() {
    assert_eq!(decode(0x00E0), Ok(CLR));
    assert_eq!(decode(0x00EE), Ok(RTS));
    assert_eq!(decode(0x0123), Ok(SYS(0x123)));
    assert_eq!(decode(0x1234), Ok(JUMP(0x234)));
    assert_eq!(decode(0x2345), Ok(CALL(0x345)));
    assert_eq!(decode(0x3ABC), Ok(SKE(0xA, 0xBC)));
    assert_eq!(decode(0x4ABC), Ok(SKNE(0xA, 0xBC)));
    assert_eq!(decode(0x5120), Ok(SKRE(1, 2)));
    assert_eq!(decode(0x6ABC), Ok(LOAD(0xA, 0xBC)));
    assert_eq!(decode(0x7ABC), Ok(ADD(0xA, 0xBC)));
    assert_eq!(decode(0x8120), Ok(MOVE(1, 2)));
    assert_eq!(decode(0x8121), Ok(OR(1, 2)));
    assert_eq!(decode(0x8122), Ok(AND(1, 2)));
    assert_eq!(decode(0x8123), Ok(XOR(1, 2)));
    assert_eq!(decode(0x8124), Ok(ADDR(1, 2)));
    assert_eq!(decode(0x8125), Ok(SUB(1, 2)));
    assert_eq!(decode(0x8126), Ok(SHR(1, 2)));
    assert_eq!(decode(0x812E), Ok(SHL(1, 2)));
    assert_eq!(decode(0x9120), Ok(SKRNE(1, 2)));
    assert_eq!(decode(0xA123), Ok(LOADI(0x123)));
    assert_eq!(decode(0xB123), Ok(JUMPI(0x123)));
    assert_eq!(decode(0xC1FF), Ok(RAND(1, 0xFF)));
    assert_eq!(decode(0xD12A), Ok(DRAW(1, 2, 0xA)));
    assert_eq!(decode(0xE19E), Ok(SKPR(1)));
    assert_eq!(decode(0xE1A1), Ok(SKUP(1)));
    assert_eq!(decode(0xF107), Ok(MOVED(1)));
    assert_eq!(decode(0xF10A), Ok(KEYD(1)));
    assert_eq!(decode(0xF115), Ok(LOADD(1)));
    assert_eq!(decode(0xF118), Ok(LOADS(1)));
    assert_eq!(decode(0xF11E), Ok(ADDI(1)));
    assert_eq!(decode(0xF129), Ok(LDSPR(1)));
    assert_eq!(decode(0xF133), Ok(BCD(1)));
    assert_eq!(decode(0xF155), Ok(STOR(1)));
    assert_eq!(decode(0xF165), Ok(READ(1)));
}

#[test]
fn unknown_selectors_are_rejected() {
    assert_eq!(decode(0x5121), Err(DecodeError::Unknown(0x5121)));
    assert_eq!(decode(0x8127), Err(DecodeError::Unknown(0x8127)));
    assert_eq!(decode(0x9121), Err(DecodeError::Unknown(0x9121)));
    assert_eq!(decode(0xE100), Err(DecodeError::Unknown(0xE100)));
    assert_eq!(decode(0xF1FF), Err(DecodeError::Unknown(0xF1FF)));
}

/// Round trip one way: every representable instruction decodes back from
/// its encoding.
#[test]
fn decode_of_encode_round_trips() {
    let samples: &[Instruction] = &[
        CLR,
        RTS,
        SYS(0),
        SYS(0x123),
        SYS(0xFFF),
        JUMP(0),
        JUMP(0xFFF),
        CALL(0x345),
        LOADI(0xABC),
        JUMPI(0x210),
        SKE(0, 0),
        SKE(15, 255),
        SKNE(7, 42),
        LOAD(3, 99),
        ADD(15, 255),
        RAND(4, 31),
        SKRE(1, 2),
        SKRNE(14, 15),
        MOVE(0, 15),
        OR(5, 6),
        AND(7, 8),
        XOR(9, 10),
        ADDR(11, 12),
        SUB(13, 14),
        SHR(15, 0),
        SHL(1, 15),
        DRAW(1, 2, 15),
        DRAW(15, 15, 0),
        SKPR(9),
        SKUP(10),
        MOVED(11),
        KEYD(12),
        LOADD(13),
        LOADS(14),
        ADDI(15),
        LDSPR(0),
        BCD(5),
        STOR(15),
        READ(15),
    ];
    for instr in samples {
        assert_eq!(decode(encode(*instr)), Ok(*instr));
    }
}

/// Round trip the other way: every one of the 65536 words that decodes at
/// all re-encodes to exactly itself.
#[test]
fn encode_of_decode_round_trips() {
    for word in 0..=0xFFFFu16 {
        if let Ok(instr) = decode(word) {
            assert_eq!(encode(instr), word);
        }
    }
}

#[test]
fn field_helpers() {
    assert_eq!(chip8::instruction::addr(0xD123), 0x123);
    assert_eq!(chip8::instruction::imm(0xD123), 0x23);
    assert_eq!(chip8::instruction::r1(0xD123), 1);
    assert_eq!(chip8::instruction::r2(0xD123), 2);
}
