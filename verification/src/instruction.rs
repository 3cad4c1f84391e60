//! The instruction set: a tagged instruction value, the decoder from 16-bit
//! words, the encoder back to words, and the proof that the two round-trip.

use vstd::prelude::*;

verus! {

use vstd::arithmetic::div_mod::{
    lemma_div_denominator, lemma_fundamental_div_mod, lemma_fundamental_div_mod_converse,
    lemma_mod_division_less_than_divisor, lemma_small_mod,
};

/// A decoded instruction.
///
/// Operand conventions: register operands are 4-bit indices (0..=15),
/// immediates are 8-bit, addresses are 12-bit, sprite heights are 4-bit.
#[derive(Debug, Copy, Clone, PartialEq, Eq, Structural)]
pub enum Instruction {
    /// Opcode 00E0: clear the display.
    CLR,
    /// Opcode 00EE: return from a subroutine.
    RTS,
    /// Opcode Dxyn: draw an n-byte sprite at (v[x], v[y]).
    DRAW(u8, u8, u8),
    /// Opcode 0nnn (other than 00E0/00EE): system call; 0 halts the machine.
    SYS(u16),
    /// Opcode 1nnn: jump to an address.
    JUMP(u16),
    /// Opcode 2nnn: call a subroutine.
    CALL(u16),
    /// Opcode Annn: load an address into the index register.
    LOADI(u16),
    /// Opcode Bnnn: jump to an address plus v[0].
    JUMPI(u16),
    /// Opcode 3xnn: skip the next instruction if v[x] equals the immediate.
    SKE(u8, u8),
    /// Opcode 4xnn: skip the next instruction if v[x] differs from the immediate.
    SKNE(u8, u8),
    /// Opcode 6xnn: load an immediate into v[x].
    LOAD(u8, u8),
    /// Opcode 7xnn: add an immediate to v[x].
    ADD(u8, u8),
    /// Opcode Cxnn: load a random value bounded by the immediate into v[x].
    RAND(u8, u8),
    /// Opcode 5xy0: skip over the next instruction on a register comparison.
    SKRE(u8, u8),
    /// Opcode 9xy0: skip over the next instruction on a register comparison.
    SKRNE(u8, u8),
    /// Opcode 8xy0: copy v[y] into v[x].
    MOVE(u8, u8),
    /// Opcode 8xy1: bitwise or of v[x] and v[y] into v[x].
    OR(u8, u8),
    /// Opcode 8xy2: bitwise and of v[x] and v[y] into v[x].
    AND(u8, u8),
    /// Opcode 8xy3: bitwise xor of v[x] and v[y] into v[x].
    XOR(u8, u8),
    /// Opcode 8xy4: add v[y] to v[x] with the carry flag.
    ADDR(u8, u8),
    /// Opcode 8xy5: subtract v[y] from v[x], wrapping.
    SUB(u8, u8),
    /// Opcode 8xy6: shift v[x] right by one into v[y].
    SHR(u8, u8),
    /// Opcode 8xyE: shift v[x] left by one into v[y].
    SHL(u8, u8),
    /// Opcode Ex9E: skip if the key indexed by v[x] is pressed.
    SKPR(u8),
    /// Opcode ExA1: skip if the key indexed by v[x] is not pressed.
    SKUP(u8),
    /// Opcode Fx07: read the delay timer into v[x].
    MOVED(u8),
    /// Opcode Fx0A: wait for a key press and store the key in v[x].
    KEYD(u8),
    /// Opcode Fx15: load v[x] into the delay timer.
    LOADD(u8),
    /// Opcode Fx18: load v[x] into the sound timer (not emulated).
    LOADS(u8),
    /// Opcode Fx1E: add v[x] to the index register.
    ADDI(u8),
    /// Opcode Fx29: point the index register at the font sprite for v[x].
    LDSPR(u8),
    /// Opcode Fx33: write the decimal digits of v[x] to memory.
    BCD(u8),
    /// Opcode Fx55: store v[0]..=v[x] to memory at the index register.
    STOR(u8),
    /// Opcode Fx65: read v[0]..=v[x] from memory at the index register.
    READ(u8),
}

/// Decoding failed: the word matches no known opcode pattern.
#[derive(Debug, Copy, Clone, PartialEq, Eq, Structural)]
pub enum DecodeError {
    Unknown(u16),
}

/// The 12-bit address field of a word.
pub open spec fn word_nnn(w: u16) -> u16 {
    (w % 0x1000) as u16
}

/// The 8-bit immediate field of a word.
pub open spec fn word_kk(w: u16) -> u8 {
    (w % 0x100) as u8
}

/// The first register field of a word (bits 8..12).
pub open spec fn word_x(w: u16) -> u8 {
    ((w / 0x100) % 0x10) as u8
}

/// The second register field of a word (bits 4..8).
pub open spec fn word_y(w: u16) -> u8 {
    ((w / 0x10) % 0x10) as u8
}

/// The low nibble of a word.
pub open spec fn word_n(w: u16) -> u8 {
    (w % 0x10) as u8
}

/// What a 16-bit word decodes to, if anything.
pub open spec fn decode_spec(w: u16) -> Option<Instruction> {
    let top = w / 0x1000;
    if top == 0x0 {
        if w == 0x00E0 {
            Some(Instruction::CLR)
        } else if w == 0x00EE {
            Some(Instruction::RTS)
        } else {
            Some(Instruction::SYS(word_nnn(w)))
        }
    } else if top == 0x1 {
        Some(Instruction::JUMP(word_nnn(w)))
    } else if top == 0x2 {
        Some(Instruction::CALL(word_nnn(w)))
    } else if top == 0x3 {
        Some(Instruction::SKE(word_x(w), word_kk(w)))
    } else if top == 0x4 {
        Some(Instruction::SKNE(word_x(w), word_kk(w)))
    } else if top == 0x5 {
        if w % 0x10 == 0x0 {
            Some(Instruction::SKRE(word_x(w), word_y(w)))
        } else {
            None
        }
    } else if top == 0x6 {
        Some(Instruction::LOAD(word_x(w), word_kk(w)))
    } else if top == 0x7 {
        Some(Instruction::ADD(word_x(w), word_kk(w)))
    } else if top == 0x8 {
        let low = w % 0x10;
        if low == 0x0 {
            Some(Instruction::MOVE(word_x(w), word_y(w)))
        } else if low == 0x1 {
            Some(Instruction::OR(word_x(w), word_y(w)))
        } else if low == 0x2 {
            Some(Instruction::AND(word_x(w), word_y(w)))
        } else if low == 0x3 {
            Some(Instruction::XOR(word_x(w), word_y(w)))
        } else if low == 0x4 {
            Some(Instruction::ADDR(word_x(w), word_y(w)))
        } else if low == 0x5 {
            Some(Instruction::SUB(word_x(w), word_y(w)))
        } else if low == 0x6 {
            Some(Instruction::SHR(word_x(w), word_y(w)))
        } else if low == 0xE {
            Some(Instruction::SHL(word_x(w), word_y(w)))
        } else {
            None
        }
    } else if top == 0x9 {
        if w % 0x10 == 0x0 {
            Some(Instruction::SKRNE(word_x(w), word_y(w)))
        } else {
            None
        }
    } else if top == 0xA {
        Some(Instruction::LOADI(word_nnn(w)))
    } else if top == 0xB {
        Some(Instruction::JUMPI(word_nnn(w)))
    } else if top == 0xC {
        Some(Instruction::RAND(word_x(w), word_kk(w)))
    } else if top == 0xD {
        Some(Instruction::DRAW(word_x(w), word_y(w), word_n(w)))
    } else if top == 0xE {
        let low = w % 0x100;
        if low == 0x9E {
            Some(Instruction::SKPR(word_x(w)))
        } else if low == 0xA1 {
            Some(Instruction::SKUP(word_x(w)))
        } else {
            None
        }
    } else if top == 0xF {
        let low = w % 0x100;
        if low == 0x07 {
            Some(Instruction::MOVED(word_x(w)))
        } else if low == 0x0A {
            Some(Instruction::KEYD(word_x(w)))
        } else if low == 0x15 {
            Some(Instruction::LOADD(word_x(w)))
        } else if low == 0x18 {
            Some(Instruction::LOADS(word_x(w)))
        } else if low == 0x1E {
            Some(Instruction::ADDI(word_x(w)))
        } else if low == 0x29 {
            Some(Instruction::LDSPR(word_x(w)))
        } else if low == 0x33 {
            Some(Instruction::BCD(word_x(w)))
        } else if low == 0x55 {
            Some(Instruction::STOR(word_x(w)))
        } else if low == 0x65 {
            Some(Instruction::READ(word_x(w)))
        } else {
            None
        }
    } else {
        None
    }
}

/// The word an instruction encodes to. Oversized operands are reduced to
/// their field width first, exactly as the field extraction would see them.
pub open spec fn encode_spec(i: Instruction) -> u16 {
    match i {
        Instruction::CLR => 0x00E0,
        Instruction::RTS => 0x00EE,
        Instruction::DRAW(x, y, n) => (0xD000 + (x % 0x10) * 0x100 + (y % 0x10) * 0x10 + n % 0x10) as u16,
        Instruction::SYS(a) => (a % 0x1000) as u16,
        Instruction::JUMP(a) => (0x1000 + a % 0x1000) as u16,
        Instruction::CALL(a) => (0x2000 + a % 0x1000) as u16,
        Instruction::LOADI(a) => (0xA000 + a % 0x1000) as u16,
        Instruction::JUMPI(a) => (0xB000 + a % 0x1000) as u16,
        Instruction::SKE(x, v) => (0x3000 + (x % 0x10) * 0x100 + v) as u16,
        Instruction::SKNE(x, v) => (0x4000 + (x % 0x10) * 0x100 + v) as u16,
        Instruction::LOAD(x, v) => (0x6000 + (x % 0x10) * 0x100 + v) as u16,
        Instruction::ADD(x, v) => (0x7000 + (x % 0x10) * 0x100 + v) as u16,
        Instruction::RAND(x, v) => (0xC000 + (x % 0x10) * 0x100 + v) as u16,
        Instruction::SKRE(x, y) => (0x5000 + (x % 0x10) * 0x100 + (y % 0x10) * 0x10) as u16,
        Instruction::SKRNE(x, y) => (0x9000 + (x % 0x10) * 0x100 + (y % 0x10) * 0x10) as u16,
        Instruction::MOVE(x, y) => (0x8000 + (x % 0x10) * 0x100 + (y % 0x10) * 0x10) as u16,
        Instruction::OR(x, y) => (0x8001 + (x % 0x10) * 0x100 + (y % 0x10) * 0x10) as u16,
        Instruction::AND(x, y) => (0x8002 + (x % 0x10) * 0x100 + (y % 0x10) * 0x10) as u16,
        Instruction::XOR(x, y) => (0x8003 + (x % 0x10) * 0x100 + (y % 0x10) * 0x10) as u16,
        Instruction::ADDR(x, y) => (0x8004 + (x % 0x10) * 0x100 + (y % 0x10) * 0x10) as u16,
        Instruction::SUB(x, y) => (0x8005 + (x % 0x10) * 0x100 + (y % 0x10) * 0x10) as u16,
        Instruction::SHR(x, y) => (0x8006 + (x % 0x10) * 0x100 + (y % 0x10) * 0x10) as u16,
        Instruction::SHL(x, y) => (0x800E + (x % 0x10) * 0x100 + (y % 0x10) * 0x10) as u16,
        Instruction::SKPR(x) => (0xE09E + (x % 0x10) * 0x100) as u16,
        Instruction::SKUP(x) => (0xE0A1 + (x % 0x10) * 0x100) as u16,
        Instruction::MOVED(x) => (0xF007 + (x % 0x10) * 0x100) as u16,
        Instruction::KEYD(x) => (0xF00A + (x % 0x10) * 0x100) as u16,
        Instruction::LOADD(x) => (0xF015 + (x % 0x10) * 0x100) as u16,
        Instruction::LOADS(x) => (0xF018 + (x % 0x10) * 0x100) as u16,
        Instruction::ADDI(x) => (0xF01E + (x % 0x10) * 0x100) as u16,
        Instruction::LDSPR(x) => (0xF029 + (x % 0x10) * 0x100) as u16,
        Instruction::BCD(x) => (0xF033 + (x % 0x10) * 0x100) as u16,
        Instruction::STOR(x) => (0xF055 + (x % 0x10) * 0x100) as u16,
        Instruction::READ(x) => (0xF065 + (x % 0x10) * 0x100) as u16,
    }
}

/// Every operand fits its encoding field. Decoded instructions always
/// satisfy this, and on such instructions encoding is injective.
pub open spec fn operands_in_range(i: Instruction) -> bool {
    match i {
        Instruction::CLR => true,
        Instruction::RTS => true,
        Instruction::DRAW(x, y, n) => x < 0x10 && y < 0x10 && n < 0x10,
        Instruction::SYS(a) => a < 0x1000 && a != 0x0E0 && a != 0x0EE,
        Instruction::JUMP(a) => a < 0x1000,
        Instruction::CALL(a) => a < 0x1000,
        Instruction::LOADI(a) => a < 0x1000,
        Instruction::JUMPI(a) => a < 0x1000,
        Instruction::SKE(x, _) => x < 0x10,
        Instruction::SKNE(x, _) => x < 0x10,
        Instruction::LOAD(x, _) => x < 0x10,
        Instruction::ADD(x, _) => x < 0x10,
        Instruction::RAND(x, _) => x < 0x10,
        Instruction::SKRE(x, y) => x < 0x10 && y < 0x10,
        Instruction::SKRNE(x, y) => x < 0x10 && y < 0x10,
        Instruction::MOVE(x, y) => x < 0x10 && y < 0x10,
        Instruction::OR(x, y) => x < 0x10 && y < 0x10,
        Instruction::AND(x, y) => x < 0x10 && y < 0x10,
        Instruction::XOR(x, y) => x < 0x10 && y < 0x10,
        Instruction::ADDR(x, y) => x < 0x10 && y < 0x10,
        Instruction::SUB(x, y) => x < 0x10 && y < 0x10,
        Instruction::SHR(x, y) => x < 0x10 && y < 0x10,
        Instruction::SHL(x, y) => x < 0x10 && y < 0x10,
        Instruction::SKPR(x) => x < 0x10,
        Instruction::SKUP(x) => x < 0x10,
        Instruction::MOVED(x) => x < 0x10,
        Instruction::KEYD(x) => x < 0x10,
        Instruction::LOADD(x) => x < 0x10,
        Instruction::LOADS(x) => x < 0x10,
        Instruction::ADDI(x) => x < 0x10,
        Instruction::LDSPR(x) => x < 0x10,
        Instruction::BCD(x) => x < 0x10,
        Instruction::STOR(x) => x < 0x10,
        Instruction::READ(x) => x < 0x10,
    }
}

/// The 12-bit address field of a word.
pub fn addr(x: u16) -> (r: u16)
    ensures
        r == word_nnn(x),
{
    x % 0x1000
}

/// The 8-bit immediate field of a word.
pub fn imm(x: u16) -> (r: u8)
    ensures
        r == word_kk(x),
{
    (x % 0x100) as u8
}

/// The first register field of a word.
pub fn r1(x: u16) -> (r: u8)
    ensures
        r == word_x(x),
{
    ((x / 0x100) % 0x10) as u8
}

/// The second register field of a word.
pub fn r2(x: u16) -> (r: u8)
    ensures
        r == word_y(x),
{
    ((x / 0x10) % 0x10) as u8
}

/// Decode a 16-bit word into an instruction, dispatching on the top nibble
/// and, for several top nibbles, on a secondary selector in the low bits.
pub fn decode(w: u16) -> (r: Result<Instruction, DecodeError>)
    ensures
        r matches Ok(i) ==> decode_spec(w) == Some(i),
        r matches Err(e) ==> decode_spec(w) is None && e == DecodeError::Unknown(w),
{
    match w / 0x1000 {
        0x0 => {
            if w == 0x00E0 {
                Ok(Instruction::CLR)
            } else if w == 0x00EE {
                Ok(Instruction::RTS)
            } else {
                Ok(Instruction::SYS(addr(w)))
            }
        },
        0x1 => Ok(Instruction::JUMP(addr(w))),
        0x2 => Ok(Instruction::CALL(addr(w))),
        0x3 => Ok(Instruction::SKE(r1(w), imm(w))),
        0x4 => Ok(Instruction::SKNE(r1(w), imm(w))),
        0x5 => match w % 0x10 {
            0x0 => Ok(Instruction::SKRE(r1(w), r2(w))),
            _ => Err(DecodeError::Unknown(w)),
        },
        0x6 => Ok(Instruction::LOAD(r1(w), imm(w))),
        0x7 => Ok(Instruction::ADD(r1(w), imm(w))),
        0x8 => match w % 0x10 {
            0x0 => Ok(Instruction::MOVE(r1(w), r2(w))),
            0x1 => Ok(Instruction::OR(r1(w), r2(w))),
            0x2 => Ok(Instruction::AND(r1(w), r2(w))),
            0x3 => Ok(Instruction::XOR(r1(w), r2(w))),
            0x4 => Ok(Instruction::ADDR(r1(w), r2(w))),
            0x5 => Ok(Instruction::SUB(r1(w), r2(w))),
            0x6 => Ok(Instruction::SHR(r1(w), r2(w))),
            0xE => Ok(Instruction::SHL(r1(w), r2(w))),
            _ => Err(DecodeError::Unknown(w)),
        },
        0x9 => match w % 0x10 {
            0x0 => Ok(Instruction::SKRNE(r1(w), r2(w))),
            _ => Err(DecodeError::Unknown(w)),
        },
        0xA => Ok(Instruction::LOADI(addr(w))),
        0xB => Ok(Instruction::JUMPI(addr(w))),
        0xC => Ok(Instruction::RAND(r1(w), imm(w))),
        0xD => Ok(Instruction::DRAW(r1(w), r2(w), (w % 0x10) as u8)),
        0xE => match w % 0x100 {
            0x9E => Ok(Instruction::SKPR(r1(w))),
            0xA1 => Ok(Instruction::SKUP(r1(w))),
            _ => Err(DecodeError::Unknown(w)),
        },
        0xF => match w % 0x100 {
            0x07 => Ok(Instruction::MOVED(r1(w))),
            0x0A => Ok(Instruction::KEYD(r1(w))),
            0x15 => Ok(Instruction::LOADD(r1(w))),
            0x18 => Ok(Instruction::LOADS(r1(w))),
            0x1E => Ok(Instruction::ADDI(r1(w))),
            0x29 => Ok(Instruction::LDSPR(r1(w))),
            0x33 => Ok(Instruction::BCD(r1(w))),
            0x55 => Ok(Instruction::STOR(r1(w))),
            0x65 => Ok(Instruction::READ(r1(w))),
            _ => Err(DecodeError::Unknown(w)),
        },
        _ => Err(DecodeError::Unknown(w)),
    }
}

/// Encode an instruction back into its 16-bit word.
pub fn encode(i: Instruction) -> (r: u16)
    ensures
        r == encode_spec(i),
{
    match i {
        Instruction::CLR => 0x00E0,
        Instruction::RTS => 0x00EE,
        Instruction::DRAW(x, y, n) => 0xD000 + (x as u16 % 0x10) * 0x100 + (y as u16 % 0x10) * 0x10 + n as u16 % 0x10,
        Instruction::SYS(a) => a % 0x1000,
        Instruction::JUMP(a) => 0x1000 + a % 0x1000,
        Instruction::CALL(a) => 0x2000 + a % 0x1000,
        Instruction::LOADI(a) => 0xA000 + a % 0x1000,
        Instruction::JUMPI(a) => 0xB000 + a % 0x1000,
        Instruction::SKE(x, v) => 0x3000 + (x as u16 % 0x10) * 0x100 + v as u16,
        Instruction::SKNE(x, v) => 0x4000 + (x as u16 % 0x10) * 0x100 + v as u16,
        Instruction::LOAD(x, v) => 0x6000 + (x as u16 % 0x10) * 0x100 + v as u16,
        Instruction::ADD(x, v) => 0x7000 + (x as u16 % 0x10) * 0x100 + v as u16,
        Instruction::RAND(x, v) => 0xC000 + (x as u16 % 0x10) * 0x100 + v as u16,
        Instruction::SKRE(x, y) => 0x5000 + (x as u16 % 0x10) * 0x100 + (y as u16 % 0x10) * 0x10,
        Instruction::SKRNE(x, y) => 0x9000 + (x as u16 % 0x10) * 0x100 + (y as u16 % 0x10) * 0x10,
        Instruction::MOVE(x, y) => 0x8000 + (x as u16 % 0x10) * 0x100 + (y as u16 % 0x10) * 0x10,
        Instruction::OR(x, y) => 0x8001 + (x as u16 % 0x10) * 0x100 + (y as u16 % 0x10) * 0x10,
        Instruction::AND(x, y) => 0x8002 + (x as u16 % 0x10) * 0x100 + (y as u16 % 0x10) * 0x10,
        Instruction::XOR(x, y) => 0x8003 + (x as u16 % 0x10) * 0x100 + (y as u16 % 0x10) * 0x10,
        Instruction::ADDR(x, y) => 0x8004 + (x as u16 % 0x10) * 0x100 + (y as u16 % 0x10) * 0x10,
        Instruction::SUB(x, y) => 0x8005 + (x as u16 % 0x10) * 0x100 + (y as u16 % 0x10) * 0x10,
        Instruction::SHR(x, y) => 0x8006 + (x as u16 % 0x10) * 0x100 + (y as u16 % 0x10) * 0x10,
        Instruction::SHL(x, y) => 0x800E + (x as u16 % 0x10) * 0x100 + (y as u16 % 0x10) * 0x10,
        Instruction::SKPR(x) => 0xE09E + (x as u16 % 0x10) * 0x100,
        Instruction::SKUP(x) => 0xE0A1 + (x as u16 % 0x10) * 0x100,
        Instruction::MOVED(x) => 0xF007 + (x as u16 % 0x10) * 0x100,
        Instruction::KEYD(x) => 0xF00A + (x as u16 % 0x10) * 0x100,
        Instruction::LOADD(x) => 0xF015 + (x as u16 % 0x10) * 0x100,
        Instruction::LOADS(x) => 0xF018 + (x as u16 % 0x10) * 0x100,
        Instruction::ADDI(x) => 0xF01E + (x as u16 % 0x10) * 0x100,
        Instruction::LDSPR(x) => 0xF029 + (x as u16 % 0x10) * 0x100,
        Instruction::BCD(x) => 0xF033 + (x as u16 % 0x10) * 0x100,
        Instruction::STOR(x) => 0xF055 + (x as u16 % 0x10) * 0x100,
        Instruction::READ(x) => 0xF065 + (x as u16 % 0x10) * 0x100,
    }
}

/// A word splits into its quotient/remainder fields, and the fields are in range.
proof fn lemma_word_decompose(w: u16)
    ensures
        w == (w / 0x1000) * 0x1000 + ((w / 0x100) % 0x10) * 0x100 + ((w / 0x10) % 0x10) * 0x10 + (
        w % 0x10),
        w % 0x1000 == ((w / 0x100) % 0x10) * 0x100 + ((w / 0x10) % 0x10) * 0x10 + (w % 0x10),
        w % 0x100 == ((w / 0x10) % 0x10) * 0x10 + (w % 0x10),
        0 <= w / 0x1000 < 0x10,
        0 <= (w / 0x100) % 0x10 < 0x10,
        0 <= (w / 0x10) % 0x10 < 0x10,
        0 <= w % 0x10 < 0x10,
        0 <= w % 0x100 < 0x100,
        0 <= w % 0x1000 < 0x1000,
{
    let wi = w as int;
    lemma_fundamental_div_mod(wi, 0x10);
    lemma_fundamental_div_mod(wi / 0x10, 0x10);
    lemma_fundamental_div_mod(wi / 0x100, 0x10);
    lemma_fundamental_div_mod(wi, 0x100);
    lemma_fundamental_div_mod(wi, 0x1000);
    lemma_div_denominator(wi, 0x10, 0x10);
    lemma_div_denominator(wi, 0x100, 0x10);
    lemma_mod_division_less_than_divisor(wi, 0x10);
    lemma_mod_division_less_than_divisor(wi, 0x100);
    lemma_mod_division_less_than_divisor(wi, 0x1000);
    lemma_mod_division_less_than_divisor(wi / 0x10, 0x10);
    lemma_mod_division_less_than_divisor(wi / 0x100, 0x10);
    assert(0 <= wi / 0x1000 < 0x10) by {
        lemma_fundamental_div_mod(wi, 0x1000);
        lemma_mod_division_less_than_divisor(wi, 0x1000);
        assert(wi < 0x10000);
    }
}

/// Four nibbles assemble into a word whose fields are exactly those nibbles.
proof fn lemma_word_compose(t: int, x: int, y: int, n: int)
    requires
        0 <= t < 0x10,
        0 <= x < 0x10,
        0 <= y < 0x10,
        0 <= n < 0x10,
    ensures
        (t * 0x1000 + x * 0x100 + y * 0x10 + n) / 0x1000 == t,
        ((t * 0x1000 + x * 0x100 + y * 0x10 + n) / 0x100) % 0x10 == x,
        ((t * 0x1000 + x * 0x100 + y * 0x10 + n) / 0x10) % 0x10 == y,
        (t * 0x1000 + x * 0x100 + y * 0x10 + n) % 0x10 == n,
        (t * 0x1000 + x * 0x100 + y * 0x10 + n) % 0x100 == y * 0x10 + n,
        (t * 0x1000 + x * 0x100 + y * 0x10 + n) % 0x1000 == x * 0x100 + y * 0x10 + n,
{
    let w = t * 0x1000 + x * 0x100 + y * 0x10 + n;
    lemma_fundamental_div_mod_converse(w, 0x1000, t, x * 0x100 + y * 0x10 + n);
    lemma_fundamental_div_mod_converse(w, 0x100, t * 0x10 + x, y * 0x10 + n);
    lemma_fundamental_div_mod_converse(w, 0x10, t * 0x100 + x * 0x10 + y, n);
    lemma_fundamental_div_mod_converse(w / 0x100, 0x10, t, x);
    lemma_fundamental_div_mod_converse(w / 0x10, 0x10, t * 0x10 + x, y);
}

/// An address and a top nibble assemble into a word with those two fields.
proof fn lemma_addr_form(t: int, a: int)
    requires
        0 <= t < 0x10,
        0 <= a < 0x1000,
    ensures
        (t * 0x1000 + a) / 0x1000 == t,
        (t * 0x1000 + a) % 0x1000 == a,
{
    lemma_fundamental_div_mod_converse(t * 0x1000 + a, 0x1000, t, a);
}

/// A register nibble and a low byte assemble into a word with those fields.
proof fn lemma_reg_byte_form(t: int, x: int, v: int)
    requires
        0 <= t < 0x10,
        0 <= x < 0x10,
        0 <= v < 0x100,
    ensures
        (t * 0x1000 + x * 0x100 + v) / 0x1000 == t,
        ((t * 0x1000 + x * 0x100 + v) / 0x100) % 0x10 == x,
        (t * 0x1000 + x * 0x100 + v) % 0x100 == v,
{
    let w = t * 0x1000 + x * 0x100 + v;
    lemma_fundamental_div_mod_converse(w, 0x1000, t, x * 0x100 + v);
    lemma_fundamental_div_mod_converse(w, 0x100, t * 0x10 + x, v);
    lemma_fundamental_div_mod_converse(w / 0x100, 0x10, t, x);
}

/// Decoding only ever produces instructions whose operands fit their fields.
pub proof fn lemma_decode_operands(w: u16)
    ensures
        decode_spec(w) matches Some(i) ==> operands_in_range(i),
{
    lemma_word_decompose(w);
    if w / 0x1000 == 0 && w != 0x00E0 && w != 0x00EE {
        assert(w == w % 0x1000);
    }
}

/// Round-trip law: every word that decodes to an instruction is recovered
/// exactly by encoding that instruction.
pub proof fn lemma_encode_of_decode(w: u16)
    ensures
        decode_spec(w) matches Some(i) ==> encode_spec(i) == w,
{
    lemma_word_decompose(w);
    let top = w / 0x1000;
    let x = word_x(w) as int;
    let y = word_y(w) as int;
    let n = word_n(w) as int;
    let kk = word_kk(w) as int;
    assert(x % 0x10 == x) by {
        lemma_small_mod(x as nat, 0x10);
    }
    assert(y % 0x10 == y) by {
        lemma_small_mod(y as nat, 0x10);
    }
    assert(n % 0x10 == n) by {
        lemma_small_mod(n as nat, 0x10);
    }
    if top == 0 && w != 0x00E0 && w != 0x00EE {
        assert(w == w % 0x1000);
        assert(w % 0x1000 % 0x1000 == w % 0x1000) by {
            lemma_small_mod((w % 0x1000) as nat, 0x1000);
        }
    }
    if top == 1 || top == 2 || top == 0xA || top == 0xB {
        assert(w % 0x1000 % 0x1000 == w % 0x1000) by {
            lemma_small_mod((w % 0x1000) as nat, 0x1000);
        }
    }
}

/// Round-trip law: every instruction with in-range operands is recovered
/// exactly by decoding its encoding.
pub proof fn lemma_decode_of_encode(i: Instruction)
    requires
        operands_in_range(i),
    ensures
        decode_spec(encode_spec(i)) == Some(i),
{
    match i {
        Instruction::CLR => {
            assert(0x00E0int / 0x1000 == 0) by {
                lemma_fundamental_div_mod_converse(0x00E0, 0x1000, 0, 0x00E0);
            }
        },
        Instruction::RTS => {
            assert(0x00EEint / 0x1000 == 0) by {
                lemma_fundamental_div_mod_converse(0x00EE, 0x1000, 0, 0x00EE);
            }
        },
        Instruction::SYS(a) => {
            lemma_addr_form(0, a as int);
            lemma_small_mod(a as nat, 0x1000);
        },
        Instruction::JUMP(a) => {
            lemma_addr_form(1, a as int);
            lemma_small_mod(a as nat, 0x1000);
        },
        Instruction::CALL(a) => {
            lemma_addr_form(2, a as int);
            lemma_small_mod(a as nat, 0x1000);
        },
        Instruction::LOADI(a) => {
            lemma_addr_form(0xA, a as int);
            lemma_small_mod(a as nat, 0x1000);
        },
        Instruction::JUMPI(a) => {
            lemma_addr_form(0xB, a as int);
            lemma_small_mod(a as nat, 0x1000);
        },
        Instruction::SKE(x, v) => {
            lemma_small_mod(x as nat, 0x10);
            lemma_regimm_case(3, x, v);
        },
        Instruction::SKNE(x, v) => {
            lemma_small_mod(x as nat, 0x10);
            lemma_regimm_case(4, x, v);
        },
        Instruction::LOAD(x, v) => {
            lemma_small_mod(x as nat, 0x10);
            lemma_regimm_case(6, x, v);
        },
        Instruction::ADD(x, v) => {
            lemma_small_mod(x as nat, 0x10);
            lemma_regimm_case(7, x, v);
        },
        Instruction::RAND(x, v) => {
            lemma_small_mod(x as nat, 0x10);
            lemma_regimm_case(0xC, x, v);
        },
        Instruction::SKRE(x, y) => {
            lemma_small_mod(x as nat, 0x10);
            lemma_small_mod(y as nat, 0x10);
            lemma_two_reg_case(5, x, y, 0);
        },
        Instruction::SKRNE(x, y) => {
            lemma_small_mod(x as nat, 0x10);
            lemma_small_mod(y as nat, 0x10);
            lemma_two_reg_case(9, x, y, 0);
        },
        Instruction::MOVE(x, y) => {
            lemma_small_mod(x as nat, 0x10);
            lemma_small_mod(y as nat, 0x10);
            lemma_two_reg_case(8, x, y, 0);
        },
        Instruction::OR(x, y) => {
            lemma_small_mod(x as nat, 0x10);
            lemma_small_mod(y as nat, 0x10);
            lemma_two_reg_case(8, x, y, 1);
        },
        Instruction::AND(x, y) => {
            lemma_small_mod(x as nat, 0x10);
            lemma_small_mod(y as nat, 0x10);
            lemma_two_reg_case(8, x, y, 2);
        },
        Instruction::XOR(x, y) => {
            lemma_small_mod(x as nat, 0x10);
            lemma_small_mod(y as nat, 0x10);
            lemma_two_reg_case(8, x, y, 3);
        },
        Instruction::ADDR(x, y) => {
            lemma_small_mod(x as nat, 0x10);
            lemma_small_mod(y as nat, 0x10);
            lemma_two_reg_case(8, x, y, 4);
        },
        Instruction::SUB(x, y) => {
            lemma_small_mod(x as nat, 0x10);
            lemma_small_mod(y as nat, 0x10);
            lemma_two_reg_case(8, x, y, 5);
        },
        Instruction::SHR(x, y) => {
            lemma_small_mod(x as nat, 0x10);
            lemma_small_mod(y as nat, 0x10);
            lemma_two_reg_case(8, x, y, 6);
        },
        Instruction::SHL(x, y) => {
            lemma_small_mod(x as nat, 0x10);
            lemma_small_mod(y as nat, 0x10);
            lemma_two_reg_case(8, x, y, 0xE);
        },
        Instruction::DRAW(x, y, n) => {
            lemma_word_compose(0xD, x as int, y as int, n as int);
            lemma_small_mod(x as nat, 0x10);
            lemma_small_mod(y as nat, 0x10);
            lemma_small_mod(n as nat, 0x10);
        },
        Instruction::SKPR(x) => {
            lemma_small_mod(x as nat, 0x10);
            lemma_one_reg_case(0xE, x, 0x9E);
        },
        Instruction::SKUP(x) => {
            lemma_small_mod(x as nat, 0x10);
            lemma_one_reg_case(0xE, x, 0xA1);
        },
        Instruction::MOVED(x) => {
            lemma_small_mod(x as nat, 0x10);
            lemma_one_reg_case(0xF, x, 0x07);
        },
        Instruction::KEYD(x) => {
            lemma_small_mod(x as nat, 0x10);
            lemma_one_reg_case(0xF, x, 0x0A);
        },
        Instruction::LOADD(x) => {
            lemma_small_mod(x as nat, 0x10);
            lemma_one_reg_case(0xF, x, 0x15);
        },
        Instruction::LOADS(x) => {
            lemma_small_mod(x as nat, 0x10);
            lemma_one_reg_case(0xF, x, 0x18);
        },
        Instruction::ADDI(x) => {
            lemma_small_mod(x as nat, 0x10);
            lemma_one_reg_case(0xF, x, 0x1E);
        },
        Instruction::LDSPR(x) => {
            lemma_small_mod(x as nat, 0x10);
            lemma_one_reg_case(0xF, x, 0x29);
        },
        Instruction::BCD(x) => {
            lemma_small_mod(x as nat, 0x10);
            lemma_one_reg_case(0xF, x, 0x33);
        },
        Instruction::STOR(x) => {
            lemma_small_mod(x as nat, 0x10);
            lemma_one_reg_case(0xF, x, 0x55);
        },
        Instruction::READ(x) => {
            lemma_small_mod(x as nat, 0x10);
            lemma_one_reg_case(0xF, x, 0x65);
        },
    }
}

/// Field recovery for the register-plus-immediate encodings.
proof fn lemma_regimm_case(t: int, x: u8, v: u8)
    requires
        0 <= t < 0x10,
        x < 0x10,
    ensures
        (t * 0x1000 + x * 0x100 + v) / 0x1000 == t,
        word_x((t * 0x1000 + x * 0x100 + v) as u16) == x,
        word_kk((t * 0x1000 + x * 0x100 + v) as u16) == v,
{
    lemma_reg_byte_form(t, x as int, v as int);
    lemma_small_mod(x as nat, 0x10);
}

/// Field recovery for the two-register encodings with a selector nibble.
proof fn lemma_two_reg_case(t: int, x: u8, y: u8, n: int)
    requires
        0 <= t < 0x10,
        0 <= n < 0x10,
        x < 0x10,
        y < 0x10,
    ensures
        (t * 0x1000 + x * 0x100 + y * 0x10 + n) / 0x1000 == t,
        word_x((t * 0x1000 + x * 0x100 + y * 0x10 + n) as u16) == x,
        word_y((t * 0x1000 + x * 0x100 + y * 0x10 + n) as u16) == y,
        (t * 0x1000 + x * 0x100 + y * 0x10 + n) % 0x10 == n,
{
    lemma_word_compose(t, x as int, y as int, n);
    lemma_small_mod(x as nat, 0x10);
    lemma_small_mod(y as nat, 0x10);
}

/// Field recovery for the one-register encodings with a selector byte.
proof fn lemma_one_reg_case(t: int, x: u8, c: int)
    requires
        0 <= t < 0x10,
        0 <= c < 0x100,
        x < 0x10,
    ensures
        (t * 0x1000 + x * 0x100 + c) / 0x1000 == t,
        word_x((t * 0x1000 + x * 0x100 + c) as u16) == x,
        (t * 0x1000 + x * 0x100 + c) % 0x100 == c,
{
    lemma_reg_byte_form(t, x as int, c);
    lemma_small_mod(x as nat, 0x10);
}

} // verus!
