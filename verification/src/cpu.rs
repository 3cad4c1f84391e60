//! The machine state and the execution engine.
//!
//! [`Chip8::step`] executes exactly one decoded instruction and is proved
//! against [`step_rel`], a transition relation that pins down the successor
//! state and the outcome for every instruction. The delay timer is
//! decremented by [`Chip8::tick_timer`], which the surrounding harness drives
//! at a fixed real-time cadence independent of the instruction rate.

use rand::Rng;
use vstd::prelude::*;

use crate::instruction::{decode, decode_spec, lemma_decode_operands, DecodeError, Instruction};

verus! {

use vstd::arithmetic::div_mod::{
    lemma_fundamental_div_mod, lemma_fundamental_div_mod_converse,
    lemma_mod_division_less_than_divisor, lemma_mod_multiples_vanish, lemma_small_mod,
};

/// Number of display rows.
pub const DISPLAY_ROWS: usize = 32;

/// Number of display columns.
pub const DISPLAY_COLS: usize = 64;

/// The shared input/output surface: key states written by the host,
/// and the monochrome display written by the engine.
pub struct Chip8IO {
    /// One flag per keypad key, true while the key is held down.
    pub keystate: Vec<bool>,
    /// The display as rows of pixels; true is a lit pixel.
    pub display: Vec<Vec<bool>>,
}

impl Chip8IO {
    /// The keypad has 16 keys and the display is 32 rows of 64 pixels.
    pub open spec fn wf(self) -> bool {
        &&& self.keystate@.len() == 16
        &&& self.display@.len() == 32
        &&& forall|r: int| 0 <= r < 32 ==> (#[trigger] self.display@[r])@.len() == 64
    }

    /// The two displays show the same image.
    pub open spec fn display_eq(self, other: Chip8IO) -> bool {
        &&& other.display@.len() == self.display@.len()
        &&& forall|r: int|
            0 <= r < self.display@.len() ==> (#[trigger] other.display@[r])@ == self.display@[r]@
    }

    /// The display shows nothing: full-size, every pixel off.
    pub open spec fn display_blank(self) -> bool {
        &&& self.display@.len() == 32
        &&& forall|r: int| 0 <= r < 32 ==> (#[trigger] self.display@[r])@.len() == 64
        &&& forall|r: int, c: int|
            0 <= r < 32 && 0 <= c < 64 ==> !(#[trigger] (self.display@[r])@[c])
    }

    /// No key held, no pixel lit.
    pub open spec fn cleared(self) -> bool {
        &&& self.wf()
        &&& forall|k: int| 0 <= k < 16 ==> !(#[trigger] self.keystate@[k])
        &&& self.display_blank()
    }

    /// A fresh IO surface: all keys up, all pixels off.
    pub fn new() -> (io: Chip8IO)
        ensures
            io.cleared(),
    {
        let mut keystate: Vec<bool> = Vec::new();
        for k in 0..16usize
            invariant
                keystate@.len() == k,
                forall|i: int| 0 <= i < k ==> !(#[trigger] keystate@[i]),
        {
            keystate.push(false);
        }
        let mut display: Vec<Vec<bool>> = Vec::new();
        for r in 0..32usize
            invariant
                display@.len() == r,
                forall|i: int| 0 <= i < r ==> (#[trigger] display@[i])@.len() == 64,
                forall|i: int, j: int| 0 <= i < r && 0 <= j < 64 ==> !(#[trigger] (display@[i])@[j]),
        {
            let mut row: Vec<bool> = Vec::new();
            for c in 0..64usize
                invariant
                    row@.len() == c,
                    forall|j: int| 0 <= j < c ==> !(#[trigger] row@[j]),
            {
                row.push(false);
            }
            display.push(row);
        }
        Chip8IO { keystate, display }
    }

    /// Release every key and turn off every pixel.
    pub fn reset(&mut self)
        ensures
            final(self).cleared(),
    {
        *self = Self::new();
    }
}

/// Outcome of one step of execution.
#[derive(Debug, Copy, Clone, PartialEq, Eq, Structural)]
pub enum StepResult {
    /// The program continues; the flag is true when the display changed.
    Continue(bool),
    /// A jump or call targeted its own address: the program spins forever.
    Loop,
    /// The program halted gracefully (a zero system call).
    End,
}

/// A fatal error: the engine cannot continue past it.
#[derive(Debug, Copy, Clone, PartialEq, Eq, Structural)]
pub enum EngineError {
    /// The word at the program counter decodes to no known instruction.
    UnknownInstruction(u16),
    /// A return was executed with an empty call stack.
    EmptyStack,
    /// A font-sprite lookup with a register value beyond the last glyph.
    SpriteIndex(u8),
    /// A system call with a non-zero operand.
    Sys(u16),
    /// The program counter points outside memory.
    PcOutOfRange,
    /// A memory block operation runs past the end of memory, or the index
    /// register overflows.
    MemoryOutOfRange,
}

/// The machine state, owned exclusively by the engine.
pub struct Chip8 {
    /// Saved program counters, pushed by CALL and popped by RTS.
    pub stack: Vec<u16>,
    /// The program counter.
    pub pc: u16,
    /// The 16 general-purpose registers; register 15 doubles as the
    /// carry/collision flag.
    pub reg: Vec<u8>,
    /// The 16-bit index register.
    pub idx: u16,
    /// The delay timer, decremented by `tick_timer`.
    pub delay: u8,
    /// Snapshot of memory right after loading, restored by `reset`.
    pub init_mem: Vec<u8>,
    /// 4096 bytes of memory: font, then the loaded program at 0x200.
    pub mem: Vec<u8>,
    /// The shared input/output surface.
    pub io: Chip8IO,
    /// While paused, `step` does nothing.
    pub paused: bool,
}

impl Chip8 {
    /// Structural well-formedness: the fixed sizes, and every saved program
    /// counter small enough that returning to it (plus two) stays in a u16.
    pub open spec fn wf(self) -> bool {
        &&& self.reg@.len() == 16
        &&& self.mem@.len() == 4096
        &&& self.init_mem@.len() == 4096
        &&& self.io.wf()
        &&& forall|k: int| 0 <= k < self.stack@.len() ==> (#[trigger] self.stack@[k]) <= 4094
    }

    /// The big-endian 16-bit word at memory address `a`.
    pub open spec fn mem_word(self, a: int) -> u16 {
        (self.mem@[a] * 0x100 + self.mem@[a + 1]) as u16
    }

    /// The word at the program counter.
    pub open spec fn cur_word(self) -> u16 {
        self.mem_word(self.pc as int)
    }
}

/// The two states are identical (the display compared pixel by pixel).
pub open spec fn state_eq(a: Chip8, b: Chip8) -> bool {
    &&& b.stack@ == a.stack@
    &&& b.pc == a.pc
    &&& b.reg@ == a.reg@
    &&& b.idx == a.idx
    &&& b.delay == a.delay
    &&& b.init_mem@ == a.init_mem@
    &&& b.mem@ == a.mem@
    &&& b.io.keystate@ == a.io.keystate@
    &&& a.io.display_eq(b.io)
    &&& b.paused == a.paused
}

/// The post state holds exactly the given registers, program counter, index,
/// timer, stack and memory; everything a step never writes (the pause flag,
/// the memory snapshot, the keypad) is carried over from the pre state.
/// The display is not constrained here.
pub open spec fn upd_nd(
    pre: Chip8,
    post: Chip8,
    regs: Seq<u8>,
    pc: u16,
    idx: u16,
    delay: u8,
    stack: Seq<u16>,
    mem: Seq<u8>,
) -> bool {
    &&& post.reg@ == regs
    &&& post.pc == pc
    &&& post.idx == idx
    &&& post.delay == delay
    &&& post.stack@ == stack
    &&& post.mem@ == mem
    &&& post.init_mem@ == pre.init_mem@
    &&& post.io.keystate@ == pre.io.keystate@
    &&& post.paused == pre.paused
}

/// As [`upd_nd`], and the display is unchanged.
pub open spec fn upd(
    pre: Chip8,
    post: Chip8,
    regs: Seq<u8>,
    pc: u16,
    idx: u16,
    delay: u8,
    stack: Seq<u16>,
    mem: Seq<u8>,
) -> bool {
    &&& upd_nd(pre, post, regs, pc, idx, delay, stack, mem)
    &&& pre.io.display_eq(post.io)
}

/// Addition modulo 256.
pub open spec fn wrap_add(a: u8, b: u8) -> u8 {
    ((a + b) % 256) as u8
}

/// 1 exactly when the unsigned sum of the two bytes exceeds 255.
pub open spec fn carry_bit(a: u8, b: u8) -> u8 {
    if a + b > 255 {
        1u8
    } else {
        0u8
    }
}

/// Subtraction modulo 256 (wrapping silently; no borrow flag).
pub open spec fn wrap_sub(a: u8, b: u8) -> u8 {
    ((a - b) % 256) as u8
}

/// Doubling modulo 256 (a left shift by one).
pub open spec fn shl_wrap(a: u8) -> u8 {
    ((a * 2) % 256) as u8
}

/// The key named by `k` is held down; indices past the keypad read as "up".
pub open spec fn key_down(io: Chip8IO, k: u8) -> bool {
    k < 16 && io.keystate@[k as int]
}

/// The smallest held key with index at least `from`, if any.
pub open spec fn first_key(io: Chip8IO, from: int) -> Option<u8>
    decreases 16 - from,
{
    if from < 0 || from >= 16 {
        None
    } else if io.keystate@[from] {
        Some(from as u8)
    } else {
        first_key(io, from + 1)
    }
}

/// Bit `j` of a sprite byte, counted from the leftmost (most significant).
pub open spec fn bit_at(b: u8, j: int) -> bool {
    (b >> ((7 - j) as u8)) & 1 == 1
}

/// Sprite bit (i, j) has already been processed when the blit stands at
/// row `i_cur`, bit `j_cur`.
pub open spec fn bit_done(i: int, j: int, i_cur: int, j_cur: int) -> bool {
    (i < i_cur && j < 8) || (i == i_cur && j < j_cur)
}

/// The display in `io` is the pre-state display with every processed sprite
/// bit XORed in. Each display cell (r, c) is covered by sprite row
/// `(r - row0) % 32` and sprite bit `(c - col0) % 64`, the inverse of the
/// wrapping used when blitting.
pub open spec fn draw_partial(
    pre: Chip8,
    io: Chip8IO,
    row0: int,
    col0: int,
    memidx: int,
    i_cur: int,
    j_cur: int,
) -> bool {
    &&& io.display@.len() == 32
    &&& (forall|rr: int| 0 <= rr < 32 ==> (#[trigger] io.display@[rr])@.len() == 64)
    &&& (forall|rr: int, cc: int|
        0 <= rr < 32 && 0 <= cc < 64 ==> (#[trigger] (io.display@[rr])@[cc]) == {
            let i = (rr - row0) % 32;
            let j = (cc - col0) % 64;
            if bit_done(i, j, i_cur, j_cur) {
                (pre.io.display@[rr])@[cc] != bit_at(pre.mem@[memidx + i], j)
            } else {
                (pre.io.display@[rr])@[cc]
            }
        })
}

/// Some processed sprite bit is on and lands on a pixel that was already lit.
pub open spec fn draw_coll(
    pre: Chip8,
    row0: int,
    col0: int,
    memidx: int,
    i_cur: int,
    j_cur: int,
) -> bool {
    exists|i: int, j: int|
        #![trigger (pre.io.display@[(row0 + i) % 32])@[(col0 + j) % 64], bit_at(pre.mem@[memidx + i], j)]
        0 <= i && 0 <= j < 8 && bit_done(i, j, i_cur, j_cur) && (pre.io.display@[(row0 + i)
            % 32])@[(col0 + j) % 64] && bit_at(pre.mem@[memidx + i], j)
}

/// A drawn random byte: below the bound when the bound is positive, zero
/// when the bound itself is zero (the only value not above it).
pub open spec fn rand_ok(bound: u8, b: u8) -> bool {
    if bound == 0 {
        b == 0
    } else {
        b < bound
    }
}

/// What executing one decoded instruction `i` does: relates the machine
/// state before and after, and the outcome. The program counter of `pre` is
/// assumed in range (the guard in [`step_rel`]); pc arithmetic therefore
/// cannot wrap.
pub open spec fn exec_rel(
    pre: Chip8,
    post: Chip8,
    i: Instruction,
    r: Result<StepResult, EngineError>,
) -> bool {
    let pc2 = (pre.pc + 2) as u16;
    let pc4 = (pre.pc + 4) as u16;
    match i {
        Instruction::CLR => {
            &&& upd_nd(pre, post, pre.reg@, pc2, pre.idx, pre.delay, pre.stack@, pre.mem@)
            &&& post.io.display_blank()
            &&& r == Ok::<StepResult, EngineError>(StepResult::Continue(false))
        },
        Instruction::RTS => {
            if pre.stack@.len() == 0 {
                &&& state_eq(pre, post)
                &&& r == Err::<StepResult, EngineError>(EngineError::EmptyStack)
            } else {
                &&& upd(
                    pre,
                    post,
                    pre.reg@,
                    (pre.stack@.last() + 2) as u16,
                    pre.idx,
                    pre.delay,
                    pre.stack@.drop_last(),
                    pre.mem@,
                )
                &&& r == Ok::<StepResult, EngineError>(StepResult::Continue(false))
            }
        },
        Instruction::DRAW(x, y, n) => {
            let row0 = pre.reg@[y as int] as int;
            let col0 = pre.reg@[x as int] as int;
            if pre.idx + n > 4096 {
                &&& state_eq(pre, post)
                &&& r == Err::<StepResult, EngineError>(EngineError::MemoryOutOfRange)
            } else {
                let flag: u8 = if draw_coll(pre, row0, col0, pre.idx as int, n as int, 0) {
                    1
                } else {
                    0
                };
                &&& upd_nd(
                    pre,
                    post,
                    pre.reg@.update(15, flag),
                    pc2,
                    pre.idx,
                    pre.delay,
                    pre.stack@,
                    pre.mem@,
                )
                &&& draw_partial(pre, post.io, row0, col0, pre.idx as int, n as int, 0)
                &&& r == Ok::<StepResult, EngineError>(StepResult::Continue(true))
            }
        },
        Instruction::SYS(a) => {
            &&& state_eq(pre, post)
            &&& r == if a == 0 {
                Ok::<StepResult, EngineError>(StepResult::End)
            } else {
                Err::<StepResult, EngineError>(EngineError::Sys(a))
            }
        },
        Instruction::JUMP(a) => {
            let t = ((pre.pc / 0x1000) * 0x1000 + (a % 0x1000)) as u16;
            if t == pre.pc {
                &&& state_eq(pre, post)
                &&& r == Ok::<StepResult, EngineError>(StepResult::Loop)
            } else {
                &&& upd(pre, post, pre.reg@, t, pre.idx, pre.delay, pre.stack@, pre.mem@)
                &&& r == Ok::<StepResult, EngineError>(StepResult::Continue(false))
            }
        },
        Instruction::CALL(a) => {
            if a == pre.pc {
                &&& state_eq(pre, post)
                &&& r == Ok::<StepResult, EngineError>(StepResult::Loop)
            } else {
                &&& upd(
                    pre,
                    post,
                    pre.reg@,
                    a,
                    pre.idx,
                    pre.delay,
                    pre.stack@.push(pre.pc),
                    pre.mem@,
                )
                &&& r == Ok::<StepResult, EngineError>(StepResult::Continue(false))
            }
        },
        Instruction::LOADI(a) => {
            &&& upd(pre, post, pre.reg@, pc2, a, pre.delay, pre.stack@, pre.mem@)
            &&& r == Ok::<StepResult, EngineError>(StepResult::Continue(false))
        },
        Instruction::JUMPI(a) => {
            let t = ((a + pre.reg@[0]) as u16);
            if t == pre.pc {
                &&& state_eq(pre, post)
                &&& r == Ok::<StepResult, EngineError>(StepResult::Loop)
            } else {
                &&& upd(pre, post, pre.reg@, t, pre.idx, pre.delay, pre.stack@, pre.mem@)
                &&& r == Ok::<StepResult, EngineError>(StepResult::Continue(false))
            }
        },
        Instruction::SKE(x, v) => {
            let taken = pre.reg@[x as int] == v;
            &&& upd(
                pre,
                post,
                pre.reg@,
                if taken {
                    pc4
                } else {
                    pc2
                },
                pre.idx,
                pre.delay,
                pre.stack@,
                pre.mem@,
            )
            &&& r == Ok::<StepResult, EngineError>(StepResult::Continue(false))
        },
        Instruction::SKNE(x, v) => {
            let taken = pre.reg@[x as int] != v;
            &&& upd(
                pre,
                post,
                pre.reg@,
                if taken {
                    pc4
                } else {
                    pc2
                },
                pre.idx,
                pre.delay,
                pre.stack@,
                pre.mem@,
            )
            &&& r == Ok::<StepResult, EngineError>(StepResult::Continue(false))
        },
        Instruction::SKRE(x, y) => {
            let taken = pre.reg@[x as int] != pre.reg@[y as int];
            &&& upd(
                pre,
                post,
                pre.reg@,
                if taken {
                    pc4
                } else {
                    pc2
                },
                pre.idx,
                pre.delay,
                pre.stack@,
                pre.mem@,
            )
            &&& r == Ok::<StepResult, EngineError>(StepResult::Continue(false))
        },
        Instruction::SKRNE(x, y) => {
            let taken = pre.reg@[x as int] != pre.reg@[y as int];
            &&& upd(
                pre,
                post,
                pre.reg@,
                if taken {
                    pc4
                } else {
                    pc2
                },
                pre.idx,
                pre.delay,
                pre.stack@,
                pre.mem@,
            )
            &&& r == Ok::<StepResult, EngineError>(StepResult::Continue(false))
        },
        Instruction::LOAD(x, v) => {
            &&& upd(
                pre,
                post,
                pre.reg@.update(x as int, v),
                pc2,
                pre.idx,
                pre.delay,
                pre.stack@,
                pre.mem@,
            )
            &&& r == Ok::<StepResult, EngineError>(StepResult::Continue(false))
        },
        Instruction::ADD(x, v) => {
            let a = pre.reg@[x as int];
            &&& upd(
                pre,
                post,
                pre.reg@.update(x as int, wrap_add(a, v)).update(15, carry_bit(a, v)),
                pc2,
                pre.idx,
                pre.delay,
                pre.stack@,
                pre.mem@,
            )
            &&& r == Ok::<StepResult, EngineError>(StepResult::Continue(false))
        },
        Instruction::RAND(x, v) => {
            exists|b: u8|
                rand_ok(v, b) && {
                    &&& #[trigger] upd(
                        pre,
                        post,
                        pre.reg@.update(x as int, b),
                        pc2,
                        pre.idx,
                        pre.delay,
                        pre.stack@,
                        pre.mem@,
                    )
                    &&& r == Ok::<StepResult, EngineError>(StepResult::Continue(false))
                }
        },
        Instruction::MOVE(x, y) => {
            &&& upd(
                pre,
                post,
                pre.reg@.update(x as int, pre.reg@[y as int]),
                pc2,
                pre.idx,
                pre.delay,
                pre.stack@,
                pre.mem@,
            )
            &&& r == Ok::<StepResult, EngineError>(StepResult::Continue(false))
        },
        Instruction::OR(x, y) => {
            &&& upd(
                pre,
                post,
                pre.reg@.update(x as int, pre.reg@[x as int] | pre.reg@[y as int]),
                pc2,
                pre.idx,
                pre.delay,
                pre.stack@,
                pre.mem@,
            )
            &&& r == Ok::<StepResult, EngineError>(StepResult::Continue(false))
        },
        Instruction::AND(x, y) => {
            &&& upd(
                pre,
                post,
                pre.reg@.update(x as int, pre.reg@[x as int] & pre.reg@[y as int]),
                pc2,
                pre.idx,
                pre.delay,
                pre.stack@,
                pre.mem@,
            )
            &&& r == Ok::<StepResult, EngineError>(StepResult::Continue(false))
        },
        Instruction::XOR(x, y) => {
            &&& upd(
                pre,
                post,
                pre.reg@.update(x as int, pre.reg@[x as int] ^ pre.reg@[y as int]),
                pc2,
                pre.idx,
                pre.delay,
                pre.stack@,
                pre.mem@,
            )
            &&& r == Ok::<StepResult, EngineError>(StepResult::Continue(false))
        },
        Instruction::ADDR(x, y) => {
            let a = pre.reg@[x as int];
            let b = pre.reg@[y as int];
            &&& upd(
                pre,
                post,
                pre.reg@.update(x as int, wrap_add(a, b)).update(15, carry_bit(a, b)),
                pc2,
                pre.idx,
                pre.delay,
                pre.stack@,
                pre.mem@,
            )
            &&& r == Ok::<StepResult, EngineError>(StepResult::Continue(false))
        },
        Instruction::SUB(x, y) => {
            &&& upd(
                pre,
                post,
                pre.reg@.update(x as int, wrap_sub(pre.reg@[x as int], pre.reg@[y as int])),
                pc2,
                pre.idx,
                pre.delay,
                pre.stack@,
                pre.mem@,
            )
            &&& r == Ok::<StepResult, EngineError>(StepResult::Continue(false))
        },
        Instruction::SHR(x, y) => {
            let r1 = pre.reg@.update(15, pre.reg@[y as int] & 1);
            let r2 = r1.update(y as int, r1[x as int] / 2);
            &&& upd(pre, post, r2, pc2, pre.idx, pre.delay, pre.stack@, pre.mem@)
            &&& r == Ok::<StepResult, EngineError>(StepResult::Continue(false))
        },
        Instruction::SHL(x, y) => {
            let r1 = pre.reg@.update(15, pre.reg@[y as int] & 0xE0);
            let r2 = r1.update(y as int, shl_wrap(r1[x as int]));
            &&& upd(pre, post, r2, pc2, pre.idx, pre.delay, pre.stack@, pre.mem@)
            &&& r == Ok::<StepResult, EngineError>(StepResult::Continue(false))
        },
        Instruction::SKPR(x) => {
            let taken = key_down(pre.io, pre.reg@[x as int]);
            &&& upd(
                pre,
                post,
                pre.reg@,
                if taken {
                    pc4
                } else {
                    pc2
                },
                pre.idx,
                pre.delay,
                pre.stack@,
                pre.mem@,
            )
            &&& r == Ok::<StepResult, EngineError>(StepResult::Continue(false))
        },
        Instruction::SKUP(x) => {
            let taken = !key_down(pre.io, pre.reg@[x as int]);
            &&& upd(
                pre,
                post,
                pre.reg@,
                if taken {
                    pc4
                } else {
                    pc2
                },
                pre.idx,
                pre.delay,
                pre.stack@,
                pre.mem@,
            )
            &&& r == Ok::<StepResult, EngineError>(StepResult::Continue(false))
        },
        Instruction::MOVED(x) => {
            &&& upd(
                pre,
                post,
                pre.reg@.update(x as int, pre.delay),
                pc2,
                pre.idx,
                pre.delay,
                pre.stack@,
                pre.mem@,
            )
            &&& r == Ok::<StepResult, EngineError>(StepResult::Continue(false))
        },
        Instruction::KEYD(x) => {
            &&& match first_key(pre.io, 0) {
                Some(k) => upd(
                    pre,
                    post,
                    pre.reg@.update(x as int, k),
                    pc2,
                    pre.idx,
                    pre.delay,
                    pre.stack@,
                    pre.mem@,
                ),
                None => state_eq(pre, post),
            }
            &&& r == Ok::<StepResult, EngineError>(StepResult::Continue(false))
        },
        Instruction::LOADD(x) => {
            &&& upd(
                pre,
                post,
                pre.reg@,
                pc2,
                pre.idx,
                pre.reg@[x as int],
                pre.stack@,
                pre.mem@,
            )
            &&& r == Ok::<StepResult, EngineError>(StepResult::Continue(false))
        },
        Instruction::LOADS(_) => {
            &&& upd(pre, post, pre.reg@, pc2, pre.idx, pre.delay, pre.stack@, pre.mem@)
            &&& r == Ok::<StepResult, EngineError>(StepResult::Continue(false))
        },
        Instruction::ADDI(x) => {
            if pre.idx + pre.reg@[x as int] > 0xFFFF {
                &&& state_eq(pre, post)
                &&& r == Err::<StepResult, EngineError>(EngineError::MemoryOutOfRange)
            } else {
                &&& upd(
                    pre,
                    post,
                    pre.reg@,
                    pc2,
                    (pre.idx + pre.reg@[x as int]) as u16,
                    pre.delay,
                    pre.stack@,
                    pre.mem@,
                )
                &&& r == Ok::<StepResult, EngineError>(StepResult::Continue(false))
            }
        },
        Instruction::LDSPR(x) => {
            let v = pre.reg@[x as int];
            if v > 15 {
                &&& state_eq(pre, post)
                &&& r == Err::<StepResult, EngineError>(EngineError::SpriteIndex(v))
            } else {
                &&& upd(
                    pre,
                    post,
                    pre.reg@,
                    pc2,
                    (v * 5) as u16,
                    pre.delay,
                    pre.stack@,
                    pre.mem@,
                )
                &&& r == Ok::<StepResult, EngineError>(StepResult::Continue(false))
            }
        },
        Instruction::BCD(x) => {
            let v = pre.reg@[x as int];
            if pre.idx + 3 > 4096 {
                &&& state_eq(pre, post)
                &&& r == Err::<StepResult, EngineError>(EngineError::MemoryOutOfRange)
            } else {
                &&& upd(
                    pre,
                    post,
                    pre.reg@,
                    pc2,
                    pre.idx,
                    pre.delay,
                    pre.stack@,
                    pre.mem@.update(pre.idx as int, (v / 100) as u8).update(
                        pre.idx + 1,
                        ((v % 100) / 10) as u8,
                    ).update(pre.idx + 2, (v % 10) as u8),
                )
                &&& r == Ok::<StepResult, EngineError>(StepResult::Continue(false))
            }
        },
        Instruction::STOR(x) => {
            if pre.idx + x + 1 > 4096 {
                &&& state_eq(pre, post)
                &&& r == Err::<StepResult, EngineError>(EngineError::MemoryOutOfRange)
            } else {
                &&& upd(
                    pre,
                    post,
                    pre.reg@,
                    pc2,
                    (pre.idx + x + 1) as u16,
                    pre.delay,
                    pre.stack@,
                    Seq::new(
                        4096,
                        |k: int|
                            if pre.idx <= k < pre.idx + x + 1 {
                                pre.reg@[k - pre.idx]
                            } else {
                                pre.mem@[k]
                            },
                    ),
                )
                &&& r == Ok::<StepResult, EngineError>(StepResult::Continue(false))
            }
        },
        Instruction::READ(x) => {
            if pre.idx + x + 1 > 4096 {
                &&& state_eq(pre, post)
                &&& r == Err::<StepResult, EngineError>(EngineError::MemoryOutOfRange)
            } else {
                &&& upd(
                    pre,
                    post,
                    Seq::new(
                        16,
                        |k: int|
                            if 0 <= k <= x {
                                pre.mem@[pre.idx + k]
                            } else {
                                pre.reg@[k]
                            },
                    ),
                    pc2,
                    (pre.idx + x + 1) as u16,
                    pre.delay,
                    pre.stack@,
                    pre.mem@,
                )
                &&& r == Ok::<StepResult, EngineError>(StepResult::Continue(false))
            }
        },
    }
}

/// What one call of [`Chip8::step`] does. A paused machine does nothing; a
/// program counter that cannot hold a whole word is a fatal error; an
/// undecodable word is a fatal error; otherwise the decoded instruction
/// executes per [`exec_rel`].
pub open spec fn step_rel(pre: Chip8, post: Chip8, r: Result<StepResult, EngineError>) -> bool {
    if pre.paused {
        &&& state_eq(pre, post)
        &&& r == Ok::<StepResult, EngineError>(StepResult::Continue(false))
    } else if pre.pc + 1 >= 4096 {
        &&& state_eq(pre, post)
        &&& r == Err::<StepResult, EngineError>(EngineError::PcOutOfRange)
    } else {
        match decode_spec(pre.cur_word()) {
            None => {
                &&& state_eq(pre, post)
                &&& r == Err::<StepResult, EngineError>(
                    EngineError::UnknownInstruction(pre.cur_word()),
                )
            },
            Some(i) => exec_rel(pre, post, i, r),
        }
    }
}

/// The fixed hexadecimal-digit sprite font: 16 glyphs of 5 bytes each,
/// preloaded at the bottom of memory.
pub open spec fn font() -> Seq<u8> {
    seq![
        0xF0u8, 0x90, 0x90, 0x90, 0xF0, 0x20, 0x60, 0x20, 0x20, 0x70, 0xF0, 0x10, 0xF0, 0x80,
        0xF0, 0xF0, 0x10, 0xF0, 0x10, 0xF0, 0x90, 0x90, 0xF0, 0x10, 0x10, 0xF0, 0x80, 0xF0, 0x10,
        0xF0, 0xF0, 0x80, 0xF0, 0x90, 0xF0, 0xF0, 0x10, 0x20, 0x40, 0x40, 0xF0, 0x90, 0xF0, 0x90,
        0xF0, 0xF0, 0x90, 0xF0, 0x10, 0xF0, 0xF0, 0x90, 0xF0, 0x90, 0x90, 0xE0, 0x90, 0xE0, 0x90,
        0xE0, 0xF0, 0x80, 0x80, 0x80, 0xF0, 0xE0, 0x90, 0x90, 0x90, 0xE0, 0xF0, 0x80, 0xF0, 0x80,
        0xF0, 0xF0, 0x80, 0xF0, 0x80, 0x80,
    ]
}

/// Memory right after loading a program: the font, zeroes, the program at
/// 0x200, zeroes to the end.
pub open spec fn initial_mem(prog: Seq<u8>) -> Seq<u8> {
    Seq::new(
        4096,
        |k: int|
            if k < 80 {
                font()[k]
            } else if 0x200 <= k < 0x200 + prog.len() {
                prog[k - 0x200]
            } else {
                0u8
            },
    )
}

/// All sixteen registers zero.
pub open spec fn zero_regs() -> Seq<u8> {
    Seq::new(16, |k: int| 0u8)
}

/// Build the font table.
fn make_font() -> (v: Vec<u8>)
    ensures
        v@ == font(),
{
    let mut v: Vec<u8> = Vec::new();
    v.push(0xF0);
    v.push(0x90);
    v.push(0x90);
    v.push(0x90);
    v.push(0xF0);
    v.push(0x20);
    v.push(0x60);
    v.push(0x20);
    v.push(0x20);
    v.push(0x70);
    v.push(0xF0);
    v.push(0x10);
    v.push(0xF0);
    v.push(0x80);
    v.push(0xF0);
    v.push(0xF0);
    v.push(0x10);
    v.push(0xF0);
    v.push(0x10);
    v.push(0xF0);
    v.push(0x90);
    v.push(0x90);
    v.push(0xF0);
    v.push(0x10);
    v.push(0x10);
    v.push(0xF0);
    v.push(0x80);
    v.push(0xF0);
    v.push(0x10);
    v.push(0xF0);
    v.push(0xF0);
    v.push(0x80);
    v.push(0xF0);
    v.push(0x90);
    v.push(0xF0);
    v.push(0xF0);
    v.push(0x10);
    v.push(0x20);
    v.push(0x40);
    v.push(0x40);
    v.push(0xF0);
    v.push(0x90);
    v.push(0xF0);
    v.push(0x90);
    v.push(0xF0);
    v.push(0xF0);
    v.push(0x90);
    v.push(0xF0);
    v.push(0x10);
    v.push(0xF0);
    v.push(0xF0);
    v.push(0x90);
    v.push(0xF0);
    v.push(0x90);
    v.push(0x90);
    v.push(0xE0);
    v.push(0x90);
    v.push(0xE0);
    v.push(0x90);
    v.push(0xE0);
    v.push(0xF0);
    v.push(0x80);
    v.push(0x80);
    v.push(0x80);
    v.push(0xF0);
    v.push(0xE0);
    v.push(0x90);
    v.push(0x90);
    v.push(0x90);
    v.push(0xE0);
    v.push(0xF0);
    v.push(0x80);
    v.push(0xF0);
    v.push(0x80);
    v.push(0xF0);
    v.push(0xF0);
    v.push(0x80);
    v.push(0xF0);
    v.push(0x80);
    v.push(0x80);
    proof {
        assert(v@ =~= font());
    }
    v
}

/// Copy a byte vector element by element.
fn copy_bytes(v: &Vec<u8>) -> (r: Vec<u8>)
    ensures
        r@ == v@,
{
    let mut r: Vec<u8> = Vec::new();
    let n = v.len();
    for i in 0..n
        invariant
            n == v@.len(),
            r@.len() == i,
            forall|k: int| 0 <= k < i ==> r@[k] == v@[k],
    {
        r.push(v[i]);
    }
    proof {
        assert(r@ =~= v@);
    }
    r
}

/// Sixteen zeroed registers.
fn make_zero_regs() -> (r: Vec<u8>)
    ensures
        r@ == zero_regs(),
{
    let mut r: Vec<u8> = Vec::new();
    for i in 0..16usize
        invariant
            r@.len() == i,
            forall|k: int| 0 <= k < i ==> r@[k] == 0,
    {
        r.push(0);
    }
    proof {
        assert(r@ =~= zero_regs());
    }
    r
}

impl Chip8 {
    /// A fresh machine: font at the bottom of memory, the program at 0x200,
    /// all registers zero, the program counter at the program start, an
    /// empty call stack, and a snapshot of memory kept for `reset`.
    pub fn new(program: &Vec<u8>, paused: bool) -> (c: Chip8)
        requires
            program@.len() <= 3584,
        ensures
            c.wf(),
            c.mem@ == initial_mem(program@),
            c.init_mem@ == c.mem@,
            c.reg@ == zero_regs(),
            c.pc == 0x200,
            c.stack@.len() == 0,
            c.idx == 0,
            c.delay == 0,
            c.io.cleared(),
            c.paused == paused,
    {
        let mut mem = make_font();
        while mem.len() < 0x200
            invariant
                80 <= mem@.len() <= 0x200,
                forall|k: int| 0 <= k < 80 ==> mem@[k] == font()[k],
                forall|k: int| 80 <= k < mem@.len() ==> mem@[k] == 0,
            decreases 0x200 - mem@.len(),
        {
            mem.push(0);
        }
        let n = program.len();
        for i in 0..n
            invariant
                n == program@.len() <= 3584,
                mem@.len() == 0x200 + i,
                forall|k: int| 0 <= k < 80 ==> mem@[k] == font()[k],
                forall|k: int| 80 <= k < 0x200 ==> mem@[k] == 0,
                forall|k: int| 0x200 <= k < 0x200 + i ==> mem@[k] == program@[k - 0x200],
        {
            mem.push(program[i]);
        }
        while mem.len() < 4096
            invariant
                n == program@.len(),
                0x200 + n <= mem@.len() <= 4096,
                forall|k: int| 0 <= k < 80 ==> mem@[k] == font()[k],
                forall|k: int| 80 <= k < 0x200 ==> mem@[k] == 0,
                forall|k: int| 0x200 <= k < 0x200 + n ==> mem@[k] == program@[k - 0x200],
                forall|k: int| 0x200 + n <= k < mem@.len() ==> mem@[k] == 0,
            decreases 4096 - mem@.len(),
        {
            mem.push(0);
        }
        proof {
            assert(mem@ =~= initial_mem(program@));
        }
        let init_mem = copy_bytes(&mem);
        Chip8 {
            stack: Vec::new(),
            pc: 0x200,
            reg: make_zero_regs(),
            idx: 0,
            delay: 0,
            init_mem,
            mem,
            io: Chip8IO::new(),
            paused,
        }
    }

    /// Restore the initial snapshot: registers, program counter, stack and
    /// timer cleared, memory (font and program) reloaded, IO cleared. The
    /// pause flag is left as it is.
    pub fn reset(&mut self)
        requires
            old(self).wf(),
        ensures
            final(self).wf(),
            final(self).mem@ == old(self).init_mem@,
            final(self).init_mem@ == old(self).init_mem@,
            final(self).reg@ == zero_regs(),
            final(self).pc == 0x200,
            final(self).stack@.len() == 0,
            final(self).idx == 0,
            final(self).delay == 0,
            final(self).io.cleared(),
            final(self).paused == old(self).paused,
    {
        self.reg = make_zero_regs();
        self.idx = 0;
        self.pc = 0x200;
        self.stack = Vec::new();
        self.delay = 0;
        self.mem = copy_bytes(&self.init_mem);
        self.io.reset();
    }

    /// Decode the word at the program counter without executing it.
    pub fn current_instruction(&self) -> (r: Result<Instruction, DecodeError>)
        requires
            self.wf(),
            self.pc + 1 < 4096,
        ensures
            match decode_spec(self.cur_word()) {
                Some(i) => r == Ok::<Instruction, DecodeError>(i),
                None => r == Err::<Instruction, DecodeError>(
                    DecodeError::Unknown(self.cur_word()),
                ),
            },
    {
        let hi = self.mem[self.pc as usize];
        let lo = self.mem[self.pc as usize + 1];
        decode((hi as u16) * 0x100 + (lo as u16))
    }

    /// One tick of the delay timer: decrement it, stopping at zero. Driven
    /// by the harness at a fixed real-time cadence, independently of how
    /// fast instructions execute.
    pub fn tick_timer(&mut self)
        requires
            old(self).wf(),
        ensures
            final(self).wf(),
            upd(
                *old(self),
                *final(self),
                old(self).reg@,
                old(self).pc,
                old(self).idx,
                if old(self).delay > 0 {
                    (old(self).delay - 1) as u8
                } else {
                    0u8
                },
                old(self).stack@,
                old(self).mem@,
            ),
    {
        if self.delay > 0 {
            self.delay = self.delay - 1;
        }
    }
}

/// Addition modulo 256, spelled out for the two cases of the exec code.
proof fn lemma_wrap_add(a: u8, b: u8)
    ensures
        a + b > 255 ==> wrap_add(a, b) == a + b - 256,
        a + b <= 255 ==> wrap_add(a, b) == a + b,
{
    if a + b > 255 {
        lemma_mod_multiples_vanish(1, a + b - 256, 256);
        lemma_small_mod((a + b - 256) as nat, 256);
    } else {
        lemma_small_mod((a + b) as nat, 256);
    }
}

/// Subtraction modulo 256, spelled out for the two cases of the exec code.
proof fn lemma_wrap_sub(a: u8, b: u8)
    ensures
        a >= b ==> wrap_sub(a, b) == a - b,
        a < b ==> wrap_sub(a, b) == a + 256 - b,
{
    if a >= b {
        lemma_small_mod((a - b) as nat, 256);
    } else {
        lemma_mod_multiples_vanish(1, a - b, 256);
        lemma_small_mod((a + 256 - b) as nat, 256);
    }
}

/// Doubling modulo 256, spelled out for the two cases of the exec code.
proof fn lemma_shl_wrap(a: u8)
    ensures
        a * 2 > 255 ==> shl_wrap(a) == a * 2 - 256,
        a * 2 <= 255 ==> shl_wrap(a) == a * 2,
{
    if a * 2 > 255 {
        lemma_mod_multiples_vanish(1, a * 2 - 256, 256);
        lemma_small_mod((a * 2 - 256) as nat, 256);
    } else {
        lemma_small_mod((a * 2) as nat, 256);
    }
}

/// Relies on rand::Rng::gen_range over the range `0..n` with
/// rand::thread_rng: it panics only on an empty range (excluded by the
/// precondition) and otherwise returns a uniform value within the range.
#[verifier::external_body]
fn rand_below(n: u8) -> (r: u8)
    requires
        n > 0,
    ensures
        r < n,
{
    rand::thread_rng().gen_range(0..n)
}

/// A fresh, fully blank display.
fn make_blank_display() -> (d: Vec<Vec<bool>>)
    ensures
        d@.len() == 32,
        forall|r: int| 0 <= r < 32 ==> (#[trigger] d@[r])@.len() == 64,
        forall|r: int, c: int| 0 <= r < 32 && 0 <= c < 64 ==> !(#[trigger] (d@[r])@[c]),
{
    let mut display: Vec<Vec<bool>> = Vec::new();
    for r in 0..32usize
        invariant
            display@.len() == r,
            forall|i: int| 0 <= i < r ==> (#[trigger] display@[i])@.len() == 64,
            forall|i: int, j: int| 0 <= i < r && 0 <= j < 64 ==> !(#[trigger] (display@[i])@[j]),
    {
        let mut row: Vec<bool> = Vec::new();
        for c in 0..64usize
            invariant
                row@.len() == c,
                forall|j: int| 0 <= j < c ==> !(#[trigger] row@[j]),
        {
            row.push(false);
        }
        display.push(row);
    }
    display
}

/// Wrapping forward: adding `i` to `base` and reducing leaves a residue
/// whose distance back to `base` is `i` again.
proof fn lemma_mod_unwrap(base: int, i: int, m: int)
    requires
        m > 0,
        0 <= i < m,
        0 <= base,
    ensures
        0 <= (base + i) % m < m,
        (((base + i) % m) - base) % m == i,
{
    let s = (base + i) % m;
    lemma_fundamental_div_mod(base + i, m);
    lemma_mod_division_less_than_divisor(base + i, m);
    let q = (base + i) / m;
    assert(m * q + (s - base) == i);
    lemma_mod_multiples_vanish(q, s - base, m);
    lemma_small_mod(i as nat, m as nat);
}

/// Wrapping backward: a cell coordinate is recovered from its distance to
/// the base.
proof fn lemma_mod_wrap(base: int, v: int, m: int)
    requires
        m > 0,
        0 <= v < m,
        0 <= base,
    ensures
        (base + ((v - base) % m)) % m == v,
{
    let d = (v - base) % m;
    lemma_fundamental_div_mod(v - base, m);
    let q = (v - base) / m;
    assert(m * q + (base + d) == v);
    lemma_mod_multiples_vanish(q, base + d, m);
    lemma_small_mod(v as nat, m as nat);
}

/// Processing one more sprite bit adds exactly that bit's collision test.
proof fn lemma_coll_step(pre: Chip8, row0: int, col0: int, memidx: int, i: int, j: int)
    requires
        0 <= i,
        0 <= j < 8,
    ensures
        draw_coll(pre, row0, col0, memidx, i, j + 1) == (draw_coll(pre, row0, col0, memidx, i, j)
            || ((pre.io.display@[(row0 + i) % 32])@[(col0 + j) % 64] && bit_at(
            pre.mem@[memidx + i],
            j,
        ))),
{
    let newbit = (pre.io.display@[(row0 + i) % 32])@[(col0 + j) % 64] && bit_at(
        pre.mem@[memidx + i],
        j,
    );
    if draw_coll(pre, row0, col0, memidx, i, j + 1) {
        let (i0, j0) = choose|i0: int, j0: int|
            #![trigger (pre.io.display@[(row0 + i0) % 32])@[(col0 + j0) % 64], bit_at(pre.mem@[memidx + i0], j0)]
            0 <= i0 && 0 <= j0 < 8 && bit_done(i0, j0, i, j + 1) && (pre.io.display@[(row0 + i0)
                % 32])@[(col0 + j0) % 64] && bit_at(pre.mem@[memidx + i0], j0);
        if i0 == i && j0 == j {
            assert(newbit);
        } else {
            assert(bit_done(i0, j0, i, j));
            assert(draw_coll(pre, row0, col0, memidx, i, j));
        }
    }
    if draw_coll(pre, row0, col0, memidx, i, j) {
        let (i0, j0) = choose|i0: int, j0: int|
            #![trigger (pre.io.display@[(row0 + i0) % 32])@[(col0 + j0) % 64], bit_at(pre.mem@[memidx + i0], j0)]
            0 <= i0 && 0 <= j0 < 8 && bit_done(i0, j0, i, j) && (pre.io.display@[(row0 + i0)
                % 32])@[(col0 + j0) % 64] && bit_at(pre.mem@[memidx + i0], j0);
        assert(bit_done(i0, j0, i, j + 1));
        assert(draw_coll(pre, row0, col0, memidx, i, j + 1));
    }
    if newbit {
        assert(bit_done(i, j, i, j + 1));
        assert(draw_coll(pre, row0, col0, memidx, i, j + 1));
    }
}

/// Finishing a sprite row is the same as standing at the start of the next.
proof fn lemma_coll_row(pre: Chip8, row0: int, col0: int, memidx: int, i: int)
    ensures
        draw_coll(pre, row0, col0, memidx, i, 8) == draw_coll(pre, row0, col0, memidx, i + 1, 0),
{
    if draw_coll(pre, row0, col0, memidx, i, 8) {
        let (i0, j0) = choose|i0: int, j0: int|
            #![trigger (pre.io.display@[(row0 + i0) % 32])@[(col0 + j0) % 64], bit_at(pre.mem@[memidx + i0], j0)]
            0 <= i0 && 0 <= j0 < 8 && bit_done(i0, j0, i, 8) && (pre.io.display@[(row0 + i0)
                % 32])@[(col0 + j0) % 64] && bit_at(pre.mem@[memidx + i0], j0);
        assert(bit_done(i0, j0, i + 1, 0));
        assert(draw_coll(pre, row0, col0, memidx, i + 1, 0));
    }
    if draw_coll(pre, row0, col0, memidx, i + 1, 0) {
        let (i0, j0) = choose|i0: int, j0: int|
            #![trigger (pre.io.display@[(row0 + i0) % 32])@[(col0 + j0) % 64], bit_at(pre.mem@[memidx + i0], j0)]
            0 <= i0 && 0 <= j0 < 8 && bit_done(i0, j0, i + 1, 0) && (pre.io.display@[(row0 + i0)
                % 32])@[(col0 + j0) % 64] && bit_at(pre.mem@[memidx + i0], j0);
        assert(bit_done(i0, j0, i, 8));
        assert(draw_coll(pre, row0, col0, memidx, i, 8));
    }
}

impl Chip8 {
    /// XOR-blit `n` sprite rows from memory onto the display at
    /// (v[x], v[y]), wrapping both coordinates, and set the collision flag.
    fn ex_draw(&mut self, x: u8, y: u8, n: u8) -> (r: Result<StepResult, EngineError>)
        requires
            old(self).wf(),
            x < 16,
            y < 16,
            n < 16,
            old(self).pc + 1 < 4096,
        ensures
            final(self).wf(),
            exec_rel(*old(self), *final(self), Instruction::DRAW(x, y, n), r),
    {
        let memidx = self.idx as usize;
        if memidx + n as usize > 4096 {
            return Err(EngineError::MemoryOutOfRange);
        }
        let row0 = self.reg[y as usize] as usize;
        let col0 = self.reg[x as usize] as usize;
        let mut collision = false;
        proof {
            assert(draw_partial(
                *old(self),
                self.io,
                row0 as int,
                col0 as int,
                memidx as int,
                0,
                0,
            ));
        }
        for i in 0..n as usize
            invariant
                old(self).wf(),
                x < 16,
                y < 16,
                n < 16,
                i <= n as usize,
                memidx == old(self).idx,
                memidx + n <= 4096,
                row0 == old(self).reg@[y as int],
                col0 == old(self).reg@[x as int],
                self.reg@ == old(self).reg@,
                self.pc == old(self).pc,
                self.idx == old(self).idx,
                self.delay == old(self).delay,
                self.stack@ == old(self).stack@,
                self.mem@ == old(self).mem@,
                self.init_mem@ == old(self).init_mem@,
                self.io.keystate@ == old(self).io.keystate@,
                self.paused == old(self).paused,
                draw_partial(
                    *old(self),
                    self.io,
                    row0 as int,
                    col0 as int,
                    memidx as int,
                    i as int,
                    0,
                ),
                collision == draw_coll(
                    *old(self),
                    row0 as int,
                    col0 as int,
                    memidx as int,
                    i as int,
                    0,
                ),
        {
            let byte = self.mem[memidx + i];
            for j in 0..8usize
                invariant
                    old(self).wf(),
                    x < 16,
                    y < 16,
                    n < 16,
                    i < n as usize,
                    j <= 8,
                    memidx == old(self).idx,
                    memidx + n <= 4096,
                    row0 == old(self).reg@[y as int],
                    col0 == old(self).reg@[x as int],
                    byte == old(self).mem@[memidx + i],
                    self.reg@ == old(self).reg@,
                    self.pc == old(self).pc,
                    self.idx == old(self).idx,
                    self.delay == old(self).delay,
                    self.stack@ == old(self).stack@,
                    self.mem@ == old(self).mem@,
                    self.init_mem@ == old(self).init_mem@,
                    self.io.keystate@ == old(self).io.keystate@,
                    self.paused == old(self).paused,
                    draw_partial(
                        *old(self),
                        self.io,
                        row0 as int,
                        col0 as int,
                        memidx as int,
                        i as int,
                        j as int,
                    ),
                    collision == draw_coll(
                        *old(self),
                        row0 as int,
                        col0 as int,
                        memidx as int,
                        i as int,
                        j as int,
                    ),
            {
                let sh: u8 = (7 - j) as u8;
                let bitv: u8 = (byte >> sh) & 1;
                let bit = bitv == 1;
                let rr = (row0 + i) % 32;
                let cc = (col0 + j) % 64;
                proof {
                    lemma_mod_unwrap(row0 as int, i as int, 32);
                    lemma_mod_unwrap(col0 as int, j as int, 64);
                    assert(bit == bit_at(byte, j as int));
                }
                let cell = self.io.display[rr][cc];
                if cell && bit {
                    collision = true;
                }
                self.io.display[rr][cc] = cell != bit;
                proof {
                    let pre = *old(self);
                    let ri = i as int;
                    let ji = j as int;
                    let rri = rr as int;
                    let cci = cc as int;
                    lemma_coll_step(pre, row0 as int, col0 as int, memidx as int, ri, ji);
                    assert(cell == (pre.io.display@[rri])@[cci]);
                    assert forall|r2: int, c2: int|
                        0 <= r2 < 32 && 0 <= c2 < 64 implies ((self.io.display@[r2])@[c2] == {
                        let i2 = (r2 - row0 as int) % 32;
                        let j2 = (c2 - col0 as int) % 64;
                        if bit_done(i2, j2, ri, ji + 1) {
                            (pre.io.display@[r2])@[c2] != bit_at(pre.mem@[memidx + i2], j2)
                        } else {
                            (pre.io.display@[r2])@[c2]
                        }
                    }) by {
                        let i2 = (r2 - row0 as int) % 32;
                        let j2 = (c2 - col0 as int) % 64;
                        lemma_mod_division_less_than_divisor(r2 - row0 as int, 32);
                        lemma_mod_division_less_than_divisor(c2 - col0 as int, 64);
                        if r2 == rri && c2 == cci {
                            assert(i2 == ri);
                            assert(j2 == ji);
                        } else {
                            if i2 == ri && j2 == ji {
                                lemma_mod_wrap(row0 as int, r2, 32);
                                lemma_mod_wrap(col0 as int, c2, 64);
                                assert(false);
                            }
                        }
                    }
                }
            }
            proof {
                lemma_coll_row(*old(self), row0 as int, col0 as int, memidx as int, i as int);
            }
        }
        let flag: u8 = if collision {
            1
        } else {
            0
        };
        self.reg[15] = flag;
        self.pc = self.pc + 2;
        proof {
            assert(self.reg@ == old(self).reg@.update(15, flag));
        }
        Ok(StepResult::Continue(true))
    }

    /// Copy registers 0..=x into memory at the index register, advancing it.
    fn ex_stor(&mut self, x: u8) -> (r: Result<StepResult, EngineError>)
        requires
            old(self).wf(),
            x < 16,
            old(self).pc + 1 < 4096,
        ensures
            final(self).wf(),
            exec_rel(*old(self), *final(self), Instruction::STOR(x), r),
    {
        if self.idx as usize + x as usize + 1 > 4096 {
            return Err(EngineError::MemoryOutOfRange);
        }
        let base = self.idx as usize;
        let count = x as usize + 1;
        for i in 0..count
            invariant
                old(self).wf(),
                x < 16,
                count == x as usize + 1,
                base == old(self).idx,
                base + count <= 4096,
                self.reg@ == old(self).reg@,
                self.pc == old(self).pc,
                self.idx == old(self).idx,
                self.delay == old(self).delay,
                self.stack@ == old(self).stack@,
                self.mem@.len() == 4096,
                forall|k: int|
                    0 <= k < 4096 ==> self.mem@[k] == (if base <= k < base + i {
                        old(self).reg@[k - base]
                    } else {
                        old(self).mem@[k]
                    }),
                self.init_mem@ == old(self).init_mem@,
                self.io.keystate@ == old(self).io.keystate@,
                old(self).io.display_eq(self.io),
                self.paused == old(self).paused,
        {
            let v = self.reg[i];
            self.mem[base + i] = v;
        }
        self.idx = self.idx + x as u16 + 1;
        self.pc = self.pc + 2;
        proof {
            let pre = *old(self);
            assert(self.mem@ =~= Seq::new(
                4096,
                |k: int|
                    if pre.idx <= k < pre.idx + x + 1 {
                        pre.reg@[k - pre.idx]
                    } else {
                        pre.mem@[k]
                    },
            ));
        }
        Ok(StepResult::Continue(false))
    }

    /// Fill registers 0..=x from memory at the index register, advancing it.
    fn ex_read(&mut self, x: u8) -> (r: Result<StepResult, EngineError>)
        requires
            old(self).wf(),
            x < 16,
            old(self).pc + 1 < 4096,
        ensures
            final(self).wf(),
            exec_rel(*old(self), *final(self), Instruction::READ(x), r),
    {
        if self.idx as usize + x as usize + 1 > 4096 {
            return Err(EngineError::MemoryOutOfRange);
        }
        let base = self.idx as usize;
        let count = x as usize + 1;
        for i in 0..count
            invariant
                old(self).wf(),
                x < 16,
                count == x as usize + 1,
                base == old(self).idx,
                base + count <= 4096,
                self.reg@.len() == 16,
                forall|k: int|
                    0 <= k < 16 ==> self.reg@[k] == (if 0 <= k < i {
                        old(self).mem@[base + k]
                    } else {
                        old(self).reg@[k]
                    }),
                self.pc == old(self).pc,
                self.idx == old(self).idx,
                self.delay == old(self).delay,
                self.stack@ == old(self).stack@,
                self.mem@ == old(self).mem@,
                self.init_mem@ == old(self).init_mem@,
                self.io.keystate@ == old(self).io.keystate@,
                old(self).io.display_eq(self.io),
                self.paused == old(self).paused,
        {
            let v = self.mem[base + i];
            self.reg[i] = v;
        }
        self.idx = self.idx + x as u16 + 1;
        self.pc = self.pc + 2;
        proof {
            let pre = *old(self);
            assert(self.reg@ =~= Seq::new(
                16,
                |k: int|
                    if 0 <= k <= x {
                        pre.mem@[pre.idx + k]
                    } else {
                        pre.reg@[k]
                    },
            ));
        }
        Ok(StepResult::Continue(false))
    }

    /// Execute one instruction: decode the word at the program counter and
    /// apply it, per the transition relation [`step_rel`].
    pub fn step(&mut self) -> (r: Result<StepResult, EngineError>)
        requires
            old(self).wf(),
        ensures
            final(self).wf(),
            step_rel(*old(self), *final(self), r),
    {
        if self.paused {
            return Ok(StepResult::Continue(false));
        }
        if self.pc >= 4095 {
            return Err(EngineError::PcOutOfRange);
        }
        let hi = self.mem[self.pc as usize];
        let lo = self.mem[self.pc as usize + 1];
        let w: u16 = (hi as u16) * 0x100 + (lo as u16);
        proof {
            assert(w == old(self).cur_word());
        }
        let instr = match decode(w) {
            Ok(i) => i,
            Err(_) => {
                return Err(EngineError::UnknownInstruction(w));
            },
        };
        proof {
            lemma_decode_operands(w);
        }
        match instr {
            Instruction::CLR => {
                self.io.display = make_blank_display();
                self.pc = self.pc + 2;
                Ok(StepResult::Continue(false))
            },
            Instruction::RTS => {
                match self.stack.pop() {
                    Some(saved) => {
                        self.pc = saved + 2;
                        Ok(StepResult::Continue(false))
                    },
                    None => Err(EngineError::EmptyStack),
                }
            },
            Instruction::DRAW(x, y, n) => self.ex_draw(x, y, n),
            Instruction::SYS(a) => {
                if a == 0 {
                    Ok(StepResult::End)
                } else {
                    Err(EngineError::Sys(a))
                }
            },
            Instruction::JUMP(a) => {
                proof {
                    lemma_fundamental_div_mod_converse(
                        self.pc as int,
                        0x1000,
                        0,
                        self.pc as int,
                    );
                    lemma_small_mod(a as nat, 0x1000);
                }
                let t = (self.pc / 0x1000) * 0x1000 + a % 0x1000;
                if t == self.pc {
                    Ok(StepResult::Loop)
                } else {
                    self.pc = t;
                    Ok(StepResult::Continue(false))
                }
            },
            Instruction::CALL(a) => {
                if a == self.pc {
                    Ok(StepResult::Loop)
                } else {
                    let here = self.pc;
                    self.stack.push(here);
                    self.pc = a;
                    Ok(StepResult::Continue(false))
                }
            },
            Instruction::LOADI(a) => {
                self.idx = a;
                self.pc = self.pc + 2;
                Ok(StepResult::Continue(false))
            },
            Instruction::JUMPI(a) => {
                let t = a + self.reg[0] as u16;
                if t == self.pc {
                    Ok(StepResult::Loop)
                } else {
                    self.pc = t;
                    Ok(StepResult::Continue(false))
                }
            },
            Instruction::SKE(x, v) => {
                let taken = self.reg[x as usize] == v;
                self.pc = self.pc + (if taken {
                    4
                } else {
                    2
                });
                Ok(StepResult::Continue(false))
            },
            Instruction::SKNE(x, v) => {
                let taken = self.reg[x as usize] != v;
                self.pc = self.pc + (if taken {
                    4
                } else {
                    2
                });
                Ok(StepResult::Continue(false))
            },
            Instruction::SKRE(x, y) => {
                let taken = self.reg[x as usize] != self.reg[y as usize];
                self.pc = self.pc + (if taken {
                    4
                } else {
                    2
                });
                Ok(StepResult::Continue(false))
            },
            Instruction::SKRNE(x, y) => {
                let taken = self.reg[x as usize] != self.reg[y as usize];
                self.pc = self.pc + (if taken {
                    4
                } else {
                    2
                });
                Ok(StepResult::Continue(false))
            },
            Instruction::LOAD(x, v) => {
                self.reg[x as usize] = v;
                self.pc = self.pc + 2;
                Ok(StepResult::Continue(false))
            },
            Instruction::ADD(x, v) => {
                let a = self.reg[x as usize];
                let sum = a as u16 + v as u16;
                proof {
                    lemma_wrap_add(a, v);
                }
                if sum > 255 {
                    self.reg[x as usize] = (sum - 256) as u8;
                    self.reg[15] = 1;
                } else {
                    self.reg[x as usize] = sum as u8;
                    self.reg[15] = 0;
                }
                self.pc = self.pc + 2;
                Ok(StepResult::Continue(false))
            },
            Instruction::RAND(x, v) => {
                let b = if v == 0 {
                    0
                } else {
                    rand_below(v)
                };
                self.reg[x as usize] = b;
                self.pc = self.pc + 2;
                proof {
                    let pre = *old(self);
                    assert(rand_ok(v, b) && upd(
                        pre,
                        *self,
                        pre.reg@.update(x as int, b),
                        (pre.pc + 2) as u16,
                        pre.idx,
                        pre.delay,
                        pre.stack@,
                        pre.mem@,
                    ));
                }
                Ok(StepResult::Continue(false))
            },
            Instruction::MOVE(x, y) => {
                let v = self.reg[y as usize];
                self.reg[x as usize] = v;
                self.pc = self.pc + 2;
                Ok(StepResult::Continue(false))
            },
            Instruction::OR(x, y) => {
                let v = self.reg[x as usize] | self.reg[y as usize];
                self.reg[x as usize] = v;
                self.pc = self.pc + 2;
                Ok(StepResult::Continue(false))
            },
            Instruction::AND(x, y) => {
                let v = self.reg[x as usize] & self.reg[y as usize];
                self.reg[x as usize] = v;
                self.pc = self.pc + 2;
                Ok(StepResult::Continue(false))
            },
            Instruction::XOR(x, y) => {
                let v = self.reg[x as usize] ^ self.reg[y as usize];
                self.reg[x as usize] = v;
                self.pc = self.pc + 2;
                Ok(StepResult::Continue(false))
            },
            Instruction::ADDR(x, y) => {
                let a = self.reg[x as usize];
                let b = self.reg[y as usize];
                let sum = a as u16 + b as u16;
                proof {
                    lemma_wrap_add(a, b);
                }
                if sum > 255 {
                    self.reg[x as usize] = (sum - 256) as u8;
                    self.reg[15] = 1;
                } else {
                    self.reg[x as usize] = sum as u8;
                    self.reg[15] = 0;
                }
                self.pc = self.pc + 2;
                Ok(StepResult::Continue(false))
            },
            Instruction::SUB(x, y) => {
                let a = self.reg[x as usize];
                let b = self.reg[y as usize];
                proof {
                    lemma_wrap_sub(a, b);
                }
                let v = if a >= b {
                    a - b
                } else {
                    (a as u16 + 256 - b as u16) as u8
                };
                self.reg[x as usize] = v;
                self.pc = self.pc + 2;
                Ok(StepResult::Continue(false))
            },
            Instruction::SHR(x, y) => {
                let f = self.reg[y as usize] & 1;
                self.reg[15] = f;
                let v = self.reg[x as usize] / 2;
                self.reg[y as usize] = v;
                self.pc = self.pc + 2;
                Ok(StepResult::Continue(false))
            },
            Instruction::SHL(x, y) => {
                let f = self.reg[y as usize] & 0xE0;
                self.reg[15] = f;
                let a = self.reg[x as usize];
                proof {
                    lemma_shl_wrap(a);
                }
                let v = if a < 128 {
                    a * 2
                } else {
                    ((a as u16 * 2) - 256) as u8
                };
                self.reg[y as usize] = v;
                self.pc = self.pc + 2;
                Ok(StepResult::Continue(false))
            },
            Instruction::SKPR(x) => {
                let kv = self.reg[x as usize];
                let pressed = if (kv as usize) < 16 {
                    self.io.keystate[kv as usize]
                } else {
                    false
                };
                self.pc = self.pc + (if pressed {
                    4
                } else {
                    2
                });
                Ok(StepResult::Continue(false))
            },
            Instruction::SKUP(x) => {
                let kv = self.reg[x as usize];
                let pressed = if (kv as usize) < 16 {
                    self.io.keystate[kv as usize]
                } else {
                    false
                };
                self.pc = self.pc + (if pressed {
                    2
                } else {
                    4
                });
                Ok(StepResult::Continue(false))
            },
            Instruction::MOVED(x) => {
                let d = self.delay;
                self.reg[x as usize] = d;
                self.pc = self.pc + 2;
                Ok(StepResult::Continue(false))
            },
            Instruction::KEYD(x) => {
                for k in 0..16usize
                    invariant
                        old(self).wf(),
                        x < 16,
                        old(self).pc + 1 < 4096,
                        !old(self).paused,
                        decode_spec(old(self).cur_word()) == Some(Instruction::KEYD(x)),
                        state_eq(*old(self), *self),
                        self.wf(),
                        first_key(old(self).io, 0) == first_key(old(self).io, k as int),
                {
                    if self.io.keystate[k] {
                        proof {
                            assert(first_key(old(self).io, k as int) == Some(k as u8));
                        }
                        self.reg[x as usize] = k as u8;
                        self.pc = self.pc + 2;
                        return Ok(StepResult::Continue(false));
                    }
                }
                Ok(StepResult::Continue(false))
            },
            Instruction::LOADD(x) => {
                let v = self.reg[x as usize];
                self.delay = v;
                self.pc = self.pc + 2;
                Ok(StepResult::Continue(false))
            },
            Instruction::LOADS(_) => {
                self.pc = self.pc + 2;
                Ok(StepResult::Continue(false))
            },
            Instruction::ADDI(x) => {
                let add = self.reg[x as usize] as u32;
                let s = self.idx as u32 + add;
                if s > 0xFFFF {
                    Err(EngineError::MemoryOutOfRange)
                } else {
                    self.idx = s as u16;
                    self.pc = self.pc + 2;
                    Ok(StepResult::Continue(false))
                }
            },
            Instruction::LDSPR(x) => {
                let v = self.reg[x as usize];
                if v > 15 {
                    Err(EngineError::SpriteIndex(v))
                } else {
                    self.idx = v as u16 * 5;
                    self.pc = self.pc + 2;
                    Ok(StepResult::Continue(false))
                }
            },
            Instruction::BCD(x) => {
                if self.idx as usize + 3 > 4096 {
                    Err(EngineError::MemoryOutOfRange)
                } else {
                    let v = self.reg[x as usize];
                    let base = self.idx as usize;
                    self.mem[base] = v / 100;
                    self.mem[base + 1] = (v % 100) / 10;
                    self.mem[base + 2] = v % 10;
                    self.pc = self.pc + 2;
                    Ok(StepResult::Continue(false))
                }
            },
            Instruction::STOR(x) => self.ex_stor(x),
            Instruction::READ(x) => self.ex_read(x),
        }
    }
}

/// The instruction is one of the skip family.
pub open spec fn is_skip(i: Instruction) -> bool {
    match i {
        Instruction::SKE(_, _) => true,
        Instruction::SKNE(_, _) => true,
        Instruction::SKRE(_, _) => true,
        Instruction::SKRNE(_, _) => true,
        Instruction::SKPR(_) => true,
        Instruction::SKUP(_) => true,
        _ => false,
    }
}

/// Wraparound law for the immediate add: the target register wraps modulo
/// 256 and the carry flag becomes 1 exactly when the unsigned sum exceeds
/// 255.
pub proof fn lemma_add_wraparound(
    pre: Chip8,
    post: Chip8,
    x: u8,
    v: u8,
    r: Result<StepResult, EngineError>,
)
    requires
        pre.wf(),
        x < 16,
        exec_rel(pre, post, Instruction::ADD(x, v), r),
    ensures
        post.reg@[15] == (if pre.reg@[x as int] + v > 255 {
            1u8
        } else {
            0u8
        }),
        x != 15 ==> post.reg@[x as int] == (pre.reg@[x as int] + v) % 256,
        r == Ok::<StepResult, EngineError>(StepResult::Continue(false)),
{
}

/// Wraparound law for the register add: the target register wraps modulo
/// 256 and the carry flag becomes 1 exactly when the unsigned sum exceeds
/// 255.
pub proof fn lemma_addr_wraparound(
    pre: Chip8,
    post: Chip8,
    x: u8,
    y: u8,
    r: Result<StepResult, EngineError>,
)
    requires
        pre.wf(),
        x < 16,
        y < 16,
        exec_rel(pre, post, Instruction::ADDR(x, y), r),
    ensures
        post.reg@[15] == (if pre.reg@[x as int] + pre.reg@[y as int] > 255 {
            1u8
        } else {
            0u8
        }),
        x != 15 ==> post.reg@[x as int] == (pre.reg@[x as int] + pre.reg@[y as int]) % 256,
        r == Ok::<StepResult, EngineError>(StepResult::Continue(false)),
{
}

/// Skip-family law: a skip instruction moves the program counter forward by
/// exactly two (not taken) or four (taken), never anything else.
pub proof fn lemma_skip_pc_delta(
    pre: Chip8,
    post: Chip8,
    i: Instruction,
    r: Result<StepResult, EngineError>,
)
    requires
        pre.wf(),
        is_skip(i),
        pre.pc + 4 <= u16::MAX,
        exec_rel(pre, post, i, r),
    ensures
        post.pc == pre.pc + 2 || post.pc == pre.pc + 4,
{
}

/// Round-trip law for subroutines: a CALL to an address other than its own
/// pushes the call site; a later RTS from any state carrying that same stack
/// returns the program counter to exactly the call site plus two and
/// restores the original stack (in particular, empty again if it was empty).
pub proof fn lemma_call_rts_round_trip(
    s0: Chip8,
    s1: Chip8,
    a: u16,
    r1: Result<StepResult, EngineError>,
    s2: Chip8,
    s3: Chip8,
    r2: Result<StepResult, EngineError>,
)
    requires
        s0.wf(),
        s0.pc + 1 < 4096,
        a != s0.pc,
        exec_rel(s0, s1, Instruction::CALL(a), r1),
        s2.stack@ == s1.stack@,
        exec_rel(s2, s3, Instruction::RTS, r2),
    ensures
        s1.pc == a,
        s1.stack@.len() == s0.stack@.len() + 1,
        s3.pc == s0.pc + 2,
        s3.stack@ == s0.stack@,
        s0.stack@.len() == 0 ==> s3.stack@.len() == 0,
        r1 == Ok::<StepResult, EngineError>(StepResult::Continue(false)),
        r2 == Ok::<StepResult, EngineError>(StepResult::Continue(false)),
{
    assert(s1.stack@ == s0.stack@.push(s0.pc));
    assert(s2.stack@.len() > 0);
    assert(s2.stack@.last() == s0.pc);
    assert(s3.stack@ =~= s0.stack@);
}

/// Collision law: after a draw, the flag register is 1 exactly when some
/// sprite bit is on and its destination pixel was already lit before the
/// XOR.
pub proof fn lemma_draw_collision_iff(
    pre: Chip8,
    post: Chip8,
    x: u8,
    y: u8,
    n: u8,
    r: Result<StepResult, EngineError>,
)
    requires
        pre.wf(),
        x < 16,
        y < 16,
        n < 16,
        pre.idx + n <= 4096,
        exec_rel(pre, post, Instruction::DRAW(x, y, n), r),
    ensures
        post.reg@[15] == 1 <==> exists|i: int, j: int|
            #![trigger (pre.io.display@[(pre.reg@[y as int] + i) % 32])@[(pre.reg@[x as int] + j) % 64], bit_at(pre.mem@[pre.idx + i], j)]
            0 <= i < n && 0 <= j < 8 && (pre.io.display@[(pre.reg@[y as int] + i)
                % 32])@[(pre.reg@[x as int] + j) % 64] && bit_at(pre.mem@[pre.idx + i], j),
        r == Ok::<StepResult, EngineError>(StepResult::Continue(true)),
{
    let row0 = pre.reg@[y as int] as int;
    let col0 = pre.reg@[x as int] as int;
    let memidx = pre.idx as int;
    if draw_coll(pre, row0, col0, memidx, n as int, 0) {
        let (i0, j0) = choose|i0: int, j0: int|
            #![trigger (pre.io.display@[(row0 + i0) % 32])@[(col0 + j0) % 64], bit_at(pre.mem@[memidx + i0], j0)]
            0 <= i0 && 0 <= j0 < 8 && bit_done(i0, j0, n as int, 0) && (pre.io.display@[(row0
                + i0) % 32])@[(col0 + j0) % 64] && bit_at(pre.mem@[memidx + i0], j0);
        assert(0 <= i0 < n && 0 <= j0 < 8);
        assert((pre.io.display@[(pre.reg@[y as int] + i0) % 32])@[(pre.reg@[x as int] + j0) % 64]
            && bit_at(pre.mem@[pre.idx + i0], j0));
    }
    if exists|i: int, j: int|
        #![trigger (pre.io.display@[(pre.reg@[y as int] + i) % 32])@[(pre.reg@[x as int] + j) % 64], bit_at(pre.mem@[pre.idx + i], j)]
        0 <= i < n && 0 <= j < 8 && (pre.io.display@[(pre.reg@[y as int] + i)
            % 32])@[(pre.reg@[x as int] + j) % 64] && bit_at(pre.mem@[pre.idx + i], j) {
        let (i0, j0) = choose|i0: int, j0: int|
            #![trigger (pre.io.display@[(pre.reg@[y as int] + i0) % 32])@[(pre.reg@[x as int] + j0) % 64], bit_at(pre.mem@[pre.idx + i0], j0)]
            0 <= i0 < n && 0 <= j0 < 8 && (pre.io.display@[(pre.reg@[y as int] + i0)
                % 32])@[(pre.reg@[x as int] + j0) % 64] && bit_at(pre.mem@[pre.idx + i0], j0);
        assert(bit_done(i0, j0, n as int, 0));
        assert(draw_coll(pre, row0, col0, memidx, n as int, 0));
    }
}

/// Tight-loop law: a jump whose resolved target is its own address reports
/// `Loop` and leaves the machine unchanged, rather than spinning forever.
pub proof fn lemma_self_jump_loops(
    pre: Chip8,
    post: Chip8,
    a: u16,
    r: Result<StepResult, EngineError>,
)
    requires
        pre.wf(),
        pre.pc + 1 < 4096,
        a < 0x1000,
        a == pre.pc,
        exec_rel(pre, post, Instruction::JUMP(a), r),
    ensures
        r == Ok::<StepResult, EngineError>(StepResult::Loop),
        state_eq(pre, post),
{
    lemma_fundamental_div_mod_converse(pre.pc as int, 0x1000, 0, pre.pc as int);
    lemma_small_mod(a as nat, 0x1000);
}

/// Tight-loop law for calls: a call to its own address reports `Loop` and
/// pushes nothing.
pub proof fn lemma_self_call_loops(
    pre: Chip8,
    post: Chip8,
    a: u16,
    r: Result<StepResult, EngineError>,
)
    requires
        a == pre.pc,
        exec_rel(pre, post, Instruction::CALL(a), r),
    ensures
        r == Ok::<StepResult, EngineError>(StepResult::Loop),
        state_eq(pre, post),
{
}

} // verus!