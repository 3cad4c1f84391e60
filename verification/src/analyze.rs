//! The control-flow analyzer: builds a graph of basic blocks from a decoded
//! instruction stream (without executing it), validates its structural
//! consistency, coalesces straight-line runs, and marks reachable blocks.
//!
//! The graph is a vector of `(address, block)` pairs with unique addresses.
//! Its structural invariant — every recorded successor edge points at an
//! existing node that lists the source among its predecessors — is
//! established by construction and preserved by every reduction step.

use vstd::prelude::*;

use crate::instruction::{DecodeError, Instruction};

verus! {

use vstd::arithmetic::div_mod::{
    lemma_fundamental_div_mod, lemma_fundamental_div_mod_converse, lemma_mod_multiples_vanish,
};

/// The address a program starts at.
pub const ENTRY_ADDRESS: u16 = 0x200;

/// The static successor addresses of an instruction at `pc`: skip-family
/// instructions may or may not skip; a jump goes only to its target; a call
/// goes only to its target (the return site is kept out of band as the
/// block's return address); a return has no static successor; everything
/// else falls through.
pub open spec fn next_pcs_spec(i: Instruction, pc: u16) -> Seq<u16> {
    match i {
        Instruction::SKE(_, _) => seq![(pc + 2) as u16, (pc + 4) as u16],
        Instruction::SKNE(_, _) => seq![(pc + 2) as u16, (pc + 4) as u16],
        Instruction::SKRE(_, _) => seq![(pc + 2) as u16, (pc + 4) as u16],
        Instruction::SKRNE(_, _) => seq![(pc + 2) as u16, (pc + 4) as u16],
        Instruction::SKPR(_) => seq![(pc + 2) as u16, (pc + 4) as u16],
        Instruction::SKUP(_) => seq![(pc + 2) as u16, (pc + 4) as u16],
        Instruction::JUMP(a) => seq![a],
        Instruction::CALL(a) => seq![a],
        Instruction::RTS => Seq::empty(),
        _ => seq![(pc + 2) as u16],
    }
}

/// The out-of-band return site recorded for a block ending in a call.
pub open spec fn ret_addr_spec(i: Instruction, pc: u16) -> Option<u16> {
    match i {
        Instruction::CALL(_) => Some((pc + 2) as u16),
        _ => None,
    }
}

impl Instruction {
    /// The static successor addresses of this instruction at `this_pc`.
    pub fn next_pc(&self, this_pc: u16) -> (r: Vec<u16>)
        requires
            this_pc + 4 <= u16::MAX,
        ensures
            r@ == next_pcs_spec(*self, this_pc),
    {
        let mut v: Vec<u16> = Vec::new();
        match self {
            Instruction::SKE(_, _) | Instruction::SKNE(_, _) | Instruction::SKRE(_, _)
            | Instruction::SKRNE(_, _) | Instruction::SKPR(_) | Instruction::SKUP(_) => {
                v.push(this_pc + 2);
                v.push(this_pc + 4);
            },
            Instruction::JUMP(a) => {
                v.push(*a);
            },
            Instruction::CALL(a) => {
                v.push(*a);
            },
            Instruction::RTS => {},
            _ => {
                v.push(this_pc + 2);
            },
        }
        proof {
            assert(v@ =~= next_pcs_spec(*self, this_pc));
        }
        v
    }

    /// Whether the instruction has more than one static successor.
    pub fn branches(&self) -> (r: bool)
        ensures
            r == (next_pcs_spec(*self, 0).len() > 1),
    {
        match self {
            Instruction::SKE(_, _) | Instruction::SKNE(_, _) | Instruction::SKRE(_, _)
            | Instruction::SKRNE(_, _) | Instruction::SKPR(_) | Instruction::SKUP(_) => true,
            _ => false,
        }
    }
}

/// A basic block: the instructions it holds, its predecessor and successor
/// addresses, a reachability mark, and, for blocks ending in a call, the
/// return site that must never be coalesced away.
pub struct Block {
    /// The instructions belonging to the block, in address order.
    pub code: Vec<Instruction>,
    /// Addresses of blocks with an edge into this one.
    pub prev: Vec<u16>,
    /// Addresses of blocks this one has an edge to.
    pub next: Vec<u16>,
    /// Set by the reachability traversal; never causes deletion.
    pub reachable: bool,
    /// Present exactly when the block ends in a call: the address execution
    /// resumes at after the callee returns.
    pub return_address: Option<u16>,
}

impl Block {
    /// The block's code, predecessors, successors and flags are all empty.
    pub open spec fn placeholder(self) -> bool {
        &&& self.code@.len() == 0
        &&& self.next@.len() == 0
        &&& self.return_address is None
    }

    /// An opaque placeholder block: no code, no edges, unreachable. Used for
    /// undecodable words and for targets outside the decoded range.
    pub fn new_empty() -> (b: Block)
        ensures
            b.code@.len() == 0,
            b.prev@.len() == 0,
            b.next@.len() == 0,
            !b.reachable,
            b.return_address is None,
    {
        Block { code: Vec::new(), prev: Vec::new(), next: Vec::new(), reachable: false, return_address: None }
    }

    /// A block holding exactly one instruction, with its static successors.
    pub fn from_single(pc: u16, instr: Instruction) -> (b: Block)
        requires
            pc + 4 <= u16::MAX,
        ensures
            b.code@ == seq![instr],
            b.prev@.len() == 0,
            b.next@ == next_pcs_spec(instr, pc),
            !b.reachable,
            b.return_address == ret_addr_spec(instr, pc),
    {
        let mut code: Vec<Instruction> = Vec::new();
        code.push(instr);
        let return_address = match instr {
            Instruction::CALL(_) => Some(pc + 2),
            _ => None,
        };
        proof {
            assert(code@ =~= seq![instr]);
        }
        Block { code, prev: Vec::new(), next: instr.next_pc(pc), reachable: false, return_address }
    }

    /// Absorb the unique successor block: append its code, take over its
    /// successor set and its return address. The predecessors and the
    /// reachability mark stay this block's own.
    pub fn absorb_next(&mut self, next_block: Block)
        requires
            old(self).next@.len() == 1,
        ensures
            final(self).code@ == old(self).code@ + next_block.code@,
            final(self).prev@ == old(self).prev@,
            final(self).next@ == next_block.next@,
            final(self).reachable == old(self).reachable,
            final(self).return_address == next_block.return_address,
    {
        self.next = next_block.next;
        self.return_address = next_block.return_address;
        let mut rest = next_block.code;
        self.code.append(&mut rest);
    }
}

/// The control-flow graph: blocks keyed by their start address.
pub struct CFG {
    /// The blocks, each with its start address; addresses are unique.
    pub contents: Vec<(u16, Block)>,
}

impl CFG {
    /// No two entries share an address.
    pub open spec fn keys_unique(self) -> bool {
        forall|i: int, j: int|
            0 <= i < self.contents@.len() && 0 <= j < self.contents@.len() && i != j ==> (
            #[trigger] self.contents@[i]).0 != (#[trigger] self.contents@[j]).0
    }

    /// Some entry carries this address.
    pub open spec fn has_node(self, pc: u16) -> bool {
        exists|i: int| 0 <= i < self.contents@.len() && (#[trigger] self.contents@[i]).0 == pc
    }

    /// The index of the entry carrying this address.
    pub open spec fn idx_of(self, pc: u16) -> int {
        choose|i: int| 0 <= i < self.contents@.len() && (#[trigger] self.contents@[i]).0 == pc
    }

    /// The block at this address.
    pub open spec fn node(self, pc: u16) -> Block {
        self.contents@[self.idx_of(pc)].1
    }

    /// Edge `k` out of entry `i` is structurally sound: its target exists
    /// and lists the source as a predecessor.
    pub open spec fn edge_ok(self, i: int, k: int) -> bool {
        let t = self.contents@[i].1.next@[k];
        self.has_node(t) && self.node(t).prev@.contains(self.contents@[i].0)
    }

    /// The structural invariant: every recorded successor edge is sound.
    pub open spec fn valid_spec(self) -> bool {
        forall|i: int, k: int|
            0 <= i < self.contents@.len() && 0 <= k < self.contents@[i].1.next@.len()
                ==> #[trigger] self.edge_ok(i, k)
    }

    /// Entry `i` qualifies for coalescing: exactly one successor, which is a
    /// different block whose only predecessor it is, and no call boundary.
    pub open spec fn absorbable(self, i: int) -> bool {
        let pc = self.contents@[i].0;
        let b = self.contents@[i].1;
        &&& b.next@.len() == 1
        &&& b.return_address is None
        &&& b.next@[0] != pc
        &&& self.has_node(b.next@[0])
        &&& self.node(b.next@[0]).prev@.len() == 1
    }

    /// No entry qualifies for coalescing: the graph is fully reduced.
    pub open spec fn reduced(self) -> bool {
        forall|i: int| 0 <= i < self.contents@.len() ==> !(#[trigger] self.absorbable(i))
    }

    /// No block is marked reachable.
    pub open spec fn all_unmarked(self) -> bool {
        forall|i: int|
            0 <= i < self.contents@.len() ==> !(#[trigger] self.contents@[i]).1.reachable
    }

    /// The two graphs agree on everything but the reachability marks.
    pub open spec fn same_structure(self, other: CFG) -> bool {
        &&& other.contents@.len() == self.contents@.len()
        &&& forall|i: int|
            0 <= i < self.contents@.len() ==> {
                &&& (#[trigger] other.contents@[i]).0 == self.contents@[i].0
                &&& other.contents@[i].1.code@ == self.contents@[i].1.code@
                &&& other.contents@[i].1.prev@ == self.contents@[i].1.prev@
                &&& other.contents@[i].1.next@ == self.contents@[i].1.next@
                &&& other.contents@[i].1.return_address == self.contents@[i].1.return_address
            }
    }

    /// There is an edge from the node at `a` to the address `b`.
    pub open spec fn edge(self, a: u16, b: u16) -> bool {
        self.has_node(a) && self.node(a).next@.contains(b)
    }

    /// `p` is a walk from `a` to `b` along successor edges.
    pub open spec fn is_path(self, p: Seq<u16>, a: u16, b: u16) -> bool {
        &&& p.len() >= 1
        &&& p[0] == a
        &&& p.last() == b
        &&& forall|i: int| 0 <= i < p.len() - 1 ==> self.edge(#[trigger] p[i], p[i + 1])
    }

    /// Address `b` is transitively reachable from `a` along successor edges.
    pub open spec fn reaches(self, a: u16, b: u16) -> bool {
        exists|p: Seq<u16>| self.is_path(p, a, b)
    }

    /// Index `j` really is the entry for its own address: with unique keys,
    /// lookups by that address land on `j`.
    pub proof fn lemma_node_at(self, j: int)
        requires
            self.keys_unique(),
            0 <= j < self.contents@.len(),
        ensures
            self.has_node(self.contents@[j].0),
            self.idx_of(self.contents@[j].0) == j,
            self.node(self.contents@[j].0) == self.contents@[j].1,
    {
        let pc = self.contents@[j].0;
        assert(self.has_node(pc));
        let i = self.idx_of(pc);
        assert(0 <= i < self.contents@.len() && self.contents@[i].0 == pc);
        if i != j {
            assert(self.contents@[i].0 != self.contents@[j].0);
        }
    }

    /// Find the entry index for an address, if any.
    fn find_node(&self, pc: u16) -> (r: Option<usize>)
        ensures
            match r {
                Some(j) => j < self.contents@.len() && self.contents@[j as int].0 == pc,
                None => !self.has_node(pc),
            },
    {
        let n = self.contents.len();
        for i in 0..n
            invariant
                n == self.contents@.len(),
                forall|k: int| 0 <= k < i ==> (#[trigger] self.contents@[k]).0 != pc,
        {
            if self.contents[i].0 == pc {
                return Some(i);
            }
        }
        None
    }

    /// Check the structural invariant: every successor edge must point at an
    /// existing node that lists the source as a predecessor. Returns whether
    /// it holds, rather than aborting: the analyzer records the verdict.
    pub fn assert_valid(&self) -> (r: bool)
        requires
            self.keys_unique(),
        ensures
            r == self.valid_spec(),
    {
        let n = self.contents.len();
        for i in 0..n
            invariant
                n == self.contents@.len(),
                self.keys_unique(),
                forall|i2: int, k2: int|
                    0 <= i2 < i && 0 <= k2 < self.contents@[i2].1.next@.len()
                        ==> #[trigger] self.edge_ok(i2, k2),
        {
            let m = self.contents[i].1.next.len();
            for k in 0..m
                invariant
                    n == self.contents@.len(),
                    i < n,
                    self.keys_unique(),
                    m == self.contents@[i as int].1.next@.len(),
                    forall|i2: int, k2: int|
                        0 <= i2 < i && 0 <= k2 < self.contents@[i2].1.next@.len()
                            ==> #[trigger] self.edge_ok(i2, k2),
                    forall|k2: int| 0 <= k2 < k ==> #[trigger] self.edge_ok(i as int, k2),
            {
                let t = self.contents[i].1.next[k];
                match self.find_node(t) {
                    None => {
                        proof {
                            assert(!self.edge_ok(i as int, k as int));
                        }
                        return false;
                    },
                    Some(j) => {
                        proof {
                            self.lemma_node_at(j as int);
                        }
                        if !contains_pc(&self.contents[j].1.prev, self.contents[i].0) {
                            proof {
                                assert(!self.edge_ok(i as int, k as int));
                            }
                            return false;
                        }
                        proof {
                            assert(self.edge_ok(i as int, k as int));
                        }
                    },
                }
            }
        }
        true
    }
}

/// Whether a vector of addresses holds the given one.
fn contains_pc(v: &Vec<u16>, pc: u16) -> (r: bool)
    ensures
        r == v@.contains(pc),
{
    let n = v.len();
    for i in 0..n
        invariant
            n == v@.len(),
            forall|k: int| 0 <= k < i ==> v@[k] != pc,
    {
        if v[i] == pc {
            return true;
        }
    }
    false
}

/// The instruction-stream index a program address refers to, counting
/// two-byte slots from the entry address; addresses below it have none.
pub fn addr_to_idx(addr: u16) -> (r: Option<usize>)
    ensures
        addr >= 0x200 ==> r == Some::<usize>(((addr - 0x200) / 2) as usize),
        addr < 0x200 ==> r is None,
{
    if addr >= 0x200 {
        Some(((addr - 0x200) / 2) as usize)
    } else {
        None
    }
}

/// The address of instruction slot `i` in the stream.
pub open spec fn rom_pc(i: int) -> u16 {
    (0x200 + 2 * i) as u16
}

/// The static successors of slot `i` (none for an undecodable word).
pub open spec fn prim_next(rom: Seq<Option<Instruction>>, i: int) -> Seq<u16> {
    match rom[i] {
        Some(ins) => next_pcs_spec(ins, rom_pc(i)),
        None => Seq::empty(),
    }
}

/// `pc` is the address of one of the stream's own slots.
pub open spec fn is_primary(rom: Seq<Option<Instruction>>, pc: u16) -> bool {
    0x200 <= pc < 0x200 + 2 * rom.len() && pc % 2 == 0
}

/// The slot index of a primary address.
pub open spec fn rom_index(pc: u16) -> int {
    (pc - 0x200) / 2
}

/// The block built for slot `i`: the instruction with its static successors
/// and return site, or an opaque placeholder for an undecodable word.
/// (The predecessor list is derived afterwards and not constrained here.)
pub open spec fn primary_block_ok(rom: Seq<Option<Instruction>>, i: int, b: Block) -> bool {
    match rom[i] {
        Some(ins) => {
            &&& b.code@ == seq![ins]
            &&& b.next@ == next_pcs_spec(ins, rom_pc(i))
            &&& b.return_address == ret_addr_spec(ins, rom_pc(i))
        },
        None => b.placeholder(),
    }
}

/// Some slot of the stream has an edge to `pc`.
pub open spec fn is_target(rom: Seq<Option<Instruction>>, pc: u16) -> bool {
    exists|i2: int, k2: int|
        0 <= i2 < rom.len() && 0 <= k2 < prim_next(rom, i2).len() && (#[trigger] prim_next(
            rom,
            i2,
        )[k2]) == pc
}

/// `pc` is the target of an edge already processed when edge derivation
/// stands at slot `i`, edge `k`.
pub open spec fn target_done(rom: Seq<Option<Instruction>>, i: int, k: int, pc: u16) -> bool {
    exists|i2: int, k2: int|
        0 <= i2 < rom.len() && 0 <= k2 < prim_next(rom, i2).len() && (i2 < i || (i2 == i && k2
            < k)) && (#[trigger] prim_next(rom, i2)[k2]) == pc
}

/// `p` is a predecessor of `pc` through an edge already processed when edge
/// derivation stands at slot `i`, edge `k`.
pub open spec fn prev_done(rom: Seq<Option<Instruction>>, i: int, k: int, pc: u16, p: u16) -> bool {
    exists|i2: int, k2: int|
        0 <= i2 < rom.len() && 0 <= k2 < prim_next(rom, i2).len() && (i2 < i || (i2 == i && k2
            < k)) && rom_pc(i2) == p && (#[trigger] prim_next(rom, i2)[k2]) == pc
}

/// How many slots of the stream decoded to an instruction.
pub open spec fn count_some(rom: Seq<Option<Instruction>>) -> nat
    decreases rom.len(),
{
    if rom.len() == 0 {
        0
    } else {
        count_some(rom.drop_last()) + (if rom.last() is Some {
            1nat
        } else {
            0nat
        })
    }
}

/// An instruction's static successor addresses are pairwise distinct.
proof fn lemma_next_pcs_distinct(i: Instruction, pc: u16)
    requires
        pc + 4 <= u16::MAX,
    ensures
        forall|k1: int, k2: int|
            0 <= k1 < k2 < next_pcs_spec(i, pc).len() ==> next_pcs_spec(i, pc)[k1]
                != next_pcs_spec(i, pc)[k2],
{
}

/// Distinct slots sit at distinct addresses.
proof fn lemma_rom_pc_injective(i1: int, i2: int)
    requires
        0 <= i1 <= 0x7E00,
        0 <= i2 <= 0x7E00,
        i1 != i2,
    ensures
        rom_pc(i1) != rom_pc(i2),
{
    lemma_rom_pc_index(i1);
    lemma_rom_pc_index(i2);
}

/// What construction guarantees: unique keys; the node set is exactly the
/// stream's own slots plus every edge target; each slot's block holds its
/// instruction, successors and return site; every other node is an opaque
/// placeholder; the predecessor lists mirror the successor edges exactly;
/// and nothing is marked reachable yet.
pub open spec fn from_rom_post(rom: Seq<Option<Instruction>>, g: CFG) -> bool {
    &&& g.keys_unique()
    &&& forall|pc: u16| #[trigger] g.has_node(pc) <==> (is_primary(rom, pc) || is_target(rom, pc))
    &&& forall|i: int|
        0 <= i < rom.len() ==> g.has_node(rom_pc(i)) && primary_block_ok(
            rom,
            i,
            #[trigger] g.node(rom_pc(i)),
        )
    &&& forall|pc: u16|
        #[trigger] g.has_node(pc) && !is_primary(rom, pc) ==> g.node(pc).placeholder()
    &&& forall|pc: u16, p: u16|
        g.has_node(pc) ==> ((#[trigger] g.node(pc).prev@.contains(p)) <==> (g.has_node(p)
            && g.node(p).next@.contains(pc)))
    &&& forall|pc: u16| #[trigger] g.has_node(pc) ==> g.node(pc).prev@.no_duplicates()
    &&& total_code(g.contents@) == count_some(rom)
    &&& g.all_unmarked()
}

/// Slot addresses convert back and forth: slot `i` sits at an even address,
/// and indexing undoes addressing.
proof fn lemma_rom_pc_index(i: int)
    requires
        0 <= i <= 0x7E00,
    ensures
        rom_pc(i) == 0x200 + 2 * i,
        rom_pc(i) % 2 == 0,
        rom_index(rom_pc(i)) == i,
        0x200 <= rom_pc(i),
{
    assert(0x200 + 2 * i < 0x10000);
    lemma_fundamental_div_mod_converse(0x200 + 2 * i, 2, 0x100 + i, 0);
    lemma_fundamental_div_mod_converse(2 * i, 2, i, 0);
}

/// Every primary address is the address of a slot in range.
proof fn lemma_primary_pc(rom: Seq<Option<Instruction>>, pc: u16)
    requires
        is_primary(rom, pc),
        rom.len() <= 0x7E00,
    ensures
        0 <= rom_index(pc) < rom.len(),
        rom_pc(rom_index(pc)) == pc,
{
    let d = pc - 0x200;
    lemma_mod_multiples_vanish(-0x100, pc as int, 2);
    lemma_fundamental_div_mod(d, 2);
    assert(d == 2 * (d / 2));
}

/// Processing one more edge extends the processed-target and
/// processed-predecessor sets by exactly that edge.
proof fn lemma_done_step(rom: Seq<Option<Instruction>>, i: int, k: int, pc: u16, p: u16)
    requires
        0 <= i < rom.len(),
        0 <= k < prim_next(rom, i).len(),
    ensures
        target_done(rom, i, k + 1, pc) == (target_done(rom, i, k, pc) || prim_next(rom, i)[k]
            == pc),
        prev_done(rom, i, k + 1, pc, p) == (prev_done(rom, i, k, pc, p) || (p == rom_pc(i)
            && prim_next(rom, i)[k] == pc)),
{
    if target_done(rom, i, k + 1, pc) {
        let (i2, k2) = choose|i2: int, k2: int|
            0 <= i2 < rom.len() && 0 <= k2 < prim_next(rom, i2).len() && (i2 < i || (i2 == i && k2
                < k + 1)) && (#[trigger] prim_next(rom, i2)[k2]) == pc;
        if !(i2 == i && k2 == k) {
            assert(target_done(rom, i, k, pc));
        }
    }
    if target_done(rom, i, k, pc) {
        let (i2, k2) = choose|i2: int, k2: int|
            0 <= i2 < rom.len() && 0 <= k2 < prim_next(rom, i2).len() && (i2 < i || (i2 == i && k2
                < k)) && (#[trigger] prim_next(rom, i2)[k2]) == pc;
        assert(target_done(rom, i, k + 1, pc));
    }
    if prim_next(rom, i)[k] == pc {
        assert(target_done(rom, i, k + 1, pc));
    }
    if prev_done(rom, i, k + 1, pc, p) {
        let (i2, k2) = choose|i2: int, k2: int|
            0 <= i2 < rom.len() && 0 <= k2 < prim_next(rom, i2).len() && (i2 < i || (i2 == i && k2
                < k + 1)) && rom_pc(i2) == p && (#[trigger] prim_next(rom, i2)[k2]) == pc;
        if !(i2 == i && k2 == k) {
            assert(prev_done(rom, i, k, pc, p));
        }
    }
    if prev_done(rom, i, k, pc, p) {
        let (i2, k2) = choose|i2: int, k2: int|
            0 <= i2 < rom.len() && 0 <= k2 < prim_next(rom, i2).len() && (i2 < i || (i2 == i && k2
                < k)) && rom_pc(i2) == p && (#[trigger] prim_next(rom, i2)[k2]) == pc;
        assert(prev_done(rom, i, k + 1, pc, p));
    }
    if p == rom_pc(i) && prim_next(rom, i)[k] == pc {
        assert(prev_done(rom, i, k + 1, pc, p));
    }
}

/// Standing past the last edge of a slot is standing at the start of the
/// next slot.
proof fn lemma_done_row(rom: Seq<Option<Instruction>>, i: int, pc: u16, p: u16)
    requires
        0 <= i,
    ensures
        target_done(rom, i + 1, 0, pc) == target_done(rom, i, prim_next(rom, i).len() as int, pc),
        prev_done(rom, i + 1, 0, pc, p) == prev_done(
            rom,
            i,
            prim_next(rom, i).len() as int,
            pc,
            p,
        ),
{
    let m = prim_next(rom, i).len() as int;
    if target_done(rom, i + 1, 0, pc) {
        let (i2, k2) = choose|i2: int, k2: int|
            0 <= i2 < rom.len() && 0 <= k2 < prim_next(rom, i2).len() && (i2 < i + 1 || (i2 == i
                + 1 && k2 < 0)) && (#[trigger] prim_next(rom, i2)[k2]) == pc;
        assert(target_done(rom, i, m, pc));
    }
    if target_done(rom, i, m, pc) {
        let (i2, k2) = choose|i2: int, k2: int|
            0 <= i2 < rom.len() && 0 <= k2 < prim_next(rom, i2).len() && (i2 < i || (i2 == i && k2
                < m)) && (#[trigger] prim_next(rom, i2)[k2]) == pc;
        assert(target_done(rom, i + 1, 0, pc));
    }
    if prev_done(rom, i + 1, 0, pc, p) {
        let (i2, k2) = choose|i2: int, k2: int|
            0 <= i2 < rom.len() && 0 <= k2 < prim_next(rom, i2).len() && (i2 < i + 1 || (i2 == i
                + 1 && k2 < 0)) && rom_pc(i2) == p && (#[trigger] prim_next(rom, i2)[k2]) == pc;
        assert(prev_done(rom, i, m, pc, p));
    }
    if prev_done(rom, i, m, pc, p) {
        let (i2, k2) = choose|i2: int, k2: int|
            0 <= i2 < rom.len() && 0 <= k2 < prim_next(rom, i2).len() && (i2 < i || (i2 == i && k2
                < m)) && rom_pc(i2) == p && (#[trigger] prim_next(rom, i2)[k2]) == pc;
        assert(prev_done(rom, i + 1, 0, pc, p));
    }
}

/// With every edge processed, the processed sets are the full ones.
proof fn lemma_done_final(rom: Seq<Option<Instruction>>, pc: u16, p: u16)
    ensures
        target_done(rom, rom.len() as int, 0, pc) == is_target(rom, pc),
        prev_done(rom, rom.len() as int, 0, pc, p) ==> exists|i2: int, k2: int|
            0 <= i2 < rom.len() && 0 <= k2 < prim_next(rom, i2).len() && rom_pc(i2) == p && (
            #[trigger] prim_next(rom, i2)[k2]) == pc,
        (exists|i2: int, k2: int|
            0 <= i2 < rom.len() && 0 <= k2 < prim_next(rom, i2).len() && rom_pc(i2) == p && (
            #[trigger] prim_next(rom, i2)[k2]) == pc) ==> prev_done(rom, rom.len() as int, 0, pc, p),
{
    let n = rom.len() as int;
    if target_done(rom, n, 0, pc) {
        let (i2, k2) = choose|i2: int, k2: int|
            0 <= i2 < rom.len() && 0 <= k2 < prim_next(rom, i2).len() && (i2 < n || (i2 == n && k2
                < 0)) && (#[trigger] prim_next(rom, i2)[k2]) == pc;
        assert(is_target(rom, pc));
    }
    if is_target(rom, pc) {
        let (i2, k2) = choose|i2: int, k2: int|
            0 <= i2 < rom.len() && 0 <= k2 < prim_next(rom, i2).len() && (#[trigger] prim_next(
                rom,
                i2,
            )[k2]) == pc;
        assert(target_done(rom, n, 0, pc));
    }
    if prev_done(rom, n, 0, pc, p) {
        let (i2, k2) = choose|i2: int, k2: int|
            0 <= i2 < rom.len() && 0 <= k2 < prim_next(rom, i2).len() && (i2 < n || (i2 == n && k2
                < 0)) && rom_pc(i2) == p && (#[trigger] prim_next(rom, i2)[k2]) == pc;
        assert(0 <= i2 < rom.len() && 0 <= k2 < prim_next(rom, i2).len() && rom_pc(i2) == p
            && prim_next(rom, i2)[k2] == pc);
    }
    if exists|i2: int, k2: int|
        0 <= i2 < rom.len() && 0 <= k2 < prim_next(rom, i2).len() && rom_pc(i2) == p && (
        #[trigger] prim_next(rom, i2)[k2]) == pc {
        let (i2, k2) = choose|i2: int, k2: int|
            0 <= i2 < rom.len() && 0 <= k2 < prim_next(rom, i2).len() && rom_pc(i2) == p && (
            #[trigger] prim_next(rom, i2)[k2]) == pc;
        assert(prev_done(rom, n, 0, pc, p));
    }
}

/// A graph satisfying the construction contract satisfies the structural
/// invariant: every edge's target exists and lists the source among its
/// predecessors.
pub proof fn lemma_from_rom_valid(rom: Seq<Option<Instruction>>, g: CFG)
    requires
        from_rom_post(rom, g),
        rom.len() <= 0x7E00,
    ensures
        g.valid_spec(),
{
    assert forall|i: int, k: int|
        0 <= i < g.contents@.len() && 0 <= k < g.contents@[i].1.next@.len() implies #[trigger] g
        .edge_ok(i, k) by {
        g.lemma_node_at(i);
        let pc = g.contents@[i].0;
        let t = g.contents@[i].1.next@[k];
        assert(g.has_node(pc));
        if !is_primary(rom, pc) {
            assert(g.node(pc).placeholder());
            assert(false);
        }
        lemma_primary_pc(rom, pc);
        let i2 = rom_index(pc);
        assert(primary_block_ok(rom, i2, g.node(rom_pc(i2))));
        assert(g.node(pc).next@ == prim_next(rom, i2));
        assert(prim_next(rom, i2)[k] == t);
        assert(is_target(rom, t));
        assert(g.has_node(t));
        assert(g.node(pc).next@.contains(t));
        assert(g.node(t).prev@.contains(pc));
    }
}

impl CFG {
    /// Build the graph for a decoded instruction stream: one block per slot
    /// (an opaque placeholder for an undecodable word), keyed by address,
    /// then derive the predecessor lists by inverting the successor edges,
    /// creating an empty placeholder node for any target outside the stream.
    pub fn from_rom(rom: &Vec<Option<Instruction>>) -> (g: CFG)
        requires
            rom@.len() <= 0x7E00,
        ensures
            from_rom_post(rom@, g),
            g.valid_spec(),
    {
        let n = rom.len();
        let mut contents: Vec<(u16, Block)> = Vec::new();
        for i in 0..n
            invariant
                n == rom@.len() <= 0x7E00,
                contents@.len() == i,
                forall|q: int| 0 <= q < i ==> (#[trigger] contents@[q]).0 == rom_pc(q),
                forall|q: int|
                    0 <= q < i ==> primary_block_ok(rom@, q, (#[trigger] contents@[q]).1),
                forall|q: int| 0 <= q < i ==> (#[trigger] contents@[q]).1.prev@.len() == 0,
                forall|q: int| 0 <= q < i ==> !(#[trigger] contents@[q]).1.reachable,
                total_code(contents@) == count_some(rom@.subrange(0, i as int)),
        {
            proof {
                lemma_rom_pc_index(i as int);
            }
            let pc: u16 = 0x200 + 2 * (i as u16);
            let b = match rom[i] {
                Some(ins) => Block::from_single(pc, ins),
                None => Block::new_empty(),
            };
            let ghost pre_contents = contents@;
            contents.push((pc, b));
            proof {
                assert(contents@.drop_last() =~= pre_contents);
                assert(contents@.last() == (pc, b));
                assert(rom@.subrange(0, i + 1).drop_last() =~= rom@.subrange(0, i as int));
                assert(rom@.subrange(0, i + 1).last() == rom@[i as int]);
            }
        }
        let mut g = CFG { contents };
        proof {
            assert forall|q1: int, q2: int|
                0 <= q1 < g.contents@.len() && 0 <= q2 < g.contents@.len() && q1 != q2 implies (
            #[trigger] g.contents@[q1]).0 != (#[trigger] g.contents@[q2]).0 by {
                lemma_rom_pc_index(q1);
                lemma_rom_pc_index(q2);
            }
            assert forall|pc: u16| #[trigger] g.has_node(pc) implies (is_primary(rom@, pc)
                || target_done(rom@, 0, 0, pc)) by {
                let q = choose|q: int|
                    0 <= q < g.contents@.len() && (#[trigger] g.contents@[q]).0 == pc;
                lemma_rom_pc_index(q);
            }
            assert forall|pc: u16| is_primary(rom@, pc) || target_done(rom@, 0, 0, pc) implies
                #[trigger] g.has_node(pc) by {
                if is_primary(rom@, pc) {
                    lemma_primary_pc(rom@, pc);
                    let q = rom_index(pc);
                    assert(g.contents@[q].0 == pc);
                } else {
                    let (i2, k2) = choose|i2: int, k2: int|
                        0 <= i2 < rom@.len() && 0 <= k2 < prim_next(rom@, i2).len() && (i2 < 0 || (
                        i2 == 0 && k2 < 0)) && (#[trigger] prim_next(rom@, i2)[k2]) == pc;
                    assert(false);
                }
            }
            assert(rom@.subrange(0, n as int) =~= rom@);
            assert(total_code(g.contents@) == count_some(rom@));
        }
        for i in 0..n
            invariant
                n == rom@.len() <= 0x7E00,
                g.keys_unique(),
                n <= g.contents@.len(),
                forall|q: int| 0 <= q < n ==> (#[trigger] g.contents@[q]).0 == rom_pc(q),
                forall|q: int|
                    0 <= q < n ==> primary_block_ok(rom@, q, (#[trigger] g.contents@[q]).1),
                forall|q: int|
                    n <= q < g.contents@.len() ==> (#[trigger] g.contents@[q]).1.placeholder(),
                forall|q: int|
                    0 <= q < g.contents@.len() ==> !(#[trigger] g.contents@[q]).1.reachable,
                forall|pc: u16|
                    #[trigger] g.has_node(pc) <==> (is_primary(rom@, pc) || target_done(
                        rom@,
                        i as int,
                        0,
                        pc,
                    )),
                forall|q: int, p: u16|
                    0 <= q < g.contents@.len() ==> ((#[trigger] g.contents@[q].1.prev@.contains(
                        p,
                    )) <==> prev_done(rom@, i as int, 0, g.contents@[q].0, p)),
                forall|q: int|
                    0 <= q < g.contents@.len() ==> (
                    #[trigger] g.contents@[q]).1.prev@.no_duplicates(),
                total_code(g.contents@) == count_some(rom@),
        {
            let src_pc = g.contents[i].0;
            let m = g.contents[i].1.next.len();
            proof {
                assert(g.contents@[i as int].1.next@ =~= prim_next(rom@, i as int));
            }
            for k in 0..m
                invariant
                    n == rom@.len() <= 0x7E00,
                    i < n,
                    g.keys_unique(),
                    n <= g.contents@.len(),
                    src_pc == rom_pc(i as int),
                    m == prim_next(rom@, i as int).len(),
                    g.contents@[i as int].1.next@ == prim_next(rom@, i as int),
                    forall|q: int| 0 <= q < n ==> (#[trigger] g.contents@[q]).0 == rom_pc(q),
                    forall|q: int|
                        0 <= q < n ==> primary_block_ok(rom@, q, (#[trigger] g.contents@[q]).1),
                    forall|q: int|
                        n <= q < g.contents@.len() ==> (#[trigger] g.contents@[q]).1.placeholder(),
                    forall|q: int|
                        0 <= q < g.contents@.len() ==> !(#[trigger] g.contents@[q]).1.reachable,
                    forall|pc: u16|
                        #[trigger] g.has_node(pc) <==> (is_primary(rom@, pc) || target_done(
                            rom@,
                            i as int,
                            k as int,
                            pc,
                        )),
                    forall|q: int, p: u16|
                        0 <= q < g.contents@.len() ==> ((#[trigger] g.contents@[q].1.prev@.contains(
                            p,
                        )) <==> prev_done(rom@, i as int, k as int, g.contents@[q].0, p)),
                    forall|q: int|
                        0 <= q < g.contents@.len() ==> (
                        #[trigger] g.contents@[q]).1.prev@.no_duplicates(),
                    total_code(g.contents@) == count_some(rom@),
            {
                let t = g.contents[i].1.next[k];
                let ghost g_old = g;
                proof {
                    assert(t == prim_next(rom@, i as int)[k as int]);
                }
                match g.find_node(t) {
                    Some(j) => {
                        g.contents[j].1.prev.push(src_pc);
                        proof {
                            let rom_s = rom@;
                            let ii = i as int;
                            let kk = k as int;
                            let jj = j as int;
                            assert(g.contents@ == g_old.contents@.update(
                                jj,
                                (g_old.contents@[jj].0, g.contents@[jj].1),
                            ));
                            assert(g.contents@[jj].1.prev@ == g_old.contents@[jj].1.prev@.push(
                                src_pc,
                            ));
                            lemma_total_update(g_old.contents@, g.contents@, jj);
                            assert(!g_old.contents@[jj].1.prev@.contains(src_pc)) by {
                                if g_old.contents@[jj].1.prev@.contains(src_pc) {
                                    assert(prev_done(
                                        rom_s,
                                        ii,
                                        kk,
                                        g_old.contents@[jj].0,
                                        src_pc,
                                    ));
                                    let (i2, k2) = choose|i2: int, k2: int|
                                        0 <= i2 < rom_s.len() && 0 <= k2 < prim_next(
                                            rom_s,
                                            i2,
                                        ).len() && (i2 < ii || (i2 == ii && k2 < kk)) && rom_pc(i2)
                                            == src_pc && (#[trigger] prim_next(rom_s, i2)[k2])
                                            == g_old.contents@[jj].0;
                                    if i2 != ii {
                                        lemma_rom_pc_injective(i2, ii);
                                    }
                                    lemma_rom_pc_index(ii);
                                    match rom_s[ii] {
                                        Some(ins) => {
                                            lemma_next_pcs_distinct(ins, rom_pc(ii));
                                        },
                                        None => {},
                                    }
                                    assert(false);
                                }
                            }
                            assert forall|q: int|
                                0 <= q < g.contents@.len() implies (
                            #[trigger] g.contents@[q]).1.prev@.no_duplicates() by {
                                if q == jj {
                                    let oldp = g_old.contents@[jj].1.prev@;
                                    let newp = g.contents@[jj].1.prev@;
                                    assert forall|w1: int, w2: int|
                                        0 <= w1 < newp.len() && 0 <= w2 < newp.len() && w1
                                            != w2 implies newp[w1] != newp[w2] by {
                                        if w1 == oldp.len() {
                                            if newp[w2] == src_pc {
                                                assert(oldp[w2] == src_pc);
                                                assert(oldp.contains(src_pc));
                                            }
                                        } else if w2 == oldp.len() {
                                            if newp[w1] == src_pc {
                                                assert(oldp[w1] == src_pc);
                                                assert(oldp.contains(src_pc));
                                            }
                                        }
                                    }
                                } else {
                                    assert(g.contents@[q].1.prev@
                                        == g_old.contents@[q].1.prev@);
                                }
                            }
                            assert forall|pc: u16| #[trigger] g.has_node(pc) implies g_old.has_node(
                                pc,
                            ) by {
                                let q = choose|q: int|
                                    0 <= q < g.contents@.len() && (#[trigger] g.contents@[q]).0
                                        == pc;
                                assert(g_old.contents@[q].0 == pc);
                            }
                            assert forall|pc: u16| #[trigger] g_old.has_node(pc) implies g.has_node(
                                pc,
                            ) by {
                                let q = choose|q: int|
                                    0 <= q < g_old.contents@.len() && (#[trigger] g_old.contents@[q]).0
                                        == pc;
                                assert(g.contents@[q].0 == pc);
                            }
                            assert forall|pc: u16| #[trigger] g.has_node(pc) implies (is_primary(
                                rom_s,
                                pc,
                            ) || target_done(rom_s, ii, kk + 1, pc)) by {
                                lemma_done_step(rom_s, ii, kk, pc, 0);
                            }
                            assert forall|pc: u16|
                                is_primary(rom_s, pc) || target_done(rom_s, ii, kk + 1, pc) implies
                                #[trigger] g.has_node(pc) by {
                                lemma_done_step(rom_s, ii, kk, pc, 0);
                                if target_done(rom_s, ii, kk + 1, pc) && !target_done(
                                    rom_s,
                                    ii,
                                    kk,
                                    pc,
                                ) {
                                    assert(pc == t);
                                    assert(g_old.contents@[jj].0 == t);
                                    assert(g_old.has_node(t));
                                } else {
                                    assert(g_old.has_node(pc));
                                }
                            }
                            assert forall|q: int, p: u16| 0 <= q < g.contents@.len() implies ((
                            #[trigger] g.contents@[q].1.prev@.contains(p)) <==> prev_done(
                                rom_s,
                                ii,
                                kk + 1,
                                g.contents@[q].0,
                                p,
                            )) by {
                                lemma_done_step(rom_s, ii, kk, g.contents@[q].0, p);
                                if q == jj {
                                    assert(g.contents@[q].0 == t);
                                    if g.contents@[q].1.prev@.contains(p) {
                                        let w = choose|w: int|
                                            0 <= w < g.contents@[q].1.prev@.len()
                                                && g.contents@[q].1.prev@[w] == p;
                                        if w < g_old.contents@[q].1.prev@.len() {
                                            assert(g_old.contents@[q].1.prev@.contains(p));
                                        } else {
                                            assert(p == src_pc);
                                        }
                                    }
                                    if prev_done(rom_s, ii, kk + 1, t, p) {
                                        if prev_done(rom_s, ii, kk, t, p) {
                                            assert(g_old.contents@[q].1.prev@.contains(p));
                                            let w = choose|w: int|
                                                0 <= w < g_old.contents@[q].1.prev@.len()
                                                    && g_old.contents@[q].1.prev@[w] == p;
                                            assert(g.contents@[q].1.prev@[w] == p);
                                        } else {
                                            assert(p == src_pc);
                                            assert(g.contents@[q].1.prev@.last() == src_pc);
                                        }
                                        assert(g.contents@[q].1.prev@.contains(p));
                                    }
                                } else {
                                    assert(g.contents@[q].1.prev@ == g_old.contents@[q].1.prev@);
                                    assert(g.contents@[q].0 != t);
                                }
                            }
                        }
                    },
                    None => {
                        let mut b = Block::new_empty();
                        b.prev.push(src_pc);
                        g.contents.push((t, b));
                        proof {
                            let rom_s = rom@;
                            let ii = i as int;
                            let kk = k as int;
                            let newlen = g.contents@.len();
                            assert(g.contents@ == g_old.contents@.push((t, g.contents@[newlen - 1].1)));
                            assert(g.contents@[newlen - 1].0 == t);
                            assert(g.contents@[newlen - 1].1.prev@ =~= seq![src_pc]);
                            assert(g.contents@[newlen - 1].1.placeholder());
                            assert(g.contents@.drop_last() =~= g_old.contents@);
                            assert(total_code(g.contents@) == total_code(g_old.contents@));
                            assert forall|pc: u16| #[trigger] g.has_node(pc) implies (is_primary(
                                rom_s,
                                pc,
                            ) || target_done(rom_s, ii, kk + 1, pc)) by {
                                lemma_done_step(rom_s, ii, kk, pc, 0);
                                let q = choose|q: int|
                                    0 <= q < g.contents@.len() && (#[trigger] g.contents@[q]).0
                                        == pc;
                                if q < newlen - 1 {
                                    assert(g_old.has_node(pc));
                                } else {
                                    assert(pc == t);
                                    assert(target_done(rom_s, ii, kk + 1, t));
                                }
                            }
                            assert forall|pc: u16|
                                is_primary(rom_s, pc) || target_done(rom_s, ii, kk + 1, pc) implies
                                #[trigger] g.has_node(pc) by {
                                lemma_done_step(rom_s, ii, kk, pc, 0);
                                if is_primary(rom_s, pc) || target_done(rom_s, ii, kk, pc) {
                                    assert(g_old.has_node(pc));
                                    let q = choose|q: int|
                                        0 <= q < g_old.contents@.len() && (
                                        #[trigger] g_old.contents@[q]).0 == pc;
                                    assert(g.contents@[q].0 == pc);
                                } else {
                                    assert(pc == t);
                                    assert(g.contents@[newlen - 1].0 == pc);
                                }
                            }
                            assert forall|q1: int, q2: int|
                                0 <= q1 < g.contents@.len() && 0 <= q2 < g.contents@.len() && q1
                                    != q2 implies (#[trigger] g.contents@[q1]).0 != (
                            #[trigger] g.contents@[q2]).0 by {
                                if q1 == newlen - 1 {
                                    assert(g_old.contents@[q2].0 != t);
                                } else if q2 == newlen - 1 {
                                    assert(g_old.contents@[q1].0 != t);
                                }
                            }
                            assert forall|q: int, p: u16| 0 <= q < g.contents@.len() implies ((
                            #[trigger] g.contents@[q].1.prev@.contains(p)) <==> prev_done(
                                rom_s,
                                ii,
                                kk + 1,
                                g.contents@[q].0,
                                p,
                            )) by {
                                lemma_done_step(rom_s, ii, kk, g.contents@[q].0, p);
                                if q == newlen - 1 {
                                    assert(!g_old.has_node(t));
                                    assert(!target_done(rom_s, ii, kk, t));
                                    if prev_done(rom_s, ii, kk, t, p) {
                                        let (i2, k2) = choose|i2: int, k2: int|
                                            0 <= i2 < rom_s.len() && 0 <= k2 < prim_next(
                                                rom_s,
                                                i2,
                                            ).len() && (i2 < ii || (i2 == ii && k2 < kk)) && rom_pc(
                                                i2,
                                            ) == p && (#[trigger] prim_next(rom_s, i2)[k2]) == t;
                                            assert(target_done(rom_s, ii, kk, t));
                                    }
                                    if g.contents@[q].1.prev@.contains(p) {
                                        assert(p == src_pc);
                                    }
                                    if prev_done(rom_s, ii, kk + 1, t, p) {
                                        assert(p == src_pc);
                                        assert(g.contents@[q].1.prev@[0] == src_pc);
                                        assert(g.contents@[q].1.prev@.contains(p));
                                    }
                                } else {
                                    assert(g.contents@[q].1.prev@ == g_old.contents@[q].1.prev@);
                                    assert(g.contents@[q].0 != t);
                                    if p == src_pc && prim_next(rom_s, ii)[kk] == g.contents@[q].0 {
                                        assert(false);
                                    }
                                }
                            }
                        }
                    },
                }
            }
            proof {
                assert forall|pc: u16| #[trigger] g.has_node(pc) <==> (is_primary(rom@, pc)
                    || target_done(rom@, i as int + 1, 0, pc)) by {
                    lemma_done_row(rom@, i as int, pc, 0);
                }
                assert forall|q: int, p: u16| 0 <= q < g.contents@.len() implies ((
                #[trigger] g.contents@[q].1.prev@.contains(p)) <==> prev_done(
                    rom@,
                    i as int + 1,
                    0,
                    g.contents@[q].0,
                    p,
                )) by {
                    lemma_done_row(rom@, i as int, g.contents@[q].0, p);
                }
            }
        }
        proof {
            let rom_s = rom@;
            let nn = rom_s.len() as int;
            assert forall|pc: u16| #[trigger] g.has_node(pc) <==> (is_primary(rom_s, pc)
                || is_target(rom_s, pc)) by {
                lemma_done_final(rom_s, pc, 0);
            }
            assert forall|i: int| 0 <= i < nn implies g.has_node(rom_pc(i)) && primary_block_ok(
                rom_s,
                i,
                #[trigger] g.node(rom_pc(i)),
            ) by {
                g.lemma_node_at(i);
            }
            assert forall|pc: u16|
                #[trigger] g.has_node(pc) && !is_primary(rom_s, pc) implies g.node(
                pc,
            ).placeholder() by {
                let q = g.idx_of(pc);
                if q < nn {
                    lemma_rom_pc_index(q);
                }
            }
            assert forall|pc: u16| #[trigger] g.has_node(pc) implies g.node(
                pc,
            ).prev@.no_duplicates() by {
                let q = g.idx_of(pc);
                assert(0 <= q < g.contents@.len() && g.contents@[q].0 == pc);
            }
            assert forall|pc: u16, p: u16| g.has_node(pc) implies ((#[trigger] g.node(
                pc,
            ).prev@.contains(p)) <==> (g.has_node(p) && g.node(p).next@.contains(pc))) by {
                lemma_done_final(rom_s, pc, p);
                let q = g.idx_of(pc);
                g.lemma_node_at(q);
                assert(g.node(pc) == g.contents@[q].1 && g.contents@[q].0 == pc);
                if g.node(pc).prev@.contains(p) {
                    assert(prev_done(rom_s, nn, 0, pc, p));
                    let (i2, k2) = choose|i2: int, k2: int|
                        0 <= i2 < rom_s.len() && 0 <= k2 < prim_next(rom_s, i2).len() && rom_pc(i2)
                            == p && (#[trigger] prim_next(rom_s, i2)[k2]) == pc;
                    g.lemma_node_at(i2);
                    assert(g.has_node(p));
                    assert(g.node(p).next@ == prim_next(rom_s, i2));
                    assert(g.node(p).next@[k2] == pc);
                    assert(g.node(p).next@.contains(pc));
                }
                if g.has_node(p) && g.node(p).next@.contains(pc) {
                    let qp = g.idx_of(p);
                    g.lemma_node_at(qp);
                    if qp >= nn {
                        assert(g.contents@[qp].1.placeholder());
                        assert(false);
                    }
                    assert(g.node(p).next@ == prim_next(rom_s, qp));
                    let k2 = choose|k2: int|
                        0 <= k2 < g.node(p).next@.len() && g.node(p).next@[k2] == pc;
                    assert(prim_next(rom_s, qp)[k2] == pc);
                    assert(prev_done(rom_s, nn, 0, pc, p));
                    assert(g.contents@[q].1.prev@.contains(p));
                }
            }
            lemma_from_rom_valid(rom_s, g);
        }
        g
    }
}

/// The total number of instructions held across all blocks.
pub open spec fn total_code(s: Seq<(u16, Block)>) -> nat
    decreases s.len(),
{
    if s.len() == 0 {
        0
    } else {
        total_code(s.drop_last()) + s.last().1.code@.len()
    }
}

/// Entrywise equal code lengths give equal totals.
proof fn lemma_total_pointwise(s: Seq<(u16, Block)>, s2: Seq<(u16, Block)>)
    requires
        s2.len() == s.len(),
        forall|q: int| 0 <= q < s.len() ==> (#[trigger] s2[q]).1.code@.len() == s[q].1.code@.len(),
    ensures
        total_code(s2) == total_code(s),
    decreases s.len(),
{
    if s.len() > 0 {
        lemma_total_pointwise(s.drop_last(), s2.drop_last());
    }
}

/// Replacing one entry shifts the total by the difference in code length.
proof fn lemma_total_update(s: Seq<(u16, Block)>, s2: Seq<(u16, Block)>, j: int)
    requires
        s2.len() == s.len(),
        0 <= j < s.len(),
        forall|q: int| 0 <= q < s.len() && q != j ==> s2[q] == s[q],
    ensures
        total_code(s2) + s[j].1.code@.len() == total_code(s) + s2[j].1.code@.len(),
    decreases s.len(),
{
    if j == s.len() - 1 {
        assert(s2.drop_last() =~= s.drop_last());
    } else {
        lemma_total_update(s.drop_last(), s2.drop_last(), j);
        assert(s2.last() == s.last());
    }
}

/// Removing one entry subtracts its code length from the total.
proof fn lemma_total_remove(s: Seq<(u16, Block)>, j: int)
    requires
        0 <= j < s.len(),
    ensures
        total_code(s.remove(j)) + s[j].1.code@.len() == total_code(s),
    decreases s.len(),
{
    if j == s.len() - 1 {
        assert(s.remove(j) =~= s.drop_last());
    } else {
        assert(s.remove(j).drop_last() =~= s.drop_last().remove(j));
        lemma_total_remove(s.drop_last(), j);
        assert(s.remove(j).last() == s.last());
    }
}

/// A predecessor list with every reference to `from` replaced by `to`.
pub open spec fn redirect(s: Seq<u16>, from: u16, to: u16) -> Seq<u16> {
    s.map_values(
        |v: u16|
            if v == from {
                to
            } else {
                v
            },
    )
}

/// One coalescing step, described abstractly: the block at `pa` — whose only
/// successor is the distinct block at `pb`, whose sole predecessor it is,
/// with no call boundary — absorbs it. The absorbed node disappears; the
/// absorbing node concatenates the code, takes over the successor set and
/// return address, and every predecessor reference to the absorbed address
/// is redirected; all other blocks are untouched.
pub open spec fn absorb_step_at(pre: CFG, post: CFG, pa: u16, pb: u16) -> bool {
    &&& pre.has_node(pa)
    &&& pre.has_node(pb)
    &&& pa != pb
    &&& pre.node(pa).next@ == seq![pb]
    &&& pre.node(pa).return_address is None
    &&& pre.node(pb).prev@.len() == 1
    &&& forall|pc: u16| #[trigger] post.has_node(pc) <==> (pre.has_node(pc) && pc != pb)
    &&& forall|pc: u16|
        #[trigger] post.has_node(pc) ==> {
            &&& post.node(pc).next@ == (if pc == pa {
                pre.node(pb).next@
            } else {
                pre.node(pc).next@
            })
            &&& post.node(pc).prev@ == redirect(pre.node(pc).prev@, pb, pa)
            &&& post.node(pc).code@ == (if pc == pa {
                pre.node(pa).code@ + pre.node(pb).code@
            } else {
                pre.node(pc).code@
            })
            &&& post.node(pc).return_address == (if pc == pa {
                pre.node(pb).return_address
            } else {
                pre.node(pc).return_address
            })
            &&& post.node(pc).reachable == pre.node(pc).reachable
        }
}

/// The graph is one unbranching chain: its nodes can be listed so that
/// each one's sole successor is the next, each one's sole predecessor is
/// the previous, and no block carries a call boundary.
pub open spec fn chain_graph_on(g: CFG, vs: Seq<u16>) -> bool {
    &&& vs.len() >= 1
    &&& vs.no_duplicates()
    &&& forall|pc: u16| #[trigger] g.has_node(pc) <==> vs.contains(pc)
    &&& forall|i: int| 0 <= i < vs.len() - 1 ==> g.node(#[trigger] vs[i]).next@ == seq![vs[i + 1]]
    &&& g.node(vs.last()).next@ == Seq::<u16>::empty()
    &&& g.node(vs[0]).prev@ == Seq::<u16>::empty()
    &&& forall|i: int| 1 <= i < vs.len() ==> g.node(#[trigger] vs[i]).prev@ == seq![vs[i - 1]]
    &&& forall|i: int| 0 <= i < vs.len() ==> g.node(#[trigger] vs[i]).return_address is None
}

/// Some listing exhibits the graph as a chain.
pub open spec fn chain_graph(g: CFG) -> bool {
    exists|vs: Seq<u16>| chain_graph_on(g, vs)
}

/// What reduction guarantees: the result is structurally valid, fully
/// reduced, built only from nodes the input had with their reachability
/// marks intact, holds exactly as many instructions as the input, is
/// untouched when the input was already reduced, and coalesces an
/// unbranching chain into a single block.
pub open spec fn reduce_rel(pre: CFG, post: CFG) -> bool {
    &&& post.keys_unique()
    &&& post.valid_spec()
    &&& post.reduced()
    &&& total_code(post.contents@) == total_code(pre.contents@)
    &&& forall|pc: u16|
        #[trigger] post.has_node(pc) ==> pre.has_node(pc) && post.node(pc).reachable == pre.node(
            pc,
        ).reachable
    &&& (pre.all_unmarked() ==> post.all_unmarked())
    &&& (pre.reduced() ==> post == pre)
    &&& (chain_graph(pre) ==> post.contents@.len() == 1)
}

/// One absorption step keeps a chain a chain: the absorbed node simply
/// drops out of the listing.
proof fn lemma_absorb_preserves_chain(pre: CFG, post: CFG, pa: u16, pb: u16, vs: Seq<u16>)
    requires
        chain_graph_on(pre, vs),
        absorb_step_at(pre, post, pa, pb),
    ensures
        chain_graph(post),
{
    let j = choose|j: int| 0 <= j < vs.len() && vs[j] == pa;
    assert(pre.has_node(pa) && vs.contains(pa));
    if j == vs.len() - 1 {
        assert(pre.node(vs.last()).next@.len() == 0);
        assert(pre.node(pa).next@.len() == 1);
        assert(false);
    }
    assert(pre.node(vs[j]).next@ == seq![vs[j + 1]]);
    assert(pre.node(pa).next@[0] == pb);
    assert(vs[j + 1] == pb);
    let vs2 = vs.remove(j + 1);
    assert(vs2.len() == vs.len() - 1);
    assert forall|i: int| 0 <= i < vs2.len() implies vs2[i] == (if i < j + 1 {
        vs[i]
    } else {
        vs[i + 1]
    }) by {}
    // the listing without the absorbed node is duplicate-free
    assert forall|w1: int, w2: int|
        0 <= w1 < vs2.len() && 0 <= w2 < vs2.len() && w1 != w2 implies vs2[w1] != vs2[w2] by {}
    // node set
    assert forall|pc: u16| #[trigger] post.has_node(pc) implies vs2.contains(pc) by {
        assert(pre.has_node(pc) && pc != pb);
        let w = choose|w: int| 0 <= w < vs.len() && vs[w] == pc;
        if w == j + 1 {
            assert(false);
        }
        if w < j + 1 {
            assert(vs2[w] == pc);
        } else {
            assert(vs2[w - 1] == pc);
        }
    }
    assert forall|pc: u16| vs2.contains(pc) implies #[trigger] post.has_node(pc) by {
        let w = choose|w: int| 0 <= w < vs2.len() && vs2[w] == pc;
        if w < j + 1 {
            assert(vs[w] == pc);
        } else {
            assert(vs[w + 1] == pc);
        }
        assert(vs.contains(pc));
        assert(pre.has_node(pc));
        if pc == pb {
            assert(vs2[w] == vs[j + 1]);
            assert(false);
        }
    }
    // successors
    assert forall|i: int| 0 <= i < vs2.len() - 1 implies post.node(#[trigger] vs2[i]).next@
        == seq![vs2[i + 1]] by {
        assert(vs2.contains(vs2[i]));
        assert(post.has_node(vs2[i]));
        if i < j {
            assert(vs2[i] == vs[i] && vs2[i + 1] == vs[i + 1]);
            assert(vs[i] != pa && vs[i] != pb);
            assert(post.node(vs[i]).next@ == pre.node(vs[i]).next@);
        } else if i == j {
            assert(vs2[j] == pa);
            assert(post.node(pa).next@ == pre.node(pb).next@);
            assert(j + 1 < vs.len() - 1);
            assert(pre.node(vs[j + 1]).next@ == seq![vs[j + 2]]);
            assert(vs2[j + 1] == vs[j + 2]);
        } else {
            assert(vs2[i] == vs[i + 1] && vs2[i + 1] == vs[i + 2]);
            assert(vs[i + 1] != pa && vs[i + 1] != pb);
            assert(post.node(vs[i + 1]).next@ == pre.node(vs[i + 1]).next@);
            assert(pre.node(vs[i + 1]).next@ == seq![vs[i + 2]]);
        }
    }
    // the last node still has no successor
    assert(post.node(vs2.last()).next@ == Seq::<u16>::empty()) by {
        if j + 1 == vs.len() - 1 {
            assert(vs2.last() == pa);
            assert(post.has_node(pa));
            assert(post.node(pa).next@ == pre.node(pb).next@);
            assert(pre.node(vs.last()).next@ == Seq::<u16>::empty());
        } else {
            assert(vs2.last() == vs.last());
            assert(vs.last() != pa && vs.last() != pb);
            assert(vs2.contains(vs2.last()));
            assert(post.has_node(vs.last()));
            assert(post.node(vs.last()).next@ == pre.node(vs.last()).next@);
        }
    }
    // the first node still has no predecessor
    assert(post.node(vs2[0]).prev@ == Seq::<u16>::empty()) by {
        assert(vs2[0] == vs[0]);
        assert(vs2.contains(vs2[0]));
        assert(post.has_node(vs[0]));
        assert(post.node(vs[0]).prev@ == redirect(pre.node(vs[0]).prev@, pb, pa));
        assert(redirect(pre.node(vs[0]).prev@, pb, pa) =~= Seq::<u16>::empty());
    }
    // predecessors
    assert forall|i: int| 1 <= i < vs2.len() implies post.node(#[trigger] vs2[i]).prev@
        == seq![vs2[i - 1]] by {
        assert(vs2.contains(vs2[i]));
        assert(post.has_node(vs2[i]));
        if i < j + 1 {
            assert(vs2[i] == vs[i] && vs2[i - 1] == vs[i - 1]);
            assert(pre.node(vs[i]).prev@ == seq![vs[i - 1]]);
            assert(vs[i - 1] != pb);
            assert(post.node(vs[i]).prev@ == redirect(pre.node(vs[i]).prev@, pb, pa));
            assert(redirect(seq![vs[i - 1]], pb, pa) =~= seq![vs[i - 1]]);
        } else if i == j + 1 {
            assert(vs2[i] == vs[j + 2] && vs2[i - 1] == vs[j] && vs[j] == pa);
            assert(pre.node(vs[j + 2]).prev@ == seq![vs[j + 1]]);
            assert(post.node(vs[j + 2]).prev@ == redirect(seq![pb], pb, pa));
            assert(redirect(seq![pb], pb, pa) =~= seq![pa]);
        } else {
            assert(vs2[i] == vs[i + 1] && vs2[i - 1] == vs[i]);
            assert(pre.node(vs[i + 1]).prev@ == seq![vs[i]]);
            assert(vs[i] != pb);
            assert(post.node(vs[i + 1]).prev@ == redirect(seq![vs[i]], pb, pa));
            assert(redirect(seq![vs[i]], pb, pa) =~= seq![vs[i]]);
        }
    }
    // no call boundaries appear
    assert forall|i: int| 0 <= i < vs2.len() implies post.node(
        #[trigger] vs2[i],
    ).return_address is None by {
        assert(vs2.contains(vs2[i]));
        assert(post.has_node(vs2[i]));
        if vs2[i] == pa {
            assert(pre.node(vs[j + 1]).return_address is None);
        } else {
            assert(vs.contains(vs2[i]));
        }
    }
    assert(chain_graph_on(post, vs2));
}

/// A reduced chain has collapsed to a single block.
proof fn lemma_reduced_chain(g: CFG, vs: Seq<u16>)
    requires
        g.keys_unique(),
        chain_graph_on(g, vs),
        g.reduced(),
    ensures
        g.contents@.len() == 1,
        vs.len() == 1,
{
    if vs.len() >= 2 {
        assert(vs.contains(vs[0]));
        assert(g.has_node(vs[0]));
        let q = g.idx_of(vs[0]);
        assert(0 <= q < g.contents@.len() && g.contents@[q].0 == vs[0]);
        assert(g.node(vs[0]).next@ == seq![vs[1]]);
        assert(g.node(vs[0]).return_address is None);
        assert(vs[1] != vs[0]);
        assert(vs.contains(vs[1]));
        assert(g.has_node(vs[1]));
        assert(g.node(vs[1]).prev@ == seq![vs[0]]);
        assert(g.absorbable(q));
        assert(false);
    }
    assert(g.has_node(vs[0]));
    assert(g.contents@.len() >= 1);
    if g.contents@.len() >= 2 {
        assert(g.has_node(g.contents@[0].0));
        assert(g.has_node(g.contents@[1].0));
        assert(vs.contains(g.contents@[0].0) && vs.contains(g.contents@[1].0));
        assert(g.contents@[0].0 == vs[0] && g.contents@[1].0 == vs[0]);
        assert(false);
    }
}

impl CFG {
    /// Decide whether entry `i` qualifies for coalescing.
    fn is_absorbable_at(&self, i: usize) -> (r: bool)
        requires
            self.keys_unique(),
            i < self.contents@.len(),
        ensures
            r == self.absorbable(i as int),
    {
        if self.contents[i].1.next.len() != 1 {
            return false;
        }
        if self.contents[i].1.return_address.is_some() {
            return false;
        }
        let t = self.contents[i].1.next[0];
        if t == self.contents[i].0 {
            return false;
        }
        match self.find_node(t) {
            None => false,
            Some(j) => {
                proof {
                    self.lemma_node_at(j as int);
                }
                self.contents[j].1.prev.len() == 1
            },
        }
    }

    /// Find an entry that qualifies for coalescing, together with the entry
    /// of its unique successor.
    fn find_candidate(&self) -> (r: Option<(usize, usize)>)
        requires
            self.keys_unique(),
        ensures
            match r {
                None => self.reduced(),
                Some((ia, ib)) => {
                    &&& ia < self.contents@.len()
                    &&& ib < self.contents@.len()
                    &&& ia != ib
                    &&& self.absorbable(ia as int)
                    &&& self.contents@[ib as int].0 == self.contents@[ia as int].1.next@[0]
                },
            },
    {
        let n = self.contents.len();
        for i in 0..n
            invariant
                n == self.contents@.len(),
                self.keys_unique(),
                forall|q: int| 0 <= q < i ==> !(#[trigger] self.absorbable(q)),
        {
            if self.is_absorbable_at(i) {
                let t = self.contents[i].1.next[0];
                match self.find_node(t) {
                    Some(j) => {
                        proof {
                            self.lemma_node_at(i as int);
                            self.lemma_node_at(j as int);
                        }
                        return Some((i, j));
                    },
                    None => {
                        proof {
                            assert(false);
                        }
                        return None;
                    },
                }
            }
        }
        None
    }

    /// One reduction step: the block at entry `ia` absorbs its unique
    /// successor, the entry at `ib`. The absorbed entry disappears and every
    /// predecessor reference to it is redirected to the absorbing block.
    /// The structural invariant holds again afterwards.
    fn absorb_at(&mut self, ia: usize, ib: usize)
        requires
            old(self).keys_unique(),
            old(self).valid_spec(),
            ia < old(self).contents@.len(),
            ib < old(self).contents@.len(),
            ia != ib,
            old(self).absorbable(ia as int),
            old(self).contents@[ib as int].0 == old(self).contents@[ia as int].1.next@[0],
        ensures
            final(self).keys_unique(),
            final(self).valid_spec(),
            final(self).contents@.len() == old(self).contents@.len() - 1,
            total_code(final(self).contents@) == total_code(old(self).contents@),
            forall|pc: u16|
                #[trigger] final(self).has_node(pc) ==> old(self).has_node(pc) && final(self).node(
                    pc,
                ).reachable == old(self).node(pc).reachable,
            old(self).all_unmarked() ==> final(self).all_unmarked(),
            absorb_step_at(
                *old(self),
                *final(self),
                old(self).contents@[ia as int].0,
                old(self).contents@[ib as int].0,
            ),
    {
        let ghost g0 = *old(self);
        let a_pc = self.contents[ia].0;
        let b_pc = self.contents[ib].0;
        proof {
            g0.lemma_node_at(ia as int);
            g0.lemma_node_at(ib as int);
            assert(g0.edge_ok(ia as int, 0));
            assert(g0.idx_of(b_pc) == ib as int);
            assert(g0.node(b_pc).prev@.len() == 1);
            let w = choose|w: int|
                0 <= w < g0.node(b_pc).prev@.len() && g0.node(b_pc).prev@[w] == a_pc;
            assert(g0.contents@[ib as int].1.prev@ =~= seq![a_pc]);
        }
        let removed = self.contents.remove(ib);
        let ia2 = if ia < ib {
            ia
        } else {
            ia - 1
        };
        self.contents[ia2].1.absorb_next(removed.1);
        let ghost mid = *self;
        let n2 = self.contents.len();
        for z in 0..n2
            invariant
                n2 == self.contents@.len() == mid.contents@.len(),
                forall|q: int|
                    0 <= q < n2 ==> {
                        &&& (#[trigger] self.contents@[q]).0 == mid.contents@[q].0
                        &&& self.contents@[q].1.code@ == mid.contents@[q].1.code@
                        &&& self.contents@[q].1.next@ == mid.contents@[q].1.next@
                        &&& self.contents@[q].1.return_address
                            == mid.contents@[q].1.return_address
                        &&& self.contents@[q].1.reachable == mid.contents@[q].1.reachable
                        &&& self.contents@[q].1.prev@.len() == mid.contents@[q].1.prev@.len()
                    },
                forall|q: int, w: int|
                    0 <= q < z && 0 <= w < mid.contents@[q].1.prev@.len()
                        ==> (#[trigger] self.contents@[q].1.prev@[w]) == (if mid.contents@[q].1.prev@[w]
                        == b_pc {
                        a_pc
                    } else {
                        mid.contents@[q].1.prev@[w]
                    }),
                forall|q: int|
                    z <= q < n2 ==> (#[trigger] self.contents@[q]).1.prev@
                        == mid.contents@[q].1.prev@,
        {
            let pl = self.contents[z].1.prev.len();
            for w in 0..pl
                invariant
                    z < n2,
                    n2 == self.contents@.len() == mid.contents@.len(),
                    pl == mid.contents@[z as int].1.prev@.len(),
                    forall|q: int|
                        0 <= q < n2 ==> {
                            &&& (#[trigger] self.contents@[q]).0 == mid.contents@[q].0
                            &&& self.contents@[q].1.code@ == mid.contents@[q].1.code@
                            &&& self.contents@[q].1.next@ == mid.contents@[q].1.next@
                            &&& self.contents@[q].1.return_address
                                == mid.contents@[q].1.return_address
                            &&& self.contents@[q].1.reachable == mid.contents@[q].1.reachable
                            &&& self.contents@[q].1.prev@.len() == mid.contents@[q].1.prev@.len()
                        },
                    forall|q: int, w2: int|
                        0 <= q < z && 0 <= w2 < mid.contents@[q].1.prev@.len()
                            ==> (#[trigger] self.contents@[q].1.prev@[w2]) == (if mid.contents@[q].1.prev@[w2]
                            == b_pc {
                            a_pc
                        } else {
                            mid.contents@[q].1.prev@[w2]
                        }),
                    forall|w2: int|
                        0 <= w2 < pl ==> (#[trigger] self.contents@[z as int].1.prev@[w2]) == (if w2
                            < w {
                            if mid.contents@[z as int].1.prev@[w2] == b_pc {
                                a_pc
                            } else {
                                mid.contents@[z as int].1.prev@[w2]
                            }
                        } else {
                            mid.contents@[z as int].1.prev@[w2]
                        }),
                    forall|q: int|
                        z < q < n2 ==> (#[trigger] self.contents@[q]).1.prev@
                            == mid.contents@[q].1.prev@,
        {
            if self.contents[z].1.prev[w] == b_pc {
                self.contents[z].1.prev[w] = a_pc;
            }
        }
        }
        proof {
            let n0 = g0.contents@.len();
            let iai = ia as int;
            let ibi = ib as int;
            let ia2i = ia2 as int;
            // old index of a surviving entry
            let shift = |q: int| if q < ibi { q } else { q + 1 };
            assert forall|q: int| 0 <= q < n2 implies (#[trigger] self.contents@[q]).0
                == g0.contents@[shift(q)].0 by {}
            // keys stay unique
            assert forall|q1: int, q2: int|
                0 <= q1 < n2 && 0 <= q2 < n2 && q1 != q2 implies (#[trigger] self.contents@[q1]).0
                != (#[trigger] self.contents@[q2]).0 by {
                assert(g0.contents@[shift(q1)].0 != g0.contents@[shift(q2)].0);
            }
            // every surviving node was a node before, with its mark intact
            assert forall|pc: u16| #[trigger] self.has_node(pc) implies g0.has_node(pc) && self
                .node(pc).reachable == g0.node(pc).reachable by {
                let q = choose|q: int|
                    0 <= q < self.contents@.len() && (#[trigger] self.contents@[q]).0 == pc;
                assert(g0.contents@[shift(q)].0 == pc);
                self.lemma_node_at(q);
                g0.lemma_node_at(shift(q));
            }
            // no instruction is lost or invented
            let base = g0.contents@.remove(ibi);
            lemma_total_remove(g0.contents@, ibi);
            lemma_total_update(base, mid.contents@, ia2i);
            lemma_total_pointwise(mid.contents@, self.contents@);
            assert(total_code(self.contents@) == total_code(g0.contents@));
            // no mark appears
            if g0.all_unmarked() {
                assert forall|q: int| 0 <= q < n2 implies !(#[trigger] self.contents@[q]).1.reachable by {
                    assert(!g0.contents@[shift(q)].1.reachable);
                }
            }
            // the structural invariant holds again
            assert forall|q: int, k: int|
                0 <= q < n2 && 0 <= k < self.contents@[q].1.next@.len() implies #[trigger] self
                .edge_ok(q, k) by {
                let ps = self.contents@[q].0;
                let t = self.contents@[q].1.next@[k];
                // the matching edge of the old graph
                let oe = if q == ia2i {
                    ibi
                } else {
                    shift(q)
                };
                assert(g0.contents@[oe].1.next@ == self.contents@[q].1.next@);
                assert(g0.edge_ok(oe, k));
                let oj = g0.idx_of(t);
                assert(g0.contents@[oj].0 == t && g0.node(t) == g0.contents@[oj].1);
                // the target is never the absorbed block
                if t == b_pc {
                    assert(g0.node(b_pc).prev@.contains(g0.contents@[oe].0));
                    assert(g0.contents@[oe].0 == a_pc);
                    assert(oe == iai);
                    assert(false);
                }
                assert(oj != ibi);
                let nj = if oj < ibi {
                    oj
                } else {
                    oj - 1
                };
                assert(self.contents@[nj].0 == t);
                assert(self.has_node(t));
                self.lemma_node_at(nj);
                assert(self.node(t) == self.contents@[nj].1);
                // the old predecessor entry that carried this edge
                let old_prev = g0.contents@[oj].1.prev@;
                assert(mid.contents@[nj].1.prev@ == old_prev);
                if q == ia2i {
                    // the edge came from the absorbed block
                    assert(g0.node(t).prev@.contains(b_pc));
                    let wj = choose|wj: int| 0 <= wj < old_prev.len() && old_prev[wj] == b_pc;
                    assert(self.contents@[nj].1.prev@[wj] == a_pc);
                    assert(ps == a_pc);
                    assert(self.node(t).prev@.contains(ps));
                } else {
                    assert(g0.node(t).prev@.contains(g0.contents@[oe].0));
                    assert(g0.contents@[oe].0 == ps);
                    let wj = choose|wj: int| 0 <= wj < old_prev.len() && old_prev[wj] == ps;
                    // the source is a surviving key, so it is not the
                    // absorbed address and the redirect left it alone
                    assert(ps != b_pc);
                    assert(self.contents@[nj].1.prev@[wj] == ps);
                    assert(self.node(t).prev@.contains(ps));
                }
            }
            // the whole step, abstractly
            assert(g0.node(a_pc).next@ =~= seq![b_pc]);
            assert forall|pc: u16| #[trigger] self.has_node(pc) implies (g0.has_node(pc) && pc
                != b_pc) by {
                let q = choose|q: int|
                    0 <= q < self.contents@.len() && (#[trigger] self.contents@[q]).0 == pc;
                assert(g0.contents@[shift(q)].0 == pc);
                if pc == b_pc {
                    assert(g0.contents@[shift(q)].0 != g0.contents@[ibi].0);
                }
            }
            assert forall|pc: u16| g0.has_node(pc) && pc != b_pc implies #[trigger] self.has_node(
                pc,
            ) by {
                let oj = g0.idx_of(pc);
                assert(g0.contents@[oj].0 == pc);
                assert(oj != ibi);
                let nj = if oj < ibi {
                    oj
                } else {
                    oj - 1
                };
                assert(self.contents@[nj].0 == pc);
            }
            assert forall|pc: u16| #[trigger] self.has_node(pc) implies {
                &&& self.node(pc).next@ == (if pc == a_pc {
                    g0.node(b_pc).next@
                } else {
                    g0.node(pc).next@
                })
                &&& self.node(pc).prev@ == redirect(g0.node(pc).prev@, b_pc, a_pc)
                &&& self.node(pc).code@ == (if pc == a_pc {
                    g0.node(a_pc).code@ + g0.node(b_pc).code@
                } else {
                    g0.node(pc).code@
                })
                &&& self.node(pc).return_address == (if pc == a_pc {
                    g0.node(b_pc).return_address
                } else {
                    g0.node(pc).return_address
                })
            } by {
                let q = choose|q: int|
                    0 <= q < self.contents@.len() && (#[trigger] self.contents@[q]).0 == pc;
                self.lemma_node_at(q);
                g0.lemma_node_at(shift(q));
                assert(g0.contents@[shift(q)].0 == pc);
                assert(mid.contents@[ia2i].0 == a_pc);
                if pc == a_pc {
                    assert(q == ia2i);
                } else {
                    assert(q != ia2i);
                }
                assert(self.node(pc).prev@ =~= redirect(g0.node(pc).prev@, b_pc, a_pc));
            }
        }
    }

    /// Coalesce straight-line runs into basic blocks: repeatedly absorb a
    /// block into its unique successor until no block qualifies. Terminates
    /// because every absorption removes one node; performs nothing on an
    /// already-reduced graph; preserves the structural invariant at every
    /// step.
    pub fn reduce(&mut self)
        requires
            old(self).keys_unique(),
            old(self).valid_spec(),
        ensures
            reduce_rel(*old(self), *final(self)),
    {
        loop
            invariant
                self.keys_unique(),
                self.valid_spec(),
                total_code(self.contents@) == total_code(old(self).contents@),
                forall|pc: u16|
                    #[trigger] self.has_node(pc) ==> old(self).has_node(pc) && self.node(
                        pc,
                    ).reachable == old(self).node(pc).reachable,
                old(self).all_unmarked() ==> self.all_unmarked(),
                old(self).reduced() ==> *self == *old(self),
                chain_graph(*old(self)) ==> chain_graph(*self),
            ensures
                self.reduced(),
            decreases self.contents@.len(),
        {
            match self.find_candidate() {
                None => {
                    break;
                },
                Some((ia, ib)) => {
                    proof {
                        if old(self).reduced() {
                            assert(*self == *old(self));
                            assert(!self.absorbable(ia as int));
                            assert(false);
                        }
                    }
                    let ghost before = *self;
                    self.absorb_at(ia, ib);
                    proof {
                        assert forall|pc: u16| #[trigger] self.has_node(pc) implies old(self)
                            .has_node(pc) && self.node(pc).reachable == old(self).node(
                            pc,
                        ).reachable by {
                            assert(before.has_node(pc) && self.node(pc).reachable == before.node(
                                pc,
                            ).reachable);
                        }
                        if chain_graph(*old(self)) {
                            let vs = choose|vs: Seq<u16>| chain_graph_on(before, vs);
                            lemma_absorb_preserves_chain(
                                before,
                                *self,
                                before.contents@[ia as int].0,
                                before.contents@[ib as int].0,
                                vs,
                            );
                        }
                    }
                },
            }
        }
        proof {
            if chain_graph(*old(self)) {
                let vs = choose|vs: Seq<u16>| chain_graph_on(*self, vs);
                lemma_reduced_chain(*self, vs);
            }
        }
    }
}

/// Reduction is idempotent: running it again on a reduced graph changes
/// nothing.
pub proof fn lemma_reduce_idempotent(pre: CFG, mid: CFG, post: CFG)
    requires
        reduce_rel(pre, mid),
        reduce_rel(mid, post),
    ensures
        post == mid,
{
}

/// What the reachability pass guarantees: the graph structure is untouched,
/// and a block is marked exactly when its address is transitively reachable
/// from the start address along successor edges (nothing is marked when the
/// start address has no node). Unreachable blocks remain present.
pub open spec fn reach_rel(pre: CFG, post: CFG, start: u16) -> bool {
    &&& pre.same_structure(post)
    &&& forall|q: int|
        0 <= q < post.contents@.len() ==> ((#[trigger] post.contents@[q]).1.reachable <==> (
        pre.has_node(start) && pre.reaches(start, pre.contents@[q].0)))
}

/// How many blocks are not yet marked reachable.
pub open spec fn count_unmarked(s: Seq<(u16, Block)>) -> nat
    decreases s.len(),
{
    if s.len() == 0 {
        0
    } else {
        count_unmarked(s.drop_last()) + (if s.last().1.reachable {
            0nat
        } else {
            1nat
        })
    }
}

/// Marking one unmarked block lowers the unmarked count by one.
proof fn lemma_count_update(s: Seq<(u16, Block)>, s2: Seq<(u16, Block)>, j: int)
    requires
        s2.len() == s.len(),
        0 <= j < s.len(),
        forall|q: int| 0 <= q < s.len() && q != j ==> s2[q] == s[q],
        !s[j].1.reachable,
        s2[j].1.reachable,
    ensures
        count_unmarked(s2) + 1 == count_unmarked(s),
    decreases s.len(),
{
    if j == s.len() - 1 {
        assert(s2.drop_last() =~= s.drop_last());
    } else {
        lemma_count_update(s.drop_last(), s2.drop_last(), j);
        assert(s2.last() == s.last());
    }
}

impl CFG {
    /// Same structure carries unique keys over.
    proof fn lemma_same_keys(self, other: CFG)
        requires
            self.keys_unique(),
            self.same_structure(other),
        ensures
            other.keys_unique(),
    {
    }

    /// Same structure carries node lookups over: the same addresses have
    /// nodes, at the same entries, with the same edges.
    proof fn lemma_structure_node(self, other: CFG, pc: u16)
        requires
            self.keys_unique(),
            self.same_structure(other),
        ensures
            other.has_node(pc) == self.has_node(pc),
            self.has_node(pc) ==> {
                &&& other.idx_of(pc) == self.idx_of(pc)
                &&& other.node(pc).next@ == self.node(pc).next@
                &&& other.node(pc).prev@ == self.node(pc).prev@
            },
    {
        self.lemma_same_keys(other);
        if self.has_node(pc) {
            let q = self.idx_of(pc);
            assert(other.contents@[q].0 == pc);
            assert(other.has_node(pc));
            other.lemma_node_at(q);
        }
        if other.has_node(pc) {
            let q = other.idx_of(pc);
            assert(self.contents@[q].0 == pc);
            assert(self.has_node(pc));
        }
    }

    /// Same structure carries the structural invariant over.
    proof fn lemma_valid_congruence(self, other: CFG)
        requires
            self.keys_unique(),
            self.valid_spec(),
            self.same_structure(other),
        ensures
            other.valid_spec(),
    {
        self.lemma_same_keys(other);
        assert forall|q: int, k: int|
            0 <= q < other.contents@.len() && 0 <= k < other.contents@[q].1.next@.len() implies
            #[trigger] other.edge_ok(q, k) by {
            assert(self.edge_ok(q, k));
            let t = self.contents@[q].1.next@[k];
            self.lemma_structure_node(other, t);
        }
    }

    /// A reachability witness extends by one edge at its end.
    proof fn lemma_reaches_extend(self, s: u16, a: u16, b: u16)
        requires
            self.reaches(s, a),
            self.edge(a, b),
        ensures
            self.reaches(s, b),
    {
        let p = choose|p: Seq<u16>| self.is_path(p, s, a);
        let p2 = p.push(b);
        assert(p2.last() == b);
        assert forall|i: int| 0 <= i < p2.len() - 1 implies self.edge(#[trigger] p2[i], p2[i + 1]) by {
            if i < p.len() - 1 {
                assert(p2[i] == p[i] && p2[i + 1] == p[i + 1]);
            } else {
                assert(p2[i] == p.last() && p2[i + 1] == b);
            }
        }
        assert(self.is_path(p2, s, b));
    }

    /// Once every marked block has only marked successors, every address
    /// reachable from a marked one is marked.
    proof fn lemma_closure_complete(self, g: CFG, a: u16, b: u16, p: Seq<u16>)
        requires
            self.keys_unique(),
            self.valid_spec(),
            self.same_structure(g),
            self.has_node(a),
            g.node(a).reachable,
            forall|q: int, k2: int|
                0 <= q < g.contents@.len() && (#[trigger] g.contents@[q]).1.reachable && 0 <= k2
                    < g.contents@[q].1.next@.len() ==> {
                    let t = #[trigger] g.contents@[q].1.next@[k2];
                    g.has_node(t) && g.node(t).reachable
                },
            self.is_path(p, a, b),
        ensures
            g.has_node(b),
            g.node(b).reachable,
        decreases p.len(),
    {
        self.lemma_same_keys(g);
        self.lemma_structure_node(g, a);
        if p.len() == 1 {
            assert(b == a);
        } else {
            let m = p[1];
            assert(self.edge(p[0], p[1]));
            let qa = self.idx_of(a);
            self.lemma_node_at(qa);
            g.lemma_node_at(qa);
            assert(g.contents@[qa].0 == a && g.node(a) == g.contents@[qa].1);
            assert(g.contents@[qa].1.reachable);
            assert(self.node(a).next@.contains(m));
            let k2 = choose|k2: int|
                0 <= k2 < self.node(a).next@.len() && self.node(a).next@[k2] == m;
            assert(g.contents@[qa].1.next@ == self.node(a).next@);
            assert(g.contents@[qa].1.next@[k2] == m);
            assert(g.has_node(m) && g.node(m).reachable);
            self.lemma_structure_node(g, m);
            let p2 = p.subrange(1, p.len() as int);
            assert(p2.last() == p.last());
            assert forall|i: int| 0 <= i < p2.len() - 1 implies self.edge(
                #[trigger] p2[i],
                p2[i + 1],
            ) by {
                assert(p2[i] == p[i + 1] && p2[i + 1] == p[i + 2]);
            }
            assert(self.is_path(p2, m, b));
            self.lemma_closure_complete(g, m, b, p2);
        }
    }

    /// Mark every block transitively reachable from `start`, using an
    /// explicit work list rather than recursion. The graph structure is
    /// untouched; unreachable blocks stay in the graph, merely unmarked.
    pub fn reachability_analysis(&mut self, start: u16)
        requires
            old(self).keys_unique(),
            old(self).valid_spec(),
            old(self).all_unmarked(),
        ensures
            reach_rel(*old(self), *final(self), start),
    {
        let ghost g0 = *old(self);
        let j0 = match self.find_node(start) {
            None => {
                proof {
                    assert forall|q: int| 0 <= q < self.contents@.len() implies !((
                    #[trigger] self.contents@[q]).1.reachable) by {}
                }
                return ;
            },
            Some(j0) => j0,
        };
        self.contents[j0].1.reachable = true;
        let mut wl: Vec<u16> = Vec::new();
        wl.push(start);
        proof {
            g0.lemma_node_at(j0 as int);
            assert(g0.is_path(seq![start], start, start));
            assert(g0.reaches(start, start));
            lemma_count_update(g0.contents@, self.contents@, j0 as int);
            assert(g0.same_structure(*self));
            g0.lemma_same_keys(*self);
            self.lemma_node_at(j0 as int);
            assert(wl@[0] == start);
            assert(wl@.contains(start));
            assert forall|q: int|
                0 <= q < self.contents@.len() && (#[trigger] self.contents@[q]).1.reachable implies
                g0.reaches(start, self.contents@[q].0) by {
                assert(q == j0);
            }
        }
        loop
            invariant
                g0.keys_unique(),
                g0.valid_spec(),
                g0.has_node(start),
                g0.same_structure(*self),
                self.keys_unique(),
                self.contents@.len() == g0.contents@.len(),
                self.has_node(start),
                self.node(start).reachable,
                forall|q: int|
                    0 <= q < self.contents@.len() && (#[trigger] self.contents@[q]).1.reachable
                        ==> g0.reaches(start, self.contents@[q].0),
                forall|w: int|
                    0 <= w < wl@.len() ==> self.has_node(#[trigger] wl@[w]) && self.node(
                        wl@[w],
                    ).reachable,
                forall|q: int, k2: int|
                    0 <= q < self.contents@.len() && (#[trigger] self.contents@[q]).1.reachable
                        && !wl@.contains(self.contents@[q].0) && 0 <= k2
                        < self.contents@[q].1.next@.len() ==> {
                        let t = #[trigger] self.contents@[q].1.next@[k2];
                        self.has_node(t) && self.node(t).reachable
                    },
            ensures
                wl@.len() == 0,
            decreases count_unmarked(self.contents@), wl@.len(),
        {
            let ghost wl_pre = wl@;
            let ghost marks_pre = self.contents@;
            let cur = match wl.pop() {
                None => {
                    break;
                },
                Some(cur) => cur,
            };
            proof {
                assert(cur == wl_pre[wl_pre.len() - 1]);
                assert(self.has_node(cur) && self.node(cur).reachable);
            }
            let jc = match self.find_node(cur) {
                None => {
                    proof {
                        assert(false);
                    }
                    return ;
                },
                Some(jc) => jc,
            };
            proof {
                self.lemma_node_at(jc as int);
                assert(self.contents@[jc as int].1.reachable);
                // entering the edge scan: nothing of this block is handled
                // yet, and the popped address may only have left the list
                assert forall|q: int, k3: int|
                    0 <= q < self.contents@.len() && (#[trigger] self.contents@[q]).1.reachable
                        && !wl@.contains(self.contents@[q].0) && !(q == jc && k3 >= 0) && 0 <= k3
                        < self.contents@[q].1.next@.len() implies {
                    let t = #[trigger] self.contents@[q].1.next@[k3];
                    self.has_node(t) && self.node(t).reachable
                } by {
                    let pcq = self.contents@[q].0;
                    if wl_pre.contains(pcq) {
                        let w = choose|w: int| 0 <= w < wl_pre.len() && wl_pre[w] == pcq;
                        if w < wl_pre.len() - 1 {
                            assert(wl@[w] == pcq);
                            assert(wl@.contains(pcq));
                        } else {
                            assert(pcq == cur);
                            assert(q == jc);
                        }
                    }
                }
            }
            let m = self.contents[jc].1.next.len();
            for k2 in 0..m
                invariant
                    g0.keys_unique(),
                    g0.valid_spec(),
                    g0.has_node(start),
                    g0.same_structure(*self),
                    self.keys_unique(),
                    self.contents@.len() == g0.contents@.len(),
                    self.has_node(start),
                    self.node(start).reachable,
                    jc < self.contents@.len(),
                    self.contents@[jc as int].0 == cur,
                    self.contents@[jc as int].1.reachable,
                    m == self.contents@[jc as int].1.next@.len(),
                    wl@.len() == wl_pre.len() - 1 || count_unmarked(self.contents@)
                        < count_unmarked(marks_pre),
                    count_unmarked(self.contents@) <= count_unmarked(marks_pre),
                    forall|q: int|
                        0 <= q < self.contents@.len() && (#[trigger] self.contents@[q]).1.reachable
                            ==> g0.reaches(start, self.contents@[q].0),
                    forall|w: int|
                        0 <= w < wl@.len() ==> self.has_node(#[trigger] wl@[w]) && self.node(
                            wl@[w],
                        ).reachable,
                    forall|q: int, k3: int|
                        0 <= q < self.contents@.len() && (#[trigger] self.contents@[q]).1.reachable
                            && !wl@.contains(self.contents@[q].0) && !(q == jc && k3 >= k2) && 0
                            <= k3 < self.contents@[q].1.next@.len() ==> {
                            let t = #[trigger] self.contents@[q].1.next@[k3];
                            self.has_node(t) && self.node(t).reachable
                        },
            {
                let t = self.contents[jc].1.next[k2];
                proof {
                    g0.lemma_valid_congruence(*self);
                    assert(self.edge_ok(jc as int, k2 as int));
                }
                let jt = match self.find_node(t) {
                    None => {
                        proof {
                            assert(false);
                        }
                        return ;
                    },
                    Some(jt) => jt,
                };
                proof {
                    self.lemma_node_at(jt as int);
                }
                if !self.contents[jt].1.reachable {
                    let ghost before = *self;
                    let ghost wl_before = wl@;
                    proof {
                        assert(jt != jc);
                    }
                    self.contents[jt].1.reachable = true;
                    wl.push(t);
                    proof {
                        lemma_count_update(before.contents@, self.contents@, jt as int);
                        assert(before.same_structure(*self));
                        assert(g0.same_structure(*self));
                        g0.lemma_same_keys(*self);
                        before.lemma_same_keys(*self);
                        // the newly marked address is reachable: extend the
                        // witness of the popped block by this edge
                        assert(g0.reaches(start, cur));
                        g0.lemma_structure_node(before, cur);
                        assert(g0.node(cur).next@[k2 as int] == t);
                        assert(g0.node(cur).next@.contains(t));
                        assert(g0.edge(cur, t));
                        g0.lemma_reaches_extend(start, cur, t);
                        assert(g0.reaches(start, t));
                        // the start block stays marked
                        before.lemma_structure_node(*self, start);
                        assert(self.idx_of(start) == before.idx_of(start));
                        assert(self.node(start).reachable);
                        // marks only grow, and the new block is marked
                        assert forall|pc: u16|
                            before.has_node(pc) && before.node(pc).reachable implies (
                            #[trigger] self.node(pc)).reachable by {
                            before.lemma_structure_node(*self, pc);
                            assert(self.idx_of(pc) == before.idx_of(pc));
                        }
                        self.lemma_node_at(jt as int);
                        assert(self.node(t) == self.contents@[jt as int].1);
                        assert(self.node(t).reachable);
                        // soundness of every mark
                        assert forall|q: int|
                            0 <= q < self.contents@.len() && (
                            #[trigger] self.contents@[q]).1.reachable implies g0.reaches(
                            start,
                            self.contents@[q].0,
                        ) by {
                            if q != jt {
                                assert(before.contents@[q] == self.contents@[q]);
                            }
                        }
                        // everything in the work list is marked
                        assert(wl@[wl@.len() - 1] == t);
                        assert forall|w: int| 0 <= w < wl@.len() implies self.has_node(
                            #[trigger] wl@[w],
                        ) && self.node(wl@[w]).reachable by {
                            if w < wl@.len() - 1 {
                                assert(before.has_node(wl@[w]) && before.node(wl@[w]).reachable);
                                before.lemma_structure_node(*self, wl@[w]);
                            }
                        }
                        // the scan closure: the fresh mark is in the list
                        assert forall|q: int, k3: int|
                            0 <= q < self.contents@.len() && (
                            #[trigger] self.contents@[q]).1.reachable && !wl@.contains(
                            self.contents@[q].0,
                        ) && !(q == jc && k3 >= k2 + 1) && 0 <= k3
                            < self.contents@[q].1.next@.len() implies {
                            let t3 = #[trigger] self.contents@[q].1.next@[k3];
                            self.has_node(t3) && self.node(t3).reachable
                        } by {
                            let pcq = self.contents@[q].0;
                            let t3 = self.contents@[q].1.next@[k3];
                            if q == jt {
                                assert(pcq == t);
                                assert(wl@.contains(t));
                                assert(false);
                            }
                            assert(before.contents@[q] == self.contents@[q]);
                            if q == jc && k3 == k2 {
                                assert(t3 == t);
                                assert(self.node(t).reachable);
                            } else {
                                if wl_before.contains(pcq) {
                                    let w = choose|w: int|
                                        0 <= w < wl_before.len() && wl_before[w] == pcq;
                                    assert(wl@[w] == pcq);
                                    assert(wl@.contains(pcq));
                                    assert(false);
                                }
                                assert(before.contents@[q].1.next@[k3] == t3);
                                assert(before.has_node(t3) && before.node(t3).reachable);
                                before.lemma_structure_node(*self, t3);
                                assert(self.node(t3).reachable);
                            }
                        }
                    }
                } else {
                    proof {
                        assert(self.node(t) == self.contents@[jt as int].1);
                        assert(self.node(t).reachable);
                    }
                }
            }
        }
        proof {
            g0.lemma_same_keys(*self);
            assert forall|q: int| 0 <= q < self.contents@.len() implies ((
            #[trigger] self.contents@[q]).1.reachable <==> (g0.has_node(start) && g0.reaches(
                start,
                g0.contents@[q].0,
            ))) by {
                let pc = g0.contents@[q].0;
                assert(self.contents@[q].0 == pc);
                if self.contents@[q].1.reachable {
                    assert(g0.reaches(start, pc));
                }
                if g0.has_node(start) && g0.reaches(start, pc) {
                    let p = choose|p: Seq<u16>| g0.is_path(p, start, pc);
                    g0.lemma_closure_complete(*self, start, pc, p);
                    self.lemma_node_at(q);
                }
            }
        }
    }
}

/// What the analyzer returns: the block map with its reachability flags,
/// and the verdict of the final structural validation (proved to be true
/// for every input, and recorded so the report carries it).
pub struct AnalysisReport {
    /// The control-flow graph after reduction and reachability marking.
    pub cfg: CFG,
    /// The verdict of the structural validation run on the final graph.
    pub valid: bool,
}

/// The decoded stream with addresses dropped and errors turned into opaque
/// slots.
pub open spec fn opts_of(prog: Seq<(u16, Result<Instruction, DecodeError>)>) -> Seq<
    Option<Instruction>,
> {
    prog.map_values(
        |p: (u16, Result<Instruction, DecodeError>)|
            match p.1 {
                Ok(i) => Some(i),
                Err(_) => None,
            },
    )
}

/// Analyze a decoded instruction stream: build the control-flow graph,
/// coalesce straight-line runs into basic blocks, mark everything reachable
/// from the entry address, and validate the structure. Purely a function of
/// the stream; no machine is touched.
pub fn analyze(prog: &Vec<(u16, Result<Instruction, DecodeError>)>) -> (r: AnalysisReport)
    requires
        prog@.len() <= 0x7E00,
    ensures
        exists|g1: CFG, g2: CFG|
            {
                &&& #[trigger] from_rom_post(opts_of(prog@), g1)
                &&& #[trigger] reduce_rel(g1, g2)
                &&& reach_rel(g2, r.cfg, ENTRY_ADDRESS)
            },
        r.valid == true,
{
    let mut opts: Vec<Option<Instruction>> = Vec::new();
    let n = prog.len();
    for i in 0..n
        invariant
            n == prog@.len(),
            opts@.len() == i,
            forall|k: int| 0 <= k < i ==> opts@[k] == opts_of(prog@)[k],
    {
        let o = match prog[i].1 {
            Ok(ins) => Some(ins),
            Err(_) => None,
        };
        opts.push(o);
    }
    proof {
        assert(opts@ =~= opts_of(prog@));
    }
    let mut cfg = CFG::from_rom(&opts);
    let ghost g1 = cfg;
    cfg.reduce();
    let ghost g2 = cfg;
    cfg.reachability_analysis(ENTRY_ADDRESS);
    proof {
        g2.lemma_same_keys(cfg);
        g2.lemma_valid_congruence(cfg);
    }
    let valid = cfg.assert_valid();
    proof {
        assert(from_rom_post(opts_of(prog@), g1) && reduce_rel(g1, g2) && reach_rel(
            g2,
            cfg,
            ENTRY_ADDRESS,
        ));
    }
    AnalysisReport { cfg, valid }
}

/// Every slot of the stream decodes, and every instruction simply falls
/// through to the next slot: no skip, no jump, no call, no return.
pub open spec fn straight_rom(rom: Seq<Option<Instruction>>) -> bool {
    forall|i: int|
        0 <= i < rom.len() ==> ((#[trigger] rom[i]) matches Some(ins) && next_pcs_spec(
            ins,
            rom_pc(i),
        ) == seq![(rom_pc(i) + 2) as u16] && ret_addr_spec(ins, rom_pc(i)) is None)
}

/// A stream of nothing but decoded slots holds as many instructions as it
/// has slots.
proof fn lemma_count_all_some(rom: Seq<Option<Instruction>>)
    requires
        forall|i: int| 0 <= i < rom.len() ==> (#[trigger] rom[i]) is Some,
    ensures
        count_some(rom) == rom.len(),
    decreases rom.len(),
{
    if rom.len() > 0 {
        lemma_count_all_some(rom.drop_last());
    }
}

/// A duplicate-free list whose members all equal one value it contains is
/// exactly the singleton of that value.
proof fn lemma_singleton_form(s: Seq<u16>, x: u16)
    requires
        s.no_duplicates(),
        s.contains(x),
        forall|w: int| 0 <= w < s.len() ==> s[w] == x,
    ensures
        s =~= seq![x],
{
    if s.len() >= 2 {
        assert(s[0] == x && s[1] == x);
        assert(false);
    }
}

/// The graph built for a straight-line stream is one unbranching chain:
/// the stream's slots in address order, closed by the placeholder node for
/// the address just past the stream.
proof fn lemma_from_rom_straight_chain(rom: Seq<Option<Instruction>>, g: CFG)
    requires
        1 <= rom.len() <= 0x7E00,
        straight_rom(rom),
        from_rom_post(rom, g),
    ensures
        chain_graph_on(g, Seq::new((rom.len() + 1) as nat, |i: int| rom_pc(i))),
{
    let n = rom.len() as int;
    let vs = Seq::new((n + 1) as nat, |i: int| rom_pc(i));
    assert forall|i1: int, i2: int|
        0 <= i1 < vs.len() && 0 <= i2 < vs.len() && i1 != i2 implies vs[i1] != vs[i2] by {
        lemma_rom_pc_injective(i1, i2);
    }
    // each slot's sole successor is the next slot's address
    assert forall|i: int| 0 <= i < n implies prim_next(rom, i) == seq![vs[i + 1]] by {
        lemma_rom_pc_index(i);
        lemma_rom_pc_index(i + 1);
        assert((rom[i] matches Some(ins) && next_pcs_spec(ins, rom_pc(i)) == seq![(rom_pc(i)
            + 2) as u16]));
        assert((rom_pc(i) + 2) as u16 == rom_pc(i + 1));
    }
    // the node set is exactly the listing
    assert forall|pc: u16| #[trigger] g.has_node(pc) implies vs.contains(pc) by {
        if is_primary(rom, pc) {
            lemma_primary_pc(rom, pc);
            let i = rom_index(pc);
            assert(vs[i] == pc);
        } else {
            assert(is_target(rom, pc));
            let (i2, k2) = choose|i2: int, k2: int|
                0 <= i2 < rom.len() && 0 <= k2 < prim_next(rom, i2).len() && (#[trigger] prim_next(
                    rom,
                    i2,
                )[k2]) == pc;
            assert(prim_next(rom, i2) == seq![vs[i2 + 1]]);
            assert(pc == vs[i2 + 1]);
        }
    }
    assert forall|pc: u16| vs.contains(pc) implies #[trigger] g.has_node(pc) by {
        let w = choose|w: int| 0 <= w < vs.len() && vs[w] == pc;
        lemma_rom_pc_index(w);
        if w < n {
            assert(is_primary(rom, pc));
        } else {
            assert(prim_next(rom, n - 1) == seq![vs[n]]);
            assert(prim_next(rom, n - 1)[0] == pc);
            assert(is_target(rom, pc));
        }
    }
    // the closing placeholder is not one of the stream's own slots
    assert(!is_primary(rom, vs[n])) by {
        lemma_rom_pc_index(n);
    }
    assert(g.has_node(vs[n]) && g.node(vs[n]).placeholder());
    // successor lists
    assert forall|i: int| 0 <= i < vs.len() - 1 implies g.node(#[trigger] vs[i]).next@ == seq![
        vs[i + 1],
    ] by {
        lemma_rom_pc_index(i);
        assert(g.has_node(rom_pc(i)) && primary_block_ok(rom, i, g.node(rom_pc(i))));
        assert(rom[i] is Some);
        assert(g.node(vs[i]).next@ == prim_next(rom, i));
    }
    assert(g.node(vs.last()).next@ =~= Seq::<u16>::empty());
    // predecessor lists: only the preceding slot points at a node
    assert forall|i: int| 1 <= i < vs.len() implies g.node(#[trigger] vs[i]).prev@ == seq![
        vs[i - 1],
    ] by {
        assert(g.has_node(vs[i]));
        assert forall|w: int| 0 <= w < g.node(vs[i]).prev@.len() implies g.node(vs[i]).prev@[w]
            == vs[i - 1] by {
            let p = g.node(vs[i]).prev@[w];
            assert(g.node(vs[i]).prev@.contains(p));
            assert(g.has_node(p) && g.node(p).next@.contains(vs[i]));
            let wp = choose|wp: int| 0 <= wp < vs.len() && vs[wp] == p;
            if wp == n {
                assert(g.node(vs[n]).next@.len() == 0);
                assert(false);
            }
            assert(g.node(vs[wp]).next@ == seq![vs[wp + 1]]);
            assert(vs[wp + 1] == vs[i]);
            assert(wp + 1 == i);
        }
        assert(g.has_node(vs[i - 1]));
        assert(g.node(vs[i - 1]).next@ == seq![vs[i]]);
        assert(g.node(vs[i - 1]).next@[0] == vs[i]);
        assert(g.node(vs[i - 1]).next@.contains(vs[i]));
        assert(g.node(vs[i]).prev@.contains(vs[i - 1]));
        lemma_singleton_form(g.node(vs[i]).prev@, vs[i - 1]);
    }
    // the entry node has no predecessor
    assert(g.node(vs[0]).prev@ =~= Seq::<u16>::empty()) by {
        if g.node(vs[0]).prev@.len() > 0 {
            let p = g.node(vs[0]).prev@[0];
            assert(g.node(vs[0]).prev@.contains(p));
            assert(g.has_node(p) && g.node(p).next@.contains(vs[0]));
            let wp = choose|wp: int| 0 <= wp < vs.len() && vs[wp] == p;
            if wp == n {
                assert(g.node(vs[n]).next@.len() == 0);
            } else {
                assert(g.node(vs[wp]).next@ == seq![vs[wp + 1]]);
                assert(vs[wp + 1] == vs[0]);
            }
            assert(false);
        }
    }
    // no call boundaries
    assert forall|i: int| 0 <= i < vs.len() implies g.node(
        #[trigger] vs[i],
    ).return_address is None by {
        if i < n {
            lemma_rom_pc_index(i);
            assert(g.has_node(rom_pc(i)) && primary_block_ok(rom, i, g.node(rom_pc(i))));
            assert((rom[i] matches Some(ins) && ret_addr_spec(ins, rom_pc(i)) is None));
        }
    }
}

/// A straight-line stream of any length reduces to exactly one block
/// spanning the whole stream.
pub proof fn lemma_straight_line_reduction(rom: Seq<Option<Instruction>>, g1: CFG, g2: CFG)
    requires
        1 <= rom.len() <= 0x7E00,
        straight_rom(rom),
        from_rom_post(rom, g1),
        reduce_rel(g1, g2),
    ensures
        g2.contents@.len() == 1,
        g2.contents@[0].1.code@.len() == rom.len(),
{
    lemma_from_rom_straight_chain(rom, g1);
    assert(chain_graph(g1));
    assert(g2.contents@.len() == 1);
    assert forall|i: int| 0 <= i < rom.len() implies (#[trigger] rom[i]) is Some by {}
    lemma_count_all_some(rom);
    assert(total_code(g2.contents@) == rom.len());
    assert(g2.contents@.drop_last().len() == 0);
    assert(total_code(g2.contents@.drop_last()) == 0);
    assert(g2.contents@.last() == g2.contents@[0]);
}

/// The program address of an instruction-stream index.
pub fn idx_to_addr(idx: usize) -> (r: u16)
    requires
        0x200 + 2 * idx <= u16::MAX,
    ensures
        r == 0x200 + 2 * idx,
{
    0x200 + 2 * (idx as u16)
}

} // verus!
