use chip8::analyze::{addr_to_idx, analyze, idx_to_addr, AnalysisReport, Block, CFG};
use chip8::instruction::Instruction::{CALL, JUMP, LOAD, RTS, SKE};
use chip8::instruction::{DecodeError, Instruction};

fn stream(code: &[Instruction]) -> Vec<(u16, Result<Instruction, DecodeError>)> {
    let mut out: Vec<(u16, Result<Instruction, DecodeError>)> = Vec::new();
    let mut pc: u16 = 0x200;
    for instr in code {
        out.push((pc, Ok(*instr)));
        pc += 2;
    }
    out
}

fn opts(code: &[Instruction]) -> Vec<Option<Instruction>> {
    code.iter().map(|i| Some(*i)).collect()
}

fn block_at(cfg: &CFG, pc: u16) -> &Block {
    for entry in &cfg.contents {
        if entry.0 == pc {
            return &entry.1;
        }
    }
    panic!("no block at {:#x}", pc);
}

/// After construction and after reduction, every recorded successor edge
/// has a matching predecessor edge and an existing target node.
#[test]
fn structural_invariant_holds_throughout() {
    let code = [SKE(0, 1), LOAD(0, 2), JUMP(0x200), RTS];
    let mut cfg = CFG::from_rom(&opts(&code));
    assert!(cfg.assert_valid());
    cfg.reduce();
    assert!(cfg.assert_valid());
    cfg.reachability_analysis(0x200);
    assert!(cfg.assert_valid());
}

/// A straight-line stream of any length reduces to exactly one block
/// spanning the whole stream.
#[test]
fn straight_line_reduces_to_one_block() {
    for n in 1..=10usize {
        let code: Vec<Instruction> = (0..n).map(|k| LOAD(0, k as u8)).collect();
        let rom: Vec<Option<Instruction>> = code.iter().map(|i| Some(*i)).collect();
        let mut cfg = CFG::from_rom(&rom);
        cfg.reduce();
        assert_eq!(cfg.contents.len(), 1);
        assert_eq!(cfg.contents[0].0, 0x200);
        assert_eq!(cfg.contents[0].1.code.len(), n);
    }
}

/// Running reduction a second time performs no absorption at all.
#[test]
fn reduction_is_idempotent() {
    let code = [SKE(0, 1), LOAD(0, 2), LOAD(1, 3), JUMP(0x200)];
    let mut cfg = CFG::from_rom(&opts(&code));
    cfg.reduce();
    let before: Vec<(u16, usize, usize, usize)> = cfg
        .contents
        .iter()
        .map(|e| (e.0, e.1.code.len(), e.1.prev.len(), e.1.next.len()))
        .collect();
    cfg.reduce();
    let after: Vec<(u16, usize, usize, usize)> = cfg
        .contents
        .iter()
        .map(|e| (e.0, e.1.code.len(), e.1.prev.len(), e.1.next.len()))
        .collect();
    assert_eq!(before, after);
}

/// Blocks are marked reachable exactly when the entry address reaches them;
/// unreachable blocks stay in the graph.
#[test]
fn reachability_marks_exactly_the_reachable() {
    // 0x200 jumps over 0x202 to 0x204
    let code = [JUMP(0x204), LOAD(0, 1), RTS];
    let mut cfg = CFG::from_rom(&opts(&code));
    cfg.reduce();
    cfg.reachability_analysis(0x200);
    assert_eq!(cfg.contents.len(), 3);
    assert!(block_at(&cfg, 0x200).reachable);
    assert!(!block_at(&cfg, 0x202).reachable);
    assert!(block_at(&cfg, 0x204).reachable);
}

/// A block ending in a call keeps its return address and is never
/// coalesced across that boundary.
#[test]
fn call_boundary_is_never_coalesced() {
    let code = [CALL(0x204), RTS, RTS];
    let mut cfg = CFG::from_rom(&opts(&code));
    assert_eq!(block_at(&cfg, 0x200).return_address, Some(0x202));
    cfg.reduce();
    assert_eq!(cfg.contents.len(), 3);
    assert_eq!(block_at(&cfg, 0x200).return_address, Some(0x202));
}

/// An undecodable word becomes an opaque placeholder block.
#[test]
fn undecodable_word_is_a_placeholder() {
    let rom: Vec<Option<Instruction>> = vec![Some(LOAD(0, 1)), None, Some(RTS)];
    let cfg = CFG::from_rom(&rom);
    let placeholder = block_at(&cfg, 0x202);
    assert!(placeholder.code.is_empty());
    assert!(placeholder.next.is_empty());
    assert_eq!(placeholder.return_address, None);
}

/// A jump target outside the decoded range gets an empty placeholder node.
#[test]
fn out_of_range_target_gets_a_node() {
    let code = [JUMP(0x400)];
    let cfg = CFG::from_rom(&opts(&code));
    assert_eq!(cfg.contents.len(), 2);
    let target = block_at(&cfg, 0x400);
    assert!(target.code.is_empty());
    assert_eq!(target.prev, vec![0x200]);
}

/// The analyzer entry point ties it all together, and its final structural
/// validation always passes.
#[test]
fn analyze_reports_valid_graph() {
    let code = [SKE(0, 1), LOAD(0, 2), JUMP(0x206), RTS];
    let report: AnalysisReport = analyze(&stream(&code));
    assert!(report.valid);
    assert!(block_at(&report.cfg, 0x200).reachable);
}

#[test]
fn analyze_treats_errors_as_placeholders() {
    // the undecodable slot has two predecessors, so coalescing keeps it
    let prog: Vec<(u16, Result<Instruction, DecodeError>)> = vec![
        (0x200, Ok(SKE(0, 1))),
        (0x202, Ok(LOAD(0, 2))),
        (0x204, Err(DecodeError::Unknown(0x5001))),
    ];
    let report = analyze(&prog);
    assert!(report.valid);
    assert!(block_at(&report.cfg, 0x204).code.is_empty());
}

#[test]
fn successor_addresses_per_instruction() {
    assert_eq!(JUMP(0x400).next_pc(0x200), vec![0x400]);
    assert_eq!(CALL(0x400).next_pc(0x200), vec![0x400]);
    assert_eq!(SKE(0, 1).next_pc(0x200), vec![0x202, 0x204]);
    assert_eq!(RTS.next_pc(0x200), Vec::<u16>::new());
    assert_eq!(LOAD(0, 1).next_pc(0x200), vec![0x202]);
}

#[test]
fn branching_instructions() {
    assert!(SKE(0, 1).branches());
    assert!(!JUMP(0x400).branches());
    assert!(!LOAD(0, 1).branches());
}

#[test]
fn address_index_conversions() {
    assert_eq!(addr_to_idx(0x200), Some(0));
    assert_eq!(addr_to_idx(0x204), Some(2));
    assert_eq!(addr_to_idx(0x1FF), None);
    assert_eq!(idx_to_addr(0), 0x200);
    assert_eq!(idx_to_addr(2), 0x204);
}
