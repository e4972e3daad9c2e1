use aura_decomp::cfg::{build_function_cfg, build_xref_index, decode_at, decode_flow, EdgeKind, Flow, XrefKind};

fn r_type(op: u32, rs: u32, rt: u32, rd: u32, shamt: u32, funct: u32) -> u32 {
    (op << 26) | (rs << 21) | (rt << 16) | (rd << 11) | (shamt << 6) | funct
}

fn i_type(op: u32, rs: u32, rt: u32, imm: u32) -> u32 {
    (op << 26) | (rs << 21) | (rt << 16) | (imm & 0xFFFF)
}

fn j_type(op: u32, target: u32) -> u32 {
    (op << 26) | (target & 0x03FFFFFF)
}

const JR_RA: u32 = 0x03E00008;
const NOP: u32 = 0x00000000;

fn words_be(words: &[u32]) -> Vec<u8> {
    let mut v = Vec::with_capacity(words.len() * 4);
    for w in words {
        v.extend_from_slice(&w.to_be_bytes());
    }
    v
}

fn words_le(words: &[u32]) -> Vec<u8> {
    let mut v = Vec::with_capacity(words.len() * 4);
    for w in words {
        v.extend_from_slice(&w.to_le_bytes());
    }
    v
}


#[test]
fn decode_flow_seq_for_nop() {
    // nop = sll $zero,$zero,0 → op=0 funct=0 → Seq (not a control transfer)
    assert!(matches!(decode_flow(NOP, 0x1000), Flow::Sequential));
}

#[test]
fn decode_flow_jr_ra() {
    let f = decode_flow(JR_RA, 0x1000);
    assert!(matches!(f, Flow::Jr { rs: 31 }));
}

#[test]
fn decode_flow_jalr() {
    // jalr $ra, $t9 → op=0 funct=9 rs=31
    let w = r_type(0, 31, 0, 31, 0, 9);
    assert!(matches!(decode_flow(w, 0x1000), Flow::Jalr { rs: 31 }));
}

#[test]
fn decode_flow_jump_and_call_targets() {
    // j 0x1004 → op=2, target_field = 0x1004>>2 = 0x401. jump_target uses
    // (PC+4 & 0xF0000000) | (target_field<<2). At addr 0x0, PC+4=4,
    // target_field<<2 = 0x401<<2 = 0x1004.
    let w = j_type(2, 0x1004 >> 2);
    assert!(matches!(decode_flow(w, 0x0), Flow::Jump { target: 0x1004 }));
    // jal uses the same encoding, op=3
    let w2 = j_type(3, 0x1004 >> 2);
    assert!(matches!(decode_flow(w2, 0x0), Flow::Call { target: 0x1004 }));
}

#[test]
fn decode_flow_conditional_branches() {
    // beq (op4), bne(op5), blez(op6), bgtz(op7), beql(op0x14), bnel(op0x15)
    for op in [0x04u32, 0x05, 0x06, 0x07, 0x14, 0x15] {
        let w = i_type(op, 4, 5, 2);
        assert!(
            matches!(decode_flow(w, 0x1000), Flow::CondBranch { .. }),
            "op {:#x} should be a conditional branch",
            op
        );
    }
}

#[test]
fn decode_flow_regimm_branches() {
    // bltz (rt=0), bgez (rt=1) etc. under op=1 (REGIMM)
    for rt in [0x00u32, 0x01, 0x02, 0x03, 0x10, 0x11] {
        let w = i_type(1, 6, rt, 1);
        assert!(
            matches!(decode_flow(w, 0x1000), Flow::CondBranch { .. }),
            "REGIMM rt {:#x} should branch",
            rt
        );
    }
}

#[test]
fn decode_flow_branch_target_is_pc_plus_4_plus_imm_x4() {
    // beq at 0x1004, imm=2 → target = 0x1004 + 4 + (2<<2) = 0x1010
    let w = i_type(4, 4, 5, 2);
    match decode_flow(w, 0x1004) {
        Flow::CondBranch { target } => assert_eq!(target, 0x1010),
        other => panic!("expected CondBranch, got {:?}", other),
    }
}

#[test]
fn decode_at_le_and_be_match() {
    let data = words_le(&[0x12345678]);
    let ins = decode_at(&data, 0, 0x1000, true).unwrap();
    assert_eq!(ins.word, 0x12345678);
    assert_eq!(ins.addr, 0x1000);

    let data = words_be(&[0x12345678]);
    let ins = decode_at(&data, 0, 0x1000, false).unwrap();
    assert_eq!(ins.word, 0x12345678);
}

#[test]
fn decode_at_returns_none_out_of_range() {
    assert!(decode_at(&[0, 0, 0], 0, 0, true).is_none());
}

#[test]
fn build_function_cfg_branch_and_return() {
    // Function layout (LE), base 0x1000, end 0x101C:
    //   0x1000: nop
    //   0x1004: beq $a0,$a1, 0x1014   (imm=3: 0x1004+4+3*4 = 0x1014)
    //   0x1008: nop                  (delay slot)
    //   0x100C: jr $ra
    //   0x1010: nop                  (delay slot)
    //   0x1014: jr $ra
    //   0x1018: nop                  (delay slot)
    let beq = i_type(4, 4, 5, 3); // beq $a0,$a1,+3
    let data = words_le(&[NOP, beq, NOP, JR_RA, NOP, JR_RA, NOP]);
    let cfg = build_function_cfg(&data, 0x1000, 0x1000, 0x101C, true);

    // Three blocks: 0x1000 (entry), 0x100C, 0x1014.
    assert_eq!(cfg.blocks.len(), 3, "should have 3 basic blocks");
    assert!(cfg.blocks.contains_key(&0x1000));
    assert!(cfg.blocks.contains_key(&0x100C));
    assert!(cfg.blocks.contains_key(&0x1014));

    // Entry block contains the branch + its delay slot (3 instrs).
    let entry = &cfg.blocks[&0x1000];
    assert_eq!(entry.instrs.len(), 3);
    assert_eq!(entry.end, 0x100C);

    // Function returns (jr $ra reachable).
    assert!(cfg.does_return, "function should be flagged as returning");

    // Edges: BranchTaken 0x1000->0x1014, BranchNotTaken 0x1000->0x100C.
    let has_edge = |to: u32, kind: EdgeKind| {
        cfg.edges.iter().any(|e| e.from == 0x1000 && e.to == to && e.kind == kind)
    };
    assert!(has_edge(0x1014, EdgeKind::BranchTaken));
    assert!(has_edge(0x100C, EdgeKind::BranchNotTaken));
}

#[test]
fn build_function_cfg_unconditional_jump_within_function() {
    // j back to a target inside the function → Jump edge.
    //   0x1000: j 0x1008  (target_field = 0x1008>>2 = 0x402)
    //   0x1004: nop (delay slot)
    //   0x1008: jr $ra
    //   0x100C: nop (delay slot)
    let j = j_type(2, 0x1008 >> 2);
    let data = words_le(&[j, NOP, JR_RA, NOP]);
    let cfg = build_function_cfg(&data, 0x1000, 0x1000, 0x1010, true);
    assert_eq!(cfg.blocks.len(), 2);
    assert!(cfg.does_return);
    assert!(cfg.edges.iter().any(|e| e.kind == EdgeKind::Jump && e.to == 0x1008));
}

#[test]
fn xref_index_records_and_lookups_up() {
    let mut idx = build_xref_index(&[]);
    assert!(idx.is_empty());

    idx.add(0x2000, 0x3000, XrefKind::Call);
    idx.add(0x2004, 0x3000, XrefKind::Branch);
    let refs = idx.refs_to(0x3000);
    assert_eq!(refs.len(), 2);
    // No refs to an unreferenced address.
    assert!(idx.refs_to(0x9999).is_empty());
    // len() counts *distinct* referenced addresses (here: just 0x3000).
    assert_eq!(idx.len(), 1);
}

#[test]
fn xref_index_built_from_cfgs() {
    // One CFG with a JAL (call) edge → the xref index should record it.
    // jal 0x2000 at addr 0x1000 (target_field = 0x2000>>2 = 0x800)
    let jal = j_type(3, 0x2000 >> 2);
    let data = words_le(&[jal, NOP, JR_RA, NOP]);
    let cfg = build_function_cfg(&data, 0x1000, 0x1000, 0x1010, true);
    let idx = build_xref_index(&[cfg]);
    // The call target 0x2000 should have at least one xref from 0x1000.
    let refs = idx.refs_to(0x2000);
    assert!(!refs.is_empty(), "expected xrefs to the JAL call target");
    assert!(refs.iter().any(|r| r.kind == XrefKind::Call));
}


#[test]
fn cfg_blocks_stop_at_function_end() {
    let data = words_le(&[NOP, NOP, JR_RA, NOP]);
    let cfg = build_function_cfg(&data, 0x1000, 0x1000, 0x1004, true);
    assert_eq!(cfg.blocks.len(), 1);
    assert_eq!(cfg.blocks[&0x1000].instrs, vec![(0x1000, 0)]);
    assert_eq!(cfg.blocks[&0x1000].end, 0x1004);
    assert!(!cfg.does_return);
    assert!(cfg.edges.is_empty());
}

#[test]
fn cfg_transfer_at_function_end_keeps_no_delay_slot() {
    // jr $ra is the last word below func_end; its delay slot lies past it.
    let data = words_le(&[NOP, JR_RA, NOP]);
    let cfg = build_function_cfg(&data, 0x1000, 0x1000, 0x1008, true);
    assert_eq!(cfg.blocks[&0x1000].instrs, vec![(0x1000, 0), (0x1004, JR_RA)]);
    assert!(cfg.does_return);
}

#[test]
fn cfg_block_running_into_another_gets_a_fallthrough_edge() {
    //   0x1000: j 0x100C ; 0x1004: nop
    //   0x1008: nop                       (reached by the branch below)
    //   0x100C: beq $0,$0, 0x1008 ; 0x1010: nop
    //   0x1014: jr $ra ; 0x1018: nop
    let j = j_type(2, 0x100C >> 2);
    let beq = i_type(4, 0, 0, 0xFFFE);
    let data = words_le(&[j, NOP, NOP, beq, NOP, JR_RA, NOP]);
    let cfg = build_function_cfg(&data, 0x1000, 0x1000, 0x101C, true);
    let keys: Vec<u32> = cfg.blocks.keys().copied().collect();
    assert_eq!(keys, vec![0x1000, 0x1008, 0x100C, 0x1014]);
    assert_eq!(cfg.blocks[&0x1008].instrs, vec![(0x1008, NOP)]);
    assert_eq!(cfg.blocks[&0x1008].end, 0x100C);
    assert!(cfg.edges.iter().any(|e| e.from == 0x1008 && e.to == 0x100C && e.kind == EdgeKind::Fallthrough));
    for e in &cfg.edges {
        assert!(cfg.blocks.contains_key(&e.from));
    }
}
