use archon_node::device_filter::{
    classify_device_node, compile, device_rules, encode, enforce_devices, prog_attach_attr, prog_load_attr,
    with_verifier_log, AttrBlock, ClaimedPath, DeviceRule, Insn, BPF_ALU32_AND_IMM, BPF_ALU32_MOV_IMM,
    BPF_ALU32_RSH_IMM, BPF_EXIT, BPF_JA, BPF_JMP32_JNE_IMM, CLAIMED_DEVICE_ACCESS, DEVCG_ACC_MKNOD,
    DEVCG_ACC_READ, DEVCG_ACC_WRITE, DEVCG_DEV_BLOCK, DEVCG_DEV_CHAR, PSEUDO_DEVICE_ACCESS,
};

/// A minimal evaluator for exactly the instruction subset `compile` emits.
fn run(prog: &[Insn], access_type: u32, major: u32, minor: u32) -> u64 {
    let mut regs = [0u32; 11];
    let ctx = [access_type, major, minor];
    let mut pc: i32 = 0;
    loop {
        let insn = &prog[pc as usize];
        match insn.code {
            0x61 => {
                regs[insn.dst_reg as usize] = ctx[(insn.off / 4) as usize];
            }
            0xbf => {
                regs[insn.dst_reg as usize] = regs[insn.src_reg as usize];
            }
            BPF_ALU32_MOV_IMM => {
                regs[insn.dst_reg as usize] = insn.imm as u32;
            }
            BPF_ALU32_AND_IMM => {
                regs[insn.dst_reg as usize] &= insn.imm as u32;
            }
            BPF_ALU32_RSH_IMM => {
                regs[insn.dst_reg as usize] >>= insn.imm;
            }
            BPF_JMP32_JNE_IMM => {
                if regs[insn.dst_reg as usize] != insn.imm as u32 {
                    pc += insn.off as i32 + 1;
                } else {
                    pc += 1;
                }
                continue;
            }
            BPF_JA => {
                pc += insn.off as i32;
            }
            BPF_EXIT => return regs[0] as u64,
            other => panic!("interpreter does not implement {other:#x}"),
        }
        pc += 1;
    }
}

fn rule(dev_type: u32, major: u32, minor: u32, access: u32) -> DeviceRule {
    DeviceRule::new(dev_type, major, minor, access)
}

fn ctx_of(flags: u32, dev_type: u32, major: u32, minor: u32) -> (u32, u32, u32) {
    ((dev_type << 16) | flags, major, minor)
}

#[test]
fn empty_rules_deny_everything() {
    let prog = compile(&[]);
    for ctx in [
        ctx_of(DEVCG_ACC_READ, DEVCG_DEV_CHAR, 1, 3),
        ctx_of(DEVCG_ACC_WRITE, DEVCG_DEV_CHAR, 195, 0),
        ctx_of(DEVCG_ACC_MKNOD, DEVCG_DEV_BLOCK, 8, 0),
    ] {
        assert_eq!(run(&prog, ctx.0, ctx.1, ctx.2), 0);
    }
}

#[test]
fn claimed_device_allowed_others_denied() {
    let prog = compile(&[
        rule(DEVCG_DEV_CHAR, 195, 0, DEVCG_ACC_READ | DEVCG_ACC_WRITE),
        rule(DEVCG_DEV_BLOCK, 8, 16, DEVCG_ACC_MKNOD),
    ]);
    assert_eq!(run(&prog, ctx_of(DEVCG_ACC_READ, DEVCG_DEV_CHAR, 195, 0).0, 195, 0), 1);
    assert_eq!(run(&prog, ctx_of(DEVCG_ACC_WRITE, DEVCG_DEV_CHAR, 195, 0).0, 195, 0), 1);
    assert_eq!(run(&prog, ctx_of(DEVCG_ACC_MKNOD, DEVCG_DEV_CHAR, 195, 0).0, 195, 0), 0);
    assert_eq!(run(&prog, ctx_of(DEVCG_ACC_MKNOD, DEVCG_DEV_BLOCK, 8, 16).0, 8, 16), 1);
    assert_eq!(run(&prog, ctx_of(DEVCG_ACC_READ, DEVCG_DEV_BLOCK, 8, 16).0, 8, 16), 0);
    assert_eq!(run(&prog, ctx_of(DEVCG_ACC_READ, DEVCG_DEV_CHAR, 195, 1).0, 195, 1), 0);
    assert_eq!(run(&prog, ctx_of(DEVCG_ACC_READ, DEVCG_DEV_BLOCK, 195, 0).0, 195, 0), 0);
}

#[test]
fn first_matching_rule_wins_and_later_rules_still_apply() {
    let prog = compile(&[
        rule(DEVCG_DEV_CHAR, 5, 1, DEVCG_ACC_READ),
        rule(DEVCG_DEV_CHAR, 5, 2, DEVCG_ACC_WRITE),
    ]);
    assert_eq!(run(&prog, ctx_of(DEVCG_ACC_READ, DEVCG_DEV_CHAR, 5, 1).0, 5, 1), 1);
    assert_eq!(run(&prog, ctx_of(DEVCG_ACC_WRITE, DEVCG_DEV_CHAR, 5, 2).0, 5, 2), 1);
}

#[test]
fn encoding_matches_kernel_layout() {
    let prog = compile(&[]);
    let packed = encode(&prog[0]);
    assert_eq!(packed & 0xff, prog[0].code as u64);
    assert_eq!((packed >> 8) & 0xf, prog[0].dst_reg as u64);
    assert_eq!((packed >> 12) & 0xf, prog[0].src_reg as u64);
    assert_eq!((packed >> 16) & 0xffff, prog[0].off as u16 as u64);
    assert_eq!(packed >> 32, prog[0].imm as u32 as u64);
}

#[test]
fn empty_program_is_a_two_instruction_deny() {
    let prog = compile(&[]);
    assert_eq!(prog.len(), 2);
    assert_eq!(prog[1].code, BPF_EXIT);
}

#[test]
fn each_rule_compiles_to_one_block() {
    let prog = compile(&[rule(DEVCG_DEV_CHAR, 1, 3, DEVCG_ACC_READ)]);
    // Prologue, one ten-instruction block, the allow and deny epilogues.
    assert_eq!(prog.len(), 3 + 10 + 4);
    let prog = compile(&[rule(DEVCG_DEV_CHAR, 1, 3, 1), rule(DEVCG_DEV_CHAR, 1, 5, 1)]);
    assert_eq!(prog.len(), 3 + 20 + 4);
}

#[test]
fn partial_access_grants_deny_combined_requests() {
    let prog = compile(&[rule(DEVCG_DEV_CHAR, 1, 3, DEVCG_ACC_READ)]);
    assert_eq!(run(&prog, ctx_of(DEVCG_ACC_READ, DEVCG_DEV_CHAR, 1, 3).0, 1, 3), 1);
    assert_eq!(
        run(&prog, ctx_of(DEVCG_ACC_READ | DEVCG_ACC_WRITE, DEVCG_DEV_CHAR, 1, 3).0, 1, 3),
        0
    );
}

#[test]
fn encoding_packs_negative_fields() {
    let insn = Insn { code: BPF_JA, dst_reg: 0, src_reg: 0, off: -1, imm: -2 };
    let packed = encode(&insn);
    assert_eq!(packed, 0xffff_fffe_ffff_0005);
}

#[test]
fn attr_block_writes_little_endian_fields() {
    let mut attr = AttrBlock::zeroed();
    attr.write_u32(0, 0x1122_3344);
    attr.write_u64(8, 0x0102_0304_0506_0708);
    assert_eq!(attr.0[0], 0x1122_3344);
    assert_eq!(attr.0[1], 0x0102_0304_0506_0708);
    attr.write_u32(4, 7);
    assert_eq!(attr.0[0], 0x0000_0007_1122_3344);
}

#[test]
fn program_load_and_attach_attributes() {
    let attr = prog_load_attr(17, 0x1000, 0x2000);
    assert_eq!(attr.0[0], (17u64 << 32) | 15);
    assert_eq!(attr.0[1], 0x1000);
    assert_eq!(attr.0[2], 0x2000);
    assert_eq!(attr.0[8] & 0xffff_ffff, 0);
    assert_eq!(attr.0[8] >> 32, 6);
    let mut logged = attr;
    with_verifier_log(&mut logged, 65536, 0x3000);
    assert_eq!(logged.0[3], (65536u64 << 32) | 1);
    assert_eq!(logged.0[4], 0x3000);
    let attach = prog_attach_attr(9, 4);
    assert_eq!(attach.0[0], (4u64 << 32) | 9);
    assert_eq!(attach.0[1], 6);
}

#[test]
fn device_nodes_are_classified_by_mode() {
    // /dev/null: character device 1:3.
    assert_eq!(classify_device_node(0o020666, (1 << 8) | 3), Some((true, 1, 3)));
    // A block device with a large minor.
    let rdev: u64 = (8 << 8) | 0x10 | (0x123 << 20);
    assert_eq!(classify_device_node(0o060660, rdev), Some((false, 8, 0x12310)));
    // A regular file is no device node.
    assert_eq!(classify_device_node(0o100644, 0), None);
}

fn claim(id: &str, path: &str, numbers: Option<(bool, u32, u32)>) -> ClaimedPath {
    ClaimedPath { device_id: id.to_string(), path: path.to_string(), numbers }
}

#[test]
fn lease_rules_grant_pseudo_devices_then_claims_once() {
    let pseudo = [Some((true, 1, 3)), None, Some((true, 1, 3)), Some((true, 1, 5))];
    let claimed = [claim("gpu0", "/dev/nvidia0", Some((true, 195, 0))), claim("gpu0", "/dev/nvidiactl", Some((true, 195, 255)))];
    let rules = device_rules(&pseudo, &claimed).unwrap();
    assert_eq!(
        rules,
        vec![
            rule(DEVCG_DEV_CHAR, 1, 3, PSEUDO_DEVICE_ACCESS),
            rule(DEVCG_DEV_CHAR, 1, 5, PSEUDO_DEVICE_ACCESS),
            rule(DEVCG_DEV_CHAR, 195, 0, CLAIMED_DEVICE_ACCESS),
            rule(DEVCG_DEV_CHAR, 195, 255, CLAIMED_DEVICE_ACCESS),
        ]
    );
    // A claim on a node that is already granted keeps the first grant.
    let again = [claim("x", "/dev/null", Some((true, 1, 3)))];
    let rules = device_rules(&pseudo, &again).unwrap();
    assert_eq!(rules[0], rule(DEVCG_DEV_CHAR, 1, 3, PSEUDO_DEVICE_ACCESS));
    assert_eq!(rules.len(), 2);
}

#[test]
fn unreachable_claimed_path_refuses_the_lease() {
    let claimed = [claim("gpu0", "/dev/nvidia0", Some((true, 195, 0))), claim("gpu0", "/dev/missing", None)];
    assert_eq!(
        device_rules(&[], &claimed).unwrap_err(),
        "device gpu0 (/dev/missing) is not reachable or not a device node"
    );
    assert_eq!(
        enforce_devices(&[], &claimed).unwrap_err(),
        "device gpu0 (/dev/missing) is not reachable or not a device node"
    );
}

#[test]
fn enforced_program_admits_claims_and_pseudo_devices_only() {
    let pseudo = [Some((true, 1, 3))];
    let claimed = [claim("gpu0", "/dev/nvidia0", Some((true, 195, 0)))];
    let prog = enforce_devices(&pseudo, &claimed).unwrap();
    // /dev/null: read and write, no mknod.
    assert_eq!(run(&prog, ctx_of(DEVCG_ACC_READ | DEVCG_ACC_WRITE, DEVCG_DEV_CHAR, 1, 3).0, 1, 3), 1);
    assert_eq!(run(&prog, ctx_of(DEVCG_ACC_MKNOD, DEVCG_DEV_CHAR, 1, 3).0, 1, 3), 0);
    // The claimed GPU: everything.
    assert_eq!(
        run(&prog, ctx_of(DEVCG_ACC_READ | DEVCG_ACC_WRITE | DEVCG_ACC_MKNOD, DEVCG_DEV_CHAR, 195, 0).0, 195, 0),
        1
    );
    // Another GPU: nothing.
    assert_eq!(run(&prog, ctx_of(DEVCG_ACC_READ, DEVCG_DEV_CHAR, 195, 1).0, 195, 1), 0);
}

#[test]
fn repeated_claimed_paths_count_once_toward_the_rule_limit() {
    let pseudo = [Some((true, 1, 3)), Some((true, 1, 5)), Some((true, 1, 7)), Some((true, 1, 8)), Some((true, 1, 9))];
    let claimed: Vec<_> = (0..5000).map(|_| claim("gpu0", "/dev/nvidia0", Some((true, 195, 0)))).collect();
    let rules = device_rules(&pseudo, &claimed).unwrap();
    assert_eq!(rules.len(), 6);
    let prog = enforce_devices(&pseudo, &claimed).unwrap();
    assert_eq!(
        run(&prog, ctx_of(DEVCG_ACC_READ | DEVCG_ACC_WRITE | DEVCG_ACC_MKNOD, DEVCG_DEV_CHAR, 195, 0).0, 195, 0),
        1
    );
    assert_eq!(run(&prog, ctx_of(DEVCG_ACC_READ, DEVCG_DEV_CHAR, 195, 1).0, 195, 1), 0);
}
