//! Process-side device enforcement: a cgroup-device BPF filter program.
//! Deny-by-default: a lease may access exactly its claimed devices plus a
//! fixed set of standard pseudo-devices; everything else is refused.
use vstd::prelude::*;

verus! {

/// eBPF opcodes emitted by the compiler (linux/bpf.h).
pub const BPF_LDX_MEM_W: u8 = 0x61;
pub const BPF_ALU64_MOV_REG: u8 = 0xbf;
pub const BPF_ALU32_MOV_IMM: u8 = 0xb4;
pub const BPF_ALU32_AND_IMM: u8 = 0x54;
pub const BPF_ALU32_RSH_IMM: u8 = 0x74;
pub const BPF_JMP32_JNE_IMM: u8 = 0x56;
pub const BPF_JA: u8 = 0x05;
pub const BPF_EXIT: u8 = 0x95;

/// bpf_cgroup_dev_ctx access bits.
pub const DEVCG_ACC_READ: u32 = 1;
pub const DEVCG_ACC_WRITE: u32 = 2;
pub const DEVCG_ACC_MKNOD: u32 = 4;
/// Device types, found in the upper 16 bits of `ctx->access_type`.
pub const DEVCG_DEV_BLOCK: u32 = 1;
pub const DEVCG_DEV_CHAR: u32 = 2;

/// One allowed (device type, major, minor) with its granted access bits.
#[derive(Clone, Copy, Debug, PartialEq, Eq)]
pub struct DeviceRule {
    pub dev_type: u32,
    pub major: u32,
    pub minor: u32,
    /// Granted bits out of READ | WRITE | MKNOD.
    pub access: u32,
}

impl DeviceRule {
    pub fn new(dev_type: u32, major: u32, minor: u32, access: u32) -> (rule: DeviceRule)
        ensures
            rule == (DeviceRule { dev_type, major, minor, access }),
    {
        DeviceRule { dev_type, major, minor, access }
    }
}

/// A raw eBPF instruction, in the kernel's field order.
#[derive(Clone, Copy, Debug, PartialEq, Eq)]
pub struct Insn {
    pub code: u8,
    pub dst_reg: u8,
    pub src_reg: u8,
    pub off: i16,
    pub imm: i32,
}

pub open spec fn insn(code: u8, dst_reg: u8, src_reg: u8, off: i16, imm: i32) -> Insn {
    Insn { code, dst_reg, src_reg, off, imm }
}

/// The 64-bit kernel encoding of one instruction.
pub open spec fn encoding(i: Insn) -> u64 {
    (i.code as u64) | (((i.dst_reg & 0xf) as u64) << 8u64) | (((i.src_reg & 0xf) as u64) << 12u64)
        | (((i.off as u16) as u64) << 16u64) | (((i.imm as u32) as u64) << 32u64)
}

fn mov_imm(dst: u8, imm: i32) -> (r: Insn)
    ensures
        r == insn(BPF_ALU32_MOV_IMM, dst, 0, 0, imm),
{
    Insn { code: BPF_ALU32_MOV_IMM, dst_reg: dst, src_reg: 0, off: 0, imm }
}

fn mov_reg(dst: u8, src: u8) -> (r: Insn)
    ensures
        r == insn(BPF_ALU64_MOV_REG, dst, src, 0, 0),
{
    Insn { code: BPF_ALU64_MOV_REG, dst_reg: dst, src_reg: src, off: 0, imm: 0 }
}

fn and_imm(dst: u8, imm: u32) -> (r: Insn)
    ensures
        r == insn(BPF_ALU32_AND_IMM, dst, 0, 0, imm as i32),
{
    Insn { code: BPF_ALU32_AND_IMM, dst_reg: dst, src_reg: 0, off: 0, imm: imm as i32 }
}

fn rsh_imm(dst: u8, imm: u32) -> (r: Insn)
    ensures
        r == insn(BPF_ALU32_RSH_IMM, dst, 0, 0, imm as i32),
{
    Insn { code: BPF_ALU32_RSH_IMM, dst_reg: dst, src_reg: 0, off: 0, imm: imm as i32 }
}

fn load_ctx_word(dst: u8, byte_off: u16) -> (r: Insn)
    ensures
        r == insn(BPF_LDX_MEM_W, dst, 1, byte_off as i16, 0),
{
    Insn { code: BPF_LDX_MEM_W, dst_reg: dst, src_reg: 1, off: byte_off as i16, imm: 0 }
}

/// Pack one instruction into the kernel's 64-bit encoding.
pub fn encode(i: &Insn) -> (packed: u64)
    ensures
        packed == encoding(*i),
        packed & 0xff == i.code as u64,
        (packed >> 8u64) & 0xf == (i.dst_reg & 0xf) as u64,
        (packed >> 12u64) & 0xf == (i.src_reg & 0xf) as u64,
        (packed >> 16u64) & 0xffff == (i.off as u16) as u64,
        packed >> 32u64 == (i.imm as u32) as u64,
{
    let code = i.code as u64;
    let dr = i.dst_reg;
    let sr = i.src_reg;
    let d = dr & 0xf;
    let s = sr & 0xf;
    assert(d < 16 && s < 16) by (bit_vector)
        requires
            d == dr & 0xf,
            s == sr & 0xf,
    ;
    let dst = d as u64;
    let src = s as u64;
    let off = (#[verifier::truncate] (i.off as u16)) as u64;
    let imm = (#[verifier::truncate] (i.imm as u32)) as u64;
    let packed = code | (dst << 8u64) | (src << 12u64) | (off << 16u64) | (imm << 32u64);
    assert(packed & 0xff == code && (packed >> 8u64) & 0xf == dst && (packed >> 12u64) & 0xf == src
        && (packed >> 16u64) & 0xffff == off && packed >> 32u64 == imm) by (bit_vector)
        requires
            code < 256,
            dst < 16,
            src < 16,
            off < 65536,
            imm < 0x1_0000_0000,
            packed == code | (dst << 8u64) | (src << 12u64) | (off << 16u64) | (imm << 32u64),
    ;
    packed
}


// ---------------------------------------------------------------------------
// The program the compiler emits, instruction by instruction.

/// `ctx->access_type`, `ctx->major` and `ctx->minor` sit at these byte offsets.
pub open spec fn prologue_insn(j: int) -> Insn {
    if j == 0 {
        insn(BPF_LDX_MEM_W, 2, 1, 0, 0)
    } else if j == 1 {
        insn(BPF_LDX_MEM_W, 3, 1, 4, 0)
    } else {
        insn(BPF_LDX_MEM_W, 4, 1, 8, 0)
    }
}

/// Bits outside a rule's grant: any of them in a request rejects the rule.
pub open spec fn disallowed_bits(rule: DeviceRule) -> u32 {
    !(rule.access & (DEVCG_ACC_READ | DEVCG_ACC_WRITE | DEVCG_ACC_MKNOD))
}

/// A jump at `from` that lands on `target` (offsets count from the next insn).
pub open spec fn jump_off(from: int, target: int) -> i16 {
    (target - from - 1) as i16
}

/// Instruction `k` (0..10) of the block for `rule`, which starts at `s`;
/// a mismatch continues at `next`, a full match jumps to `allow`.
pub open spec fn block_insn(rule: DeviceRule, s: int, next: int, allow: int, k: int) -> Insn {
    if k == 0 {
        insn(BPF_ALU64_MOV_REG, 6, 2, 0, 0)
    } else if k == 1 {
        insn(BPF_ALU32_AND_IMM, 6, 0, 0, 0xffff)
    } else if k == 2 {
        insn(BPF_ALU32_AND_IMM, 6, 0, 0, disallowed_bits(rule) as i32)
    } else if k == 3 {
        insn(BPF_JMP32_JNE_IMM, 6, 0, jump_off(s + 3, next), 0)
    } else if k == 4 {
        insn(BPF_ALU64_MOV_REG, 6, 2, 0, 0)
    } else if k == 5 {
        insn(BPF_ALU32_RSH_IMM, 6, 0, 0, 16)
    } else if k == 6 {
        insn(BPF_JMP32_JNE_IMM, 6, 0, jump_off(s + 6, next), rule.dev_type as i32)
    } else if k == 7 {
        insn(BPF_JMP32_JNE_IMM, 3, 0, jump_off(s + 7, next), rule.major as i32)
    } else if k == 8 {
        insn(BPF_JMP32_JNE_IMM, 4, 0, jump_off(s + 8, next), rule.minor as i32)
    } else {
        insn(BPF_JA, 0, 0, jump_off(s + 9, allow), 0)
    }
}

/// Index of the shared ALLOW epilogue for `n` rules.
pub open spec fn allow_index(n: int) -> int {
    3 + 10 * n
}

/// Instruction `j` of the program compiled from a non-empty rule list.
pub open spec fn rules_insn(rules: Seq<DeviceRule>, j: int) -> Insn {
    let n = rules.len() as int;
    let allow = allow_index(n);
    let deny = allow + 2;
    if j < 3 {
        prologue_insn(j)
    } else if j < allow {
        let i = (j - 3) / 10;
        let s = 3 + 10 * i;
        let next = if i + 1 < n { s + 10 } else { deny };
        block_insn(rules[i], s, next, allow, (j - 3) % 10)
    } else if j == allow {
        insn(BPF_ALU32_MOV_IMM, 0, 0, 0, 1)
    } else if j == allow + 2 {
        insn(BPF_ALU32_MOV_IMM, 0, 0, 0, 0)
    } else {
        insn(BPF_EXIT, 0, 0, 0, 0)
    }
}

/// The deny-by-default cgroup-device program for `rules`.
pub open spec fn compiled(rules: Seq<DeviceRule>) -> Seq<Insn> {
    if rules.len() == 0 {
        seq![insn(BPF_ALU32_MOV_IMM, 0, 0, 0, 0), insn(BPF_EXIT, 0, 0, 0, 0)]
    } else {
        Seq::new((allow_index(rules.len() as int) + 4) as nat, |j: int| rules_insn(rules, j))
    }
}

/// Assemble the deny-by-default cgroup-device program:
///
/// ```text
/// r2 = ctx->access_type; r3 = ctx->major; r4 = ctx->minor
/// for each rule:
///     if (access_type & 0xffff) & ~rule.access == 0        // request within grant
///     && (access_type >> 16) == rule.dev_type
///     && major == rule.major && minor == rule.minor:
///         return 1
/// return 0
/// ```
///
/// Every mismatch jumps to the next rule block; a full match jumps to the
/// shared ALLOW epilogue. Empty rules compile to an unconditional deny.
pub fn compile(rules: &[DeviceRule]) -> (prog: Vec<Insn>)
    requires
        allow_index(rules@.len() as int) + 4 <= usize::MAX,
    ensures
        prog@ == compiled(rules@),
{
    if rules.len() == 0 {
        let mut prog = Vec::new();
        prog.push(mov_imm(0, 0));
        prog.push(Insn { code: BPF_EXIT, dst_reg: 0, src_reg: 0, off: 0, imm: 0 });
        assert(prog@ =~= compiled(rules@));
        return prog;
    }
    let ghost target = compiled(rules@);
    let n = rules.len();
    let mut prog = Vec::new();
    prog.push(load_ctx_word(2, 0));
    prog.push(load_ctx_word(3, 4));
    prog.push(load_ctx_word(4, 8));
    let allow = 3 + n * 10;
    let deny = allow + 2;
    let mut i: usize = 0;
    while i < n
        invariant
            n == rules@.len(),
            n > 0,
            allow == allow_index(n as int),
            deny == allow + 2,
            allow + 4 <= usize::MAX,
            target == compiled(rules@),
            i <= n,
            prog@.len() == 3 + 10 * i,
            forall|j: int| 0 <= j < prog@.len() ==> prog@[j] == target[j],
        decreases n - i,
    {
        let rule = rules[i];
        let s = prog.len();
        let next_rule = if i + 1 < n { s + 10 } else { deny };
        let granted = rule.access & (DEVCG_ACC_READ | DEVCG_ACC_WRITE | DEVCG_ACC_MKNOD);
        let disallowed = !granted;
        let ghost old_prog = prog@;
        prog.push(mov_reg(6, 2));
        prog.push(and_imm(6, 0xffff));
        prog.push(and_imm(6, disallowed));
        prog.push(Insn {
            code: BPF_JMP32_JNE_IMM,
            dst_reg: 6,
            src_reg: 0,
            off: #[verifier::truncate] ((next_rule - (s + 3) - 1) as i16),
            imm: 0,
        });
        prog.push(mov_reg(6, 2));
        prog.push(rsh_imm(6, 16));
        prog.push(Insn {
            code: BPF_JMP32_JNE_IMM,
            dst_reg: 6,
            src_reg: 0,
            off: #[verifier::truncate] ((next_rule - (s + 6) - 1) as i16),
            imm: #[verifier::truncate] (rule.dev_type as i32),
        });
        prog.push(Insn {
            code: BPF_JMP32_JNE_IMM,
            dst_reg: 3,
            src_reg: 0,
            off: #[verifier::truncate] ((next_rule - (s + 7) - 1) as i16),
            imm: #[verifier::truncate] (rule.major as i32),
        });
        prog.push(Insn {
            code: BPF_JMP32_JNE_IMM,
            dst_reg: 4,
            src_reg: 0,
            off: #[verifier::truncate] ((next_rule - (s + 8) - 1) as i16),
            imm: #[verifier::truncate] (rule.minor as i32),
        });
        prog.push(Insn {
            code: BPF_JA,
            dst_reg: 0,
            src_reg: 0,
            off: #[verifier::truncate] ((allow - (s + 9) - 1) as i16),
            imm: 0,
        });
        assert forall|j: int| 0 <= j < prog@.len() implies prog@[j] == target[j] by {
            if j >= s {
                assert((j - 3) / 10 == i as int);
                assert((j - 3) % 10 == j - s);
            } else {
                assert(prog@[j] == old_prog[j]);
            }
        }
        i = i + 1;
    }
    prog.push(mov_imm(0, 1));
    prog.push(Insn { code: BPF_EXIT, dst_reg: 0, src_reg: 0, off: 0, imm: 0 });
    prog.push(mov_imm(0, 0));
    prog.push(Insn { code: BPF_EXIT, dst_reg: 0, src_reg: 0, off: 0, imm: 0 });
    assert(prog@ =~= target);
    prog
}


// ---------------------------------------------------------------------------
// What a program decides: the kernel's semantics for the instruction subset
// above, on 32-bit registers r0..r10 and the three context words.

/// Run `prog` from `pc` for at most `fuel` instructions; `Some(r0)` on exit,
/// `None` on an invalid instruction, a pc out of range, or exhausted fuel.
#[verifier::opaque]
pub open spec fn run(prog: Seq<Insn>, pc: int, regs: Seq<u32>, ctx: Seq<u32>, fuel: nat) -> Option<u32>
    decreases fuel,
{
    if fuel == 0 || pc < 0 || pc >= prog.len() {
        None
    } else {
        let i = prog[pc];
        let dst = i.dst_reg as int;
        if dst >= 11 || (i.src_reg as int) >= 11 {
            None
        } else if i.code == BPF_EXIT {
            Some(regs[0])
        } else if i.code == BPF_JMP32_JNE_IMM {
            let next = if regs[dst] != (i.imm as u32) { pc + i.off + 1 } else { pc + 1 };
            run(prog, next, regs, ctx, (fuel - 1) as nat)
        } else if i.code == BPF_JA {
            run(prog, pc + i.off + 1, regs, ctx, (fuel - 1) as nat)
        } else if i.code == BPF_LDX_MEM_W {
            if i.src_reg == 1 && (i.off == 0 || i.off == 4 || i.off == 8) {
                run(prog, pc + 1, regs.update(dst, ctx[i.off / 4]), ctx, (fuel - 1) as nat)
            } else {
                None
            }
        } else if i.code == BPF_ALU64_MOV_REG {
            run(prog, pc + 1, regs.update(dst, regs[i.src_reg as int]), ctx, (fuel - 1) as nat)
        } else if i.code == BPF_ALU32_MOV_IMM {
            run(prog, pc + 1, regs.update(dst, i.imm as u32), ctx, (fuel - 1) as nat)
        } else if i.code == BPF_ALU32_AND_IMM {
            run(prog, pc + 1, regs.update(dst, regs[dst] & (i.imm as u32)), ctx, (fuel - 1) as nat)
        } else if i.code == BPF_ALU32_RSH_IMM && 0 <= i.imm < 32 {
            run(prog, pc + 1, regs.update(dst, regs[dst] >> (i.imm as u32)), ctx, (fuel - 1) as nat)
        } else {
            None
        }
    }
}

/// The answer of `prog` to one device access: every register starts at zero
/// and each instruction may run once.
pub open spec fn evaluate(prog: Seq<Insn>, access_type: u32, major: u32, minor: u32) -> Option<u32> {
    run(prog, 0, Seq::new(11, |r: int| 0u32), seq![access_type, major, minor], prog.len())
}

/// A rule admits an access when the device type and numbers match and every
/// requested access bit lies within the rule's grant.
pub open spec fn rule_admits(rule: DeviceRule, access_type: u32, major: u32, minor: u32) -> bool {
    &&& (access_type & 0xffff) & disallowed_bits(rule) == 0
    &&& access_type >> 16 == rule.dev_type
    &&& major == rule.major
    &&& minor == rule.minor
}

/// Some rule at index `from` or later admits the access.
pub open spec fn admitted_from(rules: Seq<DeviceRule>, from: int, access_type: u32, major: u32, minor: u32) -> bool {
    exists|j: int| from <= j < rules.len() && rule_admits(#[trigger] rules[j], access_type, major, minor)
}

/// The list admits the access: some rule does.
pub open spec fn admitted(rules: Seq<DeviceRule>, access_type: u32, major: u32, minor: u32) -> bool {
    admitted_from(rules, 0, access_type, major, minor)
}

/// The most rules for which every jump offset fits in 16 bits.
pub const MAX_RULES: usize = 3277;


/// One ALU or load step: `run` continues at `pc + 1` with `next` registers.
proof fn lemma_step(p: Seq<Insn>, pc: int, regs: Seq<u32>, ctx: Seq<u32>, fuel: nat, next: Seq<u32>)
    requires
        fuel > 0,
        0 <= pc < p.len(),
        regs.len() == 11,
        ctx.len() == 3,
        (p[pc].dst_reg as int) < 11,
        (p[pc].src_reg as int) < 11,
        ({
            let i = p[pc];
            let dst = i.dst_reg as int;
            ||| (i.code == BPF_LDX_MEM_W && i.src_reg == 1 && (i.off == 0 || i.off == 4 || i.off == 8)
                && next == regs.update(dst, ctx[i.off / 4]))
            ||| (i.code == BPF_ALU64_MOV_REG && next == regs.update(dst, regs[i.src_reg as int]))
            ||| (i.code == BPF_ALU32_MOV_IMM && next == regs.update(dst, i.imm as u32))
            ||| (i.code == BPF_ALU32_AND_IMM && next == regs.update(dst, regs[dst] & (i.imm as u32)))
            ||| (i.code == BPF_ALU32_RSH_IMM && 0 <= i.imm < 32 && next == regs.update(dst, regs[dst] >> (i.imm as u32)))
        }),
    ensures
        run(p, pc, regs, ctx, fuel) == run(p, pc + 1, next, ctx, (fuel - 1) as nat),
{
    reveal(run);
}

/// One jump step: `run` continues at `target`.
proof fn lemma_jump(p: Seq<Insn>, pc: int, regs: Seq<u32>, ctx: Seq<u32>, fuel: nat, target: int)
    requires
        fuel > 0,
        0 <= pc < p.len(),
        regs.len() == 11,
        (p[pc].dst_reg as int) < 11,
        (p[pc].src_reg as int) < 11,
        ({
            let i = p[pc];
            ||| (i.code == BPF_JA && target == pc + i.off + 1)
            ||| (i.code == BPF_JMP32_JNE_IMM && regs[i.dst_reg as int] != (i.imm as u32) && target == pc + i.off + 1)
            ||| (i.code == BPF_JMP32_JNE_IMM && regs[i.dst_reg as int] == (i.imm as u32) && target == pc + 1)
        }),
    ensures
        run(p, pc, regs, ctx, fuel) == run(p, target, regs, ctx, (fuel - 1) as nat),
{
    reveal(run);
}

/// An exit step answers r0.
proof fn lemma_exit(p: Seq<Insn>, pc: int, regs: Seq<u32>, ctx: Seq<u32>, fuel: nat)
    requires
        fuel > 0,
        0 <= pc < p.len(),
        p[pc] == insn(BPF_EXIT, 0, 0, 0, 0),
    ensures
        run(p, pc, regs, ctx, fuel) == Some(regs[0]),
{
    reveal(run);
}

proof fn lemma_cast_roundtrip(x: u32)
    ensures
        ((x as i32) as u32) == x,
{
    assert(((x as i32) as u32) == x) by (bit_vector);
}

proof fn lemma_tail_insns(rules: Seq<DeviceRule>, regs: Seq<u32>, ctx: Seq<u32>, fuel: nat, value: u32)
    requires
        0 < rules.len() <= MAX_RULES,
        regs.len() == 11,
        ctx.len() == 3,
        fuel >= 2,
        value == 0 || value == 1,
    ensures
        run(compiled(rules), allow_index(rules.len() as int) + 2 * (1 - value as int), regs, ctx, fuel)
            == Some(value),
{
    let p = compiled(rules);
    let n = rules.len() as int;
    let pc = allow_index(n) + 2 * (1 - value as int);
    assert(p[pc] == insn(BPF_ALU32_MOV_IMM, 0, 0, 0, value as i32));
    assert(p[pc + 1] == insn(BPF_EXIT, 0, 0, 0, 0));
    lemma_cast_roundtrip(value);
    let r1 = regs.update(0, value);
    lemma_step(p, pc, regs, ctx, fuel, r1);
    lemma_exit(p, pc + 1, r1, ctx, (fuel - 1) as nat);
}

/// Running block `i` with the context in r2..r4 answers whether rule `i` or
/// a later one admits the access.
#[verifier::rlimit(50)]
proof fn lemma_block(rules: Seq<DeviceRule>, i: int, regs: Seq<u32>, ctx: Seq<u32>, fuel: nat)
    requires
        0 < rules.len() <= MAX_RULES,
        0 <= i < rules.len(),
        regs.len() == 11,
        ctx.len() == 3,
        regs[2] == ctx[0],
        regs[3] == ctx[1],
        regs[4] == ctx[2],
        fuel >= compiled(rules).len() - (3 + 10 * i),
    ensures
        run(compiled(rules), 3 + 10 * i, regs, ctx, fuel)
            == Some(if admitted_from(rules, i, ctx[0], ctx[1], ctx[2]) { 1u32 } else { 0u32 }),
    decreases rules.len() - i, 1int,
{
    let p = compiled(rules);
    let n = rules.len() as int;
    let rule = rules[i];
    let allow = allow_index(n);
    let deny = allow + 2;
    let s = 3 + 10 * i;
    let next = if i + 1 < n { s + 10 } else { deny };
    let a = ctx[0];
    let maj = ctx[1];
    let min = ctx[2];
    assert(p.len() == allow + 4);
    assert forall|k: int| 0 <= k < 10 implies p[s + k] == #[trigger] block_insn(rule, s, next, allow, k) by {
        assert((s + k - 3) / 10 == i);
        assert((s + k - 3) % 10 == k);
    }
    let f = fuel;
    let dis = disallowed_bits(rule);
    lemma_cast_roundtrip(dis);
    lemma_cast_roundtrip(0xffff);
    lemma_cast_roundtrip(16);
    lemma_cast_roundtrip(0);
    lemma_cast_roundtrip(rule.dev_type);
    lemma_cast_roundtrip(rule.major);
    lemma_cast_roundtrip(rule.minor);
    assert(block_insn(rule, s, next, allow, 1).imm as u32 == 0xffffu32);
    assert(block_insn(rule, s, next, allow, 5).imm as u32 == 16u32);
    // s+0..2: r6 = (access_type & 0xffff) & disallowed
    let r1 = regs.update(6, a);
    let r2 = r1.update(6, a & 0xffff);
    let r3 = r2.update(6, (a & 0xffff) & dis);
    lemma_step(p, s, regs, ctx, f, r1);
    lemma_step(p, s + 1, r1, ctx, (f - 1) as nat, r2);
    lemma_step(p, s + 2, r2, ctx, (f - 2) as nat, r3);
    assert(jump_off(s + 3, next) as int == next - s - 4);
    assert(jump_off(s + 6, next) as int == next - s - 7);
    assert(jump_off(s + 7, next) as int == next - s - 8);
    assert(jump_off(s + 8, next) as int == next - s - 9);
    assert(jump_off(s + 9, allow) as int == allow - s - 10);
    if (a & 0xffff) & dis != 0 {
        lemma_jump(p, s + 3, r3, ctx, (f - 3) as nat, next);
        lemma_next(rules, i, r3, ctx, (f - 4) as nat);
        return;
    }
    lemma_jump(p, s + 3, r3, ctx, (f - 3) as nat, s + 4);
    let r5 = r3.update(6, a);
    let r6 = r5.update(6, a >> 16u32);
    lemma_step(p, s + 4, r3, ctx, (f - 4) as nat, r5);
    lemma_step(p, s + 5, r5, ctx, (f - 5) as nat, r6);
    if a >> 16u32 != rule.dev_type {
        lemma_jump(p, s + 6, r6, ctx, (f - 6) as nat, next);
        lemma_next(rules, i, r6, ctx, (f - 7) as nat);
        return;
    }
    lemma_jump(p, s + 6, r6, ctx, (f - 6) as nat, s + 7);
    if maj != rule.major {
        lemma_jump(p, s + 7, r6, ctx, (f - 7) as nat, next);
        lemma_next(rules, i, r6, ctx, (f - 8) as nat);
        return;
    }
    lemma_jump(p, s + 7, r6, ctx, (f - 7) as nat, s + 8);
    if min != rule.minor {
        lemma_jump(p, s + 8, r6, ctx, (f - 8) as nat, next);
        lemma_next(rules, i, r6, ctx, (f - 9) as nat);
        return;
    }
    lemma_jump(p, s + 8, r6, ctx, (f - 8) as nat, s + 9);
    assert(rule_admits(rule, a, maj, min));
    assert(admitted_from(rules, i, a, maj, min));
    lemma_jump(p, s + 9, r6, ctx, (f - 9) as nat, allow);
    lemma_tail_insns(rules, r6, ctx, (f - 10) as nat, 1);
}

/// After rule `i` refused the access, control reaches block `i + 1` (or the
/// DENY epilogue after the last rule) with r2..r4 intact.
proof fn lemma_next(rules: Seq<DeviceRule>, i: int, regs: Seq<u32>, ctx: Seq<u32>, fuel: nat)
    requires
        0 < rules.len() <= MAX_RULES,
        0 <= i < rules.len(),
        regs.len() == 11,
        ctx.len() == 3,
        regs[2] == ctx[0],
        regs[3] == ctx[1],
        regs[4] == ctx[2],
        !rule_admits(rules[i], ctx[0], ctx[1], ctx[2]),
        fuel >= compiled(rules).len() - (3 + 10 * i) - 10,
    ensures
        run(compiled(rules), if i + 1 < rules.len() { 3 + 10 * (i + 1) } else { allow_index(rules.len() as int) + 2 },
            regs, ctx, fuel)
            == Some(if admitted_from(rules, i, ctx[0], ctx[1], ctx[2]) { 1u32 } else { 0u32 }),
    decreases rules.len() - i, 0int,
{
    let (a, maj, min) = (ctx[0], ctx[1], ctx[2]);
    assert(admitted_from(rules, i, a, maj, min) == admitted_from(rules, i + 1, a, maj, min)) by {
        if admitted_from(rules, i, a, maj, min) {
            let j = choose|j: int| i <= j < rules.len() && rule_admits(#[trigger] rules[j], a, maj, min);
            assert(j != i);
        }
    }
    if i + 1 < rules.len() {
        lemma_block(rules, i + 1, regs, ctx, fuel);
    } else {
        assert(!admitted_from(rules, i + 1, a, maj, min));
        lemma_tail_insns(rules, regs, ctx, fuel, 0);
    }
}

/// The compiled program is deny-by-default: it allows (answers 1) exactly
/// the accesses that some rule admits, and denies (answers 0) all others.
pub proof fn lemma_compiled_program_decides(rules: Seq<DeviceRule>, access_type: u32, major: u32, minor: u32)
    requires
        rules.len() <= MAX_RULES,
    ensures
        evaluate(compiled(rules), access_type, major, minor)
            == Some(if admitted(rules, access_type, major, minor) { 1u32 } else { 0u32 }),
{
    let p = compiled(rules);
    let ctx = seq![access_type, major, minor];
    let regs0 = Seq::new(11, |r: int| 0u32);
    if rules.len() == 0 {
        lemma_cast_roundtrip(0);
        let r1 = regs0.update(0, 0u32);
        lemma_step(p, 0, regs0, ctx, p.len(), r1);
        lemma_exit(p, 1, r1, ctx, 1);
        assert(!admitted(rules, access_type, major, minor));
    } else {
        let r1 = regs0.update(2, access_type);
        let r2 = r1.update(3, major);
        let r3 = r2.update(4, minor);
        assert(p[0] == prologue_insn(0));
        assert(p[1] == prologue_insn(1));
        assert(p[2] == prologue_insn(2));
        lemma_step(p, 0, regs0, ctx, p.len(), r1);
        lemma_step(p, 1, r1, ctx, (p.len() - 1) as nat, r2);
        lemma_step(p, 2, r2, ctx, (p.len() - 2) as nat, r3);
        lemma_block(rules, 0, r3, ctx, (p.len() - 3) as nat);
    }
}


// ---------------------------------------------------------------------------
// Kernel attribute blocks (`union bpf_attr`, 128 bytes, unused tail zeroed).

/// Zero-padded kernel attribute block as sixteen native-endian words.
pub struct AttrBlock(pub [u64; 16]);

/// The 32-bit field at byte `offset` of the block.
pub open spec fn field_u32(words: Seq<u64>, offset: int) -> u32 {
    ((words[offset / 8] >> (((offset % 8) * 8) as u64)) & 0xffff_ffff) as u32
}

/// `word` with the 32 bits at `shift` replaced by `value`.
pub open spec fn word_with_u32(word: u64, shift: u64, value: u32) -> u64 {
    (word & !(0xffff_ffffu64 << shift)) | ((value as u64) << shift)
}

proof fn lemma_word_with_u32(word: u64, shift: u64, value: u32)
    requires
        shift == 0 || shift == 32,
    ensures
        (word_with_u32(word, shift, value) >> shift) & 0xffff_ffff == value as u64,
        (word_with_u32(word, shift, value) >> (32 - shift) as u64) & 0xffff_ffff
            == (word >> (32 - shift) as u64) & 0xffff_ffff,
{
    let v = value as u64;
    assert(v < 0x1_0000_0000);
    assert(((((word & !(0xffff_ffffu64 << shift)) | (v << shift)) >> shift) & 0xffff_ffff == v) && ((((word
        & !(0xffff_ffffu64 << shift)) | (v << shift)) >> (32 - shift) as u64) & 0xffff_ffff == (word >> (32
        - shift) as u64) & 0xffff_ffff)) by (bit_vector)
        requires
            shift == 0 || shift == 32,
            v < 0x1_0000_0000,
    ;
}

impl AttrBlock {
    pub fn zeroed() -> (block: AttrBlock)
        ensures
            forall|w: int| 0 <= w < 16 ==> block.0[w] == 0,
    {
        AttrBlock([0u64; 16])
    }

    /// Store a 32-bit field at byte `offset` (native little-endian layout).
    pub fn write_u32(&mut self, offset: usize, value: u32)
        requires
            offset < 128,
        ensures
            final(self).0@ == old(self).0@.update(
                (offset / 8) as int,
                word_with_u32(old(self).0@[(offset / 8) as int], ((offset % 8) * 8) as u64, value),
            ),
            offset % 4 == 0 ==> field_u32(final(self).0@, offset as int) == value,
            offset % 8 == 0 ==> field_u32(final(self).0@, offset + 4) == field_u32(old(self).0@, offset + 4),
            offset % 8 == 4 ==> field_u32(final(self).0@, offset - 4) == field_u32(old(self).0@, offset - 4),
    {
        let index = offset / 8;
        let shift = ((offset % 8) * 8) as u64;
        let word = self.0[index];
        self.0[index] = (word & !(0xffff_ffffu64 << shift)) | ((value as u64) << shift);
        proof {
            if offset % 4 == 0 {
                lemma_word_with_u32(word, shift, value);
                assert(offset % 8 == 0 ==> shift == 0);
                assert(offset % 8 == 4 ==> shift == 32);
            }
        }
    }

    /// Store a 64-bit field at byte `offset`, which must be 8-aligned.
    pub fn write_u64(&mut self, offset: usize, value: u64)
        requires
            offset < 128,
        ensures
            final(self).0@ == old(self).0@.update((offset / 8) as int, value),
    {
        self.0[offset / 8] = value;
    }
}

/// `BPF_PROG_LOAD` and `BPF_PROG_ATTACH` command numbers.
pub const BPF_PROG_LOAD: i32 = 5;
pub const BPF_PROG_ATTACH: i32 = 8;
/// `BPF_PROG_TYPE_CGROUP_DEVICE` and `BPF_CGROUP_DEVICE`.
pub const BPF_PROG_TYPE_CGROUP_DEVICE: u32 = 15;
pub const BPF_CGROUP_DEVICE: u32 = 6;

/// Attributes of `BPF_PROG_LOAD` for a cgroup-device program of `insn_cnt`
/// instructions at address `insns`, under the license string at `license`.
pub fn prog_load_attr(insn_cnt: u32, insns: u64, license: u64) -> (attr: AttrBlock)
    ensures
        attr.0@ == Seq::new(16, |w: int| 0u64)
            .update(0, word_with_u32(word_with_u32(0, 0, BPF_PROG_TYPE_CGROUP_DEVICE), 32, insn_cnt))
            .update(1, insns)
            .update(2, license)
            .update(8, word_with_u32(0, 32, BPF_CGROUP_DEVICE)),
        field_u32(attr.0@, 0) == BPF_PROG_TYPE_CGROUP_DEVICE,
        field_u32(attr.0@, 4) == insn_cnt,
        attr.0@[1] == insns,
        attr.0@[2] == license,
        field_u32(attr.0@, 68) == BPF_CGROUP_DEVICE,
{
    let mut attr = AttrBlock::zeroed();
    attr.write_u32(0, BPF_PROG_TYPE_CGROUP_DEVICE);
    attr.write_u32(4, insn_cnt);
    attr.write_u64(8, insns);
    attr.write_u64(16, license);
    attr.write_u32(68, BPF_CGROUP_DEVICE);
    assert(attr.0@ =~= Seq::new(16, |w: int| 0u64)
        .update(0, word_with_u32(word_with_u32(0, 0, BPF_PROG_TYPE_CGROUP_DEVICE), 32, insn_cnt))
        .update(1, insns)
        .update(2, license)
        .update(8, word_with_u32(0, 32, BPF_CGROUP_DEVICE)));
    attr
}

/// The same load attributes, now also asking for the verifier log: level 1
/// into the buffer of `log_size` bytes at `log_buf`.
pub fn with_verifier_log(attr: &mut AttrBlock, log_size: u32, log_buf: u64)
    ensures
        final(attr).0@ == old(attr).0@
            .update(3, word_with_u32(word_with_u32(old(attr).0@[3], 0, 1), 32, log_size))
            .update(4, log_buf),
        field_u32(final(attr).0@, 24) == 1,
        field_u32(final(attr).0@, 28) == log_size,
        final(attr).0@[4] == log_buf,
{
    attr.write_u32(24, 1);
    attr.write_u32(28, log_size);
    attr.write_u64(32, log_buf);
    assert(final(attr).0@ =~= old(attr).0@
        .update(3, word_with_u32(word_with_u32(old(attr).0@[3], 0, 1), 32, log_size))
        .update(4, log_buf));
}

/// Attributes of `BPF_PROG_ATTACH` for program `prog_fd` on cgroup `target_fd`.
pub fn prog_attach_attr(target_fd: u32, prog_fd: u32) -> (attr: AttrBlock)
    ensures
        attr.0@ == Seq::new(16, |w: int| 0u64)
            .update(0, word_with_u32(word_with_u32(0, 0, target_fd), 32, prog_fd))
            .update(1, word_with_u32(0, 0, BPF_CGROUP_DEVICE)),
        field_u32(attr.0@, 0) == target_fd,
        field_u32(attr.0@, 4) == prog_fd,
        field_u32(attr.0@, 8) == BPF_CGROUP_DEVICE,
{
    let mut attr = AttrBlock::zeroed();
    attr.write_u32(0, target_fd);
    attr.write_u32(4, prog_fd);
    attr.write_u32(8, BPF_CGROUP_DEVICE);
    assert(attr.0@ =~= Seq::new(16, |w: int| 0u64)
        .update(0, word_with_u32(word_with_u32(0, 0, target_fd), 32, prog_fd))
        .update(1, word_with_u32(0, 0, BPF_CGROUP_DEVICE)));
    attr
}


// ---------------------------------------------------------------------------
// Device nodes and the rule list they become.

/// File-type bits of `st_mode` (Linux ABI).
pub const S_IFMT: u32 = 0o170000;
pub const S_IFCHR: u32 = 0o020000;
pub const S_IFBLK: u32 = 0o060000;

/// glibc's `major()` of a 64-bit device number, truncated to 32 bits.
pub open spec fn spec_major(dev: u64) -> u32 {
    (((dev >> 8u64) & 0xfff) | ((dev >> 32u64) & !0xfffu64)) as u32
}

/// glibc's `minor()` of a 64-bit device number, truncated to 32 bits.
pub open spec fn spec_minor(dev: u64) -> u32 {
    ((dev & 0xff) | ((dev >> 12u64) & !0xffu64)) as u32
}

/// A device node's (is character device, major, minor) from its `st_mode`
/// and `st_rdev`; None when the file is neither a character nor a block device.
pub fn classify_device_node(mode: u32, rdev: u64) -> (numbers: Option<(bool, u32, u32)>)
    ensures
        numbers == (if mode & S_IFMT == S_IFCHR || mode & S_IFMT == S_IFBLK {
            Some((mode & S_IFMT == S_IFCHR, spec_major(rdev), spec_minor(rdev)))
        } else {
            None
        }),
{
    let is_char = mode & S_IFMT == S_IFCHR;
    let is_block = mode & S_IFMT == S_IFBLK;
    if !is_char && !is_block {
        return None;
    }
    let major = ((rdev >> 8u64) & 0xfff) | ((rdev >> 32u64) & !0xfffu64);
    let minor = (rdev & 0xff) | ((rdev >> 12u64) & !0xffu64);
    Some((is_char, #[verifier::truncate] (major as u32), #[verifier::truncate] (minor as u32)))
}

/// Access every workload gets to the standard pseudo-devices.
pub const PSEUDO_DEVICE_ACCESS: u32 = 3;
/// Access to a claimed device: read, write and mknod.
pub const CLAIMED_DEVICE_ACCESS: u32 = 7;

/// One path of a claimed device, with what stat found there.
#[derive(Clone, Debug)]
pub struct ClaimedPath {
    /// The claimed device's stable id.
    pub device_id: String,
    /// Its primary node or one of its support paths.
    pub path: String,
    /// (is character device, major, minor), or None if no device node is there.
    pub numbers: Option<(bool, u32, u32)>,
}

/// The (type, major, minor) key of a device node.
pub open spec fn node_key(numbers: (bool, u32, u32)) -> (u32, u32, u32) {
    (if numbers.0 { DEVCG_DEV_CHAR } else { DEVCG_DEV_BLOCK }, numbers.1, numbers.2)
}

pub open spec fn rule_key(rule: DeviceRule) -> (u32, u32, u32) {
    (rule.dev_type, rule.major, rule.minor)
}

pub open spec fn has_key(rules: Seq<DeviceRule>, key: (u32, u32, u32)) -> bool {
    exists|j: int| 0 <= j < rules.len() && rule_key(#[trigger] rules[j]) == key
}

/// Add a rule for `key` unless one exists: the first grant for a node wins.
pub open spec fn add_rule(rules: Seq<DeviceRule>, key: (u32, u32, u32), access: u32) -> Seq<DeviceRule> {
    if has_key(rules, key) {
        rules
    } else {
        rules.push(DeviceRule { dev_type: key.0, major: key.1, minor: key.2, access })
    }
}

/// Rules for the pseudo-devices that exist, in order.
pub open spec fn pseudo_rules(pseudo: Seq<Option<(bool, u32, u32)>>) -> Seq<DeviceRule>
    decreases pseudo.len(),
{
    if pseudo.len() == 0 {
        Seq::empty()
    } else {
        let prev = pseudo_rules(pseudo.drop_last());
        match pseudo.last() {
            Some(numbers) => add_rule(prev, node_key(numbers), PSEUDO_DEVICE_ACCESS),
            None => prev,
        }
    }
}

/// The refusal for a claimed path that is not a device node.
pub open spec fn unreachable_message(claim: ClaimedPath) -> Seq<char> {
    "device "@ + claim.device_id@ + " ("@ + claim.path@ + ") is not reachable or not a device node"@
}

/// The claimed paths, in order, added to `base`; the first unusable path refuses.
pub open spec fn claimed_rules(base: Seq<DeviceRule>, claimed: Seq<ClaimedPath>) -> Result<Seq<DeviceRule>, Seq<char>>
    decreases claimed.len(),
{
    if claimed.len() == 0 {
        Ok(base)
    } else {
        match claimed_rules(base, claimed.drop_last()) {
            Err(message) => Err(message),
            Ok(rules) => match claimed.last().numbers {
                None => Err(unreachable_message(claimed.last())),
                Some(numbers) => Ok(add_rule(rules, node_key(numbers), CLAIMED_DEVICE_ACCESS)),
            },
        }
    }
}

/// The rule list for a lease: its existing standard pseudo-devices with read
/// and write, then every path of every claimed device with full access.
pub open spec fn device_rules_spec(pseudo: Seq<Option<(bool, u32, u32)>>, claimed: Seq<ClaimedPath>) -> Result<Seq<DeviceRule>, Seq<char>> {
    claimed_rules(pseudo_rules(pseudo), claimed)
}

/// No two rules cover the same device node.
pub open spec fn keys_distinct(rules: Seq<DeviceRule>) -> bool {
    forall|i: int, j: int| 0 <= i < j < rules.len() ==> rule_key(#[trigger] rules[i]) != rule_key(#[trigger] rules[j])
}

fn find_key(rules: &Vec<DeviceRule>, key: (u32, u32, u32)) -> (found: bool)
    ensures
        found == has_key(rules@, key),
{
    let mut j: usize = 0;
    while j < rules.len()
        invariant
            j <= rules@.len(),
            forall|k: int| 0 <= k < j ==> rule_key(#[trigger] rules@[k]) != key,
        decreases rules@.len() - j,
    {
        let r = rules[j];
        if r.dev_type == key.0 && r.major == key.1 && r.minor == key.2 {
            return true;
        }
        j = j + 1;
    }
    false
}

fn push_rule(rules: &mut Vec<DeviceRule>, key: (u32, u32, u32), access: u32)
    requires
        keys_distinct(old(rules)@),
    ensures
        final(rules)@ == add_rule(old(rules)@, key, access),
        keys_distinct(final(rules)@),
        has_key(final(rules)@, key),
        forall|k: (u32, u32, u32)| has_key(old(rules)@, k) ==> has_key(final(rules)@, k),
{
    if !find_key(rules, key) {
        rules.push(DeviceRule { dev_type: key.0, major: key.1, minor: key.2, access });
        let ghost last = rules@.len() - 1;
        assert(rule_key(rules@[last]) == key);
        assert forall|k: (u32, u32, u32)| has_key(old(rules)@, k) implies has_key(final(rules)@, k) by {
            let j = choose|j: int| 0 <= j < old(rules)@.len() && rule_key(#[trigger] old(rules)@[j]) == k;
            assert(rules@[j] == old(rules)@[j]);
        }
    }
}

/// The device rules of one lease (see `device_rules_spec`). Every existing
/// standard pseudo-device and every claimed path gets exactly one rule.
pub fn device_rules(pseudo: &[Option<(bool, u32, u32)>], claimed: &[ClaimedPath]) -> (result: Result<Vec<DeviceRule>, String>)
    ensures
        match result {
            Ok(rules) => device_rules_spec(pseudo@, claimed@) == Ok::<Seq<DeviceRule>, Seq<char>>(rules@),
            Err(message) => device_rules_spec(pseudo@, claimed@) == Err::<Seq<DeviceRule>, Seq<char>>(message@),
        },
        result is Ok <==> forall|i: int| 0 <= i < claimed@.len() ==> (#[trigger] claimed@[i]).numbers is Some,
        result matches Ok(rules) ==> keys_distinct(rules@),
        result matches Ok(rules) ==> forall|i: int| 0 <= i < claimed@.len()
            ==> has_key(rules@, node_key((#[trigger] claimed@[i]).numbers->0)),
        result matches Ok(rules) ==> forall|i: int| 0 <= i < pseudo@.len() && (#[trigger] pseudo@[i]) is Some
            ==> has_key(rules@, node_key(pseudo@[i]->0)),
{
    let mut rules: Vec<DeviceRule> = Vec::new();
    let mut i: usize = 0;
    while i < pseudo.len()
        invariant
            i <= pseudo@.len(),
            rules@ == pseudo_rules(pseudo@.take(i as int)),
            keys_distinct(rules@),
            forall|j: int| 0 <= j < i && (#[trigger] pseudo@[j]) is Some ==> has_key(rules@, node_key(pseudo@[j]->0)),
        decreases pseudo@.len() - i,
    {
        assert(pseudo@.take(i + 1).drop_last() =~= pseudo@.take(i as int));
        if let Some(numbers) = pseudo[i] {
            let key = (if numbers.0 { DEVCG_DEV_CHAR } else { DEVCG_DEV_BLOCK }, numbers.1, numbers.2);
            push_rule(&mut rules, key, PSEUDO_DEVICE_ACCESS);
        }
        i = i + 1;
    }
    assert(pseudo@.take(pseudo@.len() as int) =~= pseudo@);
    let ghost base = rules@;
    let mut c: usize = 0;
    while c < claimed.len()
        invariant
            c <= claimed@.len(),
            base == pseudo_rules(pseudo@),
            claimed_rules(base, claimed@.take(c as int)) == Ok::<Seq<DeviceRule>, Seq<char>>(rules@),
            keys_distinct(rules@),
            forall|j: int| 0 <= j < c ==> (#[trigger] claimed@[j]).numbers is Some,
            forall|j: int| 0 <= j < c ==> has_key(rules@, node_key((#[trigger] claimed@[j]).numbers->0)),
            forall|j: int| 0 <= j < pseudo@.len() && (#[trigger] pseudo@[j]) is Some ==> has_key(rules@, node_key(pseudo@[j]->0)),
        decreases claimed@.len() - c,
    {
        assert(claimed@.take(c + 1).drop_last() =~= claimed@.take(c as int));
        let claim = &claimed[c];
        match claim.numbers {
            None => {
                let message = String::from_str("device ")
                    .concat(claim.device_id.as_str())
                    .concat(" (")
                    .concat(claim.path.as_str())
                    .concat(") is not reachable or not a device node");
                proof {
                    lemma_claimed_error_sticks(base, claimed@, c as int);
                }
                return Err(message);
            },
            Some(numbers) => {
                let key = (if numbers.0 { DEVCG_DEV_CHAR } else { DEVCG_DEV_BLOCK }, numbers.1, numbers.2);
                push_rule(&mut rules, key, CLAIMED_DEVICE_ACCESS);
            },
        }
        c = c + 1;
    }
    assert(claimed@.take(claimed@.len() as int) =~= claimed@);
    Ok(rules)
}

/// Once a prefix of the claimed paths refuses, every longer prefix refuses
/// with the same message.
proof fn lemma_claimed_error_sticks(base: Seq<DeviceRule>, claimed: Seq<ClaimedPath>, c: int)
    requires
        0 <= c < claimed.len(),
        claimed[c].numbers is None,
        claimed_rules(base, claimed.take(c)) is Ok,
    ensures
        claimed_rules(base, claimed) == Err::<Seq<DeviceRule>, Seq<char>>(unreachable_message(claimed[c])),
    decreases claimed.len() - c,
{
    lemma_claimed_error_extends(base, claimed, c + 1);
    assert(claimed.take(c + 1).drop_last() =~= claimed.take(c));
    assert(claimed.take(claimed.len() as int) =~= claimed);
}

proof fn lemma_claimed_error_extends(base: Seq<DeviceRule>, claimed: Seq<ClaimedPath>, k: int)
    requires
        0 < k <= claimed.len(),
    ensures
        claimed_rules(base, claimed.take(k)) is Err ==> claimed_rules(base, claimed) == claimed_rules(base, claimed.take(k)),
    decreases claimed.len() - k,
{
    if k < claimed.len() {
        lemma_claimed_error_extends(base, claimed, k + 1);
        assert(claimed.take(k + 1).drop_last() =~= claimed.take(k));
    } else {
        assert(claimed.take(k) =~= claimed);
    }
}

/// The filter program that enforces one lease's devices: read and write on
/// the standard pseudo-devices that exist, full access to every path of
/// every claimed device, and nothing else. A claimed path that is not a
/// device node refuses the whole lease. The program allows exactly the
/// accesses its rules admit. Jump offsets are 16 bits wide, so a lease has
/// at most `MAX_RULES` distinct device rules.
pub fn enforce_devices(pseudo: &[Option<(bool, u32, u32)>], claimed: &[ClaimedPath]) -> (r: Result<Vec<Insn>, String>)
    requires
        device_rules_spec(pseudo@, claimed@) matches Ok(rules) ==> rules.len() <= MAX_RULES,
    ensures
        match r {
            Ok(prog) => device_rules_spec(pseudo@, claimed@) matches Ok(rules) && prog@ == compiled(rules),
            Err(message) => device_rules_spec(pseudo@, claimed@) == Err::<Seq<DeviceRule>, Seq<char>>(message@),
        },
        r is Ok <==> forall|i: int| 0 <= i < claimed@.len() ==> (#[trigger] claimed@[i]).numbers is Some,
        r matches Ok(prog) ==> forall|access_type: u32, major: u32, minor: u32|
            #[trigger] evaluate(prog@, access_type, major, minor) == Some(
                if admitted(device_rules_spec(pseudo@, claimed@)->Ok_0, access_type, major, minor) { 1u32 } else { 0u32 },
            ),
{
    let rules = device_rules(pseudo, claimed)?;
    let prog = compile(rules.as_slice());
    proof {
        assert forall|access_type: u32, major: u32, minor: u32|
            #[trigger] evaluate(prog@, access_type, major, minor) == Some(
                if admitted(rules@, access_type, major, minor) { 1u32 } else { 0u32 },
            ) by {
            lemma_compiled_program_decides(rules@, access_type, major, minor);
        }
    }
    Ok(prog)
}

// ---------------------------------------------------------------------------
// The access policy a lease's filter enforces.

/// `key` is the node of an existing standard pseudo-device.
pub open spec fn is_pseudo_key(pseudo: Seq<Option<(bool, u32, u32)>>, key: (u32, u32, u32)) -> bool {
    exists|i: int| 0 <= i < pseudo.len() && (#[trigger] pseudo[i]) is Some && node_key(pseudo[i]->0) == key
}

/// `key` is the node of a claimed path.
pub open spec fn is_claimed_key(claimed: Seq<ClaimedPath>, key: (u32, u32, u32)) -> bool {
    exists|i: int| 0 <= i < claimed.len() && (#[trigger] claimed[i]).numbers is Some && node_key(claimed[i].numbers->0) == key
}

proof fn lemma_pseudo_rules_shape(pseudo: Seq<Option<(bool, u32, u32)>>)
    ensures
        keys_distinct(pseudo_rules(pseudo)),
        forall|j: int| 0 <= j < pseudo_rules(pseudo).len() ==> (#[trigger] pseudo_rules(pseudo)[j]).access == PSEUDO_DEVICE_ACCESS
            && is_pseudo_key(pseudo, rule_key(pseudo_rules(pseudo)[j])),
        forall|key: (u32, u32, u32)| is_pseudo_key(pseudo, key) ==> #[trigger] has_key(pseudo_rules(pseudo), key),
    decreases pseudo.len(),
{
    if pseudo.len() > 0 {
        let prev_p = pseudo.drop_last();
        lemma_pseudo_rules_shape(prev_p);
        let prev = pseudo_rules(prev_p);
        let rules = pseudo_rules(pseudo);
        assert forall|key: (u32, u32, u32)| is_pseudo_key(prev_p, key) implies is_pseudo_key(pseudo, key) by {
            let i = choose|i: int| 0 <= i < prev_p.len() && (#[trigger] prev_p[i]) is Some && node_key(prev_p[i]->0) == key;
            assert(pseudo[i] == prev_p[i]);
        }
        match pseudo.last() {
            Some(numbers) => {
                let key = node_key(numbers);
                assert(is_pseudo_key(pseudo, key)) by {
                    assert(pseudo[pseudo.len() - 1] == Some(numbers));
                }
                if !has_key(prev, key) {
                    assert forall|a: int, b: int| 0 <= a < b < rules.len() implies rule_key(#[trigger] rules[a]) != rule_key(#[trigger] rules[b]) by {
                        if b == rules.len() - 1 {
                            assert(rules[a] == prev[a]);
                        } else {
                            assert(rules[a] == prev[a] && rules[b] == prev[b]);
                        }
                    }
                    assert forall|k: (u32, u32, u32)| is_pseudo_key(pseudo, k) implies #[trigger] has_key(rules, k) by {
                        let i = choose|i: int| 0 <= i < pseudo.len() && (#[trigger] pseudo[i]) is Some && node_key(pseudo[i]->0) == k;
                        if i < pseudo.len() - 1 {
                            assert(prev_p[i] == pseudo[i]);
                            assert(is_pseudo_key(prev_p, k));
                            assert(has_key(prev, k));
                            let j = choose|j: int| 0 <= j < prev.len() && rule_key(#[trigger] prev[j]) == k;
                            assert(rules[j] == prev[j]);
                        } else {
                            assert(rule_key(rules[rules.len() - 1]) == k);
                        }
                    }
                } else {
                    assert forall|k: (u32, u32, u32)| is_pseudo_key(pseudo, k) implies #[trigger] has_key(rules, k) by {
                        let i = choose|i: int| 0 <= i < pseudo.len() && (#[trigger] pseudo[i]) is Some && node_key(pseudo[i]->0) == k;
                        if i < pseudo.len() - 1 {
                            assert(prev_p[i] == pseudo[i]);
                            assert(is_pseudo_key(prev_p, k));
                        }
                    }
                }
            },
            None => {
                assert forall|k: (u32, u32, u32)| is_pseudo_key(pseudo, k) implies #[trigger] has_key(rules, k) by {
                    let i = choose|i: int| 0 <= i < pseudo.len() && (#[trigger] pseudo[i]) is Some && node_key(pseudo[i]->0) == k;
                    assert(i < pseudo.len() - 1);
                    assert(prev_p[i] == pseudo[i]);
                    assert(is_pseudo_key(prev_p, k));
                }
            },
        }
    }
}

proof fn lemma_claimed_rules_shape(base: Seq<DeviceRule>, claimed: Seq<ClaimedPath>)
    requires
        keys_distinct(base),
    ensures
        claimed_rules(base, claimed) matches Ok(rules) ==> {
            &&& keys_distinct(rules)
            &&& base.len() <= rules.len()
            &&& forall|j: int| 0 <= j < base.len() ==> rules[j] == base[j]
            &&& forall|j: int| base.len() <= j < rules.len() ==> (#[trigger] rules[j]).access == CLAIMED_DEVICE_ACCESS
                && is_claimed_key(claimed, rule_key(rules[j])) && !has_key(base, rule_key(rules[j]))
            &&& forall|key: (u32, u32, u32)| is_claimed_key(claimed, key) ==> #[trigger] has_key(rules, key)
        },
    decreases claimed.len(),
{
    if claimed.len() > 0 {
        let prev_c = claimed.drop_last();
        lemma_claimed_rules_shape(base, prev_c);
        match claimed_rules(base, prev_c) {
            Err(_) => {},
            Ok(prev) => {
                assert forall|key: (u32, u32, u32)| is_claimed_key(prev_c, key) implies is_claimed_key(claimed, key) by {
                    let i = choose|i: int| 0 <= i < prev_c.len() && (#[trigger] prev_c[i]).numbers is Some && node_key(prev_c[i].numbers->0) == key;
                    assert(claimed[i] == prev_c[i]);
                }
                match claimed.last().numbers {
                    None => {},
                    Some(numbers) => {
                        let key = node_key(numbers);
                        let rules = add_rule(prev, key, CLAIMED_DEVICE_ACCESS);
                        assert(is_claimed_key(claimed, key)) by {
                            assert(claimed[claimed.len() - 1] == claimed.last());
                        }
                        if !has_key(prev, key) {
                            assert forall|a: int, b: int| 0 <= a < b < rules.len() implies rule_key(#[trigger] rules[a]) != rule_key(#[trigger] rules[b]) by {
                                if b == rules.len() - 1 {
                                    assert(rules[a] == prev[a]);
                                } else {
                                    assert(rules[a] == prev[a] && rules[b] == prev[b]);
                                }
                            }
                            assert(!has_key(base, key)) by {
                                if has_key(base, key) {
                                    let j = choose|j: int| 0 <= j < base.len() && rule_key(#[trigger] base[j]) == key;
                                    assert(prev[j] == base[j]);
                                }
                            }
                            assert forall|j: int| base.len() <= j < rules.len() implies (#[trigger] rules[j]).access == CLAIMED_DEVICE_ACCESS
                                && is_claimed_key(claimed, rule_key(rules[j])) && !has_key(base, rule_key(rules[j])) by {
                                if j < prev.len() {
                                    assert(rules[j] == prev[j]);
                                }
                            }
                            assert forall|k: (u32, u32, u32)| is_claimed_key(claimed, k) implies #[trigger] has_key(rules, k) by {
                                let i = choose|i: int| 0 <= i < claimed.len() && (#[trigger] claimed[i]).numbers is Some && node_key(claimed[i].numbers->0) == k;
                                if i < claimed.len() - 1 {
                                    assert(prev_c[i] == claimed[i]);
                                    assert(is_claimed_key(prev_c, k));
                                    assert(has_key(prev, k));
                                    let j = choose|j: int| 0 <= j < prev.len() && rule_key(#[trigger] prev[j]) == k;
                                    assert(rules[j] == prev[j]);
                                } else {
                                    assert(rule_key(rules[rules.len() - 1]) == k);
                                }
                            }
                        } else {
                            assert forall|k: (u32, u32, u32)| is_claimed_key(claimed, k) implies #[trigger] has_key(rules, k) by {
                                let i = choose|i: int| 0 <= i < claimed.len() && (#[trigger] claimed[i]).numbers is Some && node_key(claimed[i].numbers->0) == k;
                                if i < claimed.len() - 1 {
                                    assert(prev_c[i] == claimed[i]);
                                    assert(is_claimed_key(prev_c, k));
                                    assert(has_key(prev, k));
                                }
                            }
                        }
                    },
                }
            },
        }
    }
}

/// The access a lease's devices get: a node that is neither a standard
/// pseudo-device nor a claimed path is denied everything; a pseudo-device
/// allows exactly read and write; a claimed node that is no pseudo-device
/// allows exactly read, write and mknod. `access_type` carries the device
/// type above bit 16 and the requested access bits below.
pub proof fn lemma_device_policy(
    pseudo: Seq<Option<(bool, u32, u32)>>,
    claimed: Seq<ClaimedPath>,
    access_type: u32,
    major: u32,
    minor: u32,
)
    requires
        device_rules_spec(pseudo, claimed) is Ok,
    ensures
        ({
            let rules = device_rules_spec(pseudo, claimed)->Ok_0;
            let key = (access_type >> 16, major, minor);
            let requested = access_type & 0xffff;
            &&& !is_pseudo_key(pseudo, key) && !is_claimed_key(claimed, key) ==> !admitted(rules, access_type, major, minor)
            &&& is_pseudo_key(pseudo, key) ==> (admitted(rules, access_type, major, minor) <==> requested & !PSEUDO_DEVICE_ACCESS == 0)
            &&& !is_pseudo_key(pseudo, key) && is_claimed_key(claimed, key)
                ==> (admitted(rules, access_type, major, minor) <==> requested & !CLAIMED_DEVICE_ACCESS == 0)
        }),
{
    let base = pseudo_rules(pseudo);
    lemma_pseudo_rules_shape(pseudo);
    lemma_claimed_rules_shape(base, claimed);
    let rules = device_rules_spec(pseudo, claimed)->Ok_0;
    let key = (access_type >> 16, major, minor);
    let requested = access_type & 0xffff;
    assert((1u32 | 2u32 | 4u32) == 7u32) by (bit_vector);
    assert(!(3u32 & 7u32) == !3u32) by (bit_vector);
    assert(!(7u32 & 7u32) == !7u32) by (bit_vector);
    assert(DEVCG_ACC_READ | DEVCG_ACC_WRITE | DEVCG_ACC_MKNOD == 7u32);
    assert forall|r: DeviceRule| r.access == PSEUDO_DEVICE_ACCESS implies #[trigger] disallowed_bits(r) == !PSEUDO_DEVICE_ACCESS by {}
    assert forall|r: DeviceRule| r.access == CLAIMED_DEVICE_ACCESS implies #[trigger] disallowed_bits(r) == !CLAIMED_DEVICE_ACCESS by {}
    // The rule that admits an access carries the access's key.
    assert forall|j: int| 0 <= j < rules.len() && rule_admits(#[trigger] rules[j], access_type, major, minor) implies rule_key(rules[j]) == key by {}
    // A key's rule, where one exists, and its access.
    assert forall|j: int| 0 <= j < rules.len() && rule_key(#[trigger] rules[j]) == key implies
        (if j < base.len() { is_pseudo_key(pseudo, key) && rules[j].access == PSEUDO_DEVICE_ACCESS }
         else { is_claimed_key(claimed, key) && !has_key(base, key) && rules[j].access == CLAIMED_DEVICE_ACCESS }) by {
        if j < base.len() {
            assert(rules[j] == base[j]);
        }
    }
    if is_pseudo_key(pseudo, key) {
        assert(has_key(base, key));
        let b = choose|b: int| 0 <= b < base.len() && rule_key(#[trigger] base[b]) == key;
        assert(rules[b] == base[b]);
        assert(rules[b].access == PSEUDO_DEVICE_ACCESS);
        if requested & !PSEUDO_DEVICE_ACCESS == 0 {
            assert(rule_admits(rules[b], access_type, major, minor));
        }
        if admitted(rules, access_type, major, minor) {
            let j = choose|j: int| 0 <= j < rules.len() && rule_admits(#[trigger] rules[j], access_type, major, minor);
            assert(rule_key(rules[j]) == key);
            if j != b {
                assert(rule_key(rules[j]) == rule_key(rules[b]));
                assert(false);
            }
        }
    } else if is_claimed_key(claimed, key) {
        assert(has_key(rules, key));
        let c = choose|c: int| 0 <= c < rules.len() && rule_key(#[trigger] rules[c]) == key;
        assert(rules[c].access == CLAIMED_DEVICE_ACCESS);
        if requested & !CLAIMED_DEVICE_ACCESS == 0 {
            assert(rule_admits(rules[c], access_type, major, minor));
        }
        if admitted(rules, access_type, major, minor) {
            let j = choose|j: int| 0 <= j < rules.len() && rule_admits(#[trigger] rules[j], access_type, major, minor);
            assert(rule_key(rules[j]) == key);
            if j != c {
                assert(false);
            }
        }
    } else {
        if admitted(rules, access_type, major, minor) {
            let j = choose|j: int| 0 <= j < rules.len() && rule_admits(#[trigger] rules[j], access_type, major, minor);
            assert(rule_key(rules[j]) == key);
        }
    }
}

} // verus!
