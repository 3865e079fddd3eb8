//! Constant folding: a binary or unary instruction whose operands hold known
//! constants becomes a constant, and a branch on a known boolean becomes a jump.
use std::collections::HashMap;
use vstd::arithmetic::power::pow;
use vstd::prelude::*;
use vstd::wrapping::i64_specs;

use crate::instruction::{BinaryOp, Constant, InstView, Instruction, TypeView, UnaryOp, VarId, insts_view};
use crate::opt::stats::OptStats;
use crate::program::{BasicBlock, BlockView, Function, FunctionView, Module, blocks_view, functions_view};

verus! {

broadcast use vstd::std_specs::hash::group_hash_axioms;

/// Rust's truncating quotient `a / b` (for `b != 0`).
pub open spec fn trunc_quot(a: int, b: int) -> int {
    if a == 0 {
        0
    } else if a > 0 && b > 0 {
        a / b
    } else if a < 0 && b < 0 {
        (a * -1) / (b * -1)
    } else if a < 0 {
        ((a * -1) / b) * -1
    } else {
        (a / (b * -1)) * -1
    }
}

/// Rust's remainder `a % b`, with the sign of `a` (for `b != 0`).
pub open spec fn trunc_rem(a: int, b: int) -> int {
    if a == 0 {
        0
    } else if a > 0 && b > 0 {
        a % b
    } else if a < 0 && b < 0 {
        ((a * -1) % (b * -1)) * -1
    } else if a < 0 {
        ((a * -1) % b) * -1
    } else {
        a % (b * -1)
    }
}

/// `base` to the power `exp`, wrapped into the range of `i64`.
pub open spec fn wrapping_pow_spec(base: i64, exp: u32) -> i64 {
    i64_specs::signed_crop(pow(base as int, exp as nat))
}

/// The bit of an IEEE-754 double that holds its sign.
pub open spec fn float_sign_bit() -> u64 {
    0x8000_0000_0000_0000u64
}

/// The value of a binary operation on two constants, where the library folds
/// it; `None` where it leaves the instruction as it is. Operations on two
/// floating-point constants are not folded here.
pub open spec fn fold_binary_spec(op: BinaryOp, l: Constant, r: Constant) -> Option<Constant> {
    match (l, r) {
        (Constant::Int(a), Constant::Int(b)) => match op {
            BinaryOp::Add => Some(Constant::Int(i64_specs::wrapping_add(a, b))),
            BinaryOp::Sub => Some(Constant::Int(i64_specs::wrapping_sub(a, b))),
            BinaryOp::Mul => Some(Constant::Int(i64_specs::wrapping_mul(a, b))),
            BinaryOp::Div => if b != 0 {
                Some(Constant::Int(trunc_quot(a as int, b as int) as i64))
            } else {
                None
            },
            BinaryOp::Mod => if b != 0 {
                Some(Constant::Int(trunc_rem(a as int, b as int) as i64))
            } else {
                None
            },
            BinaryOp::Pow => if b >= 0 {
                Some(Constant::Int(wrapping_pow_spec(a, b as u32)))
            } else {
                None
            },
            BinaryOp::Eq => Some(Constant::Bool(a == b)),
            BinaryOp::Ne => Some(Constant::Bool(a != b)),
            BinaryOp::Lt => Some(Constant::Bool(a < b)),
            BinaryOp::Le => Some(Constant::Bool(a <= b)),
            BinaryOp::Gt => Some(Constant::Bool(a > b)),
            BinaryOp::Ge => Some(Constant::Bool(a >= b)),
            BinaryOp::BitAnd => Some(Constant::Int(a & b)),
            BinaryOp::BitOr => Some(Constant::Int(a | b)),
            BinaryOp::BitXor => Some(Constant::Int(a ^ b)),
            BinaryOp::Shl => Some(Constant::Int(i64_specs::wrapping_shl(a, b as u32))),
            BinaryOp::Shr => Some(Constant::Int(i64_specs::wrapping_shr(a, b as u32))),
            _ => None,
        },
        (Constant::Bool(a), Constant::Bool(b)) => match op {
            BinaryOp::And => Some(Constant::Bool(a && b)),
            BinaryOp::Or => Some(Constant::Bool(a || b)),
            BinaryOp::Eq => Some(Constant::Bool(a == b)),
            BinaryOp::Ne => Some(Constant::Bool(a != b)),
            _ => None,
        },
        _ => None,
    }
}

/// Folding this operation would overflow, which the language reports by a
/// panic: the quotient or remainder of `i64::MIN` by `-1`.
pub open spec fn fold_binary_overflows(op: BinaryOp, l: Constant, r: Constant) -> bool {
    match (l, r) {
        (Constant::Int(a), Constant::Int(b)) => (op == BinaryOp::Div || op == BinaryOp::Mod) && a
            == i64::MIN && b == -1,
        _ => false,
    }
}

/// The value of a unary operation on a constant, where the library folds
/// it. Integer negation wraps: the negation of `i64::MIN` is `i64::MIN`.
pub open spec fn fold_unary_spec(op: UnaryOp, c: Constant) -> Option<Constant> {
    match (op, c) {
        (UnaryOp::Neg, Constant::Int(i)) => Some(
            Constant::Int(
                if i == i64::MIN {
                    i64::MIN
                } else {
                    (-i) as i64
                },
            ),
        ),
        (UnaryOp::Neg, Constant::Float(bits)) => Some(Constant::Float(bits ^ float_sign_bit())),
        (UnaryOp::Not, Constant::Bool(b)) => Some(Constant::Bool(!b)),
        (UnaryOp::BitNot, Constant::Int(i)) => Some(Constant::Int(!i)),
        _ => None,
    }
}

/// One step of folding: the instruction that replaces `i`, the constants
/// known after it, and whether it was folded.
pub open spec fn fold_inst(i: InstView, env: Map<u32, Constant>) -> (InstView, Map<u32, Constant>, bool) {
    match i {
        InstView::Const { dest, value, .. } => (i, env.insert(dest.0, value), false),
        InstView::Binary { dest, op, left, right, ty } => {
            if env.contains_key(left.0) && env.contains_key(right.0) && fold_binary_spec(
                op,
                env[left.0],
                env[right.0],
            ) is Some {
                let v = fold_binary_spec(op, env[left.0], env[right.0]).unwrap();
                (InstView::Const { dest, value: v, ty }, env.insert(dest.0, v), true)
            } else {
                (i, env, false)
            }
        },
        InstView::Unary { dest, op, operand, ty } => {
            if env.contains_key(operand.0) && fold_unary_spec(op, env[operand.0]) is Some {
                let v = fold_unary_spec(op, env[operand.0]).unwrap();
                (InstView::Const { dest, value: v, ty }, env.insert(dest.0, v), true)
            } else {
                (i, env, false)
            }
        },
        InstView::Branch { cond, then_block, else_block } => {
            if env.contains_key(cond.0) && env[cond.0] is Bool {
                let target = if env[cond.0]->Bool_0 {
                    then_block
                } else {
                    else_block
                };
                (InstView::Jump { target }, env, true)
            } else {
                (i, env, false)
            }
        },
        _ => (i, env, false),
    }
}

/// Folding `i` with the constants `env` would overflow.
pub open spec fn fold_inst_overflows(i: InstView, env: Map<u32, Constant>) -> bool {
    match i {
        InstView::Binary { op, left, right, .. } => env.contains_key(left.0) && env.contains_key(
            right.0,
        ) && fold_binary_overflows(op, env[left.0], env[right.0]),
        _ => false,
    }
}

/// Folding a sequence of instructions in order: the new instructions, the
/// constants known at the end, and the number of instructions folded.
pub open spec fn fold_insts(s: Seq<InstView>, env: Map<u32, Constant>) -> (Seq<InstView>, Map<u32, Constant>, nat)
    decreases s.len(),
{
    if s.len() == 0 {
        (s, env, 0)
    } else {
        let (pre, e1, n1) = fold_insts(s.drop_last(), env);
        let (i2, e2, f) = fold_inst(s.last(), e1);
        (pre.push(i2), e2, if f {
            n1 + 1
        } else {
            n1
        })
    }
}

/// No step of folding the sequence overflows.
pub open spec fn fold_insts_ok(s: Seq<InstView>, env: Map<u32, Constant>) -> bool
    decreases s.len(),
{
    s.len() == 0 || (fold_insts_ok(s.drop_last(), env) && !fold_inst_overflows(
        s.last(),
        fold_insts(s.drop_last(), env).1,
    ))
}

/// Folding the blocks of a function in order, the known constants carried
/// from each block to the next.
pub open spec fn fold_blocks(bs: Seq<BlockView>, env: Map<u32, Constant>) -> (Seq<BlockView>, Map<u32, Constant>, nat)
    decreases bs.len(),
{
    if bs.len() == 0 {
        (bs, env, 0)
    } else {
        let (pre, e1, n1) = fold_blocks(bs.drop_last(), env);
        let b = bs.last();
        let (insts, e2, n2) = fold_insts(b.instructions, e1);
        (pre.push(BlockView { instructions: insts, ..b }), e2, n1 + n2)
    }
}

/// No step of folding the blocks overflows.
pub open spec fn fold_blocks_ok(bs: Seq<BlockView>, env: Map<u32, Constant>) -> bool
    decreases bs.len(),
{
    bs.len() == 0 || (fold_blocks_ok(bs.drop_last(), env) && fold_insts_ok(
        bs.last().instructions,
        fold_blocks(bs.drop_last(), env).1,
    ))
}

/// A function after folding, each function starting with no known constant.
pub open spec fn fold_function(f: FunctionView) -> FunctionView {
    FunctionView { blocks: fold_blocks(f.blocks, Map::empty()).0, ..f }
}

/// The number of instructions folded in a function.
pub open spec fn fold_function_count(f: FunctionView) -> nat {
    fold_blocks(f.blocks, Map::empty()).2
}

/// Folding the function overflows nowhere.
pub open spec fn fold_function_ok(f: FunctionView) -> bool {
    fold_blocks_ok(f.blocks, Map::empty())
}

/// The number of instructions folded over a list of functions.
pub open spec fn fold_count(fs: Seq<FunctionView>) -> nat
    decreases fs.len(),
{
    if fs.len() == 0 {
        0
    } else {
        fold_count(fs.drop_last()) + fold_function_count(fs.last())
    }
}

/// Folding overflows in none of the functions.
pub open spec fn fold_ok(fs: Seq<FunctionView>) -> bool {
    forall|i: int| 0 <= i < fs.len() ==> #[trigger] fold_function_ok(fs[i])
}

/// Away from `i64::MIN / -1`, the truncating quotient and remainder of two
/// `i64` values are `i64` values.
proof fn lemma_trunc_in_range(a: i64, b: i64)
    requires
        b != 0,
        !(a == i64::MIN && b == -1),
    ensures
        i64::MIN <= trunc_quot(a as int, b as int) <= i64::MAX,
        i64::MIN <= trunc_rem(a as int, b as int) <= i64::MAX,
{
    let x = a as int;
    let d = b as int;
    if x > 0 && d > 0 {
        assert(0 <= x / d <= x) by (nonlinear_arith)
            requires
                x > 0,
                d > 0,
        ;
        assert(0 <= x % d < d) by (nonlinear_arith)
            requires
                d > 0,
        ;
    } else if x < 0 && d < 0 {
        let nx = x * -1;
        let nd = d * -1;
        assert(0 <= nx / nd <= nx) by (nonlinear_arith)
            requires
                nx > 0,
                nd > 0,
        ;
        if nd > 1 {
            assert(nx / nd <= nx / 2) by (nonlinear_arith)
                requires
                    nx > 0,
                    nd > 1,
            ;
        }
        assert(0 <= nx % nd < nd) by (nonlinear_arith)
            requires
                nd > 0,
        ;
    } else if x < 0 {
        let nx = x * -1;
        assert(0 <= nx / d <= nx) by (nonlinear_arith)
            requires
                nx > 0,
                d > 0,
        ;
        assert(0 <= nx % d < d) by (nonlinear_arith)
            requires
                d > 0,
        ;
    } else if x > 0 {
        let nd = d * -1;
        assert(0 <= x / nd <= x) by (nonlinear_arith)
            requires
                x > 0,
                nd > 0,
        ;
        assert(0 <= x % nd < nd) by (nonlinear_arith)
            requires
                nd > 0,
        ;
    }
}

/// Overflow-freedom of a sequence holds of each of its prefixes, and the
/// count of folds only grows along it.
proof fn lemma_fold_insts_prefix(s: Seq<InstView>, env: Map<u32, Constant>, k: int)
    requires
        0 <= k <= s.len(),
    ensures
        fold_insts_ok(s, env) ==> fold_insts_ok(s.take(k), env),
        fold_insts(s.take(k), env).2 <= fold_insts(s, env).2,
    decreases s.len(),
{
    if k < s.len() {
        lemma_fold_insts_prefix(s.drop_last(), env, k);
        assert(s.drop_last().take(k) =~= s.take(k));
    } else {
        assert(s.take(k) =~= s);
    }
}

/// Overflow-freedom of a sequence of blocks holds of each of its prefixes,
/// and the count of folds only grows along it.
proof fn lemma_fold_blocks_prefix(bs: Seq<BlockView>, env: Map<u32, Constant>, k: int)
    requires
        0 <= k <= bs.len(),
    ensures
        fold_blocks_ok(bs, env) ==> fold_blocks_ok(bs.take(k), env),
        fold_blocks(bs.take(k), env).2 <= fold_blocks(bs, env).2,
    decreases bs.len(),
{
    if k < bs.len() {
        lemma_fold_blocks_prefix(bs.drop_last(), env, k);
        assert(bs.drop_last().take(k) =~= bs.take(k));
    } else {
        assert(bs.take(k) =~= bs);
    }
}

/// The count over a prefix of the functions is at most the whole count.
proof fn lemma_fold_count_prefix(fs: Seq<FunctionView>, k: int)
    requires
        0 <= k <= fs.len(),
    ensures
        fold_count(fs.take(k)) <= fold_count(fs),
    decreases fs.len(),
{
    if k < fs.len() {
        lemma_fold_count_prefix(fs.drop_last(), k);
        assert(fs.drop_last().take(k) =~= fs.take(k));
    } else {
        assert(fs.take(k) =~= fs);
    }
}

/// The statistics `s` with `n` more folded constants.
pub open spec fn add_folded(s: OptStats, n: nat) -> OptStats {
    OptStats { constants_folded: (s.constants_folded + n) as usize, ..s }
}

/// Folding an instruction a second time, with the same known constants,
/// changes nothing more.
proof fn lemma_fold_inst_stable(i: InstView, env: Map<u32, Constant>)
    ensures
        fold_inst(fold_inst(i, env).0, env) == (fold_inst(i, env).0, fold_inst(i, env).1, false),
{
}

/// Folding a folded instruction sequence again, from the same constants,
/// gives the same sequence and the same constants, and folds nothing.
pub proof fn lemma_fold_insts_idempotent(s: Seq<InstView>, env: Map<u32, Constant>)
    ensures
        fold_insts(fold_insts(s, env).0, env) == (fold_insts(s, env).0, fold_insts(s, env).1, 0nat),
    decreases s.len(),
{
    if s.len() > 0 {
        let (pre, e1, n1) = fold_insts(s.drop_last(), env);
        lemma_fold_insts_idempotent(s.drop_last(), env);
        lemma_fold_inst_stable(s.last(), e1);
        let o = fold_insts(s, env).0;
        assert(o.drop_last() =~= pre);
    }
}

/// The same for a sequence of blocks.
pub proof fn lemma_fold_blocks_idempotent(bs: Seq<BlockView>, env: Map<u32, Constant>)
    ensures
        fold_blocks(fold_blocks(bs, env).0, env) == (fold_blocks(bs, env).0, fold_blocks(bs, env).1, 0nat),
    decreases bs.len(),
{
    if bs.len() > 0 {
        let (pre, e1, n1) = fold_blocks(bs.drop_last(), env);
        lemma_fold_blocks_idempotent(bs.drop_last(), env);
        lemma_fold_insts_idempotent(bs.last().instructions, e1);
        let o = fold_blocks(bs, env).0;
        assert(o.drop_last() =~= pre);
    }
}

/// Constant folding reaches its fixed point in one run: folding a folded
/// function changes nothing and folds no instruction.
pub proof fn law_fold_idempotent(f: FunctionView)
    ensures
        fold_function(fold_function(f)) == fold_function(f),
        fold_function_count(fold_function(f)) == 0,
{
    lemma_fold_blocks_idempotent(f.blocks, Map::empty());
}

/// Folding keeps the shape of a function: the same blocks, in the same order,
/// each with as many instructions as before.
pub proof fn law_fold_keeps_shape(f: FunctionView)
    ensures
        fold_function(f).blocks.len() == f.blocks.len(),
        forall|b: int|
            0 <= b < f.blocks.len() ==> {
                &&& (#[trigger] fold_function(f).blocks[b]).id == f.blocks[b].id
                &&& fold_function(f).blocks[b].instructions.len() == f.blocks[b].instructions.len()
            },
{
    lemma_fold_blocks_shape(f.blocks, Map::empty());
}

proof fn lemma_fold_insts_len(s: Seq<InstView>, env: Map<u32, Constant>)
    ensures
        fold_insts(s, env).0.len() == s.len(),
    decreases s.len(),
{
    if s.len() > 0 {
        lemma_fold_insts_len(s.drop_last(), env);
    }
}

proof fn lemma_fold_blocks_shape(bs: Seq<BlockView>, env: Map<u32, Constant>)
    ensures
        fold_blocks(bs, env).0.len() == bs.len(),
        forall|b: int|
            0 <= b < bs.len() ==> {
                &&& (#[trigger] fold_blocks(bs, env).0[b]).id == bs[b].id
                &&& fold_blocks(bs, env).0[b].instructions.len() == bs[b].instructions.len()
            },
    decreases bs.len(),
{
    if bs.len() > 0 {
        lemma_fold_blocks_shape(bs.drop_last(), env);
        let (pre, e1, n1) = fold_blocks(bs.drop_last(), env);
        lemma_fold_insts_len(bs.last().instructions, e1);
        assert forall|b: int| 0 <= b < bs.len() implies {
            &&& (#[trigger] fold_blocks(bs, env).0[b]).id == bs[b].id
            &&& fold_blocks(bs, env).0[b].instructions.len() == bs[b].instructions.len()
        } by {
            if b < bs.len() - 1 {
                assert(fold_blocks(bs, env).0[b] == pre[b]);
                assert(bs.drop_last()[b] == bs[b]);
            }
        }
    }
}

/// `i64::wrapping_pow`.
#[verifier::external_body]
fn i64_wrapping_pow(base: i64, exp: u32) -> (r: i64)
    ensures
        r == wrapping_pow_spec(base, exp),
{
    base.wrapping_pow(exp)
}

/// The constant folding pass. Its model is its statistics.
pub struct ConstantFolder {
    stats: OptStats,
}

impl View for ConstantFolder {
    type V = OptStats;

    closed spec fn view(&self) -> OptStats {
        self.stats
    }
}

impl ConstantFolder {
    pub fn new() -> (r: Self)
        ensures
            r@.is_zero(),
    {
        ConstantFolder { stats: OptStats::new() }
    }

    pub fn stats(&self) -> (r: &OptStats)
        ensures
            *r == self@,
    {
        &self.stats
    }

    /// Folds a binary operation on two constants.
    fn fold_binary(&self, op: BinaryOp, left: &Constant, right: &Constant) -> (r: Option<Constant>)
        requires
            !fold_binary_overflows(op, *left, *right),
        ensures
            r == fold_binary_spec(op, *left, *right),
    {
        match (left, right) {
            (Constant::Int(l), Constant::Int(r)) => {
                let l = *l;
                let r = *r;
                match op {
                    BinaryOp::Add => Some(Constant::Int(l.wrapping_add(r))),
                    BinaryOp::Sub => Some(Constant::Int(l.wrapping_sub(r))),
                    BinaryOp::Mul => Some(Constant::Int(l.wrapping_mul(r))),
                    BinaryOp::Div => {
                        if r != 0 {
                            proof {
                                lemma_trunc_in_range(l, r);
                            }
                            match l.checked_div(r) {
                                Some(q) => Some(Constant::Int(q)),
                                None => None,
                            }
                        } else {
                            None
                        }
                    },
                    BinaryOp::Mod => {
                        if r != 0 {
                            proof {
                                lemma_trunc_in_range(l, r);
                            }
                            match l.checked_rem(r) {
                                Some(q) => Some(Constant::Int(q)),
                                None => None,
                            }
                        } else {
                            None
                        }
                    },
                    BinaryOp::Pow => {
                        if r >= 0 {
                            Some(Constant::Int(i64_wrapping_pow(l, r as u32)))
                        } else {
                            None
                        }
                    },
                    BinaryOp::Eq => Some(Constant::Bool(l == r)),
                    BinaryOp::Ne => Some(Constant::Bool(l != r)),
                    BinaryOp::Lt => Some(Constant::Bool(l < r)),
                    BinaryOp::Le => Some(Constant::Bool(l <= r)),
                    BinaryOp::Gt => Some(Constant::Bool(l > r)),
                    BinaryOp::Ge => Some(Constant::Bool(l >= r)),
                    BinaryOp::BitAnd => Some(Constant::Int(l & r)),
                    BinaryOp::BitOr => Some(Constant::Int(l | r)),
                    BinaryOp::BitXor => Some(Constant::Int(l ^ r)),
                    BinaryOp::Shl => Some(Constant::Int(l.wrapping_shl(r as u32))),
                    BinaryOp::Shr => Some(Constant::Int(l.wrapping_shr(r as u32))),
                    _ => None,
                }
            },
            (Constant::Bool(l), Constant::Bool(r)) => {
                let l = *l;
                let r = *r;
                match op {
                    BinaryOp::And => Some(Constant::Bool(l && r)),
                    BinaryOp::Or => Some(Constant::Bool(l || r)),
                    BinaryOp::Eq => Some(Constant::Bool(l == r)),
                    BinaryOp::Ne => Some(Constant::Bool(l != r)),
                    _ => None,
                }
            },
            _ => None,
        }
    }

    /// Folds a sequence of instructions, extending the known constants.
    fn fold_insts_exec(&mut self, insts: Vec<Instruction>, env: &mut HashMap<u32, Constant>) -> (out: Vec<Instruction>)
        requires
            old(self)@.constants_folded + fold_insts(insts_view(insts@), old(env)@).2 <= usize::MAX,
            fold_insts_ok(insts_view(insts@), old(env)@),
        ensures
            insts_view(out@) == fold_insts(insts_view(insts@), old(env)@).0,
            final(env)@ == fold_insts(insts_view(insts@), old(env)@).1,
            final(self)@ == add_folded(old(self)@, fold_insts(insts_view(insts@), old(env)@).2),
    {
        let ghost s = insts_view(insts@);
        let ghost orig = insts@;
        let ghost env0 = env@;
        let ghost stats0 = self@;
        let mut out: Vec<Instruction> = Vec::new();
        proof {
            assert(s.take(0) =~= Seq::<InstView>::empty());
            assert(insts_view(out@) =~= Seq::<InstView>::empty());
        }
        for inst in it: insts.into_iter()
            invariant
                it.seq() == orig,
                s == insts_view(orig),
                0 <= it.index() <= orig.len(),
                stats0.constants_folded + fold_insts(s, env0).2 <= usize::MAX,
                fold_insts_ok(s, env0),
                insts_view(out@) == fold_insts(s.take(it.index()), env0).0,
                env@ == fold_insts(s.take(it.index()), env0).1,
                self@ == add_folded(stats0, fold_insts(s.take(it.index()), env0).2),
        {
            let ghost k = it.index();
            proof {
                assert(s.take(k + 1).drop_last() =~= s.take(k));
                assert(s.take(k + 1).last() == s[k]);
                assert(s[k] == inst@);
                lemma_fold_insts_prefix(s, env0, k + 1);
            }
            match inst {
                Instruction::Const { dest, value, ty } => {
                    env.insert(dest.0, value);
                    out.push(Instruction::Const { dest, value, ty });
                },
                Instruction::Binary { dest, op, left, right, ty } => {
                    let folded = match (env.get(&left.0), env.get(&right.0)) {
                        (Some(lc), Some(rc)) => self.fold_binary(op, lc, rc),
                        _ => None,
                    };
                    match folded {
                        Some(v) => {
                            env.insert(dest.0, v);
                            out.push(Instruction::Const { dest, value: v, ty });
                            self.stats.constants_folded = self.stats.constants_folded + 1;
                        },
                        None => {
                            out.push(Instruction::Binary { dest, op, left, right, ty });
                        },
                    }
                },
                Instruction::Unary { dest, op, operand, ty } => {
                    let folded = match env.get(&operand.0) {
                        Some(c) => self.fold_unary(op, c),
                        None => None,
                    };
                    match folded {
                        Some(v) => {
                            env.insert(dest.0, v);
                            out.push(Instruction::Const { dest, value: v, ty });
                            self.stats.constants_folded = self.stats.constants_folded + 1;
                        },
                        None => {
                            out.push(Instruction::Unary { dest, op, operand, ty });
                        },
                    }
                },
                Instruction::Branch { cond, then_block, else_block } => {
                    let known = match env.get(&cond.0) {
                        Some(Constant::Bool(b)) => Some(*b),
                        _ => None,
                    };
                    match known {
                        Some(b) => {
                            let target = if b {
                                then_block
                            } else {
                                else_block
                            };
                            out.push(Instruction::Jump { target });
                            self.stats.constants_folded = self.stats.constants_folded + 1;
                        },
                        None => {
                            out.push(Instruction::Branch { cond, then_block, else_block });
                        },
                    }
                },
                other => {
                    out.push(other);
                },
            }
            proof {
                assert(insts_view(out@) =~= fold_insts(s.take(k + 1), env0).0);
            }
        }
        proof {
            assert(s.take(orig.len() as int) =~= s);
        }
        out
    }

    /// Folds the blocks of a function in order.
    fn fold_blocks_exec(&mut self, blocks: Vec<BasicBlock>, env: &mut HashMap<u32, Constant>) -> (out: Vec<BasicBlock>)
        requires
            old(self)@.constants_folded + fold_blocks(blocks_view(blocks@), old(env)@).2 <= usize::MAX,
            fold_blocks_ok(blocks_view(blocks@), old(env)@),
        ensures
            blocks_view(out@) == fold_blocks(blocks_view(blocks@), old(env)@).0,
            final(env)@ == fold_blocks(blocks_view(blocks@), old(env)@).1,
            final(self)@ == add_folded(old(self)@, fold_blocks(blocks_view(blocks@), old(env)@).2),
    {
        let ghost s = blocks_view(blocks@);
        let ghost orig = blocks@;
        let ghost env0 = env@;
        let ghost stats0 = self@;
        let mut out: Vec<BasicBlock> = Vec::new();
        proof {
            assert(s.take(0) =~= Seq::<BlockView>::empty());
            assert(blocks_view(out@) =~= Seq::<BlockView>::empty());
        }
        for b in it: blocks.into_iter()
            invariant
                it.seq() == orig,
                s == blocks_view(orig),
                0 <= it.index() <= orig.len(),
                stats0.constants_folded + fold_blocks(s, env0).2 <= usize::MAX,
                fold_blocks_ok(s, env0),
                blocks_view(out@) == fold_blocks(s.take(it.index()), env0).0,
                env@ == fold_blocks(s.take(it.index()), env0).1,
                self@ == add_folded(stats0, fold_blocks(s.take(it.index()), env0).2),
        {
            let ghost k = it.index();
            proof {
                assert(s.take(k + 1).drop_last() =~= s.take(k));
                assert(s.take(k + 1).last() == s[k]);
                assert(s[k] == b@);
                lemma_fold_blocks_prefix(s, env0, k + 1);
            }
            let BasicBlock { id, label, instructions, predecessors, successors } = b;
            let insts = self.fold_insts_exec(instructions, env);
            out.push(BasicBlock { id, label, instructions: insts, predecessors, successors });
            proof {
                assert(blocks_view(out@) =~= fold_blocks(s.take(k + 1), env0).0);
            }
        }
        proof {
            assert(s.take(orig.len() as int) =~= s);
        }
        out
    }

    /// Folds one function, starting with no known constant.
    fn fold_function_exec(&mut self, f: Function) -> (r: Function)
        requires
            old(self)@.constants_folded + fold_function_count(f@) <= usize::MAX,
            fold_function_ok(f@),
        ensures
            r@ == fold_function(f@),
            final(self)@ == add_folded(old(self)@, fold_function_count(f@)),
    {
        let Function { id, name, params, return_type, blocks, var_counter, block_counter, is_async } = f;
        let mut env: HashMap<u32, Constant> = HashMap::new();
        proof {
            assert(env@ =~= Map::<u32, Constant>::empty());
        }
        let blocks = self.fold_blocks_exec(blocks, &mut env);
        Function { id, name, params, return_type, blocks, var_counter, block_counter, is_async }
    }

    /// Folds constants in every function of the module.
    pub fn run(&mut self, module: &mut Module)
        requires
            old(self)@.constants_folded + fold_count(functions_view(old(module).functions@))
                <= usize::MAX,
            fold_ok(functions_view(old(module).functions@)),
        ensures
            functions_view(final(module).functions@) == functions_view(
                old(module).functions@,
            ).map_values(|f: FunctionView| fold_function(f)),
            final(self)@ == add_folded(old(self)@, fold_count(functions_view(old(module).functions@))),
            final(module).name == old(module).name,
            final(module).strings == old(module).strings,
            final(module).classes == old(module).classes,
            final(module).globals == old(module).globals,
    {
        let mut functions: Vec<Function> = Vec::new();
        std::mem::swap(&mut functions, &mut module.functions);
        let ghost fs = functions_view(functions@);
        let ghost orig = functions@;
        let ghost stats0 = self@;
        let mut out: Vec<Function> = Vec::new();
        proof {
            assert(fs.take(0) =~= Seq::<FunctionView>::empty());
        }
        for f in it: functions.into_iter()
            invariant
                it.seq() == orig,
                fs == functions_view(orig),
                0 <= it.index() <= orig.len(),
                stats0.constants_folded + fold_count(fs) <= usize::MAX,
                fold_ok(fs),
                out@.len() == it.index(),
                forall|j: int| 0 <= j < it.index() ==> #[trigger] out@[j]@ == fold_function(fs[j]),
                self@ == add_folded(stats0, fold_count(fs.take(it.index()))),
        {
            let ghost k = it.index();
            proof {
                assert(fs.take(k + 1).drop_last() =~= fs.take(k));
                assert(fs.take(k + 1).last() == fs[k]);
                assert(fs[k] == f@);
                lemma_fold_count_prefix(fs, k + 1);
                assert(fold_function_ok(fs[k]));
            }
            let g = self.fold_function_exec(f);
            out.push(g);
        }
        proof {
            assert(fs.take(orig.len() as int) =~= fs);
            assert(functions_view(out@) =~= fs.map_values(|f: FunctionView| fold_function(f)));
        }
        module.functions = out;
    }

    /// Folds a unary operation on a constant.
    fn fold_unary(&self, op: UnaryOp, operand: &Constant) -> (r: Option<Constant>)
        ensures
            r == fold_unary_spec(op, *operand),
    {
        match (op, operand) {
            (UnaryOp::Neg, Constant::Int(i)) => Some(
                Constant::Int(
                    if *i == i64::MIN {
                        i64::MIN
                    } else {
                        -*i
                    },
                ),
            ),
            (UnaryOp::Neg, Constant::Float(bits)) => Some(Constant::Float(*bits ^ 0x8000_0000_0000_0000u64)),
            (UnaryOp::Not, Constant::Bool(b)) => Some(Constant::Bool(!*b)),
            (UnaryOp::BitNot, Constant::Int(i)) => Some(Constant::Int(!*i)),
            _ => None,
        }
    }
}

/// Whether folding `op` on the constants `l` and `r` would overflow.
fn binary_overflows(op: BinaryOp, l: Constant, r: Constant) -> (b: bool)
    ensures
        b == fold_binary_overflows(op, l, r),
{
    match (l, r) {
        (Constant::Int(a), Constant::Int(c)) => match op {
            BinaryOp::Div | BinaryOp::Mod => a == i64::MIN && c == -1,
            _ => false,
        },
        _ => false,
    }
}

/// Walks the instructions as folding does, and gives the operator of the
/// first one whose folding would overflow.
fn insts_overflow(insts: &Vec<Instruction>, env: &mut HashMap<u32, Constant>) -> (r: Option<BinaryOp>)
    ensures
        r is None <==> fold_insts_ok(insts_view(insts@), old(env)@),
        r matches Some(op) ==> op == BinaryOp::Div || op == BinaryOp::Mod,
        r is None ==> final(env)@ == fold_insts(insts_view(insts@), old(env)@).1,
{
    let ghost s = insts_view(insts@);
    let ghost env0 = env@;
    let folder = ConstantFolder::new();
    let mut i: usize = 0;
    proof {
        assert(s.take(0) =~= Seq::<InstView>::empty());
    }
    while i < insts.len()
        invariant
            i <= insts.len(),
            s == insts_view(insts@),
            env0 == old(env)@,
            fold_insts_ok(s.take(i as int), env0),
            env@ == fold_insts(s.take(i as int), env0).1,
        decreases insts.len() - i,
    {
        proof {
            assert(s.take(i + 1).drop_last() =~= s.take(i as int));
            assert(s.take(i + 1).last() == s[i as int]);
            assert(s[i as int] == insts@[i as int]@);
            lemma_fold_insts_prefix(s, env0, i + 1);
        }
        match &insts[i] {
            Instruction::Const { dest, value, .. } => {
                env.insert(dest.0, *value);
            },
            Instruction::Binary { dest, op, left, right, .. } => {
                let lc: Option<Constant> = match env.get(&left.0) {
                    Some(c) => Some(*c),
                    None => None,
                };
                let rc: Option<Constant> = match env.get(&right.0) {
                    Some(c) => Some(*c),
                    None => None,
                };
                match (lc, rc) {
                    (Some(a), Some(b)) => {
                        if binary_overflows(*op, a, b) {
                            proof {
                                assert(fold_inst_overflows(s[i as int], env@));
                                assert(!fold_insts_ok(s.take(i + 1), env0));
                            }
                            return Some(*op);
                        }
                        match folder.fold_binary(*op, &a, &b) {
                            Some(v) => {
                                env.insert(dest.0, v);
                            },
                            None => {},
                        }
                    },
                    _ => {},
                }
            },
            Instruction::Unary { dest, op, operand, .. } => {
                let c: Option<Constant> = match env.get(&operand.0) {
                    Some(c) => Some(*c),
                    None => None,
                };
                match c {
                    Some(c) => match folder.fold_unary(*op, &c) {
                        Some(v) => {
                            env.insert(dest.0, v);
                        },
                        None => {},
                    },
                    None => {},
                }
            },
            _ => {},
        }
        i = i + 1;
    }
    proof {
        assert(s.take(s.len() as int) =~= s);
    }
    None
}

/// The same over the blocks, in order, the known constants carried from
/// each block to the next.
fn blocks_overflow(blocks: &Vec<BasicBlock>, env: &mut HashMap<u32, Constant>) -> (r: Option<BinaryOp>)
    ensures
        r is None <==> fold_blocks_ok(blocks_view(blocks@), old(env)@),
        r matches Some(op) ==> op == BinaryOp::Div || op == BinaryOp::Mod,
        r is None ==> final(env)@ == fold_blocks(blocks_view(blocks@), old(env)@).1,
{
    let ghost s = blocks_view(blocks@);
    let ghost env0 = env@;
    let mut i: usize = 0;
    proof {
        assert(s.take(0) =~= Seq::<BlockView>::empty());
    }
    while i < blocks.len()
        invariant
            i <= blocks.len(),
            s == blocks_view(blocks@),
            env0 == old(env)@,
            fold_blocks_ok(s.take(i as int), env0),
            env@ == fold_blocks(s.take(i as int), env0).1,
        decreases blocks.len() - i,
    {
        proof {
            assert(s.take(i + 1).drop_last() =~= s.take(i as int));
            assert(s.take(i + 1).last() == s[i as int]);
            assert(s[i as int] == blocks@[i as int]@);
            lemma_fold_blocks_prefix(s, env0, i + 1);
        }
        let ghost e_i = env@;
        match insts_overflow(&blocks[i].instructions, env) {
            Some(op) => {
                proof {
                    assert(!fold_insts_ok(s[i as int].instructions, e_i));
                    assert(!fold_blocks_ok(s.take(i + 1), env0));
                }
                return Some(op);
            },
            None => {},
        }
        i = i + 1;
    }
    proof {
        assert(s.take(s.len() as int) =~= s);
    }
    None
}

impl ConstantFolder {
    /// Whether folding the module would overflow, and where it would, the
    /// operator whose folding overflows first: a quotient or remainder of
    /// `i64::MIN` by `-1`. Folding runs only where this gives `None`.
    pub fn find_overflow(module: &Module) -> (r: Option<BinaryOp>)
        ensures
            r is None <==> fold_ok(functions_view(module.functions@)),
            r matches Some(op) ==> op == BinaryOp::Div || op == BinaryOp::Mod,
    {
        let ghost fs = functions_view(module.functions@);
        let mut i: usize = 0;
        while i < module.functions.len()
            invariant
                i <= module.functions.len(),
                fs == functions_view(module.functions@),
                forall|j: int| 0 <= j < i ==> #[trigger] fold_function_ok(fs[j]),
            decreases module.functions.len() - i,
        {
            let mut env: HashMap<u32, Constant> = HashMap::new();
            proof {
                assert(env@ =~= Map::<u32, Constant>::empty());
                assert(fs[i as int] == module.functions@[i as int]@);
            }
            match blocks_overflow(&module.functions[i].blocks, &mut env) {
                Some(op) => {
                    proof {
                        assert(!fold_function_ok(fs[i as int]));
                    }
                    return Some(op);
                },
                None => {},
            }
            i = i + 1;
        }
        None
    }
}

impl Default for ConstantFolder {
    fn default() -> (r: Self)
        ensures
            r@.is_zero(),
    {
        Self::new()
    }
}


/// Cropping a value that fits in `i64` leaves it as it is.
proof fn lemma_crop_in_range(p: int)
    requires
        i64::MIN <= p <= i64::MAX,
    ensures
        i64_specs::signed_crop(p) == p,
{
    let m: int = 0x1_0000_0000_0000_0000;
    if p >= 0 {
        vstd::arithmetic::div_mod::lemma_small_mod(p as nat, m as nat);
    } else {
        vstd::arithmetic::div_mod::lemma_mod_add_multiples_vanish(p, m);
        vstd::arithmetic::div_mod::lemma_small_mod((p + m) as nat, m as nat);
    }
}

/// Folding a binary instruction on two known integer constants `a` and `b`
/// gives the constant that the operation evaluates to: a comparison gives
/// whether it holds of the two numbers, and a sum, difference or product
/// that fits in `i64` gives that number; the quotient and remainder of a
/// non-negative number by a positive one are the mathematical ones. The
/// destination and type stay.
pub proof fn law_fold_computes_integer_values(
    dest: VarId,
    op: BinaryOp,
    left: VarId,
    right: VarId,
    ty: TypeView,
    env: Map<u32, Constant>,
    a: i64,
    b: i64,
)
    requires
        env.contains_key(left.0),
        env.contains_key(right.0),
        env[left.0] == Constant::Int(a),
        env[right.0] == Constant::Int(b),
    ensures
        ({
            let r = fold_inst(InstView::Binary { dest, op, left, right, ty }, env);
            &&& op == BinaryOp::Lt ==> r.0 == InstView::Const { dest, value: Constant::Bool(a < b), ty }
            &&& op == BinaryOp::Le ==> r.0 == InstView::Const { dest, value: Constant::Bool(a <= b), ty }
            &&& op == BinaryOp::Gt ==> r.0 == InstView::Const { dest, value: Constant::Bool(a > b), ty }
            &&& op == BinaryOp::Ge ==> r.0 == InstView::Const { dest, value: Constant::Bool(a >= b), ty }
            &&& op == BinaryOp::Eq ==> r.0 == InstView::Const { dest, value: Constant::Bool(a == b), ty }
            &&& op == BinaryOp::Ne ==> r.0 == InstView::Const { dest, value: Constant::Bool(a != b), ty }
            &&& op == BinaryOp::Add && i64::MIN <= a + b <= i64::MAX ==> r.0 == InstView::Const {
                dest,
                value: Constant::Int((a + b) as i64),
                ty,
            }
            &&& op == BinaryOp::Sub && i64::MIN <= a - b <= i64::MAX ==> r.0 == InstView::Const {
                dest,
                value: Constant::Int((a - b) as i64),
                ty,
            }
            &&& op == BinaryOp::Mul && i64::MIN <= a * b <= i64::MAX ==> r.0 == InstView::Const {
                dest,
                value: Constant::Int((a * b) as i64),
                ty,
            }
            &&& op == BinaryOp::Div && a >= 0 && b > 0 ==> r.0 == InstView::Const {
                dest,
                value: Constant::Int((a as int / b as int) as i64),
                ty,
            }
            &&& op == BinaryOp::Mod && a >= 0 && b > 0 ==> r.0 == InstView::Const {
                dest,
                value: Constant::Int((a as int % b as int) as i64),
                ty,
            }
            &&& r.1 == env.insert(dest.0, r.0->Const_value) || !(r.0 is Const)
        }),
{
    if op == BinaryOp::Mul && i64::MIN <= a * b <= i64::MAX {
        lemma_crop_in_range(a * b);
    }
    if a == 0 && b > 0 {
        let d = b as int;
        assert(0int % d == 0) by (nonlinear_arith)
            requires
                d > 0,
        ;
    }
}
} // verus!
