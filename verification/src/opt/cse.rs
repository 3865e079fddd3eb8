//! Common subexpression elimination: a binary or unary computation that
//! repeats an earlier one of the same block is dropped, and every later read
//! of its result, in that block and in the blocks after it, reads the
//! earlier result instead. The blocks are taken in their order in the
//! function: a read that stands in an earlier block than the dropped
//! computation (a phi of a loop header reading a value of the loop body, on
//! the back edge) is not rewritten.
use std::collections::HashMap;
use vstd::prelude::*;

use crate::instruction::{BinaryOp, BlockId, Constant, InstView, Instruction, UnaryOp, VarId, insts_view};
use crate::opt::const_fold::fold_binary_spec;
use crate::opt::stats::OptStats;
use crate::opt::dce::{defined_var, inst_uses};
use crate::program::{BasicBlock, BlockView, Function, FunctionView, Module, blocks_view, functions_view};

verus! {

broadcast use vstd::std_specs::hash::group_hash_axioms;

/// The computation that an instruction performs, as CSE compares it.
#[derive(Debug, Clone, Copy, PartialEq, Eq, Structural)]
pub enum ExprKey {
    Binary { op: BinaryOp, left: VarId, right: VarId },
    Unary { op: UnaryOp, operand: VarId },
}

/// The operators whose operands may be swapped.
pub open spec fn spec_is_commutative(op: BinaryOp) -> bool {
    match op {
        BinaryOp::Add | BinaryOp::Mul | BinaryOp::Eq | BinaryOp::Ne | BinaryOp::And | BinaryOp::Or
        | BinaryOp::BitAnd | BinaryOp::BitOr | BinaryOp::BitXor => true,
        _ => false,
    }
}

/// The variable that stands for `v` under the replacements `repl`.
pub open spec fn replace_var(v: VarId, repl: Map<u32, VarId>) -> VarId {
    if repl.contains_key(v.0) {
        repl[v.0]
    } else {
        v
    }
}

/// Replaces each of a list of variables.
pub open spec fn replace_vars(s: Seq<VarId>, repl: Map<u32, VarId>) -> Seq<VarId> {
    s.map_values(|v: VarId| replace_var(v, repl))
}

/// An instruction with every operand replaced; its destination, if any,
/// stays.
pub open spec fn apply_repl(i: InstView, repl: Map<u32, VarId>) -> InstView {
    match i {
        InstView::IntToFloat { dest, src } => InstView::IntToFloat { dest, src: replace_var(src, repl) },
        InstView::FloatToInt { dest, src } => InstView::FloatToInt { dest, src: replace_var(src, repl) },
        InstView::ToString { dest, src } => InstView::ToString { dest, src: replace_var(src, repl) },
        InstView::Bitcast { dest, src, to_ty } => InstView::Bitcast { dest, src: replace_var(src, repl), to_ty },
        InstView::ArrayPush { array, value, elem_ty } => InstView::ArrayPush {
            array: replace_var(array, repl),
            value: replace_var(value, repl),
            elem_ty,
        },
        InstView::GlobalStore { name, value } => InstView::GlobalStore { name, value: replace_var(value, repl) },
        InstView::Binary { dest, op, left, right, ty } => InstView::Binary {
            dest,
            op,
            left: replace_var(left, repl),
            right: replace_var(right, repl),
            ty,
        },
        InstView::Unary { dest, op, operand, ty } => InstView::Unary {
            dest,
            op,
            operand: replace_var(operand, repl),
            ty,
        },
        InstView::Load { dest, ptr, ty } => InstView::Load { dest, ptr: replace_var(ptr, repl), ty },
        InstView::Store { ptr, value } => InstView::Store {
            ptr: replace_var(ptr, repl),
            value: replace_var(value, repl),
        },
        InstView::GetElementPtr { dest, ptr, index, elem_ty } => InstView::GetElementPtr {
            dest,
            ptr: replace_var(ptr, repl),
            index: replace_var(index, repl),
            elem_ty,
        },
        InstView::Branch { cond, then_block, else_block } => InstView::Branch {
            cond: replace_var(cond, repl),
            then_block,
            else_block,
        },
        InstView::Return { value } => InstView::Return {
            value: match value {
                Some(v) => Some(replace_var(v, repl)),
                None => None,
            },
        },
        InstView::Call { dest, func, args, ret_ty } => InstView::Call {
            dest,
            func,
            args: replace_vars(args, repl),
            ret_ty,
        },
        InstView::CallIndirect { dest, func_ptr, args, ret_ty } => InstView::CallIndirect {
            dest,
            func_ptr: replace_var(func_ptr, repl),
            args: replace_vars(args, repl),
            ret_ty,
        },
        InstView::GetField { dest, object, field, ty } => InstView::GetField {
            dest,
            object: replace_var(object, repl),
            field,
            ty,
        },
        InstView::SetField { object, field, value } => InstView::SetField {
            object: replace_var(object, repl),
            field,
            value: replace_var(value, repl),
        },
        InstView::CallMethod { dest, object, method, args, ret_ty } => InstView::CallMethod {
            dest,
            object: replace_var(object, repl),
            method,
            args: replace_vars(args, repl),
            ret_ty,
        },
        InstView::CallVirtual { dest, object, method_index, args, ret_ty } => InstView::CallVirtual {
            dest,
            object: replace_var(object, repl),
            method_index,
            args: replace_vars(args, repl),
            ret_ty,
        },
        InstView::NewArray { dest, elem_ty, elements } => InstView::NewArray {
            dest,
            elem_ty,
            elements: replace_vars(elements, repl),
        },
        InstView::ArrayLen { dest, array } => InstView::ArrayLen {
            dest,
            array: replace_var(array, repl),
        },
        InstView::ArrayGet { dest, array, index, elem_ty } => InstView::ArrayGet {
            dest,
            array: replace_var(array, repl),
            index: replace_var(index, repl),
            elem_ty,
        },
        InstView::ArraySet { array, index, value } => InstView::ArraySet {
            array: replace_var(array, repl),
            index: replace_var(index, repl),
            value: replace_var(value, repl),
        },
        InstView::StringConcat { dest, left, right } => InstView::StringConcat {
            dest,
            left: replace_var(left, repl),
            right: replace_var(right, repl),
        },
        InstView::Print { value } => InstView::Print { value: replace_var(value, repl) },
        InstView::Throw { exception } => InstView::Throw { exception: replace_var(exception, repl) },
        InstView::Phi { dest, ty, incoming } => InstView::Phi {
            dest,
            ty,
            incoming: incoming.map_values(
                |p: (VarId, BlockId)| (replace_var(p.0, repl), p.1),
            ),
        },
        InstView::Copy { dest, src, ty } => InstView::Copy { dest, src: replace_var(src, repl), ty },
        _ => i,
    }
}

/// The variable recorded for `key` in the table of available
/// computations, the first entry for it counting.
pub open spec fn lookup_key(avail: Seq<(ExprKey, VarId)>, key: ExprKey) -> Option<VarId>
    decreases avail.len(),
{
    if avail.len() == 0 {
        None
    } else if avail[0].0 == key {
        Some(avail[0].1)
    } else {
        lookup_key(avail.drop_first(), key)
    }
}

/// The state of CSE within a block: the available computations and the
/// replacements of dropped results.
pub struct CseState {
    pub avail: Seq<(ExprKey, VarId)>,
    pub repl: Map<u32, VarId>,
}

/// One step of CSE: the instruction it emits (none where it drops one),
/// the new state, and whether it found a repeated computation.
pub open spec fn cse_step(i0: InstView, st: CseState) -> (Option<InstView>, CseState, bool) {
    let i = apply_repl(i0, st.repl);
    match i {
        InstView::Binary { dest, op, left, right, .. } => {
            let key = ExprKey::Binary { op, left, right };
            let swapped = ExprKey::Binary { op, left: right, right: left };
            if lookup_key(st.avail, key) is Some {
                (None, CseState { repl: st.repl.insert(dest.0, lookup_key(st.avail, key).unwrap()), ..st }, true)
            } else if spec_is_commutative(op) && lookup_key(st.avail, swapped) is Some {
                (None, CseState { repl: st.repl.insert(dest.0, lookup_key(st.avail, swapped).unwrap()), ..st }, true)
            } else {
                (Some(i), CseState { avail: st.avail.push((key, dest)), ..st }, false)
            }
        },
        InstView::Unary { dest, op, operand, .. } => {
            let key = ExprKey::Unary { op, operand };
            if lookup_key(st.avail, key) is Some {
                (None, CseState { repl: st.repl.insert(dest.0, lookup_key(st.avail, key).unwrap()), ..st }, true)
            } else {
                (Some(i), CseState { avail: st.avail.push((key, dest)), ..st }, false)
            }
        },
        _ => (Some(i), st, false),
    }
}

/// CSE over a sequence of instructions: what it emits, its final state, and
/// the number of computations it found repeated.
pub open spec fn cse_insts(s: Seq<InstView>, st: CseState) -> (Seq<InstView>, CseState, nat)
    decreases s.len(),
{
    if s.len() == 0 {
        (Seq::empty(), st, 0)
    } else {
        let (pre, st1, n1) = cse_insts(s.drop_last(), st);
        let (emitted, st2, hit) = cse_step(s.last(), st1);
        (
            match emitted {
                Some(i) => pre.push(i),
                None => pre,
            },
            st2,
            if hit {
                n1 + 1
            } else {
                n1
            },
        )
    }
}

/// The state at the start of a block: nothing available, and the
/// replacements made in the blocks before it.
pub open spec fn block_start(repl: Map<u32, VarId>) -> CseState {
    CseState { avail: Seq::empty(), repl }
}

/// CSE over a sequence of blocks, starting from the replacements `repl`:
/// the blocks it gives, the replacements after the last block, and the
/// number of computations it found repeated.
pub open spec fn cse_blocks(bs: Seq<BlockView>, repl: Map<u32, VarId>) -> (Seq<BlockView>, Map<u32, VarId>, nat)
    decreases bs.len(),
{
    if bs.len() == 0 {
        (Seq::empty(), repl, 0)
    } else {
        let (pre, r1, n1) = cse_blocks(bs.drop_last(), repl);
        let (insts, st, n2) = cse_insts(bs.last().instructions, block_start(r1));
        (pre.push(BlockView { instructions: insts, ..bs.last() }), st.repl, n1 + n2)
    }
}

/// The repeated computations found in a sequence of blocks.
pub open spec fn cse_blocks_hits(bs: Seq<BlockView>) -> nat {
    cse_blocks(bs, Map::empty()).2
}

/// A function after CSE: its blocks in order, each starting from the
/// replacements of the blocks before it. Reads in blocks before a dropped
/// computation keep reading its result.
#[verifier::opaque]
pub open spec fn cse_function(f: FunctionView) -> FunctionView {
    FunctionView { blocks: cse_blocks(f.blocks, Map::empty()).0, ..f }
}

/// The repeated computations found over a list of functions.
pub open spec fn cse_total_hits(fs: Seq<FunctionView>) -> nat
    decreases fs.len(),
{
    if fs.len() == 0 {
        0
    } else {
        cse_total_hits(fs.drop_last()) + cse_blocks_hits(fs.last().blocks)
    }
}

/// The statistics `s` with `n` more CSE hits.
pub open spec fn add_hits(s: OptStats, n: nat) -> OptStats {
    OptStats { cse_hits: (s.cse_hits + n) as usize, ..s }
}

/// The variable that stands for `v` under the replacements.
fn replace(v: VarId, repl: &HashMap<u32, VarId>) -> (r: VarId)
    ensures
        r == replace_var(v, repl@),
{
    match repl.get(&v.0) {
        Some(w) => *w,
        None => v,
    }
}

/// Replaces each variable of a list.
fn replace_all(v: Vec<VarId>, repl: &HashMap<u32, VarId>) -> (r: Vec<VarId>)
    ensures
        r@ == replace_vars(v@, repl@),
{
    let mut r: Vec<VarId> = Vec::new();
    let mut i: usize = 0;
    while i < v.len()
        invariant
            i <= v.len(),
            r@ == replace_vars(v@.take(i as int), repl@),
        decreases v.len() - i,
    {
        r.push(replace(v[i], repl));
        i = i + 1;
        proof {
            assert(r@ =~= replace_vars(v@.take(i as int), repl@));
        }
    }
    proof {
        assert(v@.take(v.len() as int) =~= v@);
    }
    r
}

/// Replaces the variable of each incoming edge of a phi.
fn replace_incoming(v: Vec<(VarId, BlockId)>, repl: &HashMap<u32, VarId>) -> (r: Vec<(VarId, BlockId)>)
    ensures
        r@ == v@.map_values(|p: (VarId, BlockId)| (replace_var(p.0, repl@), p.1)),
{
    let mut r: Vec<(VarId, BlockId)> = Vec::new();
    let mut i: usize = 0;
    while i < v.len()
        invariant
            i <= v.len(),
            r@ == v@.take(i as int).map_values(|p: (VarId, BlockId)| (replace_var(p.0, repl@), p.1)),
        decreases v.len() - i,
    {
        let (a, b) = v[i];
        r.push((replace(a, repl), b));
        i = i + 1;
        proof {
            assert(r@ =~= v@.take(i as int).map_values(
                |p: (VarId, BlockId)| (replace_var(p.0, repl@), p.1),
            ));
        }
    }
    proof {
        assert(v@.take(v.len() as int) =~= v@);
    }
    r
}

/// An instruction with its operands replaced.
fn apply_replacements(inst: Instruction, repl: &HashMap<u32, VarId>) -> (r: Instruction)
    ensures
        r@ == apply_repl(inst@, repl@),
{
    match inst {
        Instruction::IntToFloat { dest, src } => Instruction::IntToFloat { dest, src: replace(src, repl) },
        Instruction::FloatToInt { dest, src } => Instruction::FloatToInt { dest, src: replace(src, repl) },
        Instruction::ToString { dest, src } => Instruction::ToString { dest, src: replace(src, repl) },
        Instruction::Bitcast { dest, src, to_ty } => Instruction::Bitcast { dest, src: replace(src, repl), to_ty },
        Instruction::ArrayPush { array, value, elem_ty } => Instruction::ArrayPush {
            array: replace(array, repl),
            value: replace(value, repl),
            elem_ty,
        },
        Instruction::GlobalStore { name, value } => Instruction::GlobalStore { name, value: replace(value, repl) },
        Instruction::Binary { dest, op, left, right, ty } => Instruction::Binary {
            dest,
            op,
            left: replace(left, repl),
            right: replace(right, repl),
            ty,
        },
        Instruction::Unary { dest, op, operand, ty } => Instruction::Unary {
            dest,
            op,
            operand: replace(operand, repl),
            ty,
        },
        Instruction::Load { dest, ptr, ty } => Instruction::Load { dest, ptr: replace(ptr, repl), ty },
        Instruction::Store { ptr, value } => Instruction::Store {
            ptr: replace(ptr, repl),
            value: replace(value, repl),
        },
        Instruction::GetElementPtr { dest, ptr, index, elem_ty } => Instruction::GetElementPtr {
            dest,
            ptr: replace(ptr, repl),
            index: replace(index, repl),
            elem_ty,
        },
        Instruction::Branch { cond, then_block, else_block } => Instruction::Branch {
            cond: replace(cond, repl),
            then_block,
            else_block,
        },
        Instruction::Return { value } => Instruction::Return {
            value: match value {
                Some(v) => Some(replace(v, repl)),
                None => None,
            },
        },
        Instruction::Call { dest, func, args, ret_ty } => Instruction::Call {
            dest,
            func,
            args: replace_all(args, repl),
            ret_ty,
        },
        Instruction::CallIndirect { dest, func_ptr, args, ret_ty } => Instruction::CallIndirect {
            dest,
            func_ptr: replace(func_ptr, repl),
            args: replace_all(args, repl),
            ret_ty,
        },
        Instruction::GetField { dest, object, field, ty } => Instruction::GetField {
            dest,
            object: replace(object, repl),
            field,
            ty,
        },
        Instruction::SetField { object, field, value } => Instruction::SetField {
            object: replace(object, repl),
            field,
            value: replace(value, repl),
        },
        Instruction::CallMethod { dest, object, method, args, ret_ty } => Instruction::CallMethod {
            dest,
            object: replace(object, repl),
            method,
            args: replace_all(args, repl),
            ret_ty,
        },
        Instruction::CallVirtual { dest, object, method_index, args, ret_ty } => Instruction::CallVirtual {
            dest,
            object: replace(object, repl),
            method_index,
            args: replace_all(args, repl),
            ret_ty,
        },
        Instruction::NewArray { dest, elem_ty, elements } => Instruction::NewArray {
            dest,
            elem_ty,
            elements: replace_all(elements, repl),
        },
        Instruction::ArrayLen { dest, array } => Instruction::ArrayLen {
            dest,
            array: replace(array, repl),
        },
        Instruction::ArrayGet { dest, array, index, elem_ty } => Instruction::ArrayGet {
            dest,
            array: replace(array, repl),
            index: replace(index, repl),
            elem_ty,
        },
        Instruction::ArraySet { array, index, value } => Instruction::ArraySet {
            array: replace(array, repl),
            index: replace(index, repl),
            value: replace(value, repl),
        },
        Instruction::StringConcat { dest, left, right } => Instruction::StringConcat {
            dest,
            left: replace(left, repl),
            right: replace(right, repl),
        },
        Instruction::Print { value } => Instruction::Print { value: replace(value, repl) },
        Instruction::Throw { exception } => Instruction::Throw { exception: replace(exception, repl) },
        Instruction::Phi { dest, ty, incoming } => Instruction::Phi {
            dest,
            ty,
            incoming: replace_incoming(incoming, repl),
        },
        Instruction::Copy { dest, src, ty } => Instruction::Copy { dest, src: replace(src, repl), ty },
        other => other,
    }
}

/// The variable recorded for `key`, the first entry for it counting.
fn find_available(avail: &Vec<(ExprKey, VarId)>, key: ExprKey) -> (r: Option<VarId>)
    ensures
        r == lookup_key(avail@, key),
{
    let mut i: usize = 0;
    proof {
        assert(avail@.skip(0) =~= avail@);
    }
    while i < avail.len()
        invariant
            i <= avail.len(),
            lookup_key(avail@, key) == lookup_key(avail@.skip(i as int), key),
        decreases avail.len() - i,
    {
        proof {
            assert(avail@.skip(i as int).drop_first() =~= avail@.skip(i + 1));
        }
        if avail[i].0 == key {
            return Some(avail[i].1);
        }
        i = i + 1;
    }
    None
}

/// The CSE pass. Its model is its statistics.
pub struct CommonSubexprElim {
    stats: OptStats,
}

impl View for CommonSubexprElim {
    type V = OptStats;

    closed spec fn view(&self) -> OptStats {
        self.stats
    }
}

impl CommonSubexprElim {
    pub fn new() -> (r: Self)
        ensures
            r@.is_zero(),
    {
        CommonSubexprElim { stats: OptStats::new() }
    }

    pub fn stats(&self) -> (r: &OptStats)
        ensures
            *r == self@,
    {
        &self.stats
    }

    fn is_commutative(&self, op: BinaryOp) -> (r: bool)
        ensures
            r == spec_is_commutative(op),
    {
        match op {
            BinaryOp::Add | BinaryOp::Mul | BinaryOp::Eq | BinaryOp::Ne | BinaryOp::And
            | BinaryOp::Or | BinaryOp::BitAnd | BinaryOp::BitOr | BinaryOp::BitXor => true,
            _ => false,
        }
    }

    /// CSE over the instructions of one block, starting from the
    /// replacements made before it, which it updates.
    fn cse_block(&mut self, insts: Vec<Instruction>, replacements: &mut HashMap<u32, VarId>) -> (out: Vec<Instruction>)
        requires
            old(self)@.cse_hits + cse_insts(insts_view(insts@), block_start(old(replacements)@)).2 <= usize::MAX,
        ensures
            insts_view(out@) == cse_insts(insts_view(insts@), block_start(old(replacements)@)).0,
            final(replacements)@ == cse_insts(insts_view(insts@), block_start(old(replacements)@)).1.repl,
            final(self)@ == add_hits(old(self)@, cse_insts(insts_view(insts@), block_start(old(replacements)@)).2),
    {
        let ghost s = insts_view(insts@);
        let ghost orig = insts@;
        let ghost stats0 = self@;
        let ghost st0 = block_start(replacements@);
        let mut available: Vec<(ExprKey, VarId)> = Vec::new();
        let mut out: Vec<Instruction> = Vec::new();
        proof {
            assert(s.take(0) =~= Seq::<InstView>::empty());
            assert(insts_view(out@) =~= Seq::<InstView>::empty());
        }
        for inst0 in it: insts.into_iter()
            invariant
                it.seq() == orig,
                s == insts_view(orig),
                0 <= it.index() <= orig.len(),
                stats0.cse_hits + cse_insts(s, st0).2 <= usize::MAX,
                insts_view(out@) == cse_insts(s.take(it.index()), st0).0,
                available@ == cse_insts(s.take(it.index()), st0).1.avail,
                replacements@ == cse_insts(s.take(it.index()), st0).1.repl,
                self@ == add_hits(stats0, cse_insts(s.take(it.index()), st0).2),
        {
            let ghost k = it.index();
            proof {
                assert(s.take(k + 1).drop_last() =~= s.take(k));
                assert(s.take(k + 1).last() == s[k]);
                assert(s[k] == inst0@);
                lemma_cse_hits_prefix(s, st0, k + 1);
            }
            let inst = apply_replacements(inst0, replacements);
            match inst {
                Instruction::Binary { dest, op, left, right, ty } => {
                    let key = ExprKey::Binary { op, left, right };
                    match find_available(&available, key) {
                        Some(existing) => {
                            replacements.insert(dest.0, existing);
                            self.stats.cse_hits = self.stats.cse_hits + 1;
                        },
                        None => {
                            let swapped = ExprKey::Binary { op, left: right, right: left };
                            let found = if self.is_commutative(op) {
                                find_available(&available, swapped)
                            } else {
                                None
                            };
                            match found {
                                Some(existing) => {
                                    replacements.insert(dest.0, existing);
                                    self.stats.cse_hits = self.stats.cse_hits + 1;
                                },
                                None => {
                                    available.push((key, dest));
                                    out.push(Instruction::Binary { dest, op, left, right, ty });
                                },
                            }
                        },
                    }
                },
                Instruction::Unary { dest, op, operand, ty } => {
                    let key = ExprKey::Unary { op, operand };
                    match find_available(&available, key) {
                        Some(existing) => {
                            replacements.insert(dest.0, existing);
                            self.stats.cse_hits = self.stats.cse_hits + 1;
                        },
                        None => {
                            available.push((key, dest));
                            out.push(Instruction::Unary { dest, op, operand, ty });
                        },
                    }
                },
                other => {
                    out.push(other);
                },
            }
            proof {
                assert(insts_view(out@) =~= cse_insts(s.take(k + 1), st0).0);
            }
        }
        proof {
            assert(s.take(orig.len() as int) =~= s);
        }
        out
    }

    /// CSE over every block of a function, in order, with the replacements
    /// of each block carried into the blocks after it.
    fn eliminate_common_subexpressions(&mut self, f: Function) -> (r: Function)
        requires
            old(self)@.cse_hits + cse_blocks_hits(f@.blocks) <= usize::MAX,
        ensures
            r@ == cse_function(f@),
            final(self)@ == add_hits(old(self)@, cse_blocks_hits(f@.blocks)),
    {
        let Function { id, name, params, return_type, blocks, var_counter, block_counter, is_async } = f;
        let ghost bs = blocks_view(blocks@);
        let ghost orig = blocks@;
        let ghost stats0 = self@;
        let mut out: Vec<BasicBlock> = Vec::new();
        let mut replacements: HashMap<u32, VarId> = HashMap::new();
        proof {
            assert(bs.take(0) =~= Seq::<BlockView>::empty());
            assert(replacements@ =~= Map::<u32, VarId>::empty());
            assert(blocks_view(out@) =~= Seq::<BlockView>::empty());
        }
        for b in it: blocks.into_iter()
            invariant
                it.seq() == orig,
                bs == blocks_view(orig),
                0 <= it.index() <= orig.len(),
                stats0.cse_hits + cse_blocks_hits(bs) <= usize::MAX,
                blocks_view(out@) == cse_blocks(bs.take(it.index()), Map::empty()).0,
                replacements@ == cse_blocks(bs.take(it.index()), Map::empty()).1,
                self@ == add_hits(stats0, cse_blocks(bs.take(it.index()), Map::empty()).2),
        {
            let ghost k = it.index();
            proof {
                assert(bs.take(k + 1).drop_last() =~= bs.take(k));
                assert(bs.take(k + 1).last() == bs[k]);
                assert(bs[k] == b@);
                lemma_cse_blocks_prefix(bs, Map::empty(), k + 1);
            }
            let BasicBlock { id, label, instructions, predecessors, successors } = b;
            let insts = self.cse_block(instructions, &mut replacements);
            out.push(BasicBlock { id, label, instructions: insts, predecessors, successors });
            proof {
                assert(blocks_view(out@) =~= cse_blocks(bs.take(k + 1), Map::empty()).0);
            }
        }
        proof {
            assert(bs.take(orig.len() as int) =~= bs);
            reveal(cse_function);
        }
        Function { id, name, params, return_type, blocks: out, var_counter, block_counter, is_async }
    }

    /// Runs CSE on every function of the module.
    pub fn run(&mut self, module: &mut Module)
        requires
            old(self)@.cse_hits + cse_total_hits(functions_view(old(module).functions@)) <= usize::MAX,
        ensures
            functions_view(final(module).functions@) == functions_view(
                old(module).functions@,
            ).map_values(|f: FunctionView| cse_function(f)),
            final(self)@ == add_hits(old(self)@, cse_total_hits(functions_view(old(module).functions@))),
            final(module).name == old(module).name,
            final(module).strings == old(module).strings,
            final(module).classes == old(module).classes,
            final(module).globals == old(module).globals,
    {
        let mut functions: Vec<Function> = Vec::new();
        std::mem::swap(&mut functions, &mut module.functions);
        let ghost fs = functions_view(functions@);
        let ghost orig = functions@;
        let ghost stats0 = self@;
        let mut out: Vec<Function> = Vec::new();
        proof {
            assert(fs.take(0) =~= Seq::<FunctionView>::empty());
        }
        for f in it: functions.into_iter()
            invariant
                it.seq() == orig,
                fs == functions_view(orig),
                0 <= it.index() <= orig.len(),
                stats0.cse_hits + cse_total_hits(fs) <= usize::MAX,
                out@.len() == it.index(),
                forall|j: int| 0 <= j < it.index() ==> #[trigger] out@[j]@ == cse_function(fs[j]),
                self@ == add_hits(stats0, cse_total_hits(fs.take(it.index()))),
        {
            let ghost k = it.index();
            proof {
                assert(fs.take(k + 1).drop_last() =~= fs.take(k));
                assert(fs.take(k + 1).last() == fs[k]);
                assert(fs[k] == f@);
                lemma_cse_total_prefix(fs, k + 1);
            }
            let g = self.eliminate_common_subexpressions(f);
            out.push(g);
        }
        proof {
            assert(fs.take(orig.len() as int) =~= fs);
            assert(functions_view(out@) =~= fs.map_values(|f: FunctionView| cse_function(f)));
        }
        module.functions = out;
    }
}

proof fn lemma_cse_hits_prefix(s: Seq<InstView>, st: CseState, k: int)
    requires
        0 <= k <= s.len(),
    ensures
        cse_insts(s.take(k), st).2 <= cse_insts(s, st).2,
    decreases s.len(),
{
    if k < s.len() {
        lemma_cse_hits_prefix(s.drop_last(), st, k);
        assert(s.drop_last().take(k) =~= s.take(k));
    } else {
        assert(s.take(k) =~= s);
    }
}

proof fn lemma_cse_blocks_prefix(bs: Seq<BlockView>, repl: Map<u32, VarId>, k: int)
    requires
        0 <= k <= bs.len(),
    ensures
        cse_blocks(bs.take(k), repl).2 <= cse_blocks(bs, repl).2,
    decreases bs.len(),
{
    if k < bs.len() {
        lemma_cse_blocks_prefix(bs.drop_last(), repl, k);
        assert(bs.drop_last().take(k) =~= bs.take(k));
    } else {
        assert(bs.take(k) =~= bs);
    }
}

proof fn lemma_cse_total_prefix(fs: Seq<FunctionView>, k: int)
    requires
        0 <= k <= fs.len(),
    ensures
        cse_total_hits(fs.take(k)) <= cse_total_hits(fs),
    decreases fs.len(),
{
    if k < fs.len() {
        lemma_cse_total_prefix(fs.drop_last(), k);
        assert(fs.drop_last().take(k) =~= fs.take(k));
    } else {
        assert(fs.take(k) =~= fs);
    }
}

impl Default for CommonSubexprElim {
    fn default() -> (r: Self)
        ensures
            r@.is_zero(),
    {
        Self::new()
    }
}

proof fn lemma_cse_insts_len(s: Seq<InstView>, st: CseState)
    ensures
        cse_insts(s, st).0.len() + cse_insts(s, st).2 == s.len(),
    decreases s.len(),
{
    if s.len() > 0 {
        lemma_cse_insts_len(s.drop_last(), st);
    }
}

/// Each repeated computation that CSE finds removes one instruction of the
/// block, and CSE removes no other, whatever replacements the blocks before
/// it made.
pub proof fn law_cse_removes_one_per_hit(b: BlockView, repl: Map<u32, VarId>)
    ensures
        cse_insts(b.instructions, block_start(repl)).0.len() + cse_insts(b.instructions, block_start(repl)).2
            == b.instructions.len(),
{
    lemma_cse_insts_len(b.instructions, block_start(repl));
}

/// CSE forgets no replacement: a result dropped in one block is still
/// replaced after the blocks that follow it.
pub proof fn law_cse_keeps_replacements(bs: Seq<BlockView>, repl: Map<u32, VarId>, v: u32)
    requires
        repl.dom().contains(v),
    ensures
        cse_blocks(bs, repl).1.dom().contains(v),
    decreases bs.len(),
{
    if bs.len() > 0 {
        law_cse_keeps_replacements(bs.drop_last(), repl, v);
        lemma_insts_keep_repl(bs.last().instructions, block_start(cse_blocks(bs.drop_last(), repl).1), v);
    }
}

proof fn lemma_insts_keep_repl(s: Seq<InstView>, st: CseState, v: u32)
    requires
        st.repl.dom().contains(v),
    ensures
        cse_insts(s, st).1.repl.dom().contains(v),
    decreases s.len(),
{
    if s.len() > 0 {
        lemma_insts_keep_repl(s.drop_last(), st, v);
    }
}

/// The variables that the binary and unary instructions of a sequence
/// define.
pub open spec fn computed_dests(s: Seq<InstView>) -> Set<u32>
    decreases s.len(),
{
    if s.len() == 0 {
        Set::empty()
    } else {
        match s.last() {
            InstView::Binary { dest, .. } => computed_dests(s.drop_last()).insert(dest.0),
            InstView::Unary { dest, .. } => computed_dests(s.drop_last()).insert(dest.0),
            _ => computed_dests(s.drop_last()),
        }
    }
}

/// The same over the instructions of a sequence of blocks.
pub open spec fn blocks_computed_dests(bs: Seq<BlockView>) -> Set<u32>
    decreases bs.len(),
{
    if bs.len() == 0 {
        Set::empty()
    } else {
        blocks_computed_dests(bs.drop_last()).union(computed_dests(bs.last().instructions))
    }
}

/// Every replacement and every available computation names a variable in
/// `d`.
pub open spec fn state_within(st: CseState, d: Set<u32>) -> bool {
    &&& forall|k: u32| #[trigger] st.repl.dom().contains(k) ==> d.contains(st.repl[k].0)
    &&& forall|j: int| 0 <= j < st.avail.len() ==> d.contains(#[trigger] st.avail[j].1.0)
}

proof fn lemma_lookup_in(avail: Seq<(ExprKey, VarId)>, key: ExprKey)
    requires
        lookup_key(avail, key) is Some,
    ensures
        exists|j: int| 0 <= j < avail.len() && avail[j].1 == lookup_key(avail, key).unwrap(),
    decreases avail.len(),
{
    if avail[0].0 != key {
        lemma_lookup_in(avail.drop_first(), key);
        let j = choose|j: int|
            0 <= j < avail.drop_first().len() && avail.drop_first()[j].1 == lookup_key(avail.drop_first(), key).unwrap();
        assert(avail[j + 1] == avail.drop_first()[j]);
    } else {
        assert(avail[0].1 == lookup_key(avail, key).unwrap());
    }
}

#[verifier::rlimit(40)]
proof fn lemma_insts_within(s: Seq<InstView>, st: CseState, d: Set<u32>)
    requires
        state_within(st, d),
    ensures
        state_within(cse_insts(s, st).1, d.union(computed_dests(cse_insts(s, st).0))),
    decreases s.len(),
{
    if s.len() > 0 {
        lemma_insts_within(s.drop_last(), st, d);
        let (pre, st1, n1) = cse_insts(s.drop_last(), st);
        let d1 = d.union(computed_dests(pre));
        let i = apply_repl(s.last(), st1.repl);
        let (emitted, st2, hit) = cse_step(s.last(), st1);
        let out = cse_insts(s, st).0;
        assert(d1.subset_of(d.union(computed_dests(out)))) by {
            match emitted {
                Some(e) => {
                    assert(out == pre.push(e));
                    assert(out.drop_last() =~= pre);
                },
                None => {},
            }
        }
        match i {
            InstView::Binary { dest, op, left, right, .. } => {
                let key = ExprKey::Binary { op, left, right };
                let swapped = ExprKey::Binary { op, left: right, right: left };
                if lookup_key(st1.avail, key) is Some {
                    lemma_lookup_in(st1.avail, key);
                } else if spec_is_commutative(op) && lookup_key(st1.avail, swapped) is Some {
                    lemma_lookup_in(st1.avail, swapped);
                } else {
                    assert(out == pre.push(i));
                    assert(out.drop_last() =~= pre);
                    assert(computed_dests(out).contains(dest.0));
                }
            },
            InstView::Unary { dest, op, operand, .. } => {
                let key = ExprKey::Unary { op, operand };
                if lookup_key(st1.avail, key) is Some {
                    lemma_lookup_in(st1.avail, key);
                } else {
                    assert(out == pre.push(i));
                    assert(out.drop_last() =~= pre);
                    assert(computed_dests(out).contains(dest.0));
                }
            },
            _ => {},
        }
    }
}

proof fn lemma_blocks_within(bs: Seq<BlockView>, repl: Map<u32, VarId>, d: Set<u32>)
    requires
        forall|k: u32| #[trigger] repl.dom().contains(k) ==> d.contains(repl[k].0),
    ensures
        forall|k: u32| #[trigger] cse_blocks(bs, repl).1.dom().contains(k)
            ==> d.union(blocks_computed_dests(cse_blocks(bs, repl).0)).contains(cse_blocks(bs, repl).1[k].0),
    decreases bs.len(),
{
    if bs.len() > 0 {
        lemma_blocks_within(bs.drop_last(), repl, d);
        let (pre, r1, n1) = cse_blocks(bs.drop_last(), repl);
        let d1 = d.union(blocks_computed_dests(pre));
        let st0 = block_start(r1);
        assert(state_within(st0, d1));
        lemma_insts_within(bs.last().instructions, st0, d1);
        let (insts, st, n2) = cse_insts(bs.last().instructions, st0);
        let out = cse_blocks(bs, repl).0;
        assert(out.drop_last() =~= pre);
        assert(out.last().instructions == insts);
        assert(d1.union(computed_dests(insts)) =~= d.union(blocks_computed_dests(out)));
    }
}

/// CSE redirects each read of a dropped result to a result that it keeps:
/// every replacement it makes names a variable defined by a computation
/// left in the function.
pub proof fn law_cse_replacements_stay_defined(f: FunctionView, k: u32)
    requires
        cse_blocks(f.blocks, Map::empty()).1.dom().contains(k),
    ensures
        blocks_computed_dests(cse_function(f).blocks).contains(cse_blocks(f.blocks, Map::empty()).1[k].0),
{
    lemma_blocks_within(f.blocks, Map::empty(), Set::empty());
    reveal(cse_function);
    assert(Set::<u32>::empty().union(blocks_computed_dests(cse_blocks(f.blocks, Map::empty()).0))
        =~= blocks_computed_dests(cse_blocks(f.blocks, Map::empty()).0));
}

proof fn lemma_uses_apply_repl(i: InstView, r: Map<u32, VarId>)
    ensures
        inst_uses(apply_repl(i, r)) == replace_vars(inst_uses(i), r),
        defined_var(apply_repl(i, r)) == defined_var(i),
{
    match i {
        InstView::Call { args, .. } => {
            assert(inst_uses(apply_repl(i, r)) =~= replace_vars(inst_uses(i), r));
        },
        InstView::CallIndirect { func_ptr, args, .. } => {
            assert(inst_uses(apply_repl(i, r)) =~= replace_vars(inst_uses(i), r));
        },
        InstView::CallMethod { object, args, .. } => {
            assert(inst_uses(apply_repl(i, r)) =~= replace_vars(inst_uses(i), r));
        },
        InstView::CallVirtual { object, args, .. } => {
            assert(inst_uses(apply_repl(i, r)) =~= replace_vars(inst_uses(i), r));
        },
        InstView::NewArray { elements, .. } => {
            assert(inst_uses(apply_repl(i, r)) =~= replace_vars(inst_uses(i), r));
        },
        InstView::Phi { incoming, .. } => {
            assert(inst_uses(apply_repl(i, r)) =~= replace_vars(inst_uses(i), r));
        },
        _ => {
            assert(inst_uses(apply_repl(i, r)) =~= replace_vars(inst_uses(i), r));
        },
    }
}

/// The variables that a sequence of instructions defines.
pub open spec fn dests_set(s: Seq<InstView>) -> Set<u32>
    decreases s.len(),
{
    if s.len() == 0 {
        Set::empty()
    } else {
        match defined_var(s.last()) {
            Some(d) => dests_set(s.drop_last()).insert(d.0),
            None => dests_set(s.drop_last()),
        }
    }
}

/// The variables that a sequence of blocks defines.
pub open spec fn blocks_dests(bs: Seq<BlockView>) -> Set<u32>
    decreases bs.len(),
{
    if bs.len() == 0 {
        Set::empty()
    } else {
        blocks_dests(bs.drop_last()).union(dests_set(bs.last().instructions))
    }
}

/// Each instruction of `s` defines a variable that neither `seen` nor an
/// earlier instruction of `s` defines.
pub open spec fn fresh_defs(seen: Set<u32>, s: Seq<InstView>) -> bool
    decreases s.len(),
{
    s.len() == 0 || {
        &&& fresh_defs(seen, s.drop_last())
        &&& match defined_var(s.last()) {
            Some(d) => !seen.contains(d.0) && !dests_set(s.drop_last()).contains(d.0),
            None => true,
        }
    }
}

/// Each instruction of `s` reads only variables defined in `seen` or by an
/// earlier instruction of `s`, or variables that `all` does not hold.
pub open spec fn reads_after_defs(seen: Set<u32>, s: Seq<InstView>, all: Set<u32>) -> bool
    decreases s.len(),
{
    s.len() == 0 || {
        &&& reads_after_defs(seen, s.drop_last(), all)
        &&& forall|x: int|
            0 <= x < inst_uses(s.last()).len() ==> seen.union(dests_set(s.drop_last())).contains(
                #[trigger] inst_uses(s.last())[x].0,
            ) || !all.contains(inst_uses(s.last())[x].0)
    }
}

/// In block order, every instruction defines a new variable.
pub open spec fn blocks_fresh(bs: Seq<BlockView>) -> bool
    decreases bs.len(),
{
    bs.len() == 0 || (blocks_fresh(bs.drop_last()) && fresh_defs(blocks_dests(bs.drop_last()), bs.last().instructions))
}

/// In block order, every instruction reads only variables defined before it
/// or defined nowhere in the blocks.
pub open spec fn blocks_read_after_defs(bs: Seq<BlockView>, all: Set<u32>) -> bool
    decreases bs.len(),
{
    bs.len() == 0 || (blocks_read_after_defs(bs.drop_last(), all) && reads_after_defs(
        blocks_dests(bs.drop_last()),
        bs.last().instructions,
        all,
    ))
}

/// Every variable that `e` reads was defined (in `seen`) and is not replaced
/// (not in `dom`), or is defined nowhere (not in `all`).
pub open spec fn uses_ok(e: InstView, seen: Set<u32>, dom: Set<u32>, all: Set<u32>) -> bool {
    forall|x: int|
        0 <= x < inst_uses(e).len() ==> (seen.contains(#[trigger] inst_uses(e)[x].0) && !dom.contains(
            inst_uses(e)[x].0,
        )) || !all.contains(inst_uses(e)[x].0)
}

/// The state of CSE names only variables defined so far, and no replaced
/// variable stands for one.
pub open spec fn state_ok(st: CseState, seen: Set<u32>) -> bool {
    &&& forall|k: u32| #[trigger] st.repl.dom().contains(k) ==> seen.contains(k)
    &&& forall|k: u32|
        #[trigger] st.repl.dom().contains(k) ==> seen.contains(st.repl[k].0) && !st.repl.dom().contains(
            st.repl[k].0,
        )
    &&& forall|j: int|
        0 <= j < st.avail.len() ==> seen.contains(#[trigger] st.avail[j].1.0) && !st.repl.dom().contains(
            st.avail[j].1.0,
        )
}

proof fn lemma_uses_ok_grow(e: InstView, seen: Set<u32>, dom: Set<u32>, seen2: Set<u32>, dom2: Set<u32>, all: Set<u32>)
    requires
        uses_ok(e, seen, dom, all),
        seen.subset_of(seen2),
        forall|k: u32| #[trigger] dom2.contains(k) ==> dom.contains(k) || !seen.contains(k),
    ensures
        uses_ok(e, seen2, dom2, all),
{
    assert forall|x: int| 0 <= x < inst_uses(e).len() implies (seen2.contains(#[trigger] inst_uses(e)[x].0)
        && !dom2.contains(inst_uses(e)[x].0)) || !all.contains(inst_uses(e)[x].0) by {
        let v = inst_uses(e)[x].0;
        if seen.contains(v) && !dom.contains(v) {
            assert(seen2.contains(v));
        }
    }
}

proof fn lemma_dests_subset(s: Seq<InstView>, all: Set<u32>, seen: Set<u32>)
    requires
        seen.union(dests_set(s)).subset_of(all),
    ensures
        seen.subset_of(all),
        forall|k: int| 0 <= k <= s.len() ==> seen.union(#[trigger] dests_set(s.take(k))).subset_of(all),
    decreases s.len(),
{
    if s.len() > 0 {
        assert(seen.union(dests_set(s.drop_last())).subset_of(all));
        lemma_dests_subset(s.drop_last(), all, seen);
        assert forall|k: int| 0 <= k <= s.len() implies seen.union(#[trigger] dests_set(s.take(k))).subset_of(
            all,
        ) by {
            if k < s.len() {
                assert(s.drop_last().take(k) =~= s.take(k));
            } else {
                assert(s.take(k) =~= s);
            }
        }
    }
}

#[verifier::rlimit(60)]
proof fn lemma_insts_uses(s: Seq<InstView>, st: CseState, seen: Set<u32>, all: Set<u32>)
    requires
        state_ok(st, seen),
        fresh_defs(seen, s),
        reads_after_defs(seen, s, all),
        seen.union(dests_set(s)).subset_of(all),
    ensures
        state_ok(cse_insts(s, st).1, seen.union(dests_set(s))),
        forall|j: int| 0 <= j < cse_insts(s, st).0.len() ==> uses_ok(
            #[trigger] cse_insts(s, st).0[j],
            seen.union(dests_set(s)),
            cse_insts(s, st).1.repl.dom(),
            all,
        ),
        forall|k: u32| #[trigger] cse_insts(s, st).1.repl.dom().contains(k) ==> st.repl.dom().contains(k) || !seen.contains(k),
    decreases s.len(),
{
    if s.len() > 0 {
        let s0 = s.drop_last();
        assert(seen.union(dests_set(s0)).subset_of(all)) by {
            lemma_dests_subset(s, all, seen);
            assert(s.take(s0.len() as int) =~= s0);
        }
        lemma_insts_uses(s0, st, seen, all);
        let (pre, st1, n1) = cse_insts(s0, st);
        let seen1 = seen.union(dests_set(s0));
        let seen2 = seen.union(dests_set(s));
        let i0 = s.last();
        let i = apply_repl(i0, st1.repl);
        lemma_uses_apply_repl(i0, st1.repl);
        let (emitted, st2, hit) = cse_step(i0, st1);
        let out = cse_insts(s, st).0;
        let dom1 = st1.repl.dom();
        let dom2 = st2.repl.dom();
        assert(seen1.subset_of(seen2));
        // the new variable, if any, is fresh
        assert(defined_var(i0) is Some ==> !seen1.contains(defined_var(i0).unwrap().0));
        assert(forall|k: u32| #[trigger] dom2.contains(k) ==> dom1.contains(k) || (defined_var(i0) is Some && k
            == defined_var(i0).unwrap().0));
        assert forall|k: u32| #[trigger] dom2.contains(k) implies dom1.contains(k) || !seen1.contains(k) by {}
        assert(uses_ok(i, seen1, dom1, all)) by {
            assert forall|x: int| 0 <= x < inst_uses(i).len() implies (seen1.contains(#[trigger] inst_uses(i)[x].0)
                && !dom1.contains(inst_uses(i)[x].0)) || !all.contains(inst_uses(i)[x].0) by {
                let u = inst_uses(i0)[x];
                assert(inst_uses(i)[x] == replace_var(u, st1.repl));
                assert(seen1.contains(u.0) || !all.contains(u.0));
            }
        }
        assert forall|j: int| 0 <= j < out.len() implies uses_ok(#[trigger] out[j], seen2, dom2, all) by {
            if j < pre.len() {
                match emitted {
                    Some(e) => {
                        assert(out[j] == pre[j]);
                    },
                    None => {},
                }
                lemma_uses_ok_grow(pre[j], seen1, dom1, seen2, dom2, all);
            } else {
                assert(emitted == Some(i));
                assert(out[j] == i);
                lemma_uses_ok_grow(i, seen1, dom1, seen2, dom2, all);
            }
        }
        match i {
            InstView::Binary { dest, op, left, right, .. } => {
                let key = ExprKey::Binary { op, left, right };
                let swapped = ExprKey::Binary { op, left: right, right: left };
                if lookup_key(st1.avail, key) is Some {
                    lemma_lookup_in(st1.avail, key);
                } else if spec_is_commutative(op) && lookup_key(st1.avail, swapped) is Some {
                    lemma_lookup_in(st1.avail, swapped);
                }
            },
            InstView::Unary { dest, op, operand, .. } => {
                let key = ExprKey::Unary { op, operand };
                if lookup_key(st1.avail, key) is Some {
                    lemma_lookup_in(st1.avail, key);
                }
            },
            _ => {},
        }
        assert(state_ok(st2, seen2));
    }
}


proof fn lemma_blocks_uses(bs: Seq<BlockView>, all: Set<u32>)
    requires
        blocks_fresh(bs),
        blocks_read_after_defs(bs, all),
        blocks_dests(bs).subset_of(all),
    ensures
        state_ok(block_start(cse_blocks(bs, Map::empty()).1), blocks_dests(bs)),
        forall|j: int, x: int|
            0 <= j < cse_blocks(bs, Map::empty()).0.len() && 0 <= x < cse_blocks(bs, Map::empty()).0[j].instructions.len()
                ==> uses_ok(
                #[trigger] cse_blocks(bs, Map::empty()).0[j].instructions[x],
                blocks_dests(bs),
                cse_blocks(bs, Map::empty()).1.dom(),
                all,
            ),
    decreases bs.len(),
{
    if bs.len() > 0 {
        let b0 = bs.drop_last();
        let seen1 = blocks_dests(b0);
        let s = bs.last().instructions;
        assert(seen1.subset_of(blocks_dests(bs)));
        lemma_blocks_uses(b0, all);
        let (pre, r1, n1) = cse_blocks(b0, Map::empty());
        let st0 = block_start(r1);
        lemma_insts_uses(s, st0, seen1, all);
        let (insts, st, n2) = cse_insts(s, st0);
        let seen2 = blocks_dests(bs);
        assert(seen2 == seen1.union(dests_set(s)));
        let out = cse_blocks(bs, Map::empty()).0;
        assert(out == pre.push(BlockView { instructions: insts, ..bs.last() }));
        assert forall|j: int, x: int| 0 <= j < out.len() && 0 <= x < out[j].instructions.len() implies uses_ok(
            #[trigger] out[j].instructions[x],
            seen2,
            st.repl.dom(),
            all,
        ) by {
            if j < pre.len() {
                assert(out[j] == pre[j]);
                lemma_uses_ok_grow(pre[j].instructions[x], seen1, r1.dom(), seen2, st.repl.dom(), all);
            } else {
                assert(out[j].instructions == insts);
            }
        }
        assert(state_ok(block_start(st.repl), seen2));
    }
}

proof fn lemma_insts_dests(s: Seq<InstView>, st: CseState)
    ensures
        dests_set(s).subset_of(dests_set(cse_insts(s, st).0).union(cse_insts(s, st).1.repl.dom())),
        st.repl.dom().subset_of(cse_insts(s, st).1.repl.dom()),
    decreases s.len(),
{
    if s.len() > 0 {
        let s0 = s.drop_last();
        lemma_insts_dests(s0, st);
        let (pre, st1, n1) = cse_insts(s0, st);
        let i0 = s.last();
        let i = apply_repl(i0, st1.repl);
        lemma_uses_apply_repl(i0, st1.repl);
        let (emitted, st2, hit) = cse_step(i0, st1);
        let out = cse_insts(s, st).0;
        assert(st1.repl.dom().subset_of(st2.repl.dom()));
        assert(dests_set(pre).subset_of(dests_set(out))) by {
            match emitted {
                Some(e) => {
                    assert(out == pre.push(e));
                    assert(out.drop_last() =~= pre);
                },
                None => {},
            }
        }
        match defined_var(i0) {
            Some(d) => {
                match emitted {
                    Some(e) => {
                        assert(e == i);
                        assert(out.drop_last() =~= pre);
                        assert(dests_set(out).contains(d.0));
                    },
                    None => {
                        assert(st2.repl.dom().contains(d.0));
                    },
                }
            },
            None => {},
        }
    }
}

proof fn lemma_blocks_dests(bs: Seq<BlockView>, repl: Map<u32, VarId>)
    ensures
        blocks_dests(bs).subset_of(blocks_dests(cse_blocks(bs, repl).0).union(cse_blocks(bs, repl).1.dom())),
        repl.dom().subset_of(cse_blocks(bs, repl).1.dom()),
    decreases bs.len(),
{
    if bs.len() > 0 {
        lemma_blocks_dests(bs.drop_last(), repl);
        let (pre, r1, n1) = cse_blocks(bs.drop_last(), repl);
        lemma_insts_dests(bs.last().instructions, block_start(r1));
        let out = cse_blocks(bs, repl).0;
        assert(out.drop_last() =~= pre);
    }
}

/// Where each variable is defined once and, in the order of the blocks,
/// read only after its definition, CSE leaves no read of a variable of the
/// function undefined: every such read in the result names a variable that
/// an instruction of the result defines, and none names a dropped result.
pub proof fn law_cse_leaves_every_read_defined(f: FunctionView)
    requires
        blocks_fresh(f.blocks),
        blocks_read_after_defs(f.blocks, blocks_dests(f.blocks)),
    ensures
        forall|j: int, x: int, y: int|
            0 <= j < cse_function(f).blocks.len() && 0 <= x < cse_function(f).blocks[j].instructions.len() && 0
                <= y < inst_uses(cse_function(f).blocks[j].instructions[x]).len() && blocks_dests(f.blocks).contains(
                inst_uses(cse_function(f).blocks[j].instructions[x])[y].0,
            ) ==> blocks_dests(cse_function(f).blocks).contains(
                #[trigger] inst_uses(cse_function(f).blocks[j].instructions[x])[y].0,
            ) && !cse_blocks(f.blocks, Map::empty()).1.dom().contains(
                inst_uses(cse_function(f).blocks[j].instructions[x])[y].0,
            ),
{
    reveal(cse_function);
    let all = blocks_dests(f.blocks);
    lemma_blocks_uses(f.blocks, all);
    lemma_blocks_dests(f.blocks, Map::empty());
    let out = cse_blocks(f.blocks, Map::empty()).0;
    assert forall|j: int, x: int, y: int|
        0 <= j < out.len() && 0 <= x < out[j].instructions.len() && 0 <= y < inst_uses(out[j].instructions[x]).len()
            && all.contains(inst_uses(out[j].instructions[x])[y].0) implies blocks_dests(out).contains(
        #[trigger] inst_uses(out[j].instructions[x])[y].0,
    ) && !cse_blocks(f.blocks, Map::empty()).1.dom().contains(inst_uses(out[j].instructions[x])[y].0) by {
        assert(uses_ok(out[j].instructions[x], all, cse_blocks(f.blocks, Map::empty()).1.dom(), all));
    }
}

/// CSE takes a computation with its operands swapped for a repeat only
/// where the operator's value does not depend on their order: for an
/// operator that it treats as commutative, any two constants give the same
/// value in either order.
pub proof fn law_cse_swaps_only_commutative_operators(op: BinaryOp, l: Constant, r: Constant)
    requires
        spec_is_commutative(op),
    ensures
        fold_binary_spec(op, l, r) == fold_binary_spec(op, r, l),
{
    match (l, r) {
        (Constant::Int(a), Constant::Int(b)) => {
            assert(a * b == b * a) by (nonlinear_arith);
            assert(a & b == b & a) by (bit_vector);
            assert(a | b == b | a) by (bit_vector);
            assert(a ^ b == b ^ a) by (bit_vector);
        },
        _ => {},
    }
}
} // verus!
