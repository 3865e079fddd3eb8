//! Loop analysis and the loop passes: natural loops found from back edges,
//! loop-invariant code motion, and the strength-reduction and unrolling
//! scans.
use std::collections::HashMap;
use std::collections::HashSet;
use vstd::prelude::*;

use crate::instruction::{
    insts_view, BinaryOp, BlockId, Constant, InstView, Instruction, IrType, TypeView, VarId,
};
use crate::opt::inline::inst_count;
use crate::opt::stats::OptStats;
use crate::program::{
    ends_with_terminator, block_position, blocks_view, find_block, functions_view, lemma_find_block, params_view, BasicBlock,
    BlockView, Function, FunctionView, Module, ParamView,
};

verus! {

broadcast use vstd::std_specs::hash::group_hash_axioms;

/// How an induction variable changes on each trip round the loop.
#[derive(Debug, Clone, Copy, PartialEq, Eq, Structural)]
pub enum InductionStep {
    Constant(i64),
    Variable(VarId),
    Multiply(i64),
}

/// A variable of the loop header that steps by a fixed rule.
#[derive(Debug, Clone, Copy)]
pub struct InductionVar {
    pub var: VarId,
    pub init: VarId,
    pub step: InductionStep,
    pub final_val: Option<VarId>,
}

/// The predecessors that one block's successor list gives to `x`: the
/// block's id once for each time it names `x`.
pub open spec fn preds_from(succs: Seq<BlockId>, id: BlockId, x: BlockId) -> Seq<BlockId>
    decreases succs.len(),
{
    if succs.len() == 0 {
        Seq::empty()
    } else {
        preds_from(succs.drop_last(), id, x) + if succs.last() == x {
            seq![id]
        } else {
            Seq::<BlockId>::empty()
        }
    }
}

/// The predecessors of `x` by the blocks' successor lists, in block order.
pub open spec fn preds_of(bs: Seq<BlockView>, x: BlockId) -> Seq<BlockId>
    decreases bs.len(),
{
    if bs.len() == 0 {
        Seq::empty()
    } else {
        preds_of(bs.drop_last(), x) + preds_from(bs.last().successors, bs.last().id, x)
    }
}

/// The position of a block id in the function: that of the last block with
/// that id.
pub open spec fn block_order(bs: Seq<BlockView>, id: BlockId) -> Option<int>
    decreases bs.len(),
{
    if bs.len() == 0 {
        None
    } else if bs.last().id == id {
        Some(bs.len() - 1)
    } else {
        block_order(bs.drop_last(), id)
    }
}

/// The back edges out of block `from`: each successor that does not come
/// after it, in successor order.
pub open spec fn back_edges_from(bs: Seq<BlockView>, from: BlockId, succs: Seq<BlockId>) -> Seq<(BlockId, BlockId)>
    decreases succs.len(),
{
    if succs.len() == 0 {
        Seq::empty()
    } else {
        back_edges_from(bs, from, succs.drop_last()) + match (
            block_order(bs, from),
            block_order(bs, succs.last()),
        ) {
            (Some(f), Some(t)) => if t <= f {
                seq![(from, succs.last())]
            } else {
                Seq::<(BlockId, BlockId)>::empty()
            },
            _ => Seq::<(BlockId, BlockId)>::empty(),
        }
    }
}

/// The back edges out of the first `n` blocks, as (source, header) pairs.
pub open spec fn back_edges_upto(bs: Seq<BlockView>, n: int) -> Seq<(BlockId, BlockId)>
    decreases n,
{
    if n <= 0 {
        Seq::empty()
    } else {
        back_edges_upto(bs, n - 1) + back_edges_from(bs, bs[n - 1].id, bs[n - 1].successors)
    }
}

/// All back edges of a function, in block and successor order.
pub open spec fn back_edges(bs: Seq<BlockView>) -> Seq<(BlockId, BlockId)> {
    back_edges_upto(bs, bs.len() as int)
}

/// The blocks of the loop of back edge `from -> header` found in at most
/// `n` steps back from `from`, never past the header.
pub open spec fn loop_within(bs: Seq<BlockView>, from: BlockId, header: BlockId, n: nat) -> Set<BlockId>
    decreases n,
{
    if n == 0 {
        set![header, from]
    } else {
        let r = loop_within(bs, from, header, (n - 1) as nat);
        r.union(
            Set::new(
                |p: BlockId| exists|y: BlockId| r.contains(y) && y != header && #[trigger] preds_of(bs, y).contains(p),
            ),
        )
    }
}

/// Whether block `x` belongs to the natural loop of `from -> header`.
pub open spec fn in_natural_loop(bs: Seq<BlockView>, from: BlockId, header: BlockId, x: BlockId) -> bool {
    exists|n: nat| #[trigger] loop_within(bs, from, header, n).contains(x)
}

/// The natural loop of the back edge `from -> header`: the header and every
/// block from which `from` is reached without passing the header.
pub open spec fn natural_loop(bs: Seq<BlockView>, from: BlockId, header: BlockId) -> Set<BlockId> {
    Set::new(|x: BlockId| in_natural_loop(bs, from, header, x))
}

/// The predecessors in `ps` that lie outside the loop, in order.
pub open spec fn outside_preds(ps: Seq<BlockId>, l: Set<BlockId>) -> Seq<BlockId>
    decreases ps.len(),
{
    if ps.len() == 0 {
        Seq::empty()
    } else if l.contains(ps.last()) {
        outside_preds(ps.drop_last(), l)
    } else {
        outside_preds(ps.drop_last(), l).push(ps.last())
    }
}

/// The preheader: the one predecessor of the header from outside the loop,
/// where there is exactly one.
pub open spec fn preheader_spec(bs: Seq<BlockView>, header: BlockId, l: Set<BlockId>) -> Option<BlockId> {
    let ext = outside_preds(preds_of(bs, header), l);
    if ext.len() == 1 {
        Some(ext[0])
    } else {
        None
    }
}

/// The integer that the first integer constant instruction defining `v`
/// gives it, in a sequence of instructions.
pub open spec fn const_in_insts(s: Seq<InstView>, v: VarId) -> Option<i64>
    decreases s.len(),
{
    if s.len() == 0 {
        None
    } else {
        match const_in_insts(s.drop_last(), v) {
            Some(c) => Some(c),
            None => match s.last() {
                InstView::Const { dest, value: Constant::Int(c), .. } => if dest == v {
                    Some(c)
                } else {
                    None
                },
                _ => None,
            },
        }
    }
}

/// The same over the blocks of a function, in order.
pub open spec fn const_in_blocks(bs: Seq<BlockView>, v: VarId) -> Option<i64>
    decreases bs.len(),
{
    if bs.len() == 0 {
        None
    } else {
        match const_in_blocks(bs.drop_last(), v) {
            Some(c) => Some(c),
            None => const_in_insts(bs.last().instructions, v),
        }
    }
}

/// The step that instruction `i` shows for the phi variable `phi` updated
/// to `result`, where the search stops at `i`.
pub open spec fn step_at(bs: Seq<BlockView>, i: InstView, result: VarId, phi: VarId) -> Option<InductionStep> {
    match i {
        InstView::Binary { dest, op: BinaryOp::Add, left, right, .. } => if dest != result {
            None
        } else if left == phi {
            Some(
                match const_in_blocks(bs, right) {
                    Some(c) => InductionStep::Constant(c),
                    None => InductionStep::Variable(right),
                },
            )
        } else if right == phi {
            Some(
                match const_in_blocks(bs, left) {
                    Some(c) => InductionStep::Constant(c),
                    None => InductionStep::Variable(left),
                },
            )
        } else {
            None
        },
        InstView::Binary { dest, op: BinaryOp::Sub, left, right, .. } => if dest == result && left == phi {
            match const_in_blocks(bs, right) {
                Some(c) => Some(InductionStep::Constant((-c) as i64)),
                None => None,
            }
        } else {
            None
        },
        InstView::Binary { dest, op: BinaryOp::Mul, left, right, .. } => if dest != result {
            None
        } else if left == phi && const_in_blocks(bs, right) is Some {
            Some(InductionStep::Multiply(const_in_blocks(bs, right)->0))
        } else if right == phi && const_in_blocks(bs, left) is Some {
            Some(InductionStep::Multiply(const_in_blocks(bs, left)->0))
        } else {
            None
        },
        _ => None,
    }
}

/// Whether `step_at` on `i` negates the least `i64`.
pub open spec fn step_overflows_at(bs: Seq<BlockView>, i: InstView, result: VarId, phi: VarId) -> bool {
    match i {
        InstView::Binary { dest, op: BinaryOp::Sub, left, right, .. } => dest == result && left == phi
            && const_in_blocks(bs, right) == Some(i64::MIN),
        _ => false,
    }
}

/// The step found by the first instruction of `s` at which the search stops.
pub open spec fn step_in_insts(bs: Seq<BlockView>, s: Seq<InstView>, result: VarId, phi: VarId) -> Option<InductionStep>
    decreases s.len(),
{
    if s.len() == 0 {
        None
    } else {
        match step_in_insts(bs, s.drop_last(), result, phi) {
            Some(st) => Some(st),
            None => step_at(bs, s.last(), result, phi),
        }
    }
}

/// Whether the search over `s` stops at a negation of the least `i64`.
pub open spec fn step_overflows_in_insts(bs: Seq<BlockView>, s: Seq<InstView>, result: VarId, phi: VarId) -> bool
    decreases s.len(),
{
    if s.len() == 0 {
        false
    } else if step_in_insts(bs, s.drop_last(), result, phi) is Some {
        step_overflows_in_insts(bs, s.drop_last(), result, phi)
    } else {
        step_overflows_at(bs, s.last(), result, phi)
    }
}

/// The step of the phi variable `phi` whose update `result` is made in
/// block `b` (the first block with that id).
pub open spec fn induction_step_spec(bs: Seq<BlockView>, b: BlockId, result: VarId, phi: VarId) -> Option<InductionStep> {
    match find_block(bs, b) {
        Some(k) => step_in_insts(bs, bs[k].instructions, result, phi),
        None => None,
    }
}

/// Whether finding that step negates the least `i64`.
pub open spec fn induction_step_overflows(bs: Seq<BlockView>, b: BlockId, result: VarId, phi: VarId) -> bool {
    match find_block(bs, b) {
        Some(k) => step_overflows_in_insts(bs, bs[k].instructions, result, phi),
        None => false,
    }
}

/// The last incoming value of a phi from outside the loop, and the last
/// one from inside it with its block.
pub open spec fn phi_split(inc: Seq<(VarId, BlockId)>, l: Set<BlockId>) -> (Option<VarId>, Option<(VarId, BlockId)>)
    decreases inc.len(),
{
    if inc.len() == 0 {
        (None, None)
    } else {
        let pre = phi_split(inc.drop_last(), l);
        if l.contains(inc.last().1) {
            (pre.0, Some(inc.last()))
        } else {
            (Some(inc.last().0), pre.1)
        }
    }
}

/// The induction variable that a header instruction defines, if any: an
/// integer phi with values from outside and inside the loop whose inside
/// update has a recognised step.
pub open spec fn iv_of(bs: Seq<BlockView>, l: Set<BlockId>, i: InstView) -> Option<InductionVar> {
    match i {
        InstView::Phi { dest, ty: TypeView::Int, incoming } => {
            let sp = phi_split(incoming, l);
            match (sp.0, sp.1) {
                (Some(init), Some(upd)) => match induction_step_spec(bs, upd.1, upd.0, dest) {
                    Some(step) => Some(InductionVar { var: dest, init, step, final_val: None }),
                    None => None,
                },
                _ => None,
            }
        },
        _ => None,
    }
}

/// Whether finding the induction variable of a header instruction negates
/// the least `i64`.
pub open spec fn iv_overflows(bs: Seq<BlockView>, l: Set<BlockId>, i: InstView) -> bool {
    match i {
        InstView::Phi { dest, ty: TypeView::Int, incoming } => {
            let sp = phi_split(incoming, l);
            match (sp.0, sp.1) {
                (Some(init), Some(upd)) => induction_step_overflows(bs, upd.1, upd.0, dest),
                _ => false,
            }
        },
        _ => false,
    }
}

/// The induction variables of a sequence of header instructions.
pub open spec fn ivs_in_insts(bs: Seq<BlockView>, l: Set<BlockId>, s: Seq<InstView>) -> Seq<InductionVar>
    decreases s.len(),
{
    if s.len() == 0 {
        Seq::empty()
    } else {
        let pre = ivs_in_insts(bs, l, s.drop_last());
        match iv_of(bs, l, s.last()) {
            Some(iv) => pre.push(iv),
            None => pre,
        }
    }
}

/// Whether some header instruction of `s` overflows.
pub open spec fn ivs_overflow_in_insts(bs: Seq<BlockView>, l: Set<BlockId>, s: Seq<InstView>) -> bool {
    exists|j: int| 0 <= j < s.len() && iv_overflows(bs, l, #[trigger] s[j])
}

/// The induction variables of the loop with header `header` and blocks `l`.
pub open spec fn ivs_spec(bs: Seq<BlockView>, header: BlockId, l: Set<BlockId>) -> Seq<InductionVar> {
    match find_block(bs, header) {
        Some(k) => ivs_in_insts(bs, l, bs[k].instructions),
        None => Seq::empty(),
    }
}

/// Whether finding the induction variables of that loop negates the least
/// `i64`.
pub open spec fn ivs_overflow(bs: Seq<BlockView>, header: BlockId, l: Set<BlockId>) -> bool {
    match find_block(bs, header) {
        Some(k) => ivs_overflow_in_insts(bs, l, bs[k].instructions),
        None => false,
    }
}

/// Every predecessor that one block's successor list gives is that block.
proof fn lemma_preds_from_contains(succs: Seq<BlockId>, id: BlockId, x: BlockId, p: BlockId)
    ensures
        preds_from(succs, id, x).contains(p) ==> p == id,
    decreases succs.len(),
{
    if succs.len() > 0 {
        lemma_preds_from_contains(succs.drop_last(), id, x, p);
        let a = preds_from(succs.drop_last(), id, x);
        let b = if succs.last() == x {
            seq![id]
        } else {
            Seq::<BlockId>::empty()
        };
        if (a + b).contains(p) {
            let j = choose|j: int| 0 <= j < (a + b).len() && (a + b)[j] == p;
            if j < a.len() {
                assert(a[j] == p);
            } else {
                assert(b[j - a.len()] == p);
            }
        }
    }
}

proof fn lemma_preds_of_ids(bs: Seq<BlockView>, x: BlockId, p: BlockId)
    requires
        preds_of(bs, x).contains(p),
    ensures
        exists|k: int| 0 <= k < bs.len() && #[trigger] bs[k].id == p,
    decreases bs.len(),
{
    let a = preds_of(bs.drop_last(), x);
    let b = preds_from(bs.last().successors, bs.last().id, x);
    let j = choose|j: int| 0 <= j < (a + b).len() && (a + b)[j] == p;
    if j < a.len() {
        assert(a[j] == p);
        lemma_preds_of_ids(bs.drop_last(), x, p);
        let k = choose|k: int| 0 <= k < bs.drop_last().len() && #[trigger] bs.drop_last()[k].id == p;
        assert(bs[k].id == p);
    } else {
        assert(b[j - a.len()] == p);
        lemma_preds_from_contains(bs.last().successors, bs.last().id, x, p);
        assert(bs[bs.len() - 1].id == p);
    }
}

proof fn lemma_const_in_insts_prefix(s: Seq<InstView>, k: int, v: VarId)
    requires
        0 <= k <= s.len(),
        const_in_insts(s.take(k), v) is Some,
    ensures
        const_in_insts(s, v) == const_in_insts(s.take(k), v),
    decreases s.len(),
{
    if k < s.len() {
        assert(s.drop_last().take(k) =~= s.take(k));
        lemma_const_in_insts_prefix(s.drop_last(), k, v);
    } else {
        assert(s.take(k) =~= s);
    }
}

proof fn lemma_const_in_blocks_prefix(bs: Seq<BlockView>, k: int, v: VarId)
    requires
        0 <= k <= bs.len(),
        const_in_blocks(bs.take(k), v) is Some,
    ensures
        const_in_blocks(bs, v) == const_in_blocks(bs.take(k), v),
    decreases bs.len(),
{
    if k < bs.len() {
        assert(bs.drop_last().take(k) =~= bs.take(k));
        lemma_const_in_blocks_prefix(bs.drop_last(), k, v);
    } else {
        assert(bs.take(k) =~= bs);
    }
}

proof fn lemma_step_prefix(bs: Seq<BlockView>, s: Seq<InstView>, k: int, result: VarId, phi: VarId)
    requires
        0 <= k <= s.len(),
        step_in_insts(bs, s.take(k), result, phi) is Some,
    ensures
        step_in_insts(bs, s, result, phi) == step_in_insts(bs, s.take(k), result, phi),
        step_overflows_in_insts(bs, s, result, phi) == step_overflows_in_insts(bs, s.take(k), result, phi),
    decreases s.len(),
{
    if k < s.len() {
        assert(s.drop_last().take(k) =~= s.take(k));
        lemma_step_prefix(bs, s.drop_last(), k, result, phi);
    } else {
        assert(s.take(k) =~= s);
    }
}

/// The position of a block id in the function: that of the last block with
/// that id.
fn block_order_of(blocks: &Vec<BasicBlock>, id: BlockId) -> (r: Option<usize>)
    ensures
        match r {
            Some(k) => block_order(blocks_view(blocks@), id) == Some(k as int),
            None => block_order(blocks_view(blocks@), id) is None,
        },
{
    let ghost bs = blocks_view(blocks@);
    let mut k: usize = blocks.len();
    proof {
        assert(bs.take(k as int) =~= bs);
    }
    while k > 0
        invariant
            k <= blocks.len(),
            bs == blocks_view(blocks@),
            block_order(bs, id) == block_order(bs.take(k as int), id),
        decreases k,
    {
        proof {
            assert(bs.take(k as int).last() == blocks@[k - 1]@);
            assert(bs.take(k as int).drop_last() =~= bs.take(k - 1));
        }
        if blocks[k - 1].id == id {
            return Some(k - 1);
        }
        k = k - 1;
    }
    None
}

/// The predecessors of `x` by the blocks' successor lists, in block order.
fn predecessors_of(blocks: &Vec<BasicBlock>, x: BlockId) -> (r: Vec<BlockId>)
    ensures
        r@ == preds_of(blocks_view(blocks@), x),
{
    let ghost bs = blocks_view(blocks@);
    let mut out: Vec<BlockId> = Vec::new();
    let mut k: usize = 0;
    proof {
        assert(bs.take(0) =~= Seq::<BlockView>::empty());
    }
    while k < blocks.len()
        invariant
            k <= blocks.len(),
            bs == blocks_view(blocks@),
            out@ == preds_of(bs.take(k as int), x),
        decreases blocks.len() - k,
    {
        let succs = &blocks[k].successors;
        let id = blocks[k].id;
        let ghost pre = out@;
        let mut j: usize = 0;
        proof {
            assert(succs@.take(0) =~= Seq::<BlockId>::empty());
            assert(pre + preds_from(succs@.take(0), id, x) =~= pre);
        }
        while j < succs.len()
            invariant
                j <= succs.len(),
                out@ == pre + preds_from(succs@.take(j as int), id, x),
            decreases succs.len() - j,
        {
            proof {
                assert(succs@.take(j + 1).drop_last() =~= succs@.take(j as int));
                assert(succs@.take(j + 1).last() == succs@[j as int]);
            }
            if succs[j] == x {
                out.push(id);
            }
            proof {
                assert(out@ =~= pre + preds_from(succs@.take(j + 1), id, x));
            }
            j = j + 1;
        }
        proof {
            assert(succs@.take(succs.len() as int) =~= succs@);
            assert(bs.take(k + 1).drop_last() =~= bs.take(k as int));
            assert(bs.take(k + 1).last() == blocks@[k as int]@);
        }
        k = k + 1;
    }
    proof {
        assert(bs.take(blocks.len() as int) =~= bs);
    }
    out
}

/// All back edges of a function, as (source, header) pairs.
fn find_back_edges(blocks: &Vec<BasicBlock>) -> (r: Vec<(BlockId, BlockId)>)
    ensures
        r@ == back_edges(blocks_view(blocks@)),
{
    let ghost bs = blocks_view(blocks@);
    let mut out: Vec<(BlockId, BlockId)> = Vec::new();
    let mut k: usize = 0;
    while k < blocks.len()
        invariant
            k <= blocks.len(),
            bs == blocks_view(blocks@),
            out@ == back_edges_upto(bs, k as int),
        decreases blocks.len() - k,
    {
        let succs = &blocks[k].successors;
        let from = blocks[k].id;
        proof {
            assert(bs[k as int] == blocks@[k as int]@);
        }
        let ghost pre = out@;
        let mut j: usize = 0;
        proof {
            assert(succs@.take(0) =~= Seq::<BlockId>::empty());
            assert(pre + back_edges_from(bs, from, succs@.take(0)) =~= pre);
        }
        while j < succs.len()
            invariant
                j <= succs.len(),
                bs == blocks_view(blocks@),
                out@ == pre + back_edges_from(bs, from, succs@.take(j as int)),
            decreases succs.len() - j,
        {
            proof {
                assert(succs@.take(j + 1).drop_last() =~= succs@.take(j as int));
                assert(succs@.take(j + 1).last() == succs@[j as int]);
            }
            let to = succs[j];
            match (block_order_of(blocks, from), block_order_of(blocks, to)) {
                (Some(f), Some(t)) => {
                    if t <= f {
                        out.push((from, to));
                    }
                },
                _ => {},
            }
            proof {
                assert(out@ =~= pre + back_edges_from(bs, from, succs@.take(j + 1)));
            }
            j = j + 1;
        }
        proof {
            assert(succs@.take(succs.len() as int) =~= succs@);
        }
        k = k + 1;
    }
    out
}

/// Whether the list holds the block id.
fn contains_block(v: &Vec<BlockId>, b: BlockId) -> (r: bool)
    ensures
        r == v@.contains(b),
{
    let mut i: usize = 0;
    while i < v.len()
        invariant
            i <= v.len(),
            forall|j: int| 0 <= j < i ==> v@[j] != b,
        decreases v.len() - i,
    {
        if v[i] == b {
            return true;
        }
        i = i + 1;
    }
    false
}

/// The integer that the first integer constant instruction defining `var`
/// gives it.
fn find_constant_value(func: &Function, var: VarId) -> (r: Option<i64>)
    ensures
        r == const_in_blocks(func@.blocks, var),
{
    let ghost bs = func@.blocks;
    let mut k: usize = 0;
    proof {
        assert(bs.take(0) =~= Seq::<BlockView>::empty());
    }
    while k < func.blocks.len()
        invariant
            k <= func.blocks.len(),
            bs == func@.blocks,
            const_in_blocks(bs.take(k as int), var) is None,
        decreases func.blocks.len() - k,
    {
        let insts = &func.blocks[k].instructions;
        let ghost s = insts_view(insts@);
        proof {
            assert(bs.take(k + 1).drop_last() =~= bs.take(k as int));
            assert(bs.take(k + 1).last() == func.blocks@[k as int]@);
            assert(s.take(0) =~= Seq::<InstView>::empty());
        }
        let mut j: usize = 0;
        while j < insts.len()
            invariant
                j <= insts.len(),
                k < func.blocks.len(),
                bs == func@.blocks,
                insts == func.blocks@[k as int].instructions,
                s == insts_view(insts@),
                const_in_blocks(bs.take(k as int), var) is None,
                const_in_insts(s.take(j as int), var) is None,
            decreases insts.len() - j,
        {
            proof {
                assert(s.take(j + 1).drop_last() =~= s.take(j as int));
                assert(s.take(j + 1).last() == insts@[j as int]@);
            }
            if let Instruction::Const { dest, value: Constant::Int(val), .. } = &insts[j] {
                if *dest == var {
                    proof {
                        assert(const_in_insts(s.take(j + 1), var) == Some(*val));
                        lemma_const_in_insts_prefix(s, j + 1, var);
                        assert(bs.take(k + 1).drop_last() =~= bs.take(k as int));
                        assert(bs.take(k + 1).last() == func.blocks@[k as int]@);
                        assert(bs.take(k + 1).last().instructions == s);
                        assert(const_in_blocks(bs.take(k + 1), var) == Some(*val));
                        lemma_const_in_blocks_prefix(bs, k + 1, var);
                    }
                    return Some(*val);
                }
            }
            j = j + 1;
        }
        proof {
            assert(s.take(insts.len() as int) =~= s);
        }
        k = k + 1;
    }
    proof {
        assert(bs.take(func.blocks.len() as int) =~= bs);
    }
    None
}

/// The step of the phi variable `phi_var` whose update `result` is made in
/// block `block_id`.
fn find_induction_step(func: &Function, block_id: BlockId, result: VarId, phi_var: VarId) -> (r: Option<
    InductionStep,
>)
    requires
        !induction_step_overflows(func@.blocks, block_id, result, phi_var),
    ensures
        r == induction_step_spec(func@.blocks, block_id, result, phi_var),
{
    let ghost bs = func@.blocks;
    let k = match block_position(&func.blocks, block_id) {
        Some(k) => k,
        None => {
            return None;
        },
    };
    let insts = &func.blocks[k].instructions;
    let ghost s = insts_view(insts@);
    proof {
        assert(bs[k as int] == func.blocks@[k as int]@);
        assert(s.take(0) =~= Seq::<InstView>::empty());
    }
    let mut j: usize = 0;
    while j < insts.len()
        invariant
            j <= insts.len(),
            k < func.blocks.len(),
            bs == func@.blocks,
            insts == func.blocks@[k as int].instructions,
            s == insts_view(insts@),
            find_block(bs, block_id) == Some(k as int),
            !step_overflows_in_insts(bs, s, result, phi_var),
            step_in_insts(bs, s.take(j as int), result, phi_var) is None,
        decreases insts.len() - j,
    {
        proof {
            assert(s.take(j + 1).drop_last() =~= s.take(j as int));
            assert(s.take(j + 1).last() == insts@[j as int]@);
            if step_in_insts(bs, s.take(j + 1), result, phi_var) is Some {
                lemma_step_prefix(bs, s, j + 1, result, phi_var);
            }
        }
        match &insts[j] {
            Instruction::Binary { dest, op: BinaryOp::Add, left, right, .. } if *dest == result => {
                if *left == phi_var {
                    match find_constant_value(func, *right) {
                        Some(v) => {
                            return Some(InductionStep::Constant(v));
                        },
                        None => {
                            return Some(InductionStep::Variable(*right));
                        },
                    }
                }
                if *right == phi_var {
                    match find_constant_value(func, *left) {
                        Some(v) => {
                            return Some(InductionStep::Constant(v));
                        },
                        None => {
                            return Some(InductionStep::Variable(*left));
                        },
                    }
                }
            },
            Instruction::Binary { dest, op: BinaryOp::Sub, left, right, .. } if *dest == result && *left
                == phi_var => {
                if let Some(v) = find_constant_value(func, *right) {
                    return Some(InductionStep::Constant(-v));
                }
            },
            Instruction::Binary { dest, op: BinaryOp::Mul, left, right, .. } if *dest == result => {
                if *left == phi_var {
                    if let Some(v) = find_constant_value(func, *right) {
                        return Some(InductionStep::Multiply(v));
                    }
                }
                if *right == phi_var {
                    if let Some(v) = find_constant_value(func, *left) {
                        return Some(InductionStep::Multiply(v));
                    }
                }
            },
            _ => {},
        }
        j = j + 1;
    }
    proof {
        assert(s.take(insts.len() as int) =~= s);
    }
    None
}

/// Model of a `Loop`.
pub struct LoopView {
    pub header: BlockId,
    pub blocks: Seq<BlockId>,
    pub back_edges: Seq<BlockId>,
    pub preheader: Option<BlockId>,
    pub exits: Seq<BlockId>,
    pub induction_vars: Seq<InductionVar>,
    pub depth: usize,
}

/// A natural loop. Its blocks and exits hold no block twice.
#[derive(Debug, Clone)]
pub struct Loop {
    pub header: BlockId,
    pub blocks: Vec<BlockId>,
    pub back_edges: Vec<BlockId>,
    pub preheader: Option<BlockId>,
    pub exits: Vec<BlockId>,
    pub induction_vars: Vec<InductionVar>,
    pub depth: usize,
}

impl View for Loop {
    type V = LoopView;

    open spec fn view(&self) -> LoopView {
        LoopView {
            header: self.header,
            blocks: self.blocks@,
            back_edges: self.back_edges@,
            preheader: self.preheader,
            exits: self.exits@,
            induction_vars: self.induction_vars@,
            depth: self.depth,
        }
    }
}

/// The models of a sequence of loops.
pub open spec fn loops_view(s: Seq<Loop>) -> Seq<LoopView> {
    s.map_values(|l: Loop| l@)
}

impl Loop {
    pub fn new(header: BlockId) -> (r: Self)
        ensures
            r@ == (LoopView {
                header,
                blocks: Seq::empty(),
                back_edges: Seq::empty(),
                preheader: None,
                exits: Seq::empty(),
                induction_vars: Seq::empty(),
                depth: 0,
            }),
    {
        Loop {
            header,
            blocks: Vec::new(),
            back_edges: Vec::new(),
            preheader: None,
            exits: Vec::new(),
            induction_vars: Vec::new(),
            depth: 0,
        }
    }

    /// Whether the block belongs to the loop.
    pub fn contains(&self, block: BlockId) -> (r: bool)
        ensures
            r == self.blocks@.contains(block),
    {
        contains_block(&self.blocks, block)
    }
}

/// The induction variables of the loop: the integer phis of its header that
/// take a value from outside the loop and an update from inside it whose
/// step is recognised.
fn analyze_induction_vars(func: &Function, loop_info: &Loop) -> (r: Vec<InductionVar>)
    requires
        !ivs_overflow(func@.blocks, loop_info.header, loop_info.blocks@.to_set()),
    ensures
        r@ == ivs_spec(func@.blocks, loop_info.header, loop_info.blocks@.to_set()),
{
    let ghost bs = func@.blocks;
    let ghost l = loop_info.blocks@.to_set();
    let mut out: Vec<InductionVar> = Vec::new();
    let k = match block_position(&func.blocks, loop_info.header) {
        Some(k) => k,
        None => {
            return out;
        },
    };
    let insts = &func.blocks[k].instructions;
    let ghost s = insts_view(insts@);
    proof {
        assert(bs[k as int] == func.blocks@[k as int]@);
        assert(s.take(0) =~= Seq::<InstView>::empty());
    }
    let mut j: usize = 0;
    while j < insts.len()
        invariant
            j <= insts.len(),
            k < func.blocks.len(),
            bs == func@.blocks,
            l == loop_info.blocks@.to_set(),
            insts == func.blocks@[k as int].instructions,
            s == insts_view(insts@),
            !ivs_overflow_in_insts(bs, l, s),
            out@ == ivs_in_insts(bs, l, s.take(j as int)),
        decreases insts.len() - j,
    {
        proof {
            assert(s.take(j + 1).drop_last() =~= s.take(j as int));
            assert(s.take(j + 1).last() == insts@[j as int]@);
            assert(s[j as int] == insts@[j as int]@);
            assert(!iv_overflows(bs, l, s[j as int]));
        }
        if let Instruction::Phi { dest, ty: IrType::Int, incoming } = &insts[j] {
            let mut outside: Option<VarId> = None;
            let mut inside: Option<(VarId, BlockId)> = None;
            let mut t: usize = 0;
            proof {
                assert(incoming@.take(0) =~= Seq::<(VarId, BlockId)>::empty());
            }
            while t < incoming.len()
                invariant
                    t <= incoming.len(),
                    l == loop_info.blocks@.to_set(),
                    (outside, inside) == phi_split(incoming@.take(t as int), l),
                decreases incoming.len() - t,
            {
                proof {
                    assert(incoming@.take(t + 1).drop_last() =~= incoming@.take(t as int));
                    assert(incoming@.take(t + 1).last() == incoming@[t as int]);
                }
                let (val, block) = incoming[t];
                if loop_info.contains(block) {
                    inside = Some((val, block));
                } else {
                    outside = Some(val);
                }
                t = t + 1;
            }
            proof {
                assert(incoming@.take(incoming.len() as int) =~= incoming@);
            }
            match (outside, inside) {
                (Some(init), Some((update, update_block))) => {
                    if let Some(step) = find_induction_step(func, update_block, update, *dest) {
                        out.push(InductionVar { var: *dest, init, step, final_val: None });
                    }
                },
                _ => {},
            }
        }
        j = j + 1;
    }
    proof {
        assert(s.take(insts.len() as int) =~= s);
    }
    out
}

/// The ids that the search for a natural loop can meet.
pub open spec fn loop_universe(bs: Seq<BlockView>, from: BlockId, header: BlockId) -> Set<BlockId> {
    (seq![header, from] + bs.map_values(|b: BlockView| b.id)).to_set()
}

proof fn lemma_loop_closed(bs: Seq<BlockView>, from: BlockId, header: BlockId, r: Set<BlockId>, n: nat)
    requires
        r.contains(header),
        r.contains(from),
        forall|y: BlockId, p: BlockId| r.contains(y) && y != header && #[trigger] preds_of(bs, y).contains(p) ==> r.contains(p),
    ensures
        loop_within(bs, from, header, n).subset_of(r),
    decreases n,
{
    if n > 0 {
        lemma_loop_closed(bs, from, header, r, (n - 1) as nat);
    }
}

proof fn lemma_no_dup_len_bound(s: Seq<BlockId>, u: Set<BlockId>)
    requires
        s.no_duplicates(),
        u.finite(),
        forall|j: int| 0 <= j < s.len() ==> u.contains(#[trigger] s[j]),
    ensures
        s.len() <= u.len(),
{
    s.unique_seq_to_set();
    assert(s.to_set().subset_of(u));
    vstd::set_lib::lemma_len_subset(s.to_set(), u);
}

/// The blocks of the natural loop of the back edge `from -> header`, each
/// once, the header first.
fn natural_loop_blocks(blocks: &Vec<BasicBlock>, from: BlockId, header: BlockId) -> (r: Vec<BlockId>)
    ensures
        r@.no_duplicates(),
        r@.to_set() == natural_loop(blocks_view(blocks@), from, header),
{
    let ghost bs = blocks_view(blocks@);
    let ghost u = loop_universe(bs, from, header);
    let mut body: Vec<BlockId> = Vec::new();
    body.push(header);
    let mut worklist: Vec<BlockId> = Vec::new();
    worklist.push(from);
    proof {
        vstd::seq_lib::seq_to_set_is_finite(seq![header, from] + bs.map_values(|b: BlockView| b.id));
        assert((seq![header, from] + bs.map_values(|b: BlockView| b.id))[0] == header);
        assert((seq![header, from] + bs.map_values(|b: BlockView| b.id))[1] == from);
        assert(loop_within(bs, from, header, 0).contains(header));
        assert(loop_within(bs, from, header, 0).contains(from));
        assert(body@[0] == header);
        assert(worklist@[0] == from);
    }
    while worklist.len() > 0
        invariant
            bs == blocks_view(blocks@),
            u == loop_universe(bs, from, header),
            u.finite(),
            body@.no_duplicates(),
            forall|j: int| 0 <= j < body@.len() ==> u.contains(#[trigger] body@[j]),
            forall|j: int| 0 <= j < worklist@.len() ==> u.contains(#[trigger] worklist@[j]),
            body@.contains(header),
            body@.contains(from) || worklist@.contains(from),
            forall|x: BlockId| body@.contains(x) ==> in_natural_loop(bs, from, header, x),
            forall|j: int| 0 <= j < worklist@.len() ==> in_natural_loop(bs, from, header, #[trigger] worklist@[j]),
            forall|y: BlockId, p: BlockId|
                body@.contains(y) && y != header && #[trigger] preds_of(bs, y).contains(p) ==> body@.contains(p)
                    || worklist@.contains(p),
        decreases u.len() - body@.len(), worklist@.len(),
    {
        proof {
            lemma_no_dup_len_bound(body@, u);
        }
        let ghost w0 = worklist@;
        let b = worklist.pop().unwrap();
        proof {
            assert(w0 == worklist@.push(b));
            assert forall|z: BlockId| w0.contains(z) implies worklist@.contains(z) || z == b by {
                let j = choose|j: int| 0 <= j < w0.len() && w0[j] == z;
                if j < worklist@.len() {
                    assert(worklist@[j] == z);
                }
            }
            assert(w0[w0.len() - 1] == b);
            assert(in_natural_loop(bs, from, header, w0[w0.len() - 1]));
            assert(in_natural_loop(bs, from, header, b));
        }
        if contains_block(&body, b) {
            continue;
        }
        let ghost b0 = body@;
        body.push(b);
        proof {
            assert(u.contains(b));
            assert forall|i: int, j: int| 0 <= i < body@.len() && 0 <= j < body@.len() && i != j implies body@[i]
                != body@[j] by {
                if i < b0.len() && j < b0.len() {
                    assert(b0[i] != b0[j]);
                } else if i < b0.len() {
                    assert(b0.contains(b0[i]));
                } else {
                    assert(b0.contains(b0[j]));
                }
            }
            assert forall|x: BlockId| b0.contains(x) implies body@.contains(x) by {
                let j = choose|j: int| 0 <= j < b0.len() && b0[j] == x;
                assert(body@[j] == x);
            }
            assert(body@[body@.len() - 1] == b);
            lemma_no_dup_len_bound(b0, u);
            assert(b != header);
        }
        let ghost n = choose|n: nat| #[trigger] loop_within(bs, from, header, n).contains(b);
        let preds = predecessors_of(blocks, b);
        let ghost w1 = worklist@;
        let mut i: usize = 0;
        while i < preds.len()
            invariant
                0 <= i <= preds@.len(),
                preds@ == preds_of(bs, b),
                loop_within(bs, from, header, n).contains(b),
                b != header,
                u == loop_universe(bs, from, header),
                worklist@.len() >= w1.len(),
                forall|j: int| 0 <= j < w1.len() ==> worklist@[j] == #[trigger] w1[j],
                forall|j: int| 0 <= j < i ==> body@.contains(#[trigger] preds@[j]) || worklist@.contains(preds@[j]),
                forall|j: int| 0 <= j < worklist@.len() ==> u.contains(#[trigger] worklist@[j]),
                forall|j: int| 0 <= j < worklist@.len() ==> in_natural_loop(bs, from, header, #[trigger] worklist@[j]),
            decreases preds@.len() - i,
        {
            let p = preds[i];
            proof {
                assert(preds_of(bs, b).contains(p));
                assert(loop_within(bs, from, header, n + 1).contains(p));
                lemma_preds_of_ids(bs, b, p);
                let k = choose|k: int| 0 <= k < bs.len() && #[trigger] bs[k].id == p;
                assert((seq![header, from] + bs.map_values(|c: BlockView| c.id))[k + 2] == p);
            }
            let ghost wb = worklist@;
            if !contains_block(&body, p) {
                worklist.push(p);
                proof {
                    assert(worklist@[worklist@.len() - 1] == p);
                }
            }
            proof {
                assert forall|j: int| 0 <= j < i + 1 implies body@.contains(#[trigger] preds@[j]) || worklist@.contains(
                    preds@[j],
                ) by {
                    if j < i {
                        if !body@.contains(preds@[j]) {
                            let m = choose|m: int| 0 <= m < wb.len() && wb[m] == preds@[j];
                            assert(worklist@[m] == preds@[j]);
                        }
                    }
                }
            }
            i = i + 1;
        }
        proof {
            assert forall|y: BlockId, p: BlockId|
                body@.contains(y) && y != header && #[trigger] preds_of(bs, y).contains(p) implies body@.contains(p)
                    || worklist@.contains(p) by {
                if y == b {
                    let j = choose|j: int| 0 <= j < preds@.len() && preds@[j] == p;
                    assert(body@.contains(preds@[j]) || worklist@.contains(preds@[j]));
                } else {
                    assert(b0.contains(y)) by {
                        let j = choose|j: int| 0 <= j < body@.len() && body@[j] == y;
                        assert(j < b0.len());
                        assert(b0[j] == y);
                    }
                    if !body@.contains(p) && w0.contains(p) {
                        if p != b {
                            let m = choose|m: int| 0 <= m < w1.len() && w1[m] == p;
                            assert(worklist@[m] == p);
                        }
                    }
                    if b0.contains(p) {
                        let j = choose|j: int| 0 <= j < b0.len() && b0[j] == p;
                        assert(body@[j] == p);
                    }
                }
            }
            if !body@.contains(from) {
                if from != b {
                    let m = choose|m: int| 0 <= m < w1.len() && w1[m] == from;
                    assert(worklist@[m] == from);
                }
            }
            assert forall|x: BlockId| body@.contains(x) implies in_natural_loop(bs, from, header, x) by {
                if x != b {
                    let j = choose|j: int| 0 <= j < body@.len() && body@[j] == x;
                    assert(b0[j] == x);
                    assert(b0.contains(x));
                }
            }
            lemma_no_dup_len_bound(body@, u);
        }
    }
    proof {
        let r = body@.to_set();
        assert(worklist@.len() == 0);
        assert(!worklist@.contains(from));
        assert(r.contains(from));
        assert(r.contains(header));
        assert forall|y: BlockId, p: BlockId| r.contains(y) && y != header && #[trigger] preds_of(bs, y).contains(p) implies r.contains(p) by {
            assert(body@.contains(y));
            assert(!worklist@.contains(p));
        }
        assert forall|x: BlockId| natural_loop(bs, from, header).contains(x) implies r.contains(x) by {
            let n = choose|n: nat| #[trigger] loop_within(bs, from, header, n).contains(x);
            lemma_loop_closed(bs, from, header, r, n);
        }
        assert(r =~= natural_loop(bs, from, header));
    }
    body
}

/// Whether the loop block `b` has a successor outside the loop (by the
/// successor list of the first block with that id).
pub open spec fn is_exit(bs: Seq<BlockView>, l: Set<BlockId>, b: BlockId) -> bool {
    match find_block(bs, b) {
        Some(k) => exists|j: int| 0 <= j < bs[k].successors.len() && !l.contains(#[trigger] bs[k].successors[j]),
        None => false,
    }
}

/// The exits among the loop blocks `order`, in that order.
pub open spec fn exit_list(bs: Seq<BlockView>, l: Set<BlockId>, order: Seq<BlockId>) -> Seq<BlockId>
    decreases order.len(),
{
    if order.len() == 0 {
        Seq::empty()
    } else if is_exit(bs, l, order.last()) {
        exit_list(bs, l, order.drop_last()).push(order.last())
    } else {
        exit_list(bs, l, order.drop_last())
    }
}

/// The ids of `l`, each once, in the order of the blocks of the function.
pub open spec fn ids_in_order(bs: Seq<BlockView>, l: Set<BlockId>) -> Seq<BlockId>
    decreases bs.len(),
{
    if bs.len() == 0 {
        Seq::empty()
    } else {
        let pre = ids_in_order(bs.drop_last(), l);
        if l.contains(bs.last().id) && !pre.contains(bs.last().id) {
            pre.push(bs.last().id)
        } else {
            pre
        }
    }
}

/// Whether some block of the function has the id `x`.
pub open spec fn is_block_id(bs: Seq<BlockView>, x: BlockId) -> bool {
    exists|k: int| 0 <= k < bs.len() && bs[k].id == x
}

proof fn lemma_block_order_id(bs: Seq<BlockView>, id: BlockId)
    ensures
        block_order(bs, id) matches Some(t) ==> 0 <= t < bs.len() && bs[t].id == id,
    decreases bs.len(),
{
    if bs.len() > 0 && bs.last().id != id {
        lemma_block_order_id(bs.drop_last(), id);
        if let Some(t) = block_order(bs.drop_last(), id) {
            assert(bs.drop_last()[t] == bs[t]);
        }
    }
}

proof fn lemma_back_edges_from_ids(bs: Seq<BlockView>, from: BlockId, succs: Seq<BlockId>)
    ensures
        forall|j: int|
            0 <= j < back_edges_from(bs, from, succs).len() ==> is_block_id(
                bs,
                #[trigger] back_edges_from(bs, from, succs)[j].0,
            ) && is_block_id(bs, back_edges_from(bs, from, succs)[j].1),
    decreases succs.len(),
{
    if succs.len() > 0 {
        lemma_back_edges_from_ids(bs, from, succs.drop_last());
        lemma_block_order_id(bs, from);
        lemma_block_order_id(bs, succs.last());
        let a = back_edges_from(bs, from, succs.drop_last());
        let all = back_edges_from(bs, from, succs);
        assert forall|j: int| 0 <= j < all.len() implies is_block_id(bs, #[trigger] all[j].0) && is_block_id(
            bs,
            all[j].1,
        ) by {
            if j < a.len() {
                assert(all[j] == a[j]);
            } else {
                let f = block_order(bs, from)->0;
                let t = block_order(bs, succs.last())->0;
                assert(bs[f].id == from);
                assert(bs[t].id == succs.last());
            }
        }
    }
}

proof fn lemma_back_edges_ids(bs: Seq<BlockView>, n: int)
    requires
        0 <= n <= bs.len(),
    ensures
        forall|j: int|
            0 <= j < back_edges_upto(bs, n).len() ==> is_block_id(bs, #[trigger] back_edges_upto(bs, n)[j].0)
                && is_block_id(bs, back_edges_upto(bs, n)[j].1),
    decreases n,
{
    if n > 0 {
        lemma_back_edges_ids(bs, n - 1);
        lemma_back_edges_from_ids(bs, bs[n - 1].id, bs[n - 1].successors);
        let a = back_edges_upto(bs, n - 1);
        let b = back_edges_from(bs, bs[n - 1].id, bs[n - 1].successors);
        assert forall|j: int| 0 <= j < (a + b).len() implies is_block_id(bs, #[trigger] (a + b)[j].0) && is_block_id(
            bs,
            (a + b)[j].1,
        ) by {
            if j < a.len() {
                assert((a + b)[j] == a[j]);
            } else {
                assert((a + b)[j] == b[j - a.len()]);
            }
        }
    }
}

proof fn lemma_loop_within_ids(bs: Seq<BlockView>, from: BlockId, header: BlockId, n: nat)
    requires
        is_block_id(bs, from),
        is_block_id(bs, header),
    ensures
        forall|x: BlockId| #[trigger] loop_within(bs, from, header, n).contains(x) ==> is_block_id(bs, x),
    decreases n,
{
    if n > 0 {
        lemma_loop_within_ids(bs, from, header, (n - 1) as nat);
        let r = loop_within(bs, from, header, (n - 1) as nat);
        assert forall|x: BlockId| #[trigger] loop_within(bs, from, header, n).contains(x) implies is_block_id(bs, x) by {
            if !r.contains(x) {
                let y = choose|y: BlockId| r.contains(y) && y != header && #[trigger] preds_of(bs, y).contains(x);
                lemma_preds_of_ids(bs, y, x);
            }
        }
    }
}

proof fn lemma_natural_loop_ids(bs: Seq<BlockView>, from: BlockId, header: BlockId, x: BlockId)
    requires
        is_block_id(bs, from),
        is_block_id(bs, header),
        natural_loop(bs, from, header).contains(x),
    ensures
        is_block_id(bs, x),
{
    let n = choose|n: nat| #[trigger] loop_within(bs, from, header, n).contains(x);
    lemma_loop_within_ids(bs, from, header, n);
}

/// The exits among the loop blocks, in the order of the list.
fn loop_exits(blocks: &Vec<BasicBlock>, body: &Vec<BlockId>) -> (r: Vec<BlockId>)
    ensures
        r@ == exit_list(blocks_view(blocks@), body@.to_set(), body@),
{
    let ghost bs = blocks_view(blocks@);
    let ghost l = body@.to_set();
    let mut out: Vec<BlockId> = Vec::new();
    let mut i: usize = 0;
    proof {
        assert(body@.take(0) =~= Seq::<BlockId>::empty());
    }
    while i < body.len()
        invariant
            i <= body.len(),
            bs == blocks_view(blocks@),
            l == body@.to_set(),
            out@ == exit_list(bs, l, body@.take(i as int)),
        decreases body.len() - i,
    {
        let b = body[i];
        proof {
            assert(body@.take(i + 1).drop_last() =~= body@.take(i as int));
            assert(body@.take(i + 1).last() == b);
        }
        let mut exit = false;
        match block_position(blocks, b) {
            Some(k) => {
                let succs = &blocks[k].successors;
                proof {
                    assert(bs[k as int] == blocks@[k as int]@);
                }
                let mut j: usize = 0;
                while j < succs.len()
                    invariant
                        j <= succs.len(),
                        l == body@.to_set(),
                        exit == exists|m: int| 0 <= m < j && !l.contains(#[trigger] succs@[m]),
                    decreases succs.len() - j,
                {
                    if !contains_block(body, succs[j]) {
                        exit = true;
                    }
                    j = j + 1;
                }
                proof {
                    assert(bs[k as int].successors == succs@);
                    if exit {
                        let m = choose|m: int| 0 <= m < succs@.len() && !l.contains(#[trigger] succs@[m]);
                        assert(!l.contains(bs[k as int].successors[m]));
                    }
                    assert(exit == is_exit(bs, l, b));
                }
            },
            None => {
                proof {
                    assert(!is_exit(bs, l, b));
                }
            },
        }
        proof {
            assert(exit == is_exit(bs, l, b));
        }
        if exit {
            out.push(b);
        }
        i = i + 1;
    }
    proof {
        assert(body@.take(body.len() as int) =~= body@);
    }
    out
}

proof fn lemma_ids_in_order(bs: Seq<BlockView>, l: Set<BlockId>)
    ensures
        ids_in_order(bs, l).no_duplicates(),
        forall|x: BlockId| #[trigger] ids_in_order(bs, l).contains(x) <==> (l.contains(x) && exists|k: int|
            0 <= k < bs.len() && bs[k].id == x),
    decreases bs.len(),
{
    if bs.len() > 0 {
        lemma_ids_in_order(bs.drop_last(), l);
        let pre = ids_in_order(bs.drop_last(), l);
        let b = bs.last().id;
        assert forall|x: BlockId| #[trigger] ids_in_order(bs, l).contains(x) <==> (l.contains(x) && exists|k: int|
            0 <= k < bs.len() && bs[k].id == x) by {
            if l.contains(b) && !pre.contains(b) {
                if pre.push(b).contains(x) && x != b {
                    let m = choose|m: int| 0 <= m < pre.push(b).len() && pre.push(b)[m] == x;
                    assert(pre[m] == x);
                }
                if pre.contains(x) {
                    let m = choose|m: int| 0 <= m < pre.len() && pre[m] == x;
                    assert(pre.push(b)[m] == x);
                }
                assert(pre.push(b)[pre.len() as int] == b);
            }
            if exists|k: int| 0 <= k < bs.len() && bs[k].id == x {
                let k = choose|k: int| 0 <= k < bs.len() && bs[k].id == x;
                if k < bs.len() - 1 {
                    assert(bs.drop_last()[k].id == x);
                }
            }
            if exists|k: int| 0 <= k < bs.drop_last().len() && bs.drop_last()[k].id == x {
                let k = choose|k: int| 0 <= k < bs.drop_last().len() && bs.drop_last()[k].id == x;
                assert(bs[k].id == x);
            }
        }
        if l.contains(b) && !pre.contains(b) {
            let q = pre.push(b);
            assert forall|i: int, j: int| 0 <= i < q.len() && 0 <= j < q.len() && i != j implies q[i] != q[j] by {
                if i < pre.len() && j < pre.len() {
                    assert(pre[i] != pre[j]);
                } else if i < pre.len() {
                    assert(pre.contains(pre[i]));
                } else {
                    assert(pre.contains(pre[j]));
                }
            }
        }
    }
}

/// The loop blocks in the order of the function's blocks, each once.
fn order_blocks(blocks: &Vec<BasicBlock>, body: &Vec<BlockId>) -> (r: Vec<BlockId>)
    ensures
        r@ == ids_in_order(blocks_view(blocks@), body@.to_set()),
{
    let ghost bs = blocks_view(blocks@);
    let ghost l = body@.to_set();
    let mut out: Vec<BlockId> = Vec::new();
    let mut k: usize = 0;
    proof {
        assert(bs.take(0) =~= Seq::<BlockView>::empty());
    }
    while k < blocks.len()
        invariant
            k <= blocks.len(),
            bs == blocks_view(blocks@),
            l == body@.to_set(),
            out@ == ids_in_order(bs.take(k as int), l),
        decreases blocks.len() - k,
    {
        proof {
            assert(bs.take(k + 1).drop_last() =~= bs.take(k as int));
            assert(bs.take(k + 1).last() == blocks@[k as int]@);
        }
        let id = blocks[k].id;
        if contains_block(body, id) && !contains_block(&out, id) {
            out.push(id);
        }
        k = k + 1;
    }
    proof {
        assert(bs.take(blocks.len() as int) =~= bs);
    }
    out
}

/// The one predecessor of the header from outside the loop, where there is
/// exactly one.
fn loop_preheader(blocks: &Vec<BasicBlock>, header: BlockId, body: &Vec<BlockId>) -> (r: Option<BlockId>)
    ensures
        r == preheader_spec(blocks_view(blocks@), header, body@.to_set()),
{
    let ghost l = body@.to_set();
    let preds = predecessors_of(blocks, header);
    let mut ext: Vec<BlockId> = Vec::new();
    let mut i: usize = 0;
    proof {
        assert(preds@.take(0) =~= Seq::<BlockId>::empty());
    }
    while i < preds.len()
        invariant
            i <= preds.len(),
            l == body@.to_set(),
            ext@ == outside_preds(preds@.take(i as int), l),
        decreases preds.len() - i,
    {
        proof {
            assert(preds@.take(i + 1).drop_last() =~= preds@.take(i as int));
            assert(preds@.take(i + 1).last() == preds@[i as int]);
        }
        if !contains_block(body, preds[i]) {
            ext.push(preds[i]);
        }
        i = i + 1;
    }
    proof {
        assert(preds@.take(preds.len() as int) =~= preds@);
    }
    if ext.len() == 1 {
        Some(ext[0])
    } else {
        None
    }
}

/// The number of the first `n` back edges, other than edge `i`, whose loop
/// holds block `h`.
pub open spec fn nesting_count(bs: Seq<BlockView>, be: Seq<(BlockId, BlockId)>, i: int, h: BlockId, n: int) -> nat
    decreases n,
{
    if n <= 0 {
        0
    } else {
        nesting_count(bs, be, i, h, n - 1) + if n - 1 != i && natural_loop(bs, be[n - 1].0, be[n - 1].1).contains(h) {
            1nat
        } else {
            0nat
        }
    }
}

/// The depth of loop `i`: how many other loops hold its header.
pub open spec fn loop_depth(bs: Seq<BlockView>, be: Seq<(BlockId, BlockId)>, i: int) -> nat {
    nesting_count(bs, be, i, be[i].1, be.len() as int)
}

/// Loop `i` of a function, before its depth is known: the natural loop of
/// back edge `i`, its blocks in function order, with its exits (in that
/// order), preheader and induction variables.
pub open spec fn loop_shape(bs: Seq<BlockView>, be: Seq<(BlockId, BlockId)>, i: int) -> LoopView {
    let from = be[i].0;
    let header = be[i].1;
    let l = natural_loop(bs, from, header);
    let order = ids_in_order(bs, l);
    LoopView {
        header,
        blocks: order,
        back_edges: seq![from],
        preheader: preheader_spec(bs, header, l),
        exits: exit_list(bs, l, order),
        induction_vars: ivs_spec(bs, header, l),
        depth: 0,
    }
}

/// Loop `i` of a function.
pub open spec fn loop_of(bs: Seq<BlockView>, be: Seq<(BlockId, BlockId)>, i: int) -> LoopView {
    LoopView { depth: loop_depth(bs, be, i) as usize, ..loop_shape(bs, be, i) }
}

/// The loops of a function: one per back edge, in order.
pub open spec fn analysis_of(bs: Seq<BlockView>) -> Seq<LoopView> {
    let be = back_edges(bs);
    Seq::new(be.len(), |i: int| loop_of(bs, be, i))
}

/// Whether finding the induction variables of some loop negates the least
/// `i64`.
pub open spec fn analysis_overflows(bs: Seq<BlockView>) -> bool {
    let be = back_edges(bs);
    exists|i: int| 0 <= i < be.len() && ivs_overflow(bs, #[trigger] be[i].1, natural_loop(bs, be[i].0, be[i].1))
}

/// For each block number, the last of the first `n` loops that holds it.
pub open spec fn loop_map_upto(bs: Seq<BlockView>, be: Seq<(BlockId, BlockId)>, n: int) -> Map<u32, usize>
    decreases n,
{
    if n <= 0 {
        Map::empty()
    } else {
        loop_map_upto(bs, be, n - 1).union_prefer_right(
            Map::new(
                |k: u32| natural_loop(bs, be[n - 1].0, be[n - 1].1).contains(BlockId(k)),
                |k: u32| (n - 1) as usize,
            ),
        )
    }
}

/// For each block number, the last loop that holds it.
pub open spec fn block_loop_map(bs: Seq<BlockView>) -> Map<u32, usize> {
    loop_map_upto(bs, back_edges(bs), back_edges(bs).len() as int)
}

/// The loops of a function, and the loop of each block (by block number).
#[derive(Debug)]
pub struct LoopAnalysis {
    pub loops: Vec<Loop>,
    pub block_to_loop: HashMap<u32, usize>,
}

impl LoopAnalysis {
    pub fn new() -> (r: Self)
        ensures
            r.loops@ == Seq::<Loop>::empty(),
            r.block_to_loop@ == Map::<u32, usize>::empty(),
    {
        LoopAnalysis { loops: Vec::new(), block_to_loop: HashMap::new() }
    }

    /// Finds the natural loop of every back edge (an edge to a block that
    /// does not come later), with its exits, preheader, induction variables
    /// and nesting depth.
    pub fn analyze(func: &Function) -> (r: Self)
        requires
            !analysis_overflows(func@.blocks),
        ensures
            loops_view(r.loops@) == analysis_of(func@.blocks),
            r.block_to_loop@ == block_loop_map(func@.blocks),
    {
        let ghost bs = func@.blocks;
        let mut analysis = Self::new();
        if func.blocks.len() == 0 {
            proof {
                assert(back_edges(bs) =~= Seq::<(BlockId, BlockId)>::empty());
                assert(loops_view(analysis.loops@) =~= analysis_of(bs));
            }
            return analysis;
        }
        let edges = find_back_edges(&func.blocks);
        let ghost be = edges@;
        let mut loops: Vec<Loop> = Vec::new();
        let mut map: HashMap<u32, usize> = HashMap::new();
        let mut e: usize = 0;
        proof {
            assert(map@ =~= loop_map_upto(bs, be, 0));
        }
        while e < edges.len()
            invariant
                e <= edges.len(),
                bs == func@.blocks,
                be == edges@,
                be == back_edges(bs),
                !analysis_overflows(bs),
                loops@.len() == e,
                forall|i: int| 0 <= i < e ==> #[trigger] loops@[i]@ == loop_shape(bs, be, i),
                forall|i: int| 0 <= i < e ==> (#[trigger] loops@[i]@).blocks.to_set() == natural_loop(
                    bs,
                    be[i].0,
                    be[i].1,
                ),
                map@ == loop_map_upto(bs, be, e as int),
            decreases edges.len() - e,
        {
            let (back_from, header) = edges[e];
            let body = natural_loop_blocks(&func.blocks, back_from, header);
            let ordered = order_blocks(&func.blocks, &body);
            let ghost l = natural_loop(bs, back_from, header);
            proof {
                lemma_back_edges_ids(bs, bs.len() as int);
                assert(be[e as int] == (back_from, header));
                assert(is_block_id(bs, be[e as int].0) && is_block_id(bs, be[e as int].1));
                lemma_ids_in_order(bs, l);
                assert forall|x: BlockId| l.contains(x) implies exists|k: int| 0 <= k < bs.len() && bs[k].id == x by {
                    lemma_natural_loop_ids(bs, back_from, header, x);
                }
                assert(ordered@.to_set() =~= l);
            }
            let exits = loop_exits(&func.blocks, &ordered);
            let preheader = loop_preheader(&func.blocks, header, &ordered);
            let mut back_edges_v: Vec<BlockId> = Vec::new();
            back_edges_v.push(back_from);
            let mut loop_info = Loop {
                header,
                blocks: ordered,
                back_edges: back_edges_v,
                preheader,
                exits,
                induction_vars: Vec::new(),
                depth: 0,
            };
            proof {
                assert(be[e as int] == (back_from, header));
                assert(!ivs_overflow(bs, be[e as int].1, natural_loop(bs, be[e as int].0, be[e as int].1)));
            }
            let ivs = analyze_induction_vars(func, &loop_info);
            loop_info.induction_vars = ivs;
            let ghost m0 = map@;
            let mut j: usize = 0;
            proof {
                assert(m0.union_prefer_right(
                    Map::new(|k: u32| loop_info.blocks@.take(0).contains(BlockId(k)), |k: u32| e),
                ) =~= m0);
            }
            while j < loop_info.blocks.len()
                invariant
                    j <= loop_info.blocks@.len(),
                    map@ == m0.union_prefer_right(
                        Map::new(|k: u32| loop_info.blocks@.take(j as int).contains(BlockId(k)), |k: u32| e),
                    ),
                decreases loop_info.blocks@.len() - j,
            {
                let b = loop_info.blocks[j];
                let ghost mprev = map@;
                map.insert(b.0, e);
                proof {
                    assert(loop_info.blocks@.take(j + 1) =~= loop_info.blocks@.take(j as int).push(b));
                    assert forall|k: u32| #[trigger] loop_info.blocks@.take(j + 1).contains(BlockId(k)) == (
                    loop_info.blocks@.take(j as int).contains(BlockId(k)) || k == b.0) by {
                        let t = loop_info.blocks@.take(j as int);
                        if t.push(b).contains(BlockId(k)) {
                            let m = choose|m: int| 0 <= m < t.push(b).len() && t.push(b)[m] == BlockId(k);
                            if m < t.len() {
                                assert(t[m] == BlockId(k));
                            }
                        }
                        if t.contains(BlockId(k)) {
                            let m = choose|m: int| 0 <= m < t.len() && t[m] == BlockId(k);
                            assert(t.push(b)[m] == BlockId(k));
                        }
                        if k == b.0 {
                            assert(t.push(b)[t.len() as int] == b);
                        }
                    }
                    assert(map@ == mprev.insert(b.0, e));
                    assert(map@ =~= m0.union_prefer_right(
                        Map::new(|k: u32| loop_info.blocks@.take(j + 1).contains(BlockId(k)), |k: u32| e),
                    ));
                }
                j = j + 1;
            }
            proof {
                assert(loop_info.blocks@.take(loop_info.blocks@.len() as int) =~= loop_info.blocks@);
                assert(map@ =~= loop_map_upto(bs, be, e + 1));
                assert(loop_info@.back_edges =~= seq![be[e as int].0]);
                assert(loop_info@ == loop_shape(bs, be, e as int));
            }
            loops.push(loop_info);
            proof {
                assert(loops@[e as int] == loop_info);
            }
            e = e + 1;
        }
        let n = loops.len();
        let mut i: usize = 0;
        while i < n
            invariant
                i <= n,
                n == loops@.len(),
                n == be.len(),
                bs == func@.blocks,
                be == back_edges(bs),
                forall|x: int| 0 <= x < n ==> #[trigger] loops@[x]@ == (if x < i {
                    loop_of(bs, be, x)
                } else {
                    loop_shape(bs, be, x)
                }),
                forall|x: int| 0 <= x < n ==> (#[trigger] loops@[x]@).blocks.to_set() == natural_loop(
                    bs,
                    be[x].0,
                    be[x].1,
                ),
            decreases n - i,
        {
            let header = loops[i].header;
            proof {
                assert(loops@[i as int]@ == loop_shape(bs, be, i as int));
            }
            let mut depth: usize = 0;
            let mut j: usize = 0;
            while j < n
                invariant
                    j <= n,
                    i < n,
                    n == loops@.len(),
                    n == be.len(),
                    header == be[i as int].1,
                    depth == nesting_count(bs, be, i as int, header, j as int),
                    depth <= j,
                    forall|x: int| 0 <= x < n ==> (#[trigger] loops@[x]@).blocks.to_set() == natural_loop(
                        bs,
                        be[x].0,
                        be[x].1,
                    ),
                decreases n - j,
            {
                if i != j && loops[j].contains(header) {
                    proof {
                        assert(loops@[j as int]@.blocks.to_set().contains(header));
                    }
                    depth = depth + 1;
                } else {
                    proof {
                        if j != i {
                            assert(!loops@[j as int]@.blocks.to_set().contains(header));
                        }
                    }
                }
                j = j + 1;
            }
            let ghost l0 = loops@;
            loops[i].depth = depth;
            proof {
                assert forall|x: int| 0 <= x < n implies #[trigger] loops@[x]@ == (if x < i + 1 {
                    loop_of(bs, be, x)
                } else {
                    loop_shape(bs, be, x)
                }) by {
                    if x != i {
                        assert(loops@[x] == l0[x]);
                    }
                }
            }
            i = i + 1;
        }
        proof {
            assert(loops_view(loops@) =~= analysis_of(bs));
        }
        LoopAnalysis { loops, block_to_loop: map }
    }
}

impl Default for LoopAnalysis {
    fn default() -> (r: Self)
        ensures
            r.loops@ == Seq::<Loop>::empty(),
            r.block_to_loop@ == Map::<u32, usize>::empty(),
    {
        Self::new()
    }
}

/// The variable an instruction defines, as loop-invariant code motion
/// sees it.
pub open spec fn loop_dest(i: InstView) -> Option<VarId> {
    match i {
        InstView::Const { dest, .. } => Some(dest),
        InstView::Binary { dest, .. } => Some(dest),
        InstView::Unary { dest, .. } => Some(dest),
        InstView::IntToFloat { dest, .. } => Some(dest),
        InstView::FloatToInt { dest, .. } => Some(dest),
        InstView::ToString { dest, .. } => Some(dest),
        InstView::Bitcast { dest, .. } => Some(dest),
        InstView::Alloca { dest, .. } => Some(dest),
        InstView::Load { dest, .. } => Some(dest),
        InstView::GetElementPtr { dest, .. } => Some(dest),
        InstView::NewObject { dest, .. } => Some(dest),
        InstView::GetField { dest, .. } => Some(dest),
        InstView::ArrayLen { dest, .. } => Some(dest),
        InstView::ArrayGet { dest, .. } => Some(dest),
        InstView::StringConcat { dest, .. } => Some(dest),
        InstView::GetException { dest } => Some(dest),
        InstView::Phi { dest, .. } => Some(dest),
        InstView::Copy { dest, .. } => Some(dest),
        InstView::Call { dest, .. } => dest,
        InstView::CallIndirect { dest, .. } => dest,
        InstView::CallMethod { dest, .. } => dest,
        InstView::CallVirtual { dest, .. } => dest,
        InstView::NewArray { dest, .. } => Some(dest),
        _ => None,
    }
}

/// The operands of an instruction, as loop-invariant code motion sees them.
pub open spec fn loop_operands(i: InstView) -> Seq<VarId> {
    match i {
        InstView::Const { .. } => Seq::empty(),
        InstView::Binary { left, right, .. } => seq![left, right],
        InstView::Unary { operand, .. } => seq![operand],
        InstView::IntToFloat { src, .. } => seq![src],
        InstView::FloatToInt { src, .. } => seq![src],
        InstView::ToString { src, .. } => seq![src],
        InstView::Bitcast { src, .. } => seq![src],
        InstView::Copy { src, .. } => seq![src],
        InstView::Load { ptr, .. } => seq![ptr],
        InstView::Store { ptr, value } => seq![ptr, value],
        InstView::GetElementPtr { ptr, index, .. } => seq![ptr, index],
        InstView::GetField { object, .. } => seq![object],
        InstView::SetField { object, value, .. } => seq![object, value],
        InstView::ArrayGet { array, index, .. } => seq![array, index],
        InstView::ArraySet { array, index, value } => seq![array, index, value],
        InstView::ArrayLen { array, .. } => seq![array],
        InstView::StringConcat { left, right, .. } => seq![left, right],
        InstView::Branch { cond, .. } => seq![cond],
        InstView::Return { value } => match value {
            Some(v) => seq![v],
            None => Seq::empty(),
        },
        InstView::Call { args, .. } => args,
        InstView::CallIndirect { args, .. } => args,
        InstView::CallMethod { object, args, .. } => seq![object] + args,
        InstView::CallVirtual { object, args, .. } => seq![object] + args,
        InstView::NewArray { elements, .. } => elements,
        InstView::Throw { exception } => seq![exception],
        InstView::Print { value } => seq![value],
        InstView::Phi { incoming, .. } => incoming.map_values(|p: (VarId, BlockId)| p.0),
        _ => Seq::empty(),
    }
}

/// Whether an instruction is of a kind that may leave a loop: not control
/// flow, no store, array push, call or print, no allocation, phi or
/// exception handling.
pub open spec fn movable_kind(i: InstView) -> bool {
    match i {
        InstView::Jump { .. } | InstView::Branch { .. } | InstView::Return { .. } | InstView::Throw { .. } => false,
        InstView::Store { .. } | InstView::SetField { .. } | InstView::ArraySet { .. } | InstView::Print { .. }
        | InstView::Call { .. } | InstView::CallMethod { .. } | InstView::CallVirtual { .. }
        | InstView::CallIndirect { .. } => false,
        InstView::GlobalStore { .. } | InstView::ArrayPush { .. } => false,
        InstView::Alloca { .. } | InstView::NewObject { .. } | InstView::NewArray { .. } => false,
        InstView::Phi { .. } => false,
        InstView::TryBegin { .. } | InstView::TryEnd | InstView::GetException { .. } => false,
        _ => true,
    }
}

/// Whether an instruction is loop invariant: of a movable kind, with every
/// operand defined outside the loop or by an invariant instruction.
pub open spec fn is_invariant_spec(i: InstView, defs: Set<u32>) -> bool {
    movable_kind(i) && forall|j: int| 0 <= j < loop_operands(i).len() ==> defs.contains(#[trigger] loop_operands(i)[j].0)
}

/// The variables that a sequence of instructions defines.
pub open spec fn dests_of(s: Seq<InstView>) -> Set<u32>
    decreases s.len(),
{
    if s.len() == 0 {
        Set::empty()
    } else {
        match loop_dest(s.last()) {
            Some(d) => dests_of(s.drop_last()).insert(d.0),
            None => dests_of(s.drop_last()),
        }
    }
}

/// The variables that blocks outside the loop define.
pub open spec fn outside_dests(bs: Seq<BlockView>, l: Set<BlockId>) -> Set<u32>
    decreases bs.len(),
{
    if bs.len() == 0 {
        Set::empty()
    } else if l.contains(bs.last().id) {
        outside_dests(bs.drop_last(), l)
    } else {
        outside_dests(bs.drop_last(), l).union(dests_of(bs.last().instructions))
    }
}

/// The variable numbers of the parameters.
pub open spec fn param_nums(ps: Seq<ParamView>) -> Set<u32>
    decreases ps.len(),
{
    if ps.len() == 0 {
        Set::empty()
    } else {
        param_nums(ps.drop_last()).insert(ps.last().id.0)
    }
}

/// The variables defined before a loop runs: outside its blocks, or
/// parameters.
pub open spec fn initial_defs(f: FunctionView, l: Set<BlockId>) -> Set<u32> {
    outside_dests(f.blocks, l).union(param_nums(f.params))
}

/// The invariant instructions of one loop block, in order, each as (block,
/// position); with the defined variables grown by their destinations.
pub open spec fn scan_insts(s: Seq<InstView>, bid: BlockId, defs: Set<u32>) -> (Seq<(BlockId, int)>, Set<u32>)
    decreases s.len(),
{
    if s.len() == 0 {
        (Seq::empty(), defs)
    } else {
        let pre = scan_insts(s.drop_last(), bid, defs);
        if is_invariant_spec(s.last(), pre.1) {
            (
                pre.0.push((bid, s.len() - 1)),
                match loop_dest(s.last()) {
                    Some(d) => pre.1.insert(d.0),
                    None => pre.1,
                },
            )
        } else {
            pre
        }
    }
}

/// The same over the loop blocks in the given order (the first block of
/// the function with each id).
pub open spec fn scan_blocks(bs: Seq<BlockView>, order: Seq<BlockId>, defs: Set<u32>) -> (Seq<(BlockId, int)>, Set<u32>)
    decreases order.len(),
{
    if order.len() == 0 {
        (Seq::empty(), defs)
    } else {
        let pre = scan_blocks(bs, order.drop_last(), defs);
        match find_block(bs, order.last()) {
            Some(k) => {
                let r = scan_insts(bs[k].instructions, order.last(), pre.1);
                (pre.0 + r.0, r.1)
            },
            None => pre,
        }
    }
}

/// The invariant instructions of a loop of `f`, as (block, position).
pub open spec fn loop_invariants_spec(f: FunctionView, lv: LoopView) -> Seq<(BlockId, int)> {
    scan_blocks(f.blocks, lv.blocks, initial_defs(f, lv.blocks.to_set())).0
}

/// The model of a list of (block, position) pairs.
pub open spec fn positions_view(v: Seq<(BlockId, usize)>) -> Seq<(BlockId, int)> {
    v.map_values(|p: (BlockId, usize)| (p.0, p.1 as int))
}

/// The variable an instruction defines, as loop-invariant code motion sees
/// it.
fn instruction_dest(inst: &Instruction) -> (r: Option<VarId>)
    ensures
        r == loop_dest(inst@),
{
    match inst {
        Instruction::Const { dest, .. } => Some(*dest),
        Instruction::Binary { dest, .. } => Some(*dest),
        Instruction::Unary { dest, .. } => Some(*dest),
        Instruction::IntToFloat { dest, .. } => Some(*dest),
        Instruction::FloatToInt { dest, .. } => Some(*dest),
        Instruction::ToString { dest, .. } => Some(*dest),
        Instruction::Bitcast { dest, .. } => Some(*dest),
        Instruction::Alloca { dest, .. } => Some(*dest),
        Instruction::Load { dest, .. } => Some(*dest),
        Instruction::GetElementPtr { dest, .. } => Some(*dest),
        Instruction::NewObject { dest, .. } => Some(*dest),
        Instruction::GetField { dest, .. } => Some(*dest),
        Instruction::ArrayLen { dest, .. } => Some(*dest),
        Instruction::ArrayGet { dest, .. } => Some(*dest),
        Instruction::StringConcat { dest, .. } => Some(*dest),
        Instruction::GetException { dest } => Some(*dest),
        Instruction::Phi { dest, .. } => Some(*dest),
        Instruction::Copy { dest, .. } => Some(*dest),
        Instruction::Call { dest, .. } => *dest,
        Instruction::CallIndirect { dest, .. } => *dest,
        Instruction::CallMethod { dest, .. } => *dest,
        Instruction::CallVirtual { dest, .. } => *dest,
        Instruction::NewArray { dest, .. } => Some(*dest),
        _ => None,
    }
}

/// `first` followed by a copy of `rest`.
fn cons_vars(first: VarId, rest: &Vec<VarId>) -> (r: Vec<VarId>)
    ensures
        r@ == seq![first] + rest@,
{
    let mut r: Vec<VarId> = Vec::new();
    r.push(first);
    let mut i: usize = 0;
    while i < rest.len()
        invariant
            i <= rest.len(),
            r@ == seq![first] + rest@.take(i as int),
        decreases rest.len() - i,
    {
        r.push(rest[i]);
        i = i + 1;
        proof {
            assert(r@ =~= seq![first] + rest@.take(i as int));
        }
    }
    proof {
        assert(rest@.take(rest.len() as int) =~= rest@);
    }
    r
}

/// The values of the incoming edges of a phi.
fn incoming_values(incoming: &Vec<(VarId, BlockId)>) -> (r: Vec<VarId>)
    ensures
        r@ == incoming@.map_values(|p: (VarId, BlockId)| p.0),
{
    let mut r: Vec<VarId> = Vec::new();
    let mut i: usize = 0;
    while i < incoming.len()
        invariant
            i <= incoming.len(),
            r@ == incoming@.take(i as int).map_values(|p: (VarId, BlockId)| p.0),
        decreases incoming.len() - i,
    {
        r.push(incoming[i].0);
        i = i + 1;
        proof {
            assert(r@ =~= incoming@.take(i as int).map_values(|p: (VarId, BlockId)| p.0));
        }
    }
    proof {
        assert(incoming@.take(incoming.len() as int) =~= incoming@);
    }
    r
}

/// The operands of an instruction, as loop-invariant code motion sees them.
fn instruction_operands(inst: &Instruction) -> (r: Vec<VarId>)
    ensures
        r@ == loop_operands(inst@),
{
    let mut v: Vec<VarId> = Vec::new();
    match inst {
        Instruction::Binary { left, right, .. } => {
            v.push(*left);
            v.push(*right);
        },
        Instruction::Unary { operand, .. } => {
            v.push(*operand);
        },
        Instruction::IntToFloat { src, .. } | Instruction::FloatToInt { src, .. } | Instruction::ToString {
            src,
            ..
        } | Instruction::Bitcast { src, .. } | Instruction::Copy { src, .. } => {
            v.push(*src);
        },
        Instruction::Load { ptr, .. } => {
            v.push(*ptr);
        },
        Instruction::Store { ptr, value } => {
            v.push(*ptr);
            v.push(*value);
        },
        Instruction::GetElementPtr { ptr, index, .. } => {
            v.push(*ptr);
            v.push(*index);
        },
        Instruction::GetField { object, .. } => {
            v.push(*object);
        },
        Instruction::SetField { object, value, .. } => {
            v.push(*object);
            v.push(*value);
        },
        Instruction::ArrayGet { array, index, .. } => {
            v.push(*array);
            v.push(*index);
        },
        Instruction::ArraySet { array, index, value } => {
            v.push(*array);
            v.push(*index);
            v.push(*value);
        },
        Instruction::ArrayLen { array, .. } => {
            v.push(*array);
        },
        Instruction::StringConcat { left, right, .. } => {
            v.push(*left);
            v.push(*right);
        },
        Instruction::Branch { cond, .. } => {
            v.push(*cond);
        },
        Instruction::Return { value } => {
            if let Some(x) = value {
                v.push(*x);
            }
        },
        Instruction::Call { args, .. } | Instruction::CallIndirect { args, .. } => {
            v = crate::opt::dce::copy_vars(args);
        },
        Instruction::CallMethod { object, args, .. } | Instruction::CallVirtual { object, args, .. } => {
            v = cons_vars(*object, args);
        },
        Instruction::NewArray { elements, .. } => {
            v = crate::opt::dce::copy_vars(elements);
        },
        Instruction::Throw { exception } => {
            v.push(*exception);
        },
        Instruction::Print { value } => {
            v.push(*value);
        },
        Instruction::Phi { incoming, .. } => {
            v = incoming_values(incoming);
        },
        _ => {},
    }
    proof {
        assert(v@ =~= loop_operands(inst@));
    }
    v
}

/// Removes the instruction at `c` (block, position) where that block and
/// position exist; with the removed instruction.
pub open spec fn remove_one(bs: Seq<BlockView>, c: (BlockId, int)) -> (Seq<BlockView>, Seq<InstView>) {
    match find_block(bs, c.0) {
        Some(k) => if 0 <= c.1 < bs[k].instructions.len() {
            (
                bs.update(k, BlockView { instructions: bs[k].instructions.remove(c.1), ..bs[k] }),
                seq![bs[k].instructions[c.1]],
            )
        } else {
            (bs, Seq::empty())
        },
        None => (bs, Seq::empty()),
    }
}

/// Removes the instructions at `cs`, the last first so that the earlier
/// positions stay valid; with the removed instructions in the order of `cs`.
pub open spec fn remove_all(bs: Seq<BlockView>, cs: Seq<(BlockId, int)>) -> (Seq<BlockView>, Seq<InstView>)
    decreases cs.len(),
{
    if cs.len() == 0 {
        (bs, Seq::empty())
    } else {
        let r1 = remove_one(bs, cs.last());
        let r2 = remove_all(r1.0, cs.drop_last());
        (r2.0, r2.1 + r1.1)
    }
}

/// Puts `moved` into the preheader (the first block with that id), before
/// its terminator if it has one.
pub open spec fn insert_hoisted(bs: Seq<BlockView>, pre: BlockId, moved: Seq<InstView>) -> Seq<BlockView> {
    match find_block(bs, pre) {
        Some(k) => {
            let insts = bs[k].instructions;
            let pos = if ends_with_terminator(insts) {
                insts.len() - 1
            } else {
                insts.len() as int
            };
            bs.update(k, BlockView { instructions: insts.take(pos) + moved + insts.skip(pos), ..bs[k] })
        },
        None => bs,
    }
}

/// Hoisting the invariant instructions `cs` into the preheader; with the
/// number of instructions moved.
pub open spec fn hoist_spec(bs: Seq<BlockView>, pre: BlockId, cs: Seq<(BlockId, int)>) -> (Seq<BlockView>, nat) {
    let r = remove_all(bs, cs);
    (insert_hoisted(r.0, pre, r.1), r.1.len())
}

/// Code motion for one loop: where it has a preheader and invariant
/// instructions, they move there.
pub open spec fn licm_step(f: FunctionView, lv: LoopView) -> (FunctionView, nat) {
    match lv.preheader {
        None => (f, 0),
        Some(pre) => {
            let cs = loop_invariants_spec(f, lv);
            if cs.len() == 0 {
                (f, 0)
            } else {
                let h = hoist_spec(f.blocks, pre, cs);
                (FunctionView { blocks: h.0, ..f }, h.1)
            }
        },
    }
}

/// Code motion for the loops in order; with the number of instructions
/// moved.
pub open spec fn licm_loops(f: FunctionView, loops: Seq<LoopView>) -> (FunctionView, nat)
    decreases loops.len(),
{
    if loops.len() == 0 {
        (f, 0)
    } else {
        let prev = licm_loops(f, loops.drop_last());
        let st = licm_step(prev.0, loops.last());
        (st.0, prev.1 + st.1)
    }
}

/// Loop-invariant code motion on a function, for the loops that the
/// analysis finds in it.
pub open spec fn licm_function(f: FunctionView) -> (FunctionView, nat) {
    licm_loops(f, analysis_of(f.blocks))
}

/// The instructions that code motion moves in a sequence of functions.
pub open spec fn licm_total(fs: Seq<FunctionView>) -> nat
    decreases fs.len(),
{
    if fs.len() == 0 {
        0
    } else {
        licm_total(fs.drop_last()) + licm_function(fs.last()).1
    }
}

/// Whether the analysis of every function is free of overflow.
pub open spec fn analyses_ok(fs: Seq<FunctionView>) -> bool {
    forall|i: int| 0 <= i < fs.len() ==> !analysis_overflows(#[trigger] fs[i].blocks)
}

/// Statistics with `n` more instructions hoisted out of loops.
pub open spec fn add_moved(s: OptStats, n: nat) -> OptStats {
    OptStats { loop_invariants_hoisted: (s.loop_invariants_hoisted + n) as usize, ..s }
}

proof fn lemma_licm_loops_prefix(f: FunctionView, loops: Seq<LoopView>, k: int)
    requires
        0 <= k <= loops.len(),
    ensures
        licm_loops(f, loops.take(k)).1 <= licm_loops(f, loops).1,
    decreases loops.len(),
{
    if k < loops.len() {
        assert(loops.drop_last().take(k) =~= loops.take(k));
        lemma_licm_loops_prefix(f, loops.drop_last(), k);
    } else {
        assert(loops.take(k) =~= loops);
    }
}

proof fn lemma_licm_total_prefix(fs: Seq<FunctionView>, k: int)
    requires
        0 <= k <= fs.len(),
    ensures
        licm_total(fs.take(k)) <= licm_total(fs),
    decreases fs.len(),
{
    if k < fs.len() {
        assert(fs.drop_last().take(k) =~= fs.take(k));
        lemma_licm_total_prefix(fs.drop_last(), k);
    } else {
        assert(fs.take(k) =~= fs);
    }
}

/// Loop-invariant code motion.
pub struct LoopInvariantCodeMotion {
    stats: OptStats,
}

impl View for LoopInvariantCodeMotion {
    type V = OptStats;

    closed spec fn view(&self) -> OptStats {
        self.stats
    }
}

impl LoopInvariantCodeMotion {
    pub fn new() -> (r: Self)
        ensures
            r@.is_zero(),
    {
        LoopInvariantCodeMotion { stats: OptStats::new() }
    }

    pub fn stats(&self) -> (r: &OptStats)
        ensures
            *r == self@,
    {
        &self.stats
    }

    /// Whether the instruction is loop invariant, given the variables
    /// defined outside the loop or by invariant instructions.
    fn is_loop_invariant(&self, inst: &Instruction, invariant_defs: &HashSet<u32>) -> (r: bool)
        ensures
            r == is_invariant_spec(inst@, invariant_defs@),
    {
        match inst {
            Instruction::Jump { .. } | Instruction::Branch { .. } | Instruction::Return { .. }
            | Instruction::Throw { .. } => {
                return false;
            },
            Instruction::Store { .. } | Instruction::SetField { .. } | Instruction::ArraySet { .. }
            | Instruction::Print { .. } | Instruction::Call { .. } | Instruction::CallMethod { .. }
            | Instruction::CallVirtual { .. } | Instruction::CallIndirect { .. } => {
                return false;
            },
            Instruction::GlobalStore { .. } | Instruction::ArrayPush { .. } => {
                return false;
            },
            Instruction::Alloca { .. } | Instruction::NewObject { .. } | Instruction::NewArray { .. } => {
                return false;
            },
            Instruction::Phi { .. } => {
                return false;
            },
            Instruction::TryBegin { .. } | Instruction::TryEnd | Instruction::GetException { .. } => {
                return false;
            },
            _ => {},
        }
        let operands = instruction_operands(inst);
        let mut i: usize = 0;
        while i < operands.len()
            invariant
                i <= operands.len(),
                operands@ == loop_operands(inst@),
                forall|j: int| 0 <= j < i ==> invariant_defs@.contains(#[trigger] operands@[j].0),
            decreases operands.len() - i,
        {
            if !invariant_defs.contains(&operands[i].0) {
                return false;
            }
            i = i + 1;
        }
        true
    }

    /// The invariant instructions of the loop, as (block, position), in the
    /// order of the loop's blocks.
    fn find_loop_invariants(&self, func: &Function, loop_info: &Loop) -> (r: Vec<(BlockId, usize)>)
        ensures
            positions_view(r@) == loop_invariants_spec(func@, loop_info@),
    {
        let ghost bs = func@.blocks;
        let ghost l = loop_info@.blocks.to_set();
        let mut defs: HashSet<u32> = HashSet::new();
        let mut k: usize = 0;
        proof {
            assert(bs.take(0) =~= Seq::<BlockView>::empty());
            assert(defs@ =~= outside_dests(bs.take(0), l));
        }
        while k < func.blocks.len()
            invariant
                k <= func.blocks.len(),
                bs == func@.blocks,
                l == loop_info@.blocks.to_set(),
                defs@ == outside_dests(bs.take(k as int), l),
            decreases func.blocks.len() - k,
        {
            proof {
                assert(bs.take(k + 1).drop_last() =~= bs.take(k as int));
                assert(bs.take(k + 1).last() == func.blocks@[k as int]@);
            }
            if !loop_info.contains(func.blocks[k].id) {
                let insts = &func.blocks[k].instructions;
                let ghost s = insts_view(insts@);
                let ghost d0 = defs@;
                let mut j: usize = 0;
                proof {
                    assert(s.take(0) =~= Seq::<InstView>::empty());
                    assert(d0.union(dests_of(s.take(0))) =~= d0);
                }
                while j < insts.len()
                    invariant
                        j <= insts.len(),
                        s == insts_view(insts@),
                        defs@ == d0.union(dests_of(s.take(j as int))),
                    decreases insts.len() - j,
                {
                    proof {
                        assert(s.take(j + 1).drop_last() =~= s.take(j as int));
                        assert(s.take(j + 1).last() == insts@[j as int]@);
                    }
                    if let Some(dest) = instruction_dest(&insts[j]) {
                        defs.insert(dest.0);
                    }
                    proof {
                        assert(defs@ =~= d0.union(dests_of(s.take(j + 1))));
                    }
                    j = j + 1;
                }
                proof {
                    assert(s.take(insts.len() as int) =~= s);
                }
            }
            k = k + 1;
        }
        proof {
            assert(bs.take(func.blocks.len() as int) =~= bs);
        }
        let ghost ps = func@.params;
        let ghost d1 = defs@;
        let mut p: usize = 0;
        proof {
            assert(ps.take(0) =~= Seq::<ParamView>::empty());
            assert(d1.union(param_nums(ps.take(0))) =~= d1);
        }
        while p < func.params.len()
            invariant
                p <= func.params.len(),
                ps == func@.params,
                defs@ == d1.union(param_nums(ps.take(p as int))),
            decreases func.params.len() - p,
        {
            proof {
                assert(ps.take(p + 1).drop_last() =~= ps.take(p as int));
                assert(ps.take(p + 1).last() == func.params@[p as int]@);
            }
            defs.insert(func.params[p].id.0);
            proof {
                assert(defs@ =~= d1.union(param_nums(ps.take(p + 1))));
            }
            p = p + 1;
        }
        proof {
            assert(ps.take(func.params.len() as int) =~= ps);
        }
        let ghost order = loop_info@.blocks;
        let ghost d2 = defs@;
        let mut out: Vec<(BlockId, usize)> = Vec::new();
        let mut b: usize = 0;
        proof {
            assert(order.take(0) =~= Seq::<BlockId>::empty());
            assert(positions_view(out@) =~= Seq::<(BlockId, int)>::empty());
        }
        while b < loop_info.blocks.len()
            invariant
                b <= loop_info.blocks.len(),
                bs == func@.blocks,
                order == loop_info@.blocks,
                positions_view(out@) == scan_blocks(bs, order.take(b as int), d2).0,
                defs@ == scan_blocks(bs, order.take(b as int), d2).1,
            decreases loop_info.blocks.len() - b,
        {
            let block_id = loop_info.blocks[b];
            proof {
                assert(order.take(b + 1).drop_last() =~= order.take(b as int));
                assert(order.take(b + 1).last() == block_id);
            }
            match block_position(&func.blocks, block_id) {
                Some(k) => {
                    let insts = &func.blocks[k].instructions;
                    let ghost s = insts_view(insts@);
                    let ghost o0 = positions_view(out@);
                    let ghost d3 = defs@;
                    proof {
                        assert(bs[k as int] == func.blocks@[k as int]@);
                        assert(s.take(0) =~= Seq::<InstView>::empty());
                        assert(o0 + scan_insts(s.take(0), block_id, d3).0 =~= o0);
                    }
                    let mut j: usize = 0;
                    while j < insts.len()
                        invariant
                            j <= insts.len(),
                            s == insts_view(insts@),
                            positions_view(out@) == o0 + scan_insts(s.take(j as int), block_id, d3).0,
                            defs@ == scan_insts(s.take(j as int), block_id, d3).1,
                        decreases insts.len() - j,
                    {
                        proof {
                            assert(s.take(j + 1).drop_last() =~= s.take(j as int));
                            assert(s.take(j + 1).last() == insts@[j as int]@);
                        }
                        let ghost ob = positions_view(out@);
                        if self.is_loop_invariant(&insts[j], &defs) {
                            out.push((block_id, j));
                            if let Some(dest) = instruction_dest(&insts[j]) {
                                defs.insert(dest.0);
                            }
                            proof {
                                assert(positions_view(out@) =~= ob.push((block_id, j as int)));
                            }
                        }
                        proof {
                            assert(positions_view(out@) =~= o0 + scan_insts(s.take(j + 1), block_id, d3).0);
                        }
                        j = j + 1;
                    }
                    proof {
                        assert(s.take(insts.len() as int) =~= s);
                    }
                },
                None => {},
            }
            b = b + 1;
        }
        proof {
            assert(order.take(loop_info.blocks.len() as int) =~= order);
            assert(d2 == initial_defs(func@, l));
        }
        out
    }

    /// Moves the invariant instructions into the preheader: removed from
    /// their blocks, the last first, and put before the preheader's
    /// terminator in the order they were found.
    fn hoist_instructions(&mut self, func: &mut Function, preheader: BlockId, invariants: &Vec<(BlockId, usize)>)
        requires
            old(self)@.loop_invariants_hoisted + hoist_spec(
                old(func)@.blocks,
                preheader,
                positions_view(invariants@),
            ).1 <= usize::MAX,
        ensures
            final(func)@ == (FunctionView {
                blocks: hoist_spec(old(func)@.blocks, preheader, positions_view(invariants@)).0,
                ..old(func)@
            }),
            final(self)@ == add_moved(
                old(self)@,
                hoist_spec(old(func)@.blocks, preheader, positions_view(invariants@)).1,
            ),
    {
        let ghost cs = positions_view(invariants@);
        let ghost r = remove_all(old(func)@.blocks, cs);
        let ghost s0 = self@;
        let mut to_move: Vec<Instruction> = Vec::new();
        let mut t: usize = invariants.len();
        proof {
            assert(cs.take(t as int) =~= cs);
            assert(insts_view(to_move@) =~= Seq::<InstView>::empty());
        }
        while t > 0
            invariant
                t <= invariants.len(),
                cs == positions_view(invariants@),
                func@ == (FunctionView { blocks: func@.blocks, ..old(func)@ }),
                remove_all(func@.blocks, cs.take(t as int)).0 == r.0,
                remove_all(func@.blocks, cs.take(t as int)).1 + insts_view(to_move@) == r.1,
                self@ == add_moved(s0, to_move@.len() as nat),
                s0.loop_invariants_hoisted + r.1.len() <= usize::MAX,
            decreases t,
        {
            t = t - 1;
            let (bid, idx) = invariants[t];
            let ghost bs0 = func@.blocks;
            let ghost tm0 = insts_view(to_move@);
            proof {
                assert(cs.take(t + 1).drop_last() =~= cs.take(t as int));
                assert(cs.take(t + 1).last() == cs[t as int]);
                assert(cs[t as int] == (bid, idx as int));
                let r1 = remove_one(bs0, (bid, idx as int));
                let rr = remove_all(r1.0, cs.take(t as int));
                assert((rr.1 + r1.1) + tm0 =~= rr.1 + (r1.1 + tm0));
                assert((rr.1 + r1.1 + tm0).len() == r.1.len());
            }
            match block_position(&func.blocks, bid) {
                Some(k) => {
                    proof {
                        assert(bs0[k as int] == func.blocks@[k as int]@);
                    }
                    if idx < func.blocks[k].instructions.len() {
                        let ghost bk = func.blocks@[k as int];
                        let inst = func.blocks[k].instructions.remove(idx);
                        to_move.insert(0, inst);
                        self.stats.loop_invariants_hoisted = self.stats.loop_invariants_hoisted + 1;
                        proof {
                            assert(insts_view(func.blocks@[k as int].instructions@) =~= insts_view(
                                bk.instructions@,
                            ).remove(idx as int));
                            assert(func@.blocks =~= remove_one(bs0, (bid, idx as int)).0);
                            assert(insts_view(to_move@) =~= remove_one(bs0, (bid, idx as int)).1 + tm0);
                        }
                    } else {
                        proof {
                            assert(insts_view(to_move@) =~= remove_one(bs0, (bid, idx as int)).1 + tm0);
                        }
                    }
                },
                None => {
                    proof {
                        assert(insts_view(to_move@) =~= remove_one(bs0, (bid, idx as int)).1 + tm0);
                    }
                },
            }
        }
        proof {
            assert(cs.take(0) =~= Seq::<(BlockId, int)>::empty());
            assert(Seq::<InstView>::empty() + insts_view(to_move@) =~= insts_view(to_move@));
        }
        let ghost bs1 = func@.blocks;
        match block_position(&func.blocks, preheader) {
            Some(k) => {
                proof {
                    assert(bs1[k as int] == func.blocks@[k as int]@);
                }
                let has_t = func.blocks[k].has_terminator();
                let len = func.blocks[k].instructions.len();
                let pos = if has_t {
                    len - 1
                } else {
                    len
                };
                let ghost bk = func.blocks@[k as int];
                let mut insts: Vec<Instruction> = Vec::new();
                std::mem::swap(&mut insts, &mut func.blocks[k].instructions);
                let mut tail = insts.split_off(pos);
                insts.append(&mut to_move);
                insts.append(&mut tail);
                std::mem::swap(&mut insts, &mut func.blocks[k].instructions);
                proof {
                    let iv = insts_view(bk.instructions@);
                    assert(insts_view(func.blocks@[k as int].instructions@) =~= iv.take(pos as int) + r.1 + iv.skip(
                        pos as int,
                    ));
                    assert(func@.blocks =~= insert_hoisted(bs1, preheader, r.1));
                }
            },
            None => {},
        }
    }

    /// Code motion for each loop of the function that has a preheader.
    fn optimize_function(&mut self, func: &mut Function)
        requires
            !analysis_overflows(old(func)@.blocks),
            old(self)@.loop_invariants_hoisted + licm_function(old(func)@).1 <= usize::MAX,
        ensures
            final(func)@ == licm_function(old(func)@).0,
            final(self)@ == add_moved(old(self)@, licm_function(old(func)@).1),
    {
        let ghost f0 = func@;
        let ghost s0 = self@;
        let analysis = LoopAnalysis::analyze(func);
        let ghost loops = loops_view(analysis.loops@);
        let mut i: usize = 0;
        proof {
            assert(loops.take(0) =~= Seq::<LoopView>::empty());
        }
        while i < analysis.loops.len()
            invariant
                i <= analysis.loops.len(),
                loops == loops_view(analysis.loops@),
                loops == analysis_of(f0.blocks),
                func@ == licm_loops(f0, loops.take(i as int)).0,
                self@ == add_moved(s0, licm_loops(f0, loops.take(i as int)).1),
                s0.loop_invariants_hoisted + licm_loops(f0, loops).1 <= usize::MAX,
            decreases analysis.loops.len() - i,
        {
            let loop_info = &analysis.loops[i];
            proof {
                assert(loops.take(i + 1).drop_last() =~= loops.take(i as int));
                assert(loops.take(i + 1).last() == loop_info@);
                lemma_licm_loops_prefix(f0, loops, i + 1);
            }
            match loop_info.preheader {
                None => {},
                Some(preheader) => {
                    let invariants = self.find_loop_invariants(func, loop_info);
                    if invariants.len() > 0 {
                        self.hoist_instructions(func, preheader, &invariants);
                    }
                },
            }
            i = i + 1;
        }
        proof {
            assert(loops.take(analysis.loops.len() as int) =~= loops);
        }
    }

    /// Code motion in every function of the module.
    pub fn run(&mut self, module: &mut Module)
        requires
            analyses_ok(functions_view(old(module).functions@)),
            old(self)@.loop_invariants_hoisted + licm_total(functions_view(old(module).functions@)) <= usize::MAX,
        ensures
            functions_view(final(module).functions@) == functions_view(old(module).functions@).map_values(
                |f: FunctionView| licm_function(f).0,
            ),
            final(self)@ == add_moved(old(self)@, licm_total(functions_view(old(module).functions@))),
            final(module).name == old(module).name,
            final(module).strings == old(module).strings,
            final(module).classes == old(module).classes,
            final(module).globals == old(module).globals,
    {
        let mut functions: Vec<Function> = Vec::new();
        std::mem::swap(&mut functions, &mut module.functions);
        let ghost fs = functions_view(functions@);
        let ghost orig = functions@;
        let ghost s0 = self@;
        let mut out: Vec<Function> = Vec::new();
        proof {
            assert(fs.take(0) =~= Seq::<FunctionView>::empty());
        }
        for f in it: functions.into_iter()
            invariant
                it.seq() == orig,
                fs == functions_view(orig),
                0 <= it.index() <= orig.len(),
                analyses_ok(fs),
                s0.loop_invariants_hoisted + licm_total(fs) <= usize::MAX,
                out@.len() == it.index(),
                forall|j: int| 0 <= j < it.index() ==> #[trigger] out@[j]@ == licm_function(fs[j]).0,
                self@ == add_moved(s0, licm_total(fs.take(it.index()))),
        {
            let ghost k = it.index();
            proof {
                assert(fs.take(k + 1).drop_last() =~= fs.take(k));
                assert(fs.take(k + 1).last() == fs[k]);
                assert(fs[k] == f@);
                lemma_licm_total_prefix(fs, k + 1);
            }
            let mut g = f;
            self.optimize_function(&mut g);
            out.push(g);
        }
        proof {
            assert(fs.take(orig.len() as int) =~= fs);
            assert(functions_view(out@) =~= fs.map_values(|f: FunctionView| licm_function(f).0));
        }
        module.functions = out;
    }
}

impl Default for LoopInvariantCodeMotion {
    fn default() -> (r: Self)
        ensures
            r@.is_zero(),
    {
        Self::new()
    }
}

/// Statistics with `n` more constants counted as folded.
pub open spec fn add_counted(s: OptStats, n: nat) -> OptStats {
    OptStats { constants_folded: (s.constants_folded + n) as usize, ..s }
}

/// The strength-reduction pass. It rewrites no instruction yet, so it
/// leaves the code and its statistics as they are.
pub struct StrengthReduction {
    stats: OptStats,
}

impl View for StrengthReduction {
    type V = OptStats;

    closed spec fn view(&self) -> OptStats {
        self.stats
    }
}

impl StrengthReduction {
    pub fn new() -> (r: Self)
        ensures
            r@.is_zero(),
    {
        StrengthReduction { stats: OptStats::new() }
    }

    pub fn stats(&self) -> (r: &OptStats)
        ensures
            *r == self@,
    {
        &self.stats
    }

    /// Runs on the module. The pass rewrites no instruction, so it leaves
    /// the module and its statistics as they are.
    pub fn run(&mut self, module: &mut Module)
        ensures
            *final(module) == *old(module),
            final(self)@ == old(self)@,
    {
    }
}

impl Default for StrengthReduction {
    fn default() -> (r: Self)
        ensures
            r@.is_zero(),
    {
        Self::new()
    }
}

/// Whether every loop block (the first block with each id, where there
/// is one) ends with a terminator.
pub open spec fn all_terminated(bs: Seq<BlockView>, order: Seq<BlockId>) -> bool {
    forall|j: int|
        0 <= j < order.len() ==> match find_block(bs, #[trigger] order[j]) {
            Some(k) => ends_with_terminator(bs[k].instructions),
            None => true,
        }
}

/// Whether the loop has the shape the unroller handles: one back edge, an
/// induction variable, one exit, and every block terminated.
pub open spec fn unroll_shape_ok(bs: Seq<BlockView>, lv: LoopView) -> bool {
    &&& lv.back_edges.len() == 1
    &&& lv.induction_vars.len() > 0
    &&& lv.exits.len() == 1
    &&& all_terminated(bs, lv.blocks)
}

/// The number of instructions in the loop blocks.
pub open spec fn body_size(bs: Seq<BlockView>, order: Seq<BlockId>) -> nat
    decreases order.len(),
{
    if order.len() == 0 {
        0
    } else {
        body_size(bs, order.drop_last()) + match find_block(bs, order.last()) {
            Some(k) => bs[k].instructions.len(),
            None => 0,
        }
    }
}

/// Whether one of the instructions defines `cond` as an ordering
/// comparison (or inequality) of `iv` with a variable that has an integer
/// constant.
pub open spec fn bound_comparison(bs: Seq<BlockView>, s: Seq<InstView>, cond: VarId, iv: VarId) -> bool {
    exists|j: int|
        0 <= j < s.len() && match #[trigger] s[j] {
            InstView::Binary { dest, op, left, right, .. } => {
                &&& dest == cond
                &&& (op == BinaryOp::Lt || op == BinaryOp::Le || op == BinaryOp::Gt || op == BinaryOp::Ge || op
                    == BinaryOp::Ne)
                &&& if left == iv {
                    const_in_blocks(bs, right) is Some
                } else {
                    right == iv && const_in_blocks(bs, left) is Some
                }
            },
            _ => false,
        }
}

/// Whether the exit block ends with a branch on such a comparison.
pub open spec fn exit_bounded(bs: Seq<BlockView>, e: BlockId, iv: VarId) -> bool {
    match find_block(bs, e) {
        Some(k) => {
            let s = bs[k].instructions;
            ends_with_terminator(s) && match s.last() {
                InstView::Branch { cond, .. } => bound_comparison(bs, s, cond, iv),
                _ => false,
            }
        },
        None => false,
    }
}

/// Whether the trip count is known: the first induction variable starts
/// at a constant and steps by a non-zero constant, and an exit branches on
/// a comparison of it with a constant.
pub open spec fn known_trip_count(bs: Seq<BlockView>, lv: LoopView) -> bool {
    &&& lv.induction_vars.len() > 0
    &&& const_in_blocks(bs, lv.induction_vars[0].init) is Some
    &&& lv.induction_vars[0].step matches InductionStep::Constant(st) && st != 0
    &&& exists|j: int| 0 <= j < lv.exits.len() && exit_bounded(bs, #[trigger] lv.exits[j], lv.induction_vars[0].var)
}

/// Whether the unroller counts the loop.
pub open spec fn unroll_hit(bs: Seq<BlockView>, lv: LoopView, max_body: usize, need_trip: bool) -> bool {
    &&& unroll_shape_ok(bs, lv)
    &&& body_size(bs, lv.blocks) <= max_body
    &&& (need_trip ==> known_trip_count(bs, lv))
}

/// The number of loops the unroller counts.
pub open spec fn unroll_loops(bs: Seq<BlockView>, loops: Seq<LoopView>, max_body: usize, need_trip: bool) -> nat
    decreases loops.len(),
{
    if loops.len() == 0 {
        0
    } else {
        unroll_loops(bs, loops.drop_last(), max_body, need_trip) + if unroll_hit(
            bs,
            loops.last(),
            max_body,
            need_trip,
        ) {
            1nat
        } else {
            0nat
        }
    }
}

/// The number of loops the unroller counts in a sequence of functions.
pub open spec fn unroll_total(fs: Seq<FunctionView>, max_body: usize, need_trip: bool) -> nat
    decreases fs.len(),
{
    if fs.len() == 0 {
        0
    } else {
        unroll_total(fs.drop_last(), max_body, need_trip) + unroll_loops(
            fs.last().blocks,
            analysis_of(fs.last().blocks),
            max_body,
            need_trip,
        )
    }
}

proof fn lemma_body_size_prefix(bs: Seq<BlockView>, order: Seq<BlockId>, k: int)
    requires
        0 <= k <= order.len(),
    ensures
        body_size(bs, order.take(k)) <= body_size(bs, order),
    decreases order.len(),
{
    if k < order.len() {
        assert(order.drop_last().take(k) =~= order.take(k));
        lemma_body_size_prefix(bs, order.drop_last(), k);
    } else {
        assert(order.take(k) =~= order);
    }
}

proof fn lemma_unroll_total_prefix(fs: Seq<FunctionView>, max_body: usize, need_trip: bool, k: int)
    requires
        0 <= k <= fs.len(),
    ensures
        unroll_total(fs.take(k), max_body, need_trip) <= unroll_total(fs, max_body, need_trip),
    decreases fs.len(),
{
    if k < fs.len() {
        assert(fs.drop_last().take(k) =~= fs.take(k));
        lemma_unroll_total_prefix(fs.drop_last(), max_body, need_trip, k);
    } else {
        assert(fs.take(k) =~= fs);
    }
}

proof fn lemma_unroll_loops_prefix(bs: Seq<BlockView>, loops: Seq<LoopView>, max_body: usize, need_trip: bool, k: int)
    requires
        0 <= k <= loops.len(),
    ensures
        unroll_loops(bs, loops.take(k), max_body, need_trip) <= unroll_loops(bs, loops, max_body, need_trip),
    decreases loops.len(),
{
    if k < loops.len() {
        assert(loops.drop_last().take(k) =~= loops.take(k));
        lemma_unroll_loops_prefix(bs, loops.drop_last(), max_body, need_trip, k);
    } else {
        assert(loops.take(k) =~= loops);
    }
}

/// The unrolling scan: it finds the loops that could be unrolled and counts
/// each of them in `constants_folded`; it rewrites no instruction.
pub struct LoopUnroller {
    stats: OptStats,
    max_body_size: usize,
    unroll_factor: usize,
    require_known_trip_count: bool,
}

impl View for LoopUnroller {
    type V = OptStats;

    closed spec fn view(&self) -> OptStats {
        self.stats
    }
}

impl LoopUnroller {
    /// The largest loop body (in instructions) that is counted.
    pub closed spec fn max_body(&self) -> usize {
        self.max_body_size
    }

    /// The unroll factor.
    pub closed spec fn factor(&self) -> usize {
        self.unroll_factor
    }

    /// Whether only loops with a known trip count are counted.
    pub closed spec fn needs_trip_count(&self) -> bool {
        self.require_known_trip_count
    }

    pub fn new() -> (r: Self)
        ensures
            r@.is_zero(),
            r.max_body() == 50,
            r.factor() == 4,
            r.needs_trip_count(),
    {
        LoopUnroller {
            stats: OptStats::new(),
            max_body_size: 50,
            unroll_factor: 4,
            require_known_trip_count: true,
        }
    }

    pub fn set_unroll_factor(&mut self, factor: usize)
        ensures
            final(self).factor() == factor,
            final(self).max_body() == old(self).max_body(),
            final(self).needs_trip_count() == old(self).needs_trip_count(),
            final(self)@ == old(self)@,
    {
        self.unroll_factor = factor;
    }

    pub fn set_max_body_size(&mut self, size: usize)
        ensures
            final(self).max_body() == size,
            final(self).factor() == old(self).factor(),
            final(self).needs_trip_count() == old(self).needs_trip_count(),
            final(self)@ == old(self)@,
    {
        self.max_body_size = size;
    }

    pub fn stats(&self) -> (r: &OptStats)
        ensures
            *r == self@,
    {
        &self.stats
    }

    /// Whether the loop has the shape the unroller handles.
    fn is_unroll_candidate(&self, func: &Function, loop_info: &Loop) -> (r: bool)
        ensures
            r == unroll_shape_ok(func@.blocks, loop_info@),
    {
        if loop_info.back_edges.len() != 1 {
            return false;
        }
        if loop_info.induction_vars.len() == 0 {
            return false;
        }
        if loop_info.exits.len() != 1 {
            return false;
        }
        let ghost bs = func@.blocks;
        let mut b: usize = 0;
        while b < loop_info.blocks.len()
            invariant
                b <= loop_info.blocks.len(),
                bs == func@.blocks,
                forall|j: int|
                    0 <= j < b ==> match find_block(bs, #[trigger] loop_info@.blocks[j]) {
                        Some(k) => ends_with_terminator(bs[k].instructions),
                        None => true,
                    },
            decreases loop_info.blocks.len() - b,
        {
            match block_position(&func.blocks, loop_info.blocks[b]) {
                Some(k) => {
                    proof {
                        assert(bs[k as int] == func.blocks@[k as int]@);
                    }
                    if !func.blocks[k].has_terminator() {
                        return false;
                    }
                },
                None => {},
            }
            b = b + 1;
        }
        true
    }

    /// Whether `cond` is defined in the block as a comparison of `iv` with
    /// a variable that has an integer constant.
    fn is_constant_bound_comparison(&self, func: &Function, block: &BasicBlock, cond: VarId, iv: VarId) -> (r: bool)
        ensures
            r == bound_comparison(func@.blocks, block@.instructions, cond, iv),
    {
        let ghost s = block@.instructions;
        let mut j: usize = 0;
        while j < block.instructions.len()
            invariant
                j <= block.instructions.len(),
                s == block@.instructions,
                forall|m: int|
                    0 <= m < j ==> !match #[trigger] s[m] {
                        InstView::Binary { dest, op, left, right, .. } => {
                            &&& dest == cond
                            &&& (op == BinaryOp::Lt || op == BinaryOp::Le || op == BinaryOp::Gt || op
                                == BinaryOp::Ge || op == BinaryOp::Ne)
                            &&& if left == iv {
                                const_in_blocks(func@.blocks, right) is Some
                            } else {
                                right == iv && const_in_blocks(func@.blocks, left) is Some
                            }
                        },
                        _ => false,
                    },
            decreases block.instructions.len() - j,
        {
            proof {
                assert(s[j as int] == block.instructions@[j as int]@);
            }
            if let Instruction::Binary { dest, op, left, right, .. } = &block.instructions[j] {
                if *dest == cond {
                    let is_comparison = match op {
                        BinaryOp::Lt | BinaryOp::Le | BinaryOp::Gt | BinaryOp::Ge | BinaryOp::Ne => true,
                        _ => false,
                    };
                    if is_comparison {
                        if *left == iv {
                            if find_constant_value(func, *right).is_some() {
                                return true;
                            }
                        } else if *right == iv && find_constant_value(func, *left).is_some() {
                            return true;
                        }
                    }
                }
            }
            j = j + 1;
        }
        false
    }

    /// Whether the loop's trip count is known.
    fn has_known_trip_count(&self, func: &Function, loop_info: &Loop) -> (r: bool)
        ensures
            r == known_trip_count(func@.blocks, loop_info@),
    {
        if loop_info.induction_vars.len() == 0 {
            return false;
        }
        let iv = loop_info.induction_vars[0];
        let init_const = find_constant_value(func, iv.init);
        if init_const.is_none() {
            return false;
        }
        let step = match iv.step {
            InductionStep::Constant(st) => st,
            _ => {
                return false;
            },
        };
        if step == 0 {
            return false;
        }
        let ghost bs = func@.blocks;
        let mut e: usize = 0;
        while e < loop_info.exits.len()
            invariant
                e <= loop_info.exits.len(),
                bs == func@.blocks,
                loop_info@.induction_vars.len() > 0,
                iv == loop_info@.induction_vars[0],
                const_in_blocks(bs, iv.init) is Some,
                iv.step matches InductionStep::Constant(st) && st != 0,
                forall|j: int| 0 <= j < e ==> !exit_bounded(bs, #[trigger] loop_info@.exits[j], iv.var),
            decreases loop_info.exits.len() - e,
        {
            let exit_id = loop_info.exits[e];
            match block_position(&func.blocks, exit_id) {
                Some(k) => {
                    let exit_block = &func.blocks[k];
                    proof {
                        assert(bs[k as int] == exit_block@);
                    }
                    if let Some(Instruction::Branch { cond, .. }) = exit_block.terminator() {
                        if self.is_constant_bound_comparison(func, exit_block, *cond, iv.var) {
                            proof {
                                let n = exit_block.instructions@.len();
                                assert(exit_block@.instructions.last() == exit_block.instructions@[n - 1]@);
                                assert(exit_bounded(bs, loop_info@.exits[e as int], iv.var));
                            }
                            return true;
                        }
                    }
                },
                None => {},
            }
            e = e + 1;
        }
        false
    }

    /// Whether the loop body has more than `max_body_size` instructions.
    fn body_too_large(&self, func: &Function, loop_info: &Loop) -> (r: bool)
        ensures
            r == (body_size(func@.blocks, loop_info@.blocks) > self.max_body()),
    {
        let ghost bs = func@.blocks;
        let ghost order = loop_info@.blocks;
        let mut size: usize = 0;
        let mut b: usize = 0;
        proof {
            assert(order.take(0) =~= Seq::<BlockId>::empty());
        }
        while b < loop_info.blocks.len()
            invariant
                b <= loop_info.blocks.len(),
                bs == func@.blocks,
                order == loop_info@.blocks,
                size == body_size(bs, order.take(b as int)),
                size <= self.max_body_size,
            decreases loop_info.blocks.len() - b,
        {
            proof {
                assert(order.take(b + 1).drop_last() =~= order.take(b as int));
                assert(order.take(b + 1).last() == order[b as int]);
            }
            match block_position(&func.blocks, loop_info.blocks[b]) {
                Some(k) => {
                    proof {
                        assert(bs[k as int] == func.blocks@[k as int]@);
                    }
                    let len = func.blocks[k].instructions.len();
                    if len > self.max_body_size - size {
                        proof {
                            lemma_body_size_prefix(bs, order, b + 1);
                        }
                        return true;
                    }
                    size = size + len;
                },
                None => {},
            }
            b = b + 1;
        }
        proof {
            assert(order.take(loop_info.blocks.len() as int) =~= order);
        }
        false
    }

    /// Counts the loops of the function that could be unrolled.
    fn optimize_function(&mut self, func: &Function)
        requires
            !analysis_overflows(func@.blocks),
            old(self)@.constants_folded + unroll_loops(
                func@.blocks,
                analysis_of(func@.blocks),
                old(self).max_body(),
                old(self).needs_trip_count(),
            ) <= usize::MAX,
        ensures
            final(self)@ == add_counted(
                old(self)@,
                unroll_loops(func@.blocks, analysis_of(func@.blocks), old(self).max_body(), old(self).needs_trip_count()),
            ),
            final(self).max_body() == old(self).max_body(),
            final(self).factor() == old(self).factor(),
            final(self).needs_trip_count() == old(self).needs_trip_count(),
    {
        let ghost bs = func@.blocks;
        let ghost s0 = self@;
        let analysis = LoopAnalysis::analyze(func);
        let ghost loops = loops_view(analysis.loops@);
        let mut i: usize = 0;
        proof {
            assert(loops.take(0) =~= Seq::<LoopView>::empty());
        }
        while i < analysis.loops.len()
            invariant
                i <= analysis.loops.len(),
                bs == func@.blocks,
                loops == loops_view(analysis.loops@),
                loops == analysis_of(bs),
                self.max_body() == old(self).max_body(),
                self.factor() == old(self).factor(),
                self.needs_trip_count() == old(self).needs_trip_count(),
                self@ == add_counted(
                    s0,
                    unroll_loops(bs, loops.take(i as int), self.max_body(), self.needs_trip_count()),
                ),
                s0.constants_folded + unroll_loops(bs, loops, self.max_body(), self.needs_trip_count())
                    <= usize::MAX,
            decreases analysis.loops.len() - i,
        {
            let loop_info = &analysis.loops[i];
            proof {
                assert(loops.take(i + 1).drop_last() =~= loops.take(i as int));
                assert(loops.take(i + 1).last() == loop_info@);
                lemma_unroll_loops_prefix(bs, loops, self.max_body(), self.needs_trip_count(), i + 1);
            }
            let counted = if !self.is_unroll_candidate(func, loop_info) {
                false
            } else if self.body_too_large(func, loop_info) {
                false
            } else if self.require_known_trip_count && !self.has_known_trip_count(func, loop_info) {
                false
            } else {
                true
            };
            if counted {
                self.stats.constants_folded = self.stats.constants_folded + 1;
            }
            i = i + 1;
        }
        proof {
            assert(loops.take(analysis.loops.len() as int) =~= loops);
        }
    }

    /// Counts, in `constants_folded`, the loops of every function that could
    /// be unrolled; the module is left as it is.
    pub fn run(&mut self, module: &mut Module)
        requires
            analyses_ok(functions_view(old(module).functions@)),
            old(self)@.constants_folded + unroll_total(
                functions_view(old(module).functions@),
                old(self).max_body(),
                old(self).needs_trip_count(),
            ) <= usize::MAX,
        ensures
            *final(module) == *old(module),
            final(self)@ == add_counted(
                old(self)@,
                unroll_total(functions_view(old(module).functions@), old(self).max_body(), old(self).needs_trip_count()),
            ),
            final(self).max_body() == old(self).max_body(),
            final(self).factor() == old(self).factor(),
            final(self).needs_trip_count() == old(self).needs_trip_count(),
    {
        let ghost fs = functions_view(module.functions@);
        let ghost s0 = self@;
        let mut i: usize = 0;
        proof {
            assert(fs.take(0) =~= Seq::<FunctionView>::empty());
        }
        while i < module.functions.len()
            invariant
                i <= module.functions.len(),
                fs == functions_view(module.functions@),
                analyses_ok(fs),
                self.max_body() == old(self).max_body(),
                self.factor() == old(self).factor(),
                self.needs_trip_count() == old(self).needs_trip_count(),
                s0.constants_folded + unroll_total(fs, self.max_body(), self.needs_trip_count()) <= usize::MAX,
                self@ == add_counted(s0, unroll_total(fs.take(i as int), self.max_body(), self.needs_trip_count())),
            decreases module.functions.len() - i,
        {
            proof {
                assert(fs.take(i + 1).drop_last() =~= fs.take(i as int));
                assert(fs.take(i + 1).last() == module.functions@[i as int]@);
                assert(fs[i as int] == module.functions@[i as int]@);
                lemma_unroll_total_prefix(fs, self.max_body(), self.needs_trip_count(), i + 1);
            }
            self.optimize_function(&module.functions[i]);
            i = i + 1;
        }
        proof {
            assert(fs.take(module.functions.len() as int) =~= fs);
        }
    }
}

impl Default for LoopUnroller {
    fn default() -> (r: Self)
        ensures
            r@.is_zero(),
            r.max_body() == 50,
            r.factor() == 4,
            r.needs_trip_count(),
    {
        Self::new()
    }
}

/// The loop passes in sequence: code motion, then the strength-reduction
/// scan, then (where enabled) the unrolling scan; each pass's statistics
/// are added to the optimizer's after it runs.
pub struct LoopOptimizer {
    stats: OptStats,
    licm: LoopInvariantCodeMotion,
    strength_reduction: StrengthReduction,
    unroller: LoopUnroller,
    pub enable_unrolling: bool,
}

impl View for LoopOptimizer {
    type V = OptStats;

    closed spec fn view(&self) -> OptStats {
        self.stats
    }
}

impl LoopOptimizer {
    /// Whether the unrolling scan runs.
    pub closed spec fn unrolling_on(&self) -> bool {
        self.enable_unrolling
    }

    /// The statistics of the code motion pass.
    pub closed spec fn licm_stats(&self) -> OptStats {
        self.licm@
    }

    /// The statistics of the strength-reduction scan.
    pub closed spec fn sr_stats(&self) -> OptStats {
        self.strength_reduction@
    }

    /// The statistics of the unrolling scan.
    pub closed spec fn unroll_stats(&self) -> OptStats {
        self.unroller@
    }

    /// The unrolling scan's body size limit.
    pub closed spec fn unroll_max_body(&self) -> usize {
        self.unroller.max_body()
    }

    /// Whether the unrolling scan needs a known trip count.
    pub closed spec fn unroll_needs_trip(&self) -> bool {
        self.unroller.needs_trip_count()
    }

    /// The unrolling scan's unroll factor.
    pub closed spec fn unroll_factor(&self) -> usize {
        self.unroller.factor()
    }

    /// The functions after a run: code motion on each.
    pub open spec fn run_functions(fs: Seq<FunctionView>) -> Seq<FunctionView> {
        fs.map_values(|f: FunctionView| licm_function(f).0)
    }

    /// The optimizer's statistics after the code motion pass.
    pub open spec fn stats_after_licm(&self, fs: Seq<FunctionView>) -> OptStats {
        self@.sum(&add_moved(self.licm_stats(), licm_total(fs)))
    }

    /// The optimizer's statistics after the strength-reduction pass, which
    /// adds its statistics unchanged.
    pub open spec fn stats_after_sr(&self, fs: Seq<FunctionView>) -> OptStats {
        self.stats_after_licm(fs).sum(&self.sr_stats())
    }

    /// The optimizer's statistics after a run.
    pub open spec fn stats_after_run(&self, fs: Seq<FunctionView>) -> OptStats {
        if self.unrolling_on() {
            self.stats_after_sr(fs).sum(
                &add_counted(
                    self.unroll_stats(),
                    unroll_total(Self::run_functions(fs), self.unroll_max_body(), self.unroll_needs_trip()),
                ),
            )
        } else {
            self.stats_after_sr(fs)
        }
    }

    /// Whether a run on `fs` stays free of overflow.
    pub open spec fn run_ok(&self, fs: Seq<FunctionView>) -> bool {
        let fs1 = Self::run_functions(fs);
        &&& analyses_ok(fs)
        &&& analyses_ok(fs1)
        &&& self.licm_stats().loop_invariants_hoisted + licm_total(fs) <= usize::MAX
        &&& self@.can_merge(&add_moved(self.licm_stats(), licm_total(fs)))
        &&& self.stats_after_licm(fs).can_merge(&self.sr_stats())
        &&& self.unrolling_on() ==> {
            &&& self.unroll_stats().constants_folded + unroll_total(fs1, self.unroll_max_body(), self.unroll_needs_trip())
                <= usize::MAX
            &&& self.stats_after_sr(fs).can_merge(
                &add_counted(
                    self.unroll_stats(),
                    unroll_total(fs1, self.unroll_max_body(), self.unroll_needs_trip()),
                ),
            )
        }
    }

    pub fn new() -> (r: Self)
        ensures
            r@.is_zero(),
            r.licm_stats().is_zero(),
            r.sr_stats().is_zero(),
            r.unroll_stats().is_zero(),
            r.unroll_max_body() == 50,
            r.unroll_factor() == 4,
            r.unroll_needs_trip(),
            !r.unrolling_on(),
    {
        LoopOptimizer {
            stats: OptStats::new(),
            licm: LoopInvariantCodeMotion::new(),
            strength_reduction: StrengthReduction::new(),
            unroller: LoopUnroller::new(),
            enable_unrolling: false,
        }
    }

    pub fn enable_unrolling(&mut self, enable: bool)
        ensures
            final(self).unrolling_on() == enable,
            final(self)@ == old(self)@,
            final(self).licm_stats() == old(self).licm_stats(),
            final(self).sr_stats() == old(self).sr_stats(),
            final(self).unroll_stats() == old(self).unroll_stats(),
            final(self).unroll_max_body() == old(self).unroll_max_body(),
            final(self).unroll_needs_trip() == old(self).unroll_needs_trip(),
    {
        self.enable_unrolling = enable;
    }

    pub fn stats(&self) -> (r: &OptStats)
        ensures
            *r == self@,
    {
        &self.stats
    }

    /// Runs the loop passes on the module.
    pub fn run(&mut self, module: &mut Module)
        requires
            old(self).run_ok(functions_view(old(module).functions@)),
        ensures
            functions_view(final(module).functions@) == Self::run_functions(functions_view(old(module).functions@)),
            final(self)@ == old(self).stats_after_run(functions_view(old(module).functions@)),
            final(self).unrolling_on() == old(self).unrolling_on(),
            final(self).unroll_max_body() == old(self).unroll_max_body(),
            final(self).unroll_needs_trip() == old(self).unroll_needs_trip(),
            final(module).name == old(module).name,
            final(module).strings == old(module).strings,
            final(module).classes == old(module).classes,
            final(module).globals == old(module).globals,
    {
        self.licm.run(module);
        self.stats.merge(self.licm.stats());
        self.strength_reduction.run(module);
        self.stats.merge(self.strength_reduction.stats());
        if self.enable_unrolling {
            self.unroller.run(module);
            self.stats.merge(self.unroller.stats());
        }
    }
}

impl Default for LoopOptimizer {
    fn default() -> (r: Self)
        ensures
            r@.is_zero(),
            r.licm_stats().is_zero(),
            r.sr_stats().is_zero(),
            r.unroll_stats().is_zero(),
            r.unroll_max_body() == 50,
            r.unroll_needs_trip(),
            !r.unrolling_on(),
    {
        Self::new()
    }
}

proof fn lemma_exit_list_in_order(bs: Seq<BlockView>, l: Set<BlockId>, order: Seq<BlockId>)
    ensures
        forall|j: int| 0 <= j < exit_list(bs, l, order).len() ==> order.contains(#[trigger] exit_list(bs, l, order)[j]),
    decreases order.len(),
{
    if order.len() > 0 {
        lemma_exit_list_in_order(bs, l, order.drop_last());
        let pre = exit_list(bs, l, order.drop_last());
        let all = exit_list(bs, l, order);
        assert forall|j: int| 0 <= j < all.len() implies order.contains(#[trigger] all[j]) by {
            if j < pre.len() {
                assert(all[j] == pre[j]);
                let m = choose|m: int| 0 <= m < order.drop_last().len() && order.drop_last()[m] == pre[j];
                assert(order[m] == pre[j]);
            } else {
                assert(all[j] == order.last());
                assert(order[order.len() - 1] == order.last());
            }
        }
    }
}

/// Each loop of a function holds its header and the source of its back
/// edge, holds no block twice, and its exits are among its blocks.
pub proof fn law_loop_shape(bs: Seq<BlockView>, i: int)
    requires
        0 <= i < back_edges(bs).len(),
    ensures
        analysis_of(bs).len() == back_edges(bs).len(),
        analysis_of(bs)[i].header == back_edges(bs)[i].1,
        analysis_of(bs)[i].blocks.contains(back_edges(bs)[i].1),
        analysis_of(bs)[i].blocks.contains(back_edges(bs)[i].0),
        analysis_of(bs)[i].blocks.no_duplicates(),
        forall|j: int|
            0 <= j < analysis_of(bs)[i].exits.len() ==> analysis_of(bs)[i].blocks.contains(
                #[trigger] analysis_of(bs)[i].exits[j],
            ),
{
    let be = back_edges(bs);
    let from = be[i].0;
    let header = be[i].1;
    let l = natural_loop(bs, from, header);
    lemma_back_edges_ids(bs, bs.len() as int);
    assert(is_block_id(bs, from) && is_block_id(bs, header));
    lemma_ids_in_order(bs, l);
    assert(loop_within(bs, from, header, 0).contains(header));
    assert(loop_within(bs, from, header, 0).contains(from));
    assert(l.contains(header));
    assert(l.contains(from));
    lemma_exit_list_in_order(bs, l, ids_in_order(bs, l));
}

proof fn lemma_inst_count_update(bs: Seq<BlockView>, k: int, b: BlockView)
    requires
        0 <= k < bs.len(),
    ensures
        inst_count(bs.update(k, b)) == inst_count(bs) - bs[k].instructions.len() + b.instructions.len(),
    decreases bs.len(),
{
    let u = bs.update(k, b);
    if k == bs.len() - 1 {
        assert(u.drop_last() =~= bs.drop_last());
    } else {
        assert(u.drop_last() =~= bs.drop_last().update(k, b));
        lemma_inst_count_update(bs.drop_last(), k, b);
    }
}

proof fn lemma_remove_all_count(bs: Seq<BlockView>, cs: Seq<(BlockId, int)>)
    ensures
        inst_count(remove_all(bs, cs).0) + remove_all(bs, cs).1.len() == inst_count(bs),
    decreases cs.len(),
{
    if cs.len() > 0 {
        let r1 = remove_one(bs, cs.last());
        if let Some(k) = find_block(bs, cs.last().0) {
            lemma_find_block(bs, cs.last().0);
            if 0 <= cs.last().1 < bs[k].instructions.len() {
                lemma_inst_count_update(
                    bs,
                    k,
                    BlockView { instructions: bs[k].instructions.remove(cs.last().1), ..bs[k] },
                );
            }
        }
        lemma_remove_all_count(r1.0, cs.drop_last());
    }
}

/// Code motion moves instructions and loses none: where the preheader
/// exists, the function holds as many instructions after hoisting as
/// before.
pub proof fn law_hoist_keeps_instruction_count(bs: Seq<BlockView>, pre: BlockId, cs: Seq<(BlockId, int)>)
    requires
        find_block(bs, pre) is Some,
    ensures
        inst_count(hoist_spec(bs, pre, cs).0) == inst_count(bs),
{
    let r = remove_all(bs, cs);
    lemma_remove_all_count(bs, cs);
    lemma_remove_all_ids(bs, cs);
    lemma_find_block_same_ids(bs, r.0, pre);
    let k = find_block(r.0, pre)->0;
    lemma_find_block(r.0, pre);
    let insts = r.0[k].instructions;
    let pos = if ends_with_terminator(insts) {
        insts.len() - 1
    } else {
        insts.len() as int
    };
    let ni = insts.take(pos) + r.1 + insts.skip(pos);
    assert(ni.len() == insts.len() + r.1.len());
    lemma_inst_count_update(r.0, k, BlockView { instructions: ni, ..r.0[k] });
}

proof fn lemma_remove_all_ids(bs: Seq<BlockView>, cs: Seq<(BlockId, int)>)
    ensures
        remove_all(bs, cs).0.len() == bs.len(),
        forall|j: int| 0 <= j < bs.len() ==> #[trigger] remove_all(bs, cs).0[j].id == bs[j].id,
    decreases cs.len(),
{
    if cs.len() > 0 {
        let r1 = remove_one(bs, cs.last());
        lemma_find_block(bs, cs.last().0);
        lemma_remove_all_ids(r1.0, cs.drop_last());
        assert forall|j: int| 0 <= j < bs.len() implies #[trigger] remove_all(bs, cs).0[j].id == bs[j].id by {
            assert(remove_all(bs, cs).0[j].id == r1.0[j].id);
        }
    }
}

proof fn lemma_find_block_same_ids(a: Seq<BlockView>, b: Seq<BlockView>, id: BlockId)
    requires
        a.len() == b.len(),
        forall|j: int| 0 <= j < a.len() ==> #[trigger] b[j].id == a[j].id,
    ensures
        find_block(a, id) == find_block(b, id),
    decreases a.len(),
{
    if a.len() > 0 {
        assert forall|j: int| 0 <= j < a.len() - 1 implies #[trigger] b.drop_first()[j].id == a.drop_first()[j].id by {
            assert(b[j + 1].id == a[j + 1].id);
        }
        lemma_find_block_same_ids(a.drop_first(), b.drop_first(), id);
        assert(b[0].id == a[0].id);
    }
}


/// The instruction at `c` (block, position) exists and is of a movable
/// kind.
pub open spec fn hoistable_at(bs: Seq<BlockView>, c: (BlockId, int)) -> bool {
    match find_block(bs, c.0) {
        Some(k) => 0 <= c.1 < bs[k].instructions.len() && movable_kind(bs[k].instructions[c.1]),
        None => false,
    }
}

/// Within each block, the positions come in increasing order.
pub open spec fn positions_ordered(cs: Seq<(BlockId, int)>) -> bool {
    forall|a: int, b: int| 0 <= a < b < cs.len() && (#[trigger] cs[a]).0 == (#[trigger] cs[b]).0 ==> cs[a].1 < cs[b].1
}

proof fn lemma_scan_insts_movable(s: Seq<InstView>, bid: BlockId, defs: Set<u32>)
    ensures
        forall|j: int|
            0 <= j < scan_insts(s, bid, defs).0.len() ==> (#[trigger] scan_insts(s, bid, defs).0[j]).0 == bid && 0
                <= scan_insts(s, bid, defs).0[j].1 < s.len() && movable_kind(s[scan_insts(s, bid, defs).0[j].1]),
        forall|a: int, b: int|
            0 <= a < b < scan_insts(s, bid, defs).0.len() ==> (#[trigger] scan_insts(s, bid, defs).0[a]).1
                < (#[trigger] scan_insts(s, bid, defs).0[b]).1,
    decreases s.len(),
{
    if s.len() > 0 {
        let s0 = s.drop_last();
        lemma_scan_insts_movable(s0, bid, defs);
        let pre = scan_insts(s0, bid, defs);
        let r = scan_insts(s, bid, defs);
        assert forall|j: int| 0 <= j < pre.0.len() implies s[pre.0[j].1] == s0[pre.0[j].1] by {}
        if is_invariant_spec(s.last(), pre.1) {
            assert(r.0 == pre.0.push((bid, s.len() - 1)));
            assert forall|j: int| 0 <= j < r.0.len() implies (#[trigger] r.0[j]).0 == bid && 0 <= r.0[j].1 < s.len()
                && movable_kind(s[r.0[j].1]) by {
                if j < pre.0.len() {
                    assert(r.0[j] == pre.0[j]);
                }
            }
            assert forall|a: int, b: int| 0 <= a < b < r.0.len() implies (#[trigger] r.0[a]).1 < (#[trigger] r.0[b]).1 by {
                assert(r.0[a] == pre.0[a]);
                if b < pre.0.len() {
                    assert(r.0[b] == pre.0[b]);
                }
            }
        }
    }
}

proof fn lemma_scan_blocks_movable(bs: Seq<BlockView>, order: Seq<BlockId>, defs: Set<u32>)
    requires
        order.no_duplicates(),
    ensures
        forall|j: int|
            0 <= j < scan_blocks(bs, order, defs).0.len() ==> order.contains(
                (#[trigger] scan_blocks(bs, order, defs).0[j]).0,
            ) && hoistable_at(bs, scan_blocks(bs, order, defs).0[j]),
        positions_ordered(scan_blocks(bs, order, defs).0),
    decreases order.len(),
{
    if order.len() > 0 {
        let o0 = order.drop_last();
        let last = order.last();
        assert(o0.no_duplicates());
        lemma_scan_blocks_movable(bs, o0, defs);
        let pre = scan_blocks(bs, o0, defs);
        assert forall|j: int| 0 <= j < pre.0.len() implies order.contains((#[trigger] pre.0[j]).0) && (
        #[trigger] pre.0[j]).0 != last by {
            let x = choose|x: int| 0 <= x < o0.len() && o0[x] == pre.0[j].0;
            assert(order[x] == o0[x]);
        }
        match find_block(bs, last) {
            Some(k) => {
                let r = scan_insts(bs[k].instructions, last, pre.1);
                lemma_scan_insts_movable(bs[k].instructions, last, pre.1);
                let all = scan_blocks(bs, order, defs).0;
                assert(all == pre.0 + r.0);
                assert(order[order.len() - 1] == last);
                assert forall|j: int| 0 <= j < all.len() implies order.contains((#[trigger] all[j]).0) && hoistable_at(
                    bs,
                    all[j],
                ) by {
                    if j < pre.0.len() {
                        assert(all[j] == pre.0[j]);
                    } else {
                        assert(all[j] == r.0[j - pre.0.len()]);
                    }
                }
                assert forall|a: int, b: int| 0 <= a < b < all.len() && (#[trigger] all[a]).0 == (
                #[trigger] all[b]).0 implies all[a].1 < all[b].1 by {
                    if b < pre.0.len() {
                        assert(all[a] == pre.0[a]);
                        assert(all[b] == pre.0[b]);
                    } else if a >= pre.0.len() {
                        assert(all[a] == r.0[a - pre.0.len()]);
                        assert(all[b] == r.0[b - pre.0.len()]);
                    } else {
                        assert(all[a] == pre.0[a]);
                        assert(all[b] == r.0[b - pre.0.len()]);
                    }
                }
            },
            None => {},
        }
    }
}

proof fn lemma_remove_all_movable(bs: Seq<BlockView>, cs: Seq<(BlockId, int)>)
    requires
        forall|j: int| 0 <= j < cs.len() ==> hoistable_at(bs, #[trigger] cs[j]),
        positions_ordered(cs),
    ensures
        forall|j: int| 0 <= j < remove_all(bs, cs).1.len() ==> movable_kind(#[trigger] remove_all(bs, cs).1[j]),
    decreases cs.len(),
{
    if cs.len() > 0 {
        let c = cs.last();
        let c0 = cs.drop_last();
        assert(hoistable_at(bs, cs[cs.len() - 1]));
        lemma_find_block(bs, c.0);
        let k = find_block(bs, c.0).unwrap();
        let r1 = remove_one(bs, c);
        let insts = bs[k].instructions;
        assert(r1.0 == bs.update(k, BlockView { instructions: insts.remove(c.1), ..bs[k] }));
        assert forall|j: int| 0 <= j < c0.len() implies hoistable_at(r1.0, #[trigger] c0[j]) by {
            let d = c0[j];
            assert(d == cs[j]);
            assert(hoistable_at(bs, cs[j]));
            lemma_find_block_same_ids(bs, r1.0, d.0);
            lemma_find_block(bs, d.0);
            let k2 = find_block(bs, d.0).unwrap();
            if d.0 == c.0 {
                assert(cs[j].1 < cs[cs.len() - 1].1);
                assert(r1.0[k].instructions[d.1] == insts[d.1]);
            } else {
                assert(k2 != k);
                assert(r1.0[k2] == bs[k2]);
            }
        }
        assert forall|a: int, b: int| 0 <= a < b < c0.len() && (#[trigger] c0[a]).0 == (#[trigger] c0[b]).0 implies c0[a].1
            < c0[b].1 by {
            assert(c0[a] == cs[a] && c0[b] == cs[b]);
        }
        lemma_remove_all_movable(r1.0, c0);
        let r2 = remove_all(r1.0, c0);
        let out = remove_all(bs, cs).1;
        assert(out == r2.1 + r1.1);
        assert(r1.1 == seq![insts[c.1]]);
        assert forall|j: int| 0 <= j < out.len() implies movable_kind(#[trigger] out[j]) by {
            if j < r2.1.len() {
                assert(out[j] == r2.1[j]);
            } else {
                assert(out[j] == insts[c.1]);
            }
        }
    }
}

/// Loop-invariant code motion never moves an instruction with an effect
/// out of a loop: of the instructions that it takes out of the loop's
/// blocks and puts in the preheader, none is a call (direct, indirect,
/// method or virtual), a store, a field or array write, an array push, a
/// global store, a print or a throw. The loops that the analysis finds
/// name each block once (`law_loop_shape`).
pub proof fn law_licm_hoists_no_effects(f: FunctionView, lv: LoopView)
    requires
        lv.blocks.no_duplicates(),
    ensures
        forall|j: int|
            0 <= j < remove_all(f.blocks, loop_invariants_spec(f, lv)).1.len() ==> {
                let i = #[trigger] remove_all(f.blocks, loop_invariants_spec(f, lv)).1[j];
                !(i is Call || i is CallIndirect || i is CallMethod || i is CallVirtual || i is Store
                    || i is SetField || i is ArraySet || i is ArrayPush || i is GlobalStore || i is Print
                    || i is Throw)
            },
        lv.preheader is Some && loop_invariants_spec(f, lv).len() > 0 ==> licm_step(f, lv).0.blocks
            == insert_hoisted(
            remove_all(f.blocks, loop_invariants_spec(f, lv)).0,
            lv.preheader.unwrap(),
            remove_all(f.blocks, loop_invariants_spec(f, lv)).1,
        ),
        lv.preheader is None || loop_invariants_spec(f, lv).len() == 0 ==> licm_step(f, lv).0 == f,
{
    lemma_scan_blocks_movable(f.blocks, lv.blocks, initial_defs(f, lv.blocks.to_set()));
    lemma_remove_all_movable(f.blocks, loop_invariants_spec(f, lv));
}
} // verus!
