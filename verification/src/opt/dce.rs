//! Dead code elimination: blocks that control cannot reach from the entry
//! block are removed, then every instruction without side effects whose
//! result no instruction uses.
use std::collections::HashSet;
use vstd::prelude::*;

use crate::instruction::{BlockId, InstView, Instruction, VarId, insts_view};
use crate::opt::stats::OptStats;
use crate::program::{
    BasicBlock, BlockView, Function, FunctionView, Module, block_position, blocks_view, find_block,
    functions_view, lemma_find_block,
};

verus! {

broadcast use vstd::std_specs::hash::group_hash_axioms;

/// The catch blocks of the `try_begin` instructions of a block, in order.
pub open spec fn catch_ids(insts: Seq<InstView>) -> Seq<u32>
    decreases insts.len(),
{
    if insts.len() == 0 {
        Seq::empty()
    } else {
        catch_ids(insts.drop_last()) + match insts.last() {
            InstView::TryBegin { catch_block } => seq![catch_block.0],
            _ => Seq::empty(),
        }
    }
}

/// The blocks that the terminator of a block may jump to.
pub open spec fn jump_ids(insts: Seq<InstView>) -> Seq<u32> {
    if insts.len() == 0 {
        Seq::empty()
    } else {
        match insts.last() {
            InstView::Jump { target } => seq![target.0],
            InstView::Branch { then_block, else_block, .. } => seq![then_block.0, else_block.0],
            _ => Seq::empty(),
        }
    }
}

/// The blocks that a block may pass control to: the catch block of each of
/// its `try_begin` instructions, wherever it stands, and the targets of its
/// terminator.
pub open spec fn succ_ids(insts: Seq<InstView>) -> Seq<u32> {
    catch_ids(insts) + jump_ids(insts)
}

/// The successors of the first block with id `x`; none where no block has it.
pub open spec fn succs_of_id(bs: Seq<BlockView>, x: u32) -> Seq<u32> {
    match find_block(bs, BlockId(x)) {
        Some(k) => succ_ids(bs[k].instructions),
        None => Seq::empty(),
    }
}

/// The block ids reached from the entry block in at most `n` steps.
pub open spec fn reach_within(bs: Seq<BlockView>, n: nat) -> Set<u32>
    decreases n,
{
    if n == 0 {
        if bs.len() > 0 {
            set![bs[0].id.0]
        } else {
            Set::empty()
        }
    } else {
        let r = reach_within(bs, (n - 1) as nat);
        r.union(
            Set::new(|x: u32| exists|y: u32| r.contains(y) && #[trigger] succs_of_id(bs, y).contains(x)),
        )
    }
}

/// Whether control can reach block `x` from the entry block.
pub open spec fn is_reachable(bs: Seq<BlockView>, x: u32) -> bool {
    exists|n: nat| #[trigger] reach_within(bs, n).contains(x)
}

/// The ids of the blocks reachable from the entry block.
pub open spec fn reachable_set(bs: Seq<BlockView>) -> Set<u32> {
    Set::new(|x: u32| is_reachable(bs, x))
}

/// Every successor id named by any block, in block order.
pub open spec fn all_succ_ids(bs: Seq<BlockView>) -> Seq<u32>
    decreases bs.len(),
{
    if bs.len() == 0 {
        Seq::empty()
    } else {
        all_succ_ids(bs.drop_last()) + succ_ids(bs.last().instructions)
    }
}

/// The ids that a search from the entry block can meet.
pub open spec fn id_universe(bs: Seq<BlockView>) -> Set<u32> {
    (seq![bs[0].id.0] + all_succ_ids(bs)).to_set()
}

proof fn lemma_all_succ_ids(bs: Seq<BlockView>, k: int, x: u32)
    requires
        0 <= k < bs.len(),
        succ_ids(bs[k].instructions).contains(x),
    ensures
        all_succ_ids(bs).contains(x),
    decreases bs.len(),
{
    let a = all_succ_ids(bs.drop_last());
    let b = succ_ids(bs.last().instructions);
    if k == bs.len() - 1 {
        let j = choose|j: int| 0 <= j < b.len() && b[j] == x;
        assert((a + b)[a.len() + j] == x);
    } else {
        assert(bs.drop_last()[k] == bs[k]);
        lemma_all_succ_ids(bs.drop_last(), k, x);
        let j = choose|j: int| 0 <= j < a.len() && a[j] == x;
        assert((a + b)[j] == x);
    }
}

/// A set that holds the entry block and every successor of its members
/// holds every reachable block.
proof fn lemma_closed_holds_reachable(bs: Seq<BlockView>, r: Set<u32>, n: nat)
    requires
        bs.len() > 0,
        r.contains(bs[0].id.0),
        forall|y: u32, x: u32| r.contains(y) && #[trigger] succs_of_id(bs, y).contains(x) ==> r.contains(x),
    ensures
        reach_within(bs, n).subset_of(r),
    decreases n,
{
    if n > 0 {
        lemma_closed_holds_reachable(bs, r, (n - 1) as nat);
    }
}

/// The successor ids of a block: its catch blocks, then the targets of its
/// terminator.
fn successors(block: &BasicBlock) -> (r: Vec<BlockId>)
    ensures
        r@.map_values(|b: BlockId| b.0) == succ_ids(block@.instructions),
{
    let ghost s = block@.instructions;
    let mut r: Vec<BlockId> = Vec::new();
    let n = block.instructions.len();
    let mut i: usize = 0;
    proof {
        assert(s.take(0) =~= Seq::<InstView>::empty());
        assert(r@.map_values(|b: BlockId| b.0) =~= catch_ids(s.take(0)));
    }
    while i < n
        invariant
            i <= n,
            n == block.instructions@.len(),
            s == block@.instructions,
            s.len() == n,
            forall|k: int| 0 <= k < n ==> #[trigger] s[k] == block.instructions@[k]@,
            r@.map_values(|b: BlockId| b.0) == catch_ids(s.take(i as int)),
        decreases n - i,
    {
        proof {
            assert(s.take(i + 1).drop_last() =~= s.take(i as int));
            assert(s.take(i + 1).last() == block.instructions@[i as int]@);
        }
        match &block.instructions[i] {
            Instruction::TryBegin { catch_block } => {
                r.push(*catch_block);
            },
            _ => {},
        }
        proof {
            assert(r@.map_values(|b: BlockId| b.0) =~= catch_ids(s.take(i + 1)));
        }
        i = i + 1;
    }
    proof {
        assert(s.take(n as int) =~= s);
    }
    let ghost c = r@;
    if n > 0 {
        proof {
            assert(s.last() == block.instructions@[n - 1]@);
        }
        match &block.instructions[n - 1] {
            Instruction::Jump { target } => {
                r.push(*target);
            },
            Instruction::Branch { then_block, else_block, .. } => {
                r.push(*then_block);
                r.push(*else_block);
            },
            _ => {},
        }
    }
    proof {
        assert(r@.map_values(|b: BlockId| b.0) =~= succ_ids(block@.instructions));
    }
    r
}

/// The ids of the blocks reachable from the entry block.
fn find_reachable_blocks(blocks: &Vec<BasicBlock>) -> (r: HashSet<u32>)
    ensures
        r@ == reachable_set(blocks_view(blocks@)),
{
    let ghost bs = blocks_view(blocks@);
    let mut reachable: HashSet<u32> = HashSet::new();
    let mut worklist: Vec<BlockId> = Vec::new();
    if blocks.len() == 0 {
        proof {
            assert forall|x: u32| !is_reachable(bs, x) by {
                assert forall|n: nat| !#[trigger] reach_within(bs, n).contains(x) by {
                    lemma_reach_empty(bs, n);
                }
            }
            assert(reachable@ =~= reachable_set(bs));
        }
        return reachable;
    }
    worklist.push(blocks[0].id);
    let ghost universe = id_universe(bs);
    proof {
        assert(bs[0] == blocks@[0]@);
        assert(reach_within(bs, 0).contains(bs[0].id.0));
        assert((seq![bs[0].id.0] + all_succ_ids(bs))[0] == bs[0].id.0);
        assert(universe.contains(bs[0].id.0));
        vstd::seq_lib::seq_to_set_is_finite(seq![bs[0].id.0] + all_succ_ids(bs));
        assert(worklist@[0] == bs[0].id);
    }
    while worklist.len() > 0
        invariant
            bs == blocks_view(blocks@),
            bs.len() > 0,
            universe == id_universe(bs),
            universe.finite(),
            reachable@.subset_of(universe),
            forall|j: int| 0 <= j < worklist@.len() ==> universe.contains(#[trigger] worklist@[j].0),
            reachable@.contains(bs[0].id.0) || worklist@.contains(bs[0].id),
            forall|x: u32| reachable@.contains(x) ==> is_reachable(bs, x),
            forall|j: int| 0 <= j < worklist@.len() ==> is_reachable(bs, #[trigger] worklist@[j].0),
            forall|y: u32, x: u32|
                reachable@.contains(y) && #[trigger] succs_of_id(bs, y).contains(x) ==> reachable@.contains(x)
                    || worklist@.contains(BlockId(x)),
        decreases universe.len() - reachable@.len(), worklist@.len(),
    {
        proof {
            vstd::set_lib::lemma_set_subset_finite(universe, reachable@);
            vstd::set_lib::lemma_len_subset(reachable@, universe);
        }
        let ghost w0 = worklist@;
        let b = worklist.pop().unwrap();
        proof {
            assert(w0 == worklist@.push(b));
            assert forall|z: BlockId| w0.contains(z) implies worklist@.contains(z) || z == b by {
                let j = choose|j: int| 0 <= j < w0.len() && w0[j] == z;
                if j < worklist@.len() {
                    assert(worklist@[j] == z);
                }
            }
            assert(w0[w0.len() - 1] == b);
        }
        if reachable.contains(&b.0) {
            continue;
        }
        let ghost r0 = reachable@;
        reachable.insert(b.0);
        proof {
            assert(universe.contains(b.0));
            assert(reachable@ == r0.insert(b.0));
            assert(reachable@.len() == r0.len() + 1);
            vstd::set_lib::lemma_len_subset(reachable@, universe);
        }
        let ghost n = choose|n: nat| #[trigger] reach_within(bs, n).contains(b.0);
        proof {
            lemma_find_block(bs, b);
        }
        match block_position(blocks, b) {
            Some(k) => {
                let succs = successors(&blocks[k]);
                proof {
                    assert(bs[k as int] == blocks@[k as int]@);
                    assert(succs_of_id(bs, b.0) == succ_ids(bs[k as int].instructions));
                }
                let ghost sv = succs@.map_values(|c: BlockId| c.0);
                let ghost w1 = worklist@;
                let mut i: usize = 0;
                while i < succs.len()
                    invariant
                        0 <= i <= succs@.len(),
                        sv == succs@.map_values(|c: BlockId| c.0),
                        sv == succs_of_id(bs, b.0),
                        0 <= k < bs.len(),
                        sv == succ_ids(bs[k as int].instructions),
                        reach_within(bs, n).contains(b.0),
                        universe == id_universe(bs),
                        worklist@.len() >= w1.len(),
                        forall|j: int| 0 <= j < w1.len() ==> worklist@[j] == #[trigger] w1[j],
                        forall|j: int| 0 <= j < i ==> #[trigger] reachable@.contains(sv[j]) || worklist@.contains(BlockId(sv[j])),
                        forall|j: int| 0 <= j < worklist@.len() ==> universe.contains(#[trigger] worklist@[j].0),
                        forall|j: int| 0 <= j < worklist@.len() ==> is_reachable(bs, #[trigger] worklist@[j].0),
                    decreases succs@.len() - i,
                {
                    let s = succs[i];
                    proof {
                        assert(sv[i as int] == s.0);
                        assert(succs_of_id(bs, b.0).contains(s.0));
                        assert(reach_within(bs, n + 1).contains(s.0));
                        lemma_all_succ_ids(bs, k as int, s.0);
                        let j = choose|j: int| 0 <= j < all_succ_ids(bs).len() && all_succ_ids(bs)[j] == s.0;
                        assert((seq![bs[0].id.0] + all_succ_ids(bs))[j + 1] == s.0);
                    }
                    let ghost wb = worklist@;
                    if !reachable.contains(&s.0) {
                        worklist.push(s);
                        proof {
                            assert(worklist@[worklist@.len() - 1] == s);
                        }
                    }
                    proof {
                        assert forall|j: int| 0 <= j < i + 1 implies #[trigger] reachable@.contains(sv[j]) || worklist@.contains(BlockId(sv[j])) by {
                            if j < i {
                                if !reachable@.contains(sv[j]) {
                                    let m = choose|m: int| 0 <= m < wb.len() && wb[m] == BlockId(sv[j]);
                                    assert(worklist@[m] == BlockId(sv[j]));
                                }
                            } else {
                                assert(sv[j] == s.0);
                            }
                        }
                    }
                    i = i + 1;
                }
                proof {
                    assert forall|y: u32, x: u32|
                        reachable@.contains(y) && #[trigger] succs_of_id(bs, y).contains(x) implies reachable@.contains(x)
                            || worklist@.contains(BlockId(x)) by {
                        if y == b.0 {
                            let j = choose|j: int| 0 <= j < sv.len() && sv[j] == x;
                            assert(reachable@.contains(sv[j]) || worklist@.contains(BlockId(sv[j])));
                        } else {
                            if !reachable@.contains(x) && w0.contains(BlockId(x)) {
                                if BlockId(x) != b {
                                    let m = choose|m: int| 0 <= m < w1.len() && w1[m] == BlockId(x);
                                    assert(worklist@[m] == BlockId(x));
                                }
                            }
                        }
                    }
                }
            },
            None => {
                proof {
                    assert(succs_of_id(bs, b.0) == Seq::<u32>::empty());
                }
            },
        }
    }
    proof {
        lemma_closed_holds_reachable_all(bs, reachable@);
        assert(reachable@ =~= reachable_set(bs));
    }
    reachable
}

/// The blocks whose ids are in `r`, in their order.
pub open spec fn keep_blocks(bs: Seq<BlockView>, r: Set<u32>) -> Seq<BlockView>
    decreases bs.len(),
{
    if bs.len() == 0 {
        bs
    } else if r.contains(bs.last().id.0) {
        keep_blocks(bs.drop_last(), r).push(bs.last())
    } else {
        keep_blocks(bs.drop_last(), r)
    }
}

/// The variables that an instruction reads.
pub open spec fn inst_uses(i: InstView) -> Seq<VarId> {
    match i {
        InstView::Binary { left, right, .. } => seq![left, right],
        InstView::Unary { operand, .. } => seq![operand],
        InstView::IntToFloat { src, .. } => seq![src],
        InstView::FloatToInt { src, .. } => seq![src],
        InstView::ToString { src, .. } => seq![src],
        InstView::Bitcast { src, .. } => seq![src],
        InstView::Copy { src, .. } => seq![src],
        InstView::Load { ptr, .. } => seq![ptr],
        InstView::Store { ptr, value } => seq![ptr, value],
        InstView::GetElementPtr { ptr, index, .. } => seq![ptr, index],
        InstView::Branch { cond, .. } => seq![cond],
        InstView::Return { value } => match value {
            Some(v) => seq![v],
            None => Seq::empty(),
        },
        InstView::Call { args, .. } => args,
        InstView::CallIndirect { func_ptr, args, .. } => seq![func_ptr] + args,
        InstView::NewArray { elements, .. } => elements,
        InstView::ArrayLen { array, .. } => seq![array],
        InstView::ArrayGet { array, index, .. } => seq![array, index],
        InstView::ArraySet { array, index, value } => seq![array, index, value],
        InstView::ArrayPush { array, value, .. } => seq![array, value],
        InstView::StringConcat { left, right, .. } => seq![left, right],
        InstView::GetField { object, .. } => seq![object],
        InstView::SetField { object, value, .. } => seq![object, value],
        InstView::CallMethod { object, args, .. } => seq![object] + args,
        InstView::CallVirtual { object, args, .. } => seq![object] + args,
        InstView::Throw { exception } => seq![exception],
        InstView::Print { value } => seq![value],
        InstView::Phi { incoming, .. } => incoming.map_values(|p: (VarId, BlockId)| p.0),
        InstView::GlobalStore { value, .. } => seq![value],
        _ => Seq::empty(),
    }
}

/// The numbers of a sequence of variables, as a set.
pub open spec fn var_nums(s: Seq<VarId>) -> Set<u32> {
    s.map_values(|v: VarId| v.0).to_set()
}

/// The variables read anywhere in a sequence of instructions.
pub open spec fn uses_of_insts(s: Seq<InstView>) -> Set<u32>
    decreases s.len(),
{
    if s.len() == 0 {
        Set::empty()
    } else {
        uses_of_insts(s.drop_last()).union(var_nums(inst_uses(s.last())))
    }
}

/// The variables read anywhere in a sequence of blocks.
pub open spec fn uses_of_blocks(bs: Seq<BlockView>) -> Set<u32>
    decreases bs.len(),
{
    if bs.len() == 0 {
        Set::empty()
    } else {
        uses_of_blocks(bs.drop_last()).union(uses_of_insts(bs.last().instructions))
    }
}

/// The variable that an instruction defines, if any.
pub open spec fn defined_var(i: InstView) -> Option<VarId> {
    match i {
        InstView::Const { dest, .. } => Some(dest),
        InstView::Binary { dest, .. } => Some(dest),
        InstView::Unary { dest, .. } => Some(dest),
        InstView::IntToFloat { dest, .. } => Some(dest),
        InstView::FloatToInt { dest, .. } => Some(dest),
        InstView::ToString { dest, .. } => Some(dest),
        InstView::Bitcast { dest, .. } => Some(dest),
        InstView::Alloca { dest, .. } => Some(dest),
        InstView::Load { dest, .. } => Some(dest),
        InstView::GetElementPtr { dest, .. } => Some(dest),
        InstView::NewObject { dest, .. } => Some(dest),
        InstView::GetField { dest, .. } => Some(dest),
        InstView::NewArray { dest, .. } => Some(dest),
        InstView::ArrayLen { dest, .. } => Some(dest),
        InstView::ArrayGet { dest, .. } => Some(dest),
        InstView::StringConcat { dest, .. } => Some(dest),
        InstView::GetException { dest } => Some(dest),
        InstView::Phi { dest, .. } => Some(dest),
        InstView::GlobalLoad { dest, .. } => Some(dest),
        InstView::Copy { dest, .. } => Some(dest),
        InstView::Call { dest, .. } => dest,
        InstView::CallIndirect { dest, .. } => dest,
        InstView::CallMethod { dest, .. } => dest,
        InstView::CallVirtual { dest, .. } => dest,
        _ => None,
    }
}

/// Whether removing an instruction could change what the program does
/// beyond the value it defines.
pub open spec fn has_side_effects(i: InstView) -> bool {
    match i {
        InstView::Store { .. } | InstView::GlobalStore { .. } | InstView::SetField { .. }
        | InstView::ArraySet { .. } | InstView::Call { .. } | InstView::CallIndirect { .. }
        | InstView::CallMethod { .. } | InstView::CallVirtual { .. } | InstView::Jump { .. }
        | InstView::Branch { .. } | InstView::Return { .. } | InstView::Throw { .. }
        | InstView::TryBegin { .. } | InstView::TryEnd | InstView::Print { .. } => true,
        _ => false,
    }
}

/// An instruction stays: it has side effects, defines nothing, or defines a
/// variable that is read somewhere.
pub open spec fn is_live(i: InstView, used: Set<u32>) -> bool {
    has_side_effects(i) || match defined_var(i) {
        Some(d) => used.contains(d.0),
        None => true,
    }
}

/// The live instructions of a sequence, in order.
pub open spec fn keep_live(s: Seq<InstView>, used: Set<u32>) -> Seq<InstView>
    decreases s.len(),
{
    if s.len() == 0 {
        s
    } else if is_live(s.last(), used) {
        keep_live(s.drop_last(), used).push(s.last())
    } else {
        keep_live(s.drop_last(), used)
    }
}

/// Each block with only its live instructions.
pub open spec fn live_blocks(bs: Seq<BlockView>, used: Set<u32>) -> Seq<BlockView> {
    bs.map_values(|b: BlockView| BlockView { instructions: keep_live(b.instructions, used), ..b })
}

/// The number of instructions removed from a sequence of blocks.
pub open spec fn dead_inst_count(bs: Seq<BlockView>, used: Set<u32>) -> nat
    decreases bs.len(),
{
    if bs.len() == 0 {
        0
    } else {
        dead_inst_count(bs.drop_last(), used) + (bs.last().instructions.len() - keep_live(
            bs.last().instructions,
            used,
        ).len()) as nat
    }
}

/// The blocks of a function after dead code elimination.
pub open spec fn dce_blocks(bs: Seq<BlockView>) -> Seq<BlockView> {
    let kept = keep_blocks(bs, reachable_set(bs));
    live_blocks(kept, uses_of_blocks(kept))
}

/// A function after dead code elimination.
pub open spec fn dce_function(f: FunctionView) -> FunctionView {
    FunctionView { blocks: dce_blocks(f.blocks), ..f }
}

/// The number of blocks removed from a function.
pub open spec fn dce_blocks_removed(f: FunctionView) -> nat {
    (f.blocks.len() - keep_blocks(f.blocks, reachable_set(f.blocks)).len()) as nat
}

/// The number of instructions removed from a function.
pub open spec fn dce_insts_removed(f: FunctionView) -> nat {
    let kept = keep_blocks(f.blocks, reachable_set(f.blocks));
    dead_inst_count(kept, uses_of_blocks(kept))
}

/// Blocks removed over a list of functions.
pub open spec fn total_blocks_removed(fs: Seq<FunctionView>) -> nat
    decreases fs.len(),
{
    if fs.len() == 0 {
        0
    } else {
        total_blocks_removed(fs.drop_last()) + dce_blocks_removed(fs.last())
    }
}

/// Instructions removed over a list of functions.
pub open spec fn total_insts_removed(fs: Seq<FunctionView>) -> nat
    decreases fs.len(),
{
    if fs.len() == 0 {
        0
    } else {
        total_insts_removed(fs.drop_last()) + dce_insts_removed(fs.last())
    }
}

proof fn lemma_keep_blocks_len(bs: Seq<BlockView>, r: Set<u32>)
    ensures
        keep_blocks(bs, r).len() <= bs.len(),
    decreases bs.len(),
{
    if bs.len() > 0 {
        lemma_keep_blocks_len(bs.drop_last(), r);
    }
}

proof fn lemma_keep_live_len(s: Seq<InstView>, used: Set<u32>)
    ensures
        keep_live(s, used).len() <= s.len(),
    decreases s.len(),
{
    if s.len() > 0 {
        lemma_keep_live_len(s.drop_last(), used);
    }
}

proof fn lemma_totals_prefix(fs: Seq<FunctionView>, k: int)
    requires
        0 <= k <= fs.len(),
    ensures
        total_blocks_removed(fs.take(k)) <= total_blocks_removed(fs),
        total_insts_removed(fs.take(k)) <= total_insts_removed(fs),
    decreases fs.len(),
{
    if k < fs.len() {
        lemma_totals_prefix(fs.drop_last(), k);
        assert(fs.drop_last().take(k) =~= fs.take(k));
    } else {
        assert(fs.take(k) =~= fs);
    }
}

proof fn lemma_dead_count_prefix(bs: Seq<BlockView>, used: Set<u32>, k: int)
    requires
        0 <= k <= bs.len(),
    ensures
        dead_inst_count(bs.take(k), used) <= dead_inst_count(bs, used),
    decreases bs.len(),
{
    if k < bs.len() {
        lemma_dead_count_prefix(bs.drop_last(), used, k);
        assert(bs.drop_last().take(k) =~= bs.take(k));
    } else {
        assert(bs.take(k) =~= bs);
    }
}

/// A copy of a list of variables.
pub fn copy_vars(v: &Vec<VarId>) -> (r: Vec<VarId>)
    ensures
        r@ == v@,
{
    let mut r: Vec<VarId> = Vec::new();
    let mut i: usize = 0;
    while i < v.len()
        invariant
            i <= v.len(),
            r@ == v@.take(i as int),
        decreases v.len() - i,
    {
        r.push(v[i]);
        i = i + 1;
        proof {
            assert(r@ =~= v@.take(i as int));
        }
    }
    proof {
        assert(v@.take(v.len() as int) =~= v@);
    }
    r
}

/// The list `first` followed by `rest`.
fn vars_with_first(first: VarId, rest: &Vec<VarId>) -> (r: Vec<VarId>)
    ensures
        r@ == seq![first] + rest@,
{
    let mut r: Vec<VarId> = Vec::new();
    r.push(first);
    let mut i: usize = 0;
    while i < rest.len()
        invariant
            i <= rest.len(),
            r@ == seq![first] + rest@.take(i as int),
        decreases rest.len() - i,
    {
        r.push(rest[i]);
        i = i + 1;
        proof {
            assert(r@ =~= seq![first] + rest@.take(i as int));
        }
    }
    proof {
        assert(rest@.take(rest.len() as int) =~= rest@);
    }
    r
}

/// The variables that an instruction reads.
pub fn instruction_uses(inst: &Instruction) -> (r: Vec<VarId>)
    ensures
        r@ == inst_uses(inst@),
{
    match inst {
        Instruction::Binary { left, right, .. } => vec![*left, *right],
        Instruction::Unary { operand, .. } => vec![*operand],
        Instruction::IntToFloat { src, .. } => vec![*src],
        Instruction::FloatToInt { src, .. } => vec![*src],
        Instruction::ToString { src, .. } => vec![*src],
        Instruction::Bitcast { src, .. } => vec![*src],
        Instruction::Copy { src, .. } => vec![*src],
        Instruction::Load { ptr, .. } => vec![*ptr],
        Instruction::Store { ptr, value } => vec![*ptr, *value],
        Instruction::GetElementPtr { ptr, index, .. } => vec![*ptr, *index],
        Instruction::Branch { cond, .. } => vec![*cond],
        Instruction::Return { value } => match value {
            Some(v) => vec![*v],
            None => Vec::new(),
        },
        Instruction::Call { args, .. } => copy_vars(args),
        Instruction::CallIndirect { func_ptr, args, .. } => vars_with_first(*func_ptr, args),
        Instruction::NewArray { elements, .. } => copy_vars(elements),
        Instruction::ArrayLen { array, .. } => vec![*array],
        Instruction::ArrayGet { array, index, .. } => vec![*array, *index],
        Instruction::ArraySet { array, index, value } => vec![*array, *index, *value],
        Instruction::ArrayPush { array, value, .. } => vec![*array, *value],
        Instruction::StringConcat { left, right, .. } => vec![*left, *right],
        Instruction::GetField { object, .. } => vec![*object],
        Instruction::SetField { object, value, .. } => vec![*object, *value],
        Instruction::CallMethod { object, args, .. } => vars_with_first(*object, args),
        Instruction::CallVirtual { object, args, .. } => vars_with_first(*object, args),
        Instruction::Throw { exception } => vec![*exception],
        Instruction::Print { value } => vec![*value],
        Instruction::Phi { incoming, .. } => {
            let mut r: Vec<VarId> = Vec::new();
            let mut i: usize = 0;
            while i < incoming.len()
                invariant
                    i <= incoming.len(),
                    r@ == incoming@.take(i as int).map_values(|p: (VarId, BlockId)| p.0),
                decreases incoming.len() - i,
            {
                r.push(incoming[i].0);
                i = i + 1;
                proof {
                    assert(r@ =~= incoming@.take(i as int).map_values(|p: (VarId, BlockId)| p.0));
                }
            }
            proof {
                assert(incoming@.take(incoming.len() as int) =~= incoming@);
            }
            r
        },
        Instruction::GlobalStore { value, .. } => vec![*value],
        _ => Vec::new(),
    }
}

/// The variable that an instruction defines, if any.
pub fn instruction_defined_var(inst: &Instruction) -> (r: Option<VarId>)
    ensures
        r == defined_var(inst@),
{
    match inst {
        Instruction::Const { dest, .. } => Some(*dest),
        Instruction::Binary { dest, .. } => Some(*dest),
        Instruction::Unary { dest, .. } => Some(*dest),
        Instruction::IntToFloat { dest, .. } => Some(*dest),
        Instruction::FloatToInt { dest, .. } => Some(*dest),
        Instruction::ToString { dest, .. } => Some(*dest),
        Instruction::Bitcast { dest, .. } => Some(*dest),
        Instruction::Alloca { dest, .. } => Some(*dest),
        Instruction::Load { dest, .. } => Some(*dest),
        Instruction::GetElementPtr { dest, .. } => Some(*dest),
        Instruction::NewObject { dest, .. } => Some(*dest),
        Instruction::GetField { dest, .. } => Some(*dest),
        Instruction::NewArray { dest, .. } => Some(*dest),
        Instruction::ArrayLen { dest, .. } => Some(*dest),
        Instruction::ArrayGet { dest, .. } => Some(*dest),
        Instruction::StringConcat { dest, .. } => Some(*dest),
        Instruction::GetException { dest } => Some(*dest),
        Instruction::Phi { dest, .. } => Some(*dest),
        Instruction::GlobalLoad { dest, .. } => Some(*dest),
        Instruction::Copy { dest, .. } => Some(*dest),
        Instruction::Call { dest, .. } => *dest,
        Instruction::CallIndirect { dest, .. } => *dest,
        Instruction::CallMethod { dest, .. } => *dest,
        Instruction::CallVirtual { dest, .. } => *dest,
        _ => None,
    }
}

/// Whether an instruction has effects beyond the value it defines.
pub fn instruction_has_side_effects(inst: &Instruction) -> (r: bool)
    ensures
        r == has_side_effects(inst@),
{
    match inst {
        Instruction::Store { .. } | Instruction::GlobalStore { .. } | Instruction::SetField { .. }
        | Instruction::ArraySet { .. } | Instruction::Call { .. } | Instruction::CallIndirect {
            ..
        } | Instruction::CallMethod { .. } | Instruction::CallVirtual { .. } | Instruction::Jump {
            ..
        } | Instruction::Branch { .. } | Instruction::Return { .. } | Instruction::Throw { .. }
        | Instruction::TryBegin { .. } | Instruction::TryEnd | Instruction::Print { .. } => true,
        _ => false,
    }
}

/// Adds the variables that an instruction reads to `used`.
fn collect_uses(inst: &Instruction, used: &mut HashSet<u32>)
    ensures
        final(used)@ == old(used)@.union(var_nums(inst_uses(inst@))),
{
    let uses = instruction_uses(inst);
    let ghost u0 = used@;
    let mut i: usize = 0;
    while i < uses.len()
        invariant
            i <= uses.len(),
            used@ == u0.union(var_nums(uses@.take(i as int))),
        decreases uses.len() - i,
    {
        proof {
            let a = uses@.take(i as int).map_values(|v: VarId| v.0);
            let b = uses@.take(i + 1).map_values(|v: VarId| v.0);
            assert(b =~= a.push(uses@[i as int].0));
            assert(b.to_set() =~= a.to_set().insert(uses@[i as int].0)) by {
                assert forall|x: u32| b.to_set().contains(x) implies a.to_set().insert(uses@[i as int].0).contains(x) by {
                    let j = choose|j: int| 0 <= j < b.len() && b[j] == x;
                    if j < a.len() {
                        assert(a[j] == x);
                    }
                }
                assert forall|x: u32| a.to_set().insert(uses@[i as int].0).contains(x) implies b.to_set().contains(x) by {
                    if x == uses@[i as int].0 {
                        assert(b[i as int] == x);
                    } else {
                        let j = choose|j: int| 0 <= j < a.len() && a[j] == x;
                        assert(b[j] == x);
                    }
                }
            }
        }
        used.insert(uses[i].0);
        i = i + 1;
        proof {
            assert(used@ =~= u0.union(var_nums(uses@.take(i as int))));
        }
    }
    proof {
        assert(uses@.take(uses.len() as int) =~= uses@);
    }
}

/// The variables read anywhere in a function's blocks.
fn find_used_variables(blocks: &Vec<BasicBlock>) -> (r: HashSet<u32>)
    ensures
        r@ == uses_of_blocks(blocks_view(blocks@)),
{
    let ghost bs = blocks_view(blocks@);
    let mut used: HashSet<u32> = HashSet::new();
    let mut k: usize = 0;
    proof {
        assert(bs.take(0) =~= Seq::<BlockView>::empty());
        assert(used@ =~= Set::<u32>::empty());
    }
    while k < blocks.len()
        invariant
            k <= blocks.len(),
            bs == blocks_view(blocks@),
            used@ == uses_of_blocks(bs.take(k as int)),
        decreases blocks.len() - k,
    {
        let ghost u0 = used@;
        let insts = &blocks[k].instructions;
        let ghost s = insts_view(insts@);
        let mut j: usize = 0;
        proof {
            assert(s.take(0) =~= Seq::<InstView>::empty());
            assert(u0.union(Set::<u32>::empty()) =~= u0);
        }
        while j < insts.len()
            invariant
                j <= insts.len(),
                s == insts_view(insts@),
                used@ == u0.union(uses_of_insts(s.take(j as int))),
            decreases insts.len() - j,
        {
            collect_uses(&insts[j], &mut used);
            j = j + 1;
            proof {
                assert(s.take(j as int).drop_last() =~= s.take(j - 1));
                assert(s.take(j as int).last() == insts@[j - 1]@);
                assert(used@ =~= u0.union(uses_of_insts(s.take(j as int))));
            }
        }
        k = k + 1;
        proof {
            assert(s.take(insts.len() as int) =~= s);
            assert(bs.take(k as int).drop_last() =~= bs.take(k - 1));
            assert(bs.take(k as int).last() == blocks@[k - 1]@);
            assert(used@ =~= uses_of_blocks(bs.take(k as int)));
        }
    }
    proof {
        assert(bs.take(blocks.len() as int) =~= bs);
    }
    used
}

/// The statistics `s` with `nb` more removed blocks and `ni` more removed
/// instructions.
pub open spec fn add_removed(s: OptStats, nb: nat, ni: nat) -> OptStats {
    OptStats {
        dead_blocks_removed: (s.dead_blocks_removed + nb) as usize,
        dead_instructions_removed: (s.dead_instructions_removed + ni) as usize,
        ..s
    }
}

/// The dead code elimination pass. Its model is its statistics.
pub struct DeadCodeEliminator {
    stats: OptStats,
}

impl View for DeadCodeEliminator {
    type V = OptStats;

    closed spec fn view(&self) -> OptStats {
        self.stats
    }
}

impl DeadCodeEliminator {
    pub fn new() -> (r: Self)
        ensures
            r@.is_zero(),
    {
        DeadCodeEliminator { stats: OptStats::new() }
    }

    pub fn stats(&self) -> (r: &OptStats)
        ensures
            *r == self@,
    {
        &self.stats
    }

    /// Keeps only the blocks reachable from the entry block.
    fn remove_unreachable_blocks(&mut self, blocks: Vec<BasicBlock>) -> (out: Vec<BasicBlock>)
        requires
            old(self)@.dead_blocks_removed + (blocks@.len() - keep_blocks(
                blocks_view(blocks@),
                reachable_set(blocks_view(blocks@)),
            ).len()) <= usize::MAX,
        ensures
            blocks_view(out@) == keep_blocks(blocks_view(blocks@), reachable_set(blocks_view(blocks@))),
            final(self)@ == add_removed(old(self)@, (blocks@.len() - out@.len()) as nat, 0),
    {
        if blocks.len() == 0 {
            return blocks;
        }
        let reachable = find_reachable_blocks(&blocks);
        let ghost bs = blocks_view(blocks@);
        let ghost r = reachable_set(bs);
        let ghost orig = blocks@;
        let count_before = blocks.len();
        let mut out: Vec<BasicBlock> = Vec::new();
        proof {
            assert(bs.take(0) =~= Seq::<BlockView>::empty());
            assert(blocks_view(out@) =~= Seq::<BlockView>::empty());
        }
        for b in it: blocks.into_iter()
            invariant
                it.seq() == orig,
                bs == blocks_view(orig),
                reachable@ == r,
                0 <= it.index() <= orig.len(),
                blocks_view(out@) == keep_blocks(bs.take(it.index()), r),
                out@.len() <= it.index(),
        {
            let ghost k = it.index();
            proof {
                assert(bs.take(k + 1).drop_last() =~= bs.take(k));
                assert(bs.take(k + 1).last() == bs[k]);
                assert(bs[k] == b@);
            }
            if reachable.contains(&b.id.0) {
                out.push(b);
            }
            proof {
                assert(blocks_view(out@) =~= keep_blocks(bs.take(k + 1), r));
            }
        }
        proof {
            assert(bs.take(orig.len() as int) =~= bs);
            lemma_keep_blocks_len(bs, r);
            assert(out@.len() == blocks_view(out@).len());
        }
        let removed = count_before - out.len();
        self.stats.dead_blocks_removed = self.stats.dead_blocks_removed + removed;
        out
    }

    /// Keeps, in each block, the live instructions.
    fn remove_dead_instructions(&mut self, blocks: Vec<BasicBlock>) -> (out: Vec<BasicBlock>)
        requires
            old(self)@.dead_instructions_removed + dead_inst_count(
                blocks_view(blocks@),
                uses_of_blocks(blocks_view(blocks@)),
            ) <= usize::MAX,
        ensures
            blocks_view(out@) == live_blocks(blocks_view(blocks@), uses_of_blocks(blocks_view(blocks@))),
            final(self)@ == add_removed(
                old(self)@,
                0,
                dead_inst_count(blocks_view(blocks@), uses_of_blocks(blocks_view(blocks@))),
            ),
    {
        let used = find_used_variables(&blocks);
        let ghost bs = blocks_view(blocks@);
        let ghost u = uses_of_blocks(bs);
        let ghost orig = blocks@;
        let ghost stats0 = self@;
        let mut out: Vec<BasicBlock> = Vec::new();
        proof {
            assert(bs.take(0) =~= Seq::<BlockView>::empty());
        }
        for b in it: blocks.into_iter()
            invariant
                it.seq() == orig,
                bs == blocks_view(orig),
                used@ == u,
                0 <= it.index() <= orig.len(),
                stats0.dead_instructions_removed + dead_inst_count(bs, u) <= usize::MAX,
                out@.len() == it.index(),
                forall|j: int| 0 <= j < it.index() ==> #[trigger] out@[j]@ == live_blocks(bs, u)[j],
                self@ == add_removed(stats0, 0, dead_inst_count(bs.take(it.index()), u)),
        {
            let ghost k = it.index();
            proof {
                assert(bs.take(k + 1).drop_last() =~= bs.take(k));
                assert(bs.take(k + 1).last() == bs[k]);
                assert(bs[k] == b@);
                lemma_dead_count_prefix(bs, u, k + 1);
            }
            let BasicBlock { id, label, instructions, predecessors, successors } = b;
            let ghost s = insts_view(instructions@);
            let ghost iorig = instructions@;
            let len_before = instructions.len();
            let mut kept: Vec<Instruction> = Vec::new();
            proof {
                assert(s.take(0) =~= Seq::<InstView>::empty());
                assert(insts_view(kept@) =~= Seq::<InstView>::empty());
            }
            for inst in jt: instructions.into_iter()
                invariant
                    jt.seq() == iorig,
                    s == insts_view(iorig),
                    used@ == u,
                    0 <= jt.index() <= iorig.len(),
                    insts_view(kept@) == keep_live(s.take(jt.index()), u),
            {
                let ghost j = jt.index();
                proof {
                    assert(s.take(j + 1).drop_last() =~= s.take(j));
                    assert(s.take(j + 1).last() == s[j]);
                    assert(s[j] == inst@);
                }
                let live = if instruction_has_side_effects(&inst) {
                    true
                } else {
                    match instruction_defined_var(&inst) {
                        Some(d) => used.contains(&d.0),
                        None => true,
                    }
                };
                if live {
                    kept.push(inst);
                }
                proof {
                    assert(insts_view(kept@) =~= keep_live(s.take(j + 1), u));
                }
            }
            proof {
                assert(s.take(iorig.len() as int) =~= s);
                lemma_keep_live_len(s, u);
                assert(kept@.len() == insts_view(kept@).len());
            }
            let removed = len_before - kept.len();
            self.stats.dead_instructions_removed = self.stats.dead_instructions_removed + removed;
            out.push(BasicBlock { id, label, instructions: kept, predecessors, successors });
        }
        proof {
            assert(bs.take(orig.len() as int) =~= bs);
            assert(blocks_view(out@) =~= live_blocks(bs, u));
        }
        out
    }

    /// Removes unreachable blocks, then dead instructions, from a function.
    fn eliminate_dead_code(&mut self, f: Function) -> (r: Function)
        requires
            old(self)@.dead_blocks_removed + dce_blocks_removed(f@) <= usize::MAX,
            old(self)@.dead_instructions_removed + dce_insts_removed(f@) <= usize::MAX,
        ensures
            r@ == dce_function(f@),
            final(self)@ == add_removed(old(self)@, dce_blocks_removed(f@), dce_insts_removed(f@)),
    {
        let Function { id, name, params, return_type, blocks, var_counter, block_counter, is_async } = f;
        proof {
            lemma_keep_blocks_len(blocks_view(blocks@), reachable_set(blocks_view(blocks@)));
        }
        let ghost n0 = blocks@.len();
        let blocks = self.remove_unreachable_blocks(blocks);
        let blocks = self.remove_dead_instructions(blocks);
        Function { id, name, params, return_type, blocks, var_counter, block_counter, is_async }
    }

    /// Eliminates dead code in every function of the module.
    pub fn run(&mut self, module: &mut Module)
        requires
            old(self)@.dead_blocks_removed + total_blocks_removed(functions_view(old(module).functions@))
                <= usize::MAX,
            old(self)@.dead_instructions_removed + total_insts_removed(
                functions_view(old(module).functions@),
            ) <= usize::MAX,
        ensures
            functions_view(final(module).functions@) == functions_view(
                old(module).functions@,
            ).map_values(|f: FunctionView| dce_function(f)),
            final(self)@ == add_removed(
                old(self)@,
                total_blocks_removed(functions_view(old(module).functions@)),
                total_insts_removed(functions_view(old(module).functions@)),
            ),
            final(module).name == old(module).name,
            final(module).strings == old(module).strings,
            final(module).classes == old(module).classes,
            final(module).globals == old(module).globals,
    {
        let mut functions: Vec<Function> = Vec::new();
        std::mem::swap(&mut functions, &mut module.functions);
        let ghost fs = functions_view(functions@);
        let ghost orig = functions@;
        let ghost stats0 = self@;
        let mut out: Vec<Function> = Vec::new();
        proof {
            assert(fs.take(0) =~= Seq::<FunctionView>::empty());
        }
        for f in it: functions.into_iter()
            invariant
                it.seq() == orig,
                fs == functions_view(orig),
                0 <= it.index() <= orig.len(),
                stats0.dead_blocks_removed + total_blocks_removed(fs) <= usize::MAX,
                stats0.dead_instructions_removed + total_insts_removed(fs) <= usize::MAX,
                out@.len() == it.index(),
                forall|j: int| 0 <= j < it.index() ==> #[trigger] out@[j]@ == dce_function(fs[j]),
                self@ == add_removed(
                    stats0,
                    total_blocks_removed(fs.take(it.index())),
                    total_insts_removed(fs.take(it.index())),
                ),
        {
            let ghost k = it.index();
            proof {
                assert(fs.take(k + 1).drop_last() =~= fs.take(k));
                assert(fs.take(k + 1).last() == fs[k]);
                assert(fs[k] == f@);
                lemma_totals_prefix(fs, k + 1);
            }
            let g = self.eliminate_dead_code(f);
            out.push(g);
        }
        proof {
            assert(fs.take(orig.len() as int) =~= fs);
            assert(functions_view(out@) =~= fs.map_values(|f: FunctionView| dce_function(f)));
        }
        module.functions = out;
    }
}

proof fn lemma_reach_empty(bs: Seq<BlockView>, n: nat)
    requires
        bs.len() == 0,
    ensures
        reach_within(bs, n) == Set::<u32>::empty(),
    decreases n,
{
    if n > 0 {
        lemma_reach_empty(bs, (n - 1) as nat);
        assert(reach_within(bs, n) =~= Set::<u32>::empty());
    }
}

proof fn lemma_closed_holds_reachable_all(bs: Seq<BlockView>, r: Set<u32>)
    requires
        bs.len() > 0,
        r.contains(bs[0].id.0),
        forall|y: u32, x: u32| r.contains(y) && #[trigger] succs_of_id(bs, y).contains(x) ==> r.contains(x),
    ensures
        forall|x: u32| is_reachable(bs, x) ==> r.contains(x),
{
    assert forall|x: u32| is_reachable(bs, x) implies r.contains(x) by {
        let n = choose|n: nat| #[trigger] reach_within(bs, n).contains(x);
        lemma_closed_holds_reachable(bs, r, n);
    }
}

impl Default for DeadCodeEliminator {
    fn default() -> (r: Self)
        ensures
            r@.is_zero(),
    {
        Self::new()
    }
}

/// The instructions with side effects of a sequence, in order.
pub open spec fn effectful(s: Seq<InstView>) -> Seq<InstView>
    decreases s.len(),
{
    if s.len() == 0 {
        s
    } else if has_side_effects(s.last()) {
        effectful(s.drop_last()).push(s.last())
    } else {
        effectful(s.drop_last())
    }
}

proof fn lemma_keep_live_effectful(s: Seq<InstView>, used: Set<u32>)
    ensures
        effectful(keep_live(s, used)) == effectful(s),
    decreases s.len(),
{
    if s.len() > 0 {
        lemma_keep_live_effectful(s.drop_last(), used);
        if is_live(s.last(), used) {
            let k = keep_live(s.drop_last(), used).push(s.last());
            assert(k.drop_last() =~= keep_live(s.drop_last(), used));
            assert(k.last() == s.last());
        }
    }
}

proof fn lemma_keep_blocks_first(bs: Seq<BlockView>, r: Set<u32>)
    requires
        bs.len() > 0,
        r.contains(bs[0].id.0),
    ensures
        keep_blocks(bs, r).len() > 0,
        keep_blocks(bs, r)[0] == bs[0],
    decreases bs.len(),
{
    if bs.len() > 1 {
        assert(bs.drop_last()[0] == bs[0]);
        lemma_keep_blocks_first(bs.drop_last(), r);
        let k = keep_blocks(bs.drop_last(), r);
        if r.contains(bs.last().id.0) {
            assert(k.push(bs.last())[0] == k[0]);
        }
    } else {
        assert(bs.drop_last().len() == 0);
        assert(keep_blocks(bs.drop_last(), r).len() == 0);
        assert(bs.last() == bs[0]);
    }
}

/// Dead code elimination keeps the entry block, and keeps it first.
pub proof fn law_dce_keeps_entry(f: FunctionView)
    requires
        f.blocks.len() > 0,
    ensures
        dce_function(f).blocks.len() > 0,
        dce_function(f).blocks[0].id == f.blocks[0].id,
{
    let bs = f.blocks;
    assert(reach_within(bs, 0).contains(bs[0].id.0));
    assert(is_reachable(bs, bs[0].id.0));
    lemma_keep_blocks_first(bs, reachable_set(bs));
}

/// Dead code elimination removes no instruction with side effects: each
/// block it keeps holds the same instructions with side effects, in the
/// same order, as before.
pub proof fn law_dce_keeps_side_effects(f: FunctionView)
    ensures
        dce_function(f).blocks.len() == keep_blocks(f.blocks, reachable_set(f.blocks)).len(),
        forall|j: int|
            0 <= j < dce_function(f).blocks.len() ==> {
                let kept = keep_blocks(f.blocks, reachable_set(f.blocks));
                &&& (#[trigger] dce_function(f).blocks[j]).id == kept[j].id
                &&& effectful(dce_function(f).blocks[j].instructions) == effectful(kept[j].instructions)
            },
{
    let kept = keep_blocks(f.blocks, reachable_set(f.blocks));
    let used = uses_of_blocks(kept);
    assert forall|j: int| 0 <= j < dce_function(f).blocks.len() implies {
        &&& (#[trigger] dce_function(f).blocks[j]).id == kept[j].id
        &&& effectful(dce_function(f).blocks[j].instructions) == effectful(kept[j].instructions)
    } by {
        lemma_keep_live_effectful(kept[j].instructions, used);
    }
}

proof fn lemma_keep_live_uses(s: Seq<InstView>, used: Set<u32>)
    ensures
        uses_of_insts(keep_live(s, used)).subset_of(uses_of_insts(s)),
    decreases s.len(),
{
    if s.len() > 0 {
        lemma_keep_live_uses(s.drop_last(), used);
        if is_live(s.last(), used) {
            let k = keep_live(s.drop_last(), used);
            assert(k.push(s.last()).drop_last() =~= k);
        }
    }
}

proof fn lemma_keep_live_keeps(s: Seq<InstView>, used: Set<u32>, i: InstView)
    requires
        s.contains(i),
        is_live(i, used),
    ensures
        keep_live(s, used).contains(i),
    decreases s.len(),
{
    if s.last() == i {
        assert(keep_live(s, used).last() == i);
    } else {
        let j = choose|j: int| 0 <= j < s.len() && s[j] == i;
        assert(s.drop_last()[j] == i);
        lemma_keep_live_keeps(s.drop_last(), used, i);
        let k = keep_live(s.drop_last(), used);
        let m = choose|m: int| 0 <= m < k.len() && k[m] == i;
        if is_live(s.last(), used) {
            assert(keep_live(s, used)[m] == i);
        }
    }
}

proof fn lemma_live_blocks_uses(bs: Seq<BlockView>, used: Set<u32>)
    ensures
        uses_of_blocks(live_blocks(bs, used)).subset_of(uses_of_blocks(bs)),
    decreases bs.len(),
{
    if bs.len() > 0 {
        lemma_live_blocks_uses(bs.drop_last(), used);
        lemma_keep_live_uses(bs.last().instructions, used);
        assert(live_blocks(bs, used).drop_last() =~= live_blocks(bs.drop_last(), used));
    }
}

/// Dead code elimination keeps the definition of every variable that the
/// code left after it reads: an instruction of a reachable block that
/// defines a variable read by an instruction that stays, stays too.
pub proof fn law_dce_keeps_used_definitions(f: FunctionView, b: int, i: InstView)
    requires
        0 <= b < keep_blocks(f.blocks, reachable_set(f.blocks)).len(),
        keep_blocks(f.blocks, reachable_set(f.blocks))[b].instructions.contains(i),
        defined_var(i) is Some,
        uses_of_blocks(dce_blocks(f.blocks)).contains(defined_var(i).unwrap().0),
    ensures
        dce_blocks(f.blocks)[b].instructions.contains(i),
{
    let kept = keep_blocks(f.blocks, reachable_set(f.blocks));
    let used = uses_of_blocks(kept);
    lemma_live_blocks_uses(kept, used);
    assert(is_live(i, used));
    lemma_keep_live_keeps(kept[b].instructions, used, i);
}


/// Whether an instruction is a call (direct, indirect, method or virtual),
/// a store of any kind, a print, a throw, a control transfer or a marker of
/// a try region.
pub open spec fn is_call_store_print_or_control(i: InstView) -> bool {
    ||| i is Call
    ||| i is CallIndirect
    ||| i is CallMethod
    ||| i is CallVirtual
    ||| i is Store
    ||| i is GlobalStore
    ||| i is SetField
    ||| i is ArraySet
    ||| i is Print
    ||| i is Throw
    ||| i is Jump
    ||| i is Branch
    ||| i is Return
    ||| i is TryBegin
    ||| i is TryEnd
}

/// The calls, stores, prints and control instructions of a sequence, in
/// order.
pub open spec fn calls_stores_prints(s: Seq<InstView>) -> Seq<InstView>
    decreases s.len(),
{
    if s.len() == 0 {
        s
    } else if is_call_store_print_or_control(s.last()) {
        calls_stores_prints(s.drop_last()).push(s.last())
    } else {
        calls_stores_prints(s.drop_last())
    }
}

proof fn lemma_keep_live_calls(s: Seq<InstView>, used: Set<u32>)
    ensures
        calls_stores_prints(keep_live(s, used)) == calls_stores_prints(s),
    decreases s.len(),
{
    if s.len() > 0 {
        lemma_keep_live_calls(s.drop_last(), used);
        if is_live(s.last(), used) {
            let k = keep_live(s.drop_last(), used).push(s.last());
            assert(k.drop_last() =~= keep_live(s.drop_last(), used));
            assert(k.last() == s.last());
        }
    }
}

/// Dead code elimination keeps every call (direct, indirect, method or
/// virtual), store, field or array write, print and throw of each block it
/// keeps, in order, whether or not anything reads its result.
pub proof fn law_dce_keeps_calls_stores_and_prints(f: FunctionView)
    ensures
        dce_function(f).blocks.len() == keep_blocks(f.blocks, reachable_set(f.blocks)).len(),
        forall|j: int|
            0 <= j < dce_function(f).blocks.len() ==> {
                let kept = keep_blocks(f.blocks, reachable_set(f.blocks));
                &&& (#[trigger] dce_function(f).blocks[j]).id == kept[j].id
                &&& calls_stores_prints(dce_function(f).blocks[j].instructions) == calls_stores_prints(
                    kept[j].instructions,
                )
            },
{
    let kept = keep_blocks(f.blocks, reachable_set(f.blocks));
    let used = uses_of_blocks(kept);
    assert forall|j: int| 0 <= j < dce_function(f).blocks.len() implies {
        &&& (#[trigger] dce_function(f).blocks[j]).id == kept[j].id
        &&& calls_stores_prints(dce_function(f).blocks[j].instructions) == calls_stores_prints(kept[j].instructions)
    } by {
        lemma_keep_live_calls(kept[j].instructions, used);
    }
}
} // verus!
