//! Function inlining: a call to a small, non-recursive function that is
//! called at few sites is replaced by a copy of the callee's body.
use std::collections::HashMap;
use vstd::prelude::*;

use crate::instruction::{
    BinaryOp, BlockId, ClassId, FieldId, FuncId, InstView, Instruction, IrType, MethodId, TypeView,
    VarId, insts_view,
};
use crate::opt::dce::{copy_vars, defined_var, inst_uses, instruction_defined_var, instruction_uses};
use crate::opt::stats::OptStats;
use crate::program::{
    BasicBlock, BlockView, Function, FunctionView, Module, ParamView, Parameter, blocks_view, is_terminator,
    functions_view, params_view,
};

verus! {

broadcast use vstd::std_specs::hash::group_hash_axioms;

/// The variable that the inliner counts as defined by an instruction (it
/// does not count the destination of a copy).
pub open spec fn inl_defined(i: InstView) -> Option<VarId> {
    match i {
        InstView::Copy { .. } => None,
        _ => defined_var(i),
    }
}

/// The variables that the inliner counts as read by an instruction (it does
/// not count the source of a copy).
pub open spec fn inl_used(i: InstView) -> Seq<VarId> {
    match i {
        InstView::Copy { .. } => Seq::empty(),
        _ => inst_uses(i),
    }
}

/// The larger of two numbers.
pub open spec fn max_u32(a: u32, b: u32) -> u32 {
    if a >= b {
        a
    } else {
        b
    }
}

/// The largest of `m` and the numbers of a list of variables.
pub open spec fn max_vars(m: u32, s: Seq<VarId>) -> u32
    decreases s.len(),
{
    if s.len() == 0 {
        m
    } else {
        max_u32(max_vars(m, s.drop_last()), s.last().0)
    }
}

/// The largest of `m` and the variable numbers that instructions define or read.
pub open spec fn max_var_insts(m: u32, s: Seq<InstView>) -> u32
    decreases s.len(),
{
    if s.len() == 0 {
        m
    } else {
        let acc = max_var_insts(m, s.drop_last());
        let acc2 = match inl_defined(s.last()) {
            Some(d) => max_u32(acc, d.0),
            None => acc,
        };
        max_vars(acc2, inl_used(s.last()))
    }
}

/// The same over a sequence of blocks.
pub open spec fn max_var_blocks(m: u32, bs: Seq<BlockView>) -> u32
    decreases bs.len(),
{
    if bs.len() == 0 {
        m
    } else {
        max_var_insts(max_var_blocks(m, bs.drop_last()), bs.last().instructions)
    }
}

/// The largest of `m` and the numbers of parameters.
pub open spec fn max_var_params(m: u32, ps: Seq<ParamView>) -> u32
    decreases ps.len(),
{
    if ps.len() == 0 {
        m
    } else {
        max_u32(max_var_params(m, ps.drop_last()), ps.last().id.0)
    }
}

/// The largest variable number of a function (0 when it has none).
pub open spec fn max_var_id(f: FunctionView) -> u32 {
    max_var_blocks(max_var_params(0, f.params), f.blocks)
}

/// The largest of `m` and the ids of blocks.
pub open spec fn max_block_ids(m: u32, bs: Seq<BlockView>) -> u32
    decreases bs.len(),
{
    if bs.len() == 0 {
        m
    } else {
        max_u32(max_block_ids(m, bs.drop_last()), bs.last().id.0)
    }
}

/// The largest block id of a function (0 when it has no block).
pub open spec fn max_block_id(f: FunctionView) -> u32 {
    max_block_ids(0, f.blocks)
}

/// The map from the callee's parameters to the call's arguments: the `i`-th
/// parameter to the `i`-th argument, as far as there are arguments.
pub open spec fn param_map(ps: Seq<ParamView>, args: Seq<VarId>) -> Map<u32, VarId>
    decreases ps.len(),
{
    if ps.len() == 0 {
        Map::empty()
    } else if ps.len() - 1 < args.len() {
        param_map(ps.drop_last(), args).insert(ps.last().id.0, args[ps.len() - 1])
    } else {
        param_map(ps.drop_last(), args)
    }
}

/// A callee variable in the caller: the argument for a parameter, else the
/// variable moved past the caller's variables.
pub open spec fn map_var_spec(v: VarId, m: Map<u32, VarId>, off: u32) -> VarId {
    if m.contains_key(v.0) {
        m[v.0]
    } else {
        VarId((v.0 + off) as u32)
    }
}

/// Maps a list of variables.
pub open spec fn map_vars_spec(s: Seq<VarId>, m: Map<u32, VarId>, off: u32) -> Seq<VarId> {
    s.map_values(|v: VarId| map_var_spec(v, m, off))
}

/// A callee block id in the caller.
pub open spec fn map_block_spec(b: BlockId, off: u32) -> BlockId {
    BlockId((b.0 + off) as u32)
}

/// The callee variable maps into `u32`.
pub open spec fn var_ok(v: VarId, m: Map<u32, VarId>, off: u32) -> bool {
    m.contains_key(v.0) || v.0 + off <= u32::MAX
}

/// Each variable of the list maps into `u32`.
pub open spec fn vars_ok(s: Seq<VarId>, m: Map<u32, VarId>, off: u32) -> bool {
    forall|j: int| 0 <= j < s.len() ==> m.contains_key(#[trigger] s[j].0) || s[j].0 + off <= u32::MAX
}

/// The optional variable maps into `u32`.
pub open spec fn opt_var_ok(v: Option<VarId>, m: Map<u32, VarId>, off: u32) -> bool {
    match v {
        Some(x) => var_ok(x, m, off),
        None => true,
    }
}

/// The block id maps into `u32`.
pub open spec fn block_ok(b: BlockId, off: u32) -> bool {
    b.0 + off <= u32::MAX
}

/// Remapping the instruction stays within `u32`: every variable and every
/// block that it names maps into `u32`.
pub open spec fn remap_ok(i: InstView, m: Map<u32, VarId>, voff: u32, boff: u32) -> bool {
    let v = |x: VarId| var_ok(x, m, voff);
    match i {
        InstView::Const { dest, .. } => v(dest),
        InstView::Binary { dest, left, right, .. } => v(dest) && v(left) && v(right),
        InstView::Unary { dest, operand, .. } => v(dest) && v(operand),
        InstView::Load { dest, ptr, .. } => v(dest) && v(ptr),
        InstView::Store { ptr, value } => v(ptr) && v(value),
        InstView::Alloca { dest, .. } => v(dest),
        InstView::GetElementPtr { dest, ptr, index, .. } => v(dest) && v(ptr) && v(index),
        InstView::Jump { target } => block_ok(target, boff),
        InstView::Branch { cond, then_block, else_block } => v(cond) && block_ok(then_block, boff)
            && block_ok(else_block, boff),
        InstView::Call { dest, args, .. } => opt_var_ok(dest, m, voff) && vars_ok(args, m, voff),
        InstView::CallIndirect { dest, func_ptr, args, .. } => opt_var_ok(dest, m, voff) && v(func_ptr)
            && vars_ok(args, m, voff),
        InstView::Return { value } => opt_var_ok(value, m, voff),
        InstView::Phi { dest, incoming, .. } => v(dest) && vars_ok(
            incoming.map_values(|p: (VarId, BlockId)| p.0),
            m,
            voff,
        ) && forall|j: int| 0 <= j < incoming.len() ==> block_ok(#[trigger] incoming[j].1, boff),
        InstView::NewObject { dest, .. } => v(dest),
        InstView::GetField { dest, object, .. } => v(dest) && v(object),
        InstView::SetField { object, value, .. } => v(object) && v(value),
        InstView::CallMethod { dest, object, args, .. } => opt_var_ok(dest, m, voff) && v(object)
            && vars_ok(args, m, voff),
        InstView::CallVirtual { dest, object, args, .. } => opt_var_ok(dest, m, voff) && v(object)
            && vars_ok(args, m, voff),
        InstView::NewArray { dest, elements, .. } => v(dest) && vars_ok(elements, m, voff),
        InstView::ArrayLen { dest, array } => v(dest) && v(array),
        InstView::ArrayGet { dest, array, index, .. } => v(dest) && v(array) && v(index),
        InstView::ArraySet { array, index, value } => v(array) && v(index) && v(value),
        InstView::ArrayPush { array, value, .. } => v(array) && v(value),
        InstView::StringConcat { dest, left, right } => v(dest) && v(left) && v(right),
        InstView::IntToFloat { dest, src } => v(dest) && v(src),
        InstView::FloatToInt { dest, src } => v(dest) && v(src),
        InstView::ToString { dest, src } => v(dest) && v(src),
        InstView::Bitcast { dest, src, .. } => v(dest) && v(src),
        InstView::Print { value } => v(value),
        InstView::Throw { exception } => v(exception),
        InstView::TryBegin { catch_block } => block_ok(catch_block, boff),
        InstView::TryEnd => true,
        InstView::GetException { dest } => v(dest),
        InstView::GlobalLoad { dest, .. } => v(dest),
        InstView::GlobalStore { value, .. } => v(value),
        InstView::Copy { dest, src, .. } => v(dest) && v(src),
        InstView::Nop => true,
    }
}

/// A callee instruction copied into the caller, its variables and blocks
/// mapped.
pub open spec fn remap_spec(i: InstView, m: Map<u32, VarId>, voff: u32, boff: u32) -> InstView {
    let mv = |v: VarId| map_var_spec(v, m, voff);
    let mb = |b: BlockId| map_block_spec(b, boff);
    match i {
        InstView::Const { dest, value, ty } => InstView::Const { dest: mv(dest), value, ty },
        InstView::Binary { dest, op, left, right, ty } => InstView::Binary {
            dest: mv(dest),
            op,
            left: mv(left),
            right: mv(right),
            ty,
        },
        InstView::Unary { dest, op, operand, ty } => InstView::Unary {
            dest: mv(dest),
            op,
            operand: mv(operand),
            ty,
        },
        InstView::Load { dest, ptr, ty } => InstView::Load { dest: mv(dest), ptr: mv(ptr), ty },
        InstView::Store { ptr, value } => InstView::Store { ptr: mv(ptr), value: mv(value) },
        InstView::Alloca { dest, ty } => InstView::Alloca { dest: mv(dest), ty },
        InstView::GetElementPtr { dest, ptr, index, elem_ty } => InstView::GetElementPtr {
            dest: mv(dest),
            ptr: mv(ptr),
            index: mv(index),
            elem_ty,
        },
        InstView::Jump { target } => InstView::Jump { target: mb(target) },
        InstView::Branch { cond, then_block, else_block } => InstView::Branch {
            cond: mv(cond),
            then_block: mb(then_block),
            else_block: mb(else_block),
        },
        InstView::Call { dest, func, args, ret_ty } => InstView::Call {
            dest: match dest {
                Some(d) => Some(mv(d)),
                None => None,
            },
            func,
            args: map_vars_spec(args, m, voff),
            ret_ty,
        },
        InstView::CallIndirect { dest, func_ptr, args, ret_ty } => InstView::CallIndirect {
            dest: match dest {
                Some(d) => Some(mv(d)),
                None => None,
            },
            func_ptr: mv(func_ptr),
            args: map_vars_spec(args, m, voff),
            ret_ty,
        },
        InstView::Return { value } => InstView::Return {
            value: match value {
                Some(v) => Some(mv(v)),
                None => None,
            },
        },
        InstView::Phi { dest, ty, incoming } => InstView::Phi {
            dest: mv(dest),
            ty,
            incoming: incoming.map_values(
                |p: (VarId, BlockId)| (map_var_spec(p.0, m, voff), map_block_spec(p.1, boff)),
            ),
        },
        InstView::NewObject { dest, class } => InstView::NewObject { dest: mv(dest), class },
        InstView::GetField { dest, object, field, ty } => InstView::GetField {
            dest: mv(dest),
            object: mv(object),
            field,
            ty,
        },
        InstView::SetField { object, field, value } => InstView::SetField {
            object: mv(object),
            field,
            value: mv(value),
        },
        InstView::CallMethod { dest, object, method, args, ret_ty } => InstView::CallMethod {
            dest: match dest {
                Some(d) => Some(mv(d)),
                None => None,
            },
            object: mv(object),
            method,
            args: map_vars_spec(args, m, voff),
            ret_ty,
        },
        InstView::CallVirtual { dest, object, method_index, args, ret_ty } => InstView::CallVirtual {
            dest: match dest {
                Some(d) => Some(mv(d)),
                None => None,
            },
            object: mv(object),
            method_index,
            args: map_vars_spec(args, m, voff),
            ret_ty,
        },
        InstView::NewArray { dest, elem_ty, elements } => InstView::NewArray {
            dest: mv(dest),
            elem_ty,
            elements: map_vars_spec(elements, m, voff),
        },
        InstView::ArrayLen { dest, array } => InstView::ArrayLen { dest: mv(dest), array: mv(array) },
        InstView::ArrayGet { dest, array, index, elem_ty } => InstView::ArrayGet {
            dest: mv(dest),
            array: mv(array),
            index: mv(index),
            elem_ty,
        },
        InstView::ArraySet { array, index, value } => InstView::ArraySet {
            array: mv(array),
            index: mv(index),
            value: mv(value),
        },
        InstView::ArrayPush { array, value, elem_ty } => InstView::ArrayPush {
            array: mv(array),
            value: mv(value),
            elem_ty,
        },
        InstView::StringConcat { dest, left, right } => InstView::StringConcat {
            dest: mv(dest),
            left: mv(left),
            right: mv(right),
        },
        InstView::IntToFloat { dest, src } => InstView::IntToFloat { dest: mv(dest), src: mv(src) },
        InstView::FloatToInt { dest, src } => InstView::FloatToInt { dest: mv(dest), src: mv(src) },
        InstView::ToString { dest, src } => InstView::ToString { dest: mv(dest), src: mv(src) },
        InstView::Bitcast { dest, src, to_ty } => InstView::Bitcast {
            dest: mv(dest),
            src: mv(src),
            to_ty,
        },
        InstView::Print { value } => InstView::Print { value: mv(value) },
        InstView::Throw { exception } => InstView::Throw { exception: mv(exception) },
        InstView::TryBegin { catch_block } => InstView::TryBegin { catch_block: mb(catch_block) },
        InstView::TryEnd => InstView::TryEnd,
        InstView::GetException { dest } => InstView::GetException { dest: mv(dest) },
        InstView::GlobalLoad { dest, name, ty } => InstView::GlobalLoad { dest: mv(dest), name, ty },
        InstView::GlobalStore { name, value } => InstView::GlobalStore { name, value: mv(value) },
        InstView::Copy { dest, src, ty } => InstView::Copy { dest: mv(dest), src: mv(src), ty },
        InstView::Nop => InstView::Nop,
    }
}

/// A copy of a function name.
pub fn copy_func_id(f: &FuncId) -> (r: FuncId)
    ensures
        r == *f,
{
    FuncId(f.0.clone())
}

/// A copy of a class name.
pub fn copy_class_id(c: &ClassId) -> (r: ClassId)
    ensures
        r == *c,
{
    ClassId(c.0.clone())
}

/// A copy of a field reference.
pub fn copy_field_id(f: &FieldId) -> (r: FieldId)
    ensures
        r == *f,
{
    FieldId { class: copy_class_id(&f.class), name: f.name.clone(), index: f.index }
}

/// A copy of a method reference.
pub fn copy_method_id(m: &MethodId) -> (r: MethodId)
    ensures
        r == *m,
{
    MethodId { class: copy_class_id(&m.class), name: m.name.clone() }
}

/// A callee variable in the caller.
fn map_var(v: VarId, map: &HashMap<u32, VarId>, off: u32) -> (r: VarId)
    requires
        map@.contains_key(v.0) || v.0 + off <= u32::MAX,
    ensures
        r == map_var_spec(v, map@, off),
{
    match map.get(&v.0) {
        Some(w) => *w,
        None => VarId(v.0 + off),
    }
}

/// Maps a list of callee variables.
fn map_vars(v: &Vec<VarId>, map: &HashMap<u32, VarId>, off: u32) -> (r: Vec<VarId>)
    requires
        forall|j: int| 0 <= j < v@.len() ==> map@.contains_key(#[trigger] v@[j].0) || v@[j].0 + off <= u32::MAX,
    ensures
        r@ == map_vars_spec(v@, map@, off),
{
    let mut r: Vec<VarId> = Vec::new();
    let mut i: usize = 0;
    while i < v.len()
        invariant
            i <= v.len(),
            forall|j: int| 0 <= j < v@.len() ==> map@.contains_key(#[trigger] v@[j].0) || v@[j].0 + off <= u32::MAX,
            r@ == map_vars_spec(v@.take(i as int), map@, off),
        decreases v.len() - i,
    {
        r.push(map_var(v[i], map, off));
        i = i + 1;
        proof {
            assert(r@ =~= map_vars_spec(v@.take(i as int), map@, off));
        }
    }
    proof {
        assert(v@.take(v.len() as int) =~= v@);
    }
    r
}

/// Maps an optional callee variable.
fn map_opt_var(v: &Option<VarId>, map: &HashMap<u32, VarId>, off: u32) -> (r: Option<VarId>)
    requires
        v matches Some(x) ==> map@.contains_key(x.0) || x.0 + off <= u32::MAX,
    ensures
        r == match *v {
            Some(x) => Some(map_var_spec(x, map@, off)),
            None => None,
        },
{
    match v {
        Some(x) => Some(map_var(*x, map, off)),
        None => None,
    }
}

/// The remapped incoming edges of a phi.
fn map_incoming(v: &Vec<(VarId, BlockId)>, map: &HashMap<u32, VarId>, voff: u32, boff: u32) -> (r: Vec<(VarId, BlockId)>)
    requires
        forall|j: int| 0 <= j < v@.len() ==> map@.contains_key(#[trigger] v@[j].0.0) || v@[j].0.0 + voff <= u32::MAX,
        forall|j: int| 0 <= j < v@.len() ==> #[trigger] v@[j].1.0 + boff <= u32::MAX,
    ensures
        r@ == v@.map_values(|p: (VarId, BlockId)| (map_var_spec(p.0, map@, voff), map_block_spec(p.1, boff))),
{
    let mut r: Vec<(VarId, BlockId)> = Vec::new();
    let mut i: usize = 0;
    while i < v.len()
        invariant
            i <= v.len(),
            forall|j: int| 0 <= j < v@.len() ==> map@.contains_key(#[trigger] v@[j].0.0) || v@[j].0.0 + voff <= u32::MAX,
            forall|j: int| 0 <= j < v@.len() ==> #[trigger] v@[j].1.0 + boff <= u32::MAX,
            r@ == v@.take(i as int).map_values(
                |p: (VarId, BlockId)| (map_var_spec(p.0, map@, voff), map_block_spec(p.1, boff)),
            ),
        decreases v.len() - i,
    {
        let (a, b) = v[i];
        r.push((map_var(a, map, voff), BlockId(b.0 + boff)));
        i = i + 1;
        proof {
            assert(r@ =~= v@.take(i as int).map_values(
                |p: (VarId, BlockId)| (map_var_spec(p.0, map@, voff), map_block_spec(p.1, boff)),
            ));
        }
    }
    proof {
        assert(v@.take(v.len() as int) =~= v@);
    }
    r
}

/// A callee instruction copied into the caller, its variables and blocks
/// mapped.
fn remap_instruction(inst: &Instruction, map: &HashMap<u32, VarId>, voff: u32, boff: u32) -> (r: Instruction)
    requires
        remap_ok(inst@, map@, voff, boff),
    ensures
        r@ == remap_spec(inst@, map@, voff, boff),
{
    match inst {
        Instruction::Const { dest, value, ty } => Instruction::Const {
            dest: map_var(*dest, map, voff),
            value: *value,
            ty: ty.clone(),
        },
        Instruction::Binary { dest, op, left, right, ty } => Instruction::Binary {
            dest: map_var(*dest, map, voff),
            op: *op,
            left: map_var(*left, map, voff),
            right: map_var(*right, map, voff),
            ty: ty.clone(),
        },
        Instruction::Unary { dest, op, operand, ty } => Instruction::Unary {
            dest: map_var(*dest, map, voff),
            op: *op,
            operand: map_var(*operand, map, voff),
            ty: ty.clone(),
        },
        Instruction::Load { dest, ptr, ty } => Instruction::Load {
            dest: map_var(*dest, map, voff),
            ptr: map_var(*ptr, map, voff),
            ty: ty.clone(),
        },
        Instruction::Store { ptr, value } => Instruction::Store {
            ptr: map_var(*ptr, map, voff),
            value: map_var(*value, map, voff),
        },
        Instruction::Alloca { dest, ty } => Instruction::Alloca {
            dest: map_var(*dest, map, voff),
            ty: ty.clone(),
        },
        Instruction::GetElementPtr { dest, ptr, index, elem_ty } => Instruction::GetElementPtr {
            dest: map_var(*dest, map, voff),
            ptr: map_var(*ptr, map, voff),
            index: map_var(*index, map, voff),
            elem_ty: elem_ty.clone(),
        },
        Instruction::Jump { target } => Instruction::Jump { target: BlockId(target.0 + boff) },
        Instruction::Branch { cond, then_block, else_block } => Instruction::Branch {
            cond: map_var(*cond, map, voff),
            then_block: BlockId(then_block.0 + boff),
            else_block: BlockId(else_block.0 + boff),
        },
        Instruction::Call { dest, func, args, ret_ty } => Instruction::Call {
            dest: map_opt_var(dest, map, voff),
            func: copy_func_id(func),
            args: map_vars(args, map, voff),
            ret_ty: ret_ty.clone(),
        },
        Instruction::CallIndirect { dest, func_ptr, args, ret_ty } => Instruction::CallIndirect {
            dest: map_opt_var(dest, map, voff),
            func_ptr: map_var(*func_ptr, map, voff),
            args: map_vars(args, map, voff),
            ret_ty: ret_ty.clone(),
        },
        Instruction::Return { value } => Instruction::Return { value: map_opt_var(value, map, voff) },
        Instruction::Phi { dest, ty, incoming } => {
            proof {
                assert forall|j: int| 0 <= j < incoming@.len() implies map@.contains_key(
                    #[trigger] incoming@[j].0.0,
                ) || incoming@[j].0.0 + voff <= u32::MAX by {
                    assert(incoming@.map_values(|p: (VarId, BlockId)| p.0)[j] == incoming@[j].0);
                }
            }
            Instruction::Phi {
                dest: map_var(*dest, map, voff),
                ty: ty.clone(),
                incoming: map_incoming(incoming, map, voff, boff),
            }
        },
        Instruction::NewObject { dest, class } => Instruction::NewObject {
            dest: map_var(*dest, map, voff),
            class: copy_class_id(class),
        },
        Instruction::GetField { dest, object, field, ty } => Instruction::GetField {
            dest: map_var(*dest, map, voff),
            object: map_var(*object, map, voff),
            field: copy_field_id(field),
            ty: ty.clone(),
        },
        Instruction::SetField { object, field, value } => Instruction::SetField {
            object: map_var(*object, map, voff),
            field: copy_field_id(field),
            value: map_var(*value, map, voff),
        },
        Instruction::CallMethod { dest, object, method, args, ret_ty } => Instruction::CallMethod {
            dest: map_opt_var(dest, map, voff),
            object: map_var(*object, map, voff),
            method: copy_method_id(method),
            args: map_vars(args, map, voff),
            ret_ty: ret_ty.clone(),
        },
        Instruction::CallVirtual { dest, object, method_index, args, ret_ty } => Instruction::CallVirtual {
            dest: map_opt_var(dest, map, voff),
            object: map_var(*object, map, voff),
            method_index: *method_index,
            args: map_vars(args, map, voff),
            ret_ty: ret_ty.clone(),
        },
        Instruction::NewArray { dest, elem_ty, elements } => Instruction::NewArray {
            dest: map_var(*dest, map, voff),
            elem_ty: elem_ty.clone(),
            elements: map_vars(elements, map, voff),
        },
        Instruction::ArrayLen { dest, array } => Instruction::ArrayLen {
            dest: map_var(*dest, map, voff),
            array: map_var(*array, map, voff),
        },
        Instruction::ArrayGet { dest, array, index, elem_ty } => Instruction::ArrayGet {
            dest: map_var(*dest, map, voff),
            array: map_var(*array, map, voff),
            index: map_var(*index, map, voff),
            elem_ty: elem_ty.clone(),
        },
        Instruction::ArraySet { array, index, value } => Instruction::ArraySet {
            array: map_var(*array, map, voff),
            index: map_var(*index, map, voff),
            value: map_var(*value, map, voff),
        },
        Instruction::ArrayPush { array, value, elem_ty } => Instruction::ArrayPush {
            array: map_var(*array, map, voff),
            value: map_var(*value, map, voff),
            elem_ty: elem_ty.clone(),
        },
        Instruction::StringConcat { dest, left, right } => Instruction::StringConcat {
            dest: map_var(*dest, map, voff),
            left: map_var(*left, map, voff),
            right: map_var(*right, map, voff),
        },
        Instruction::IntToFloat { dest, src } => Instruction::IntToFloat {
            dest: map_var(*dest, map, voff),
            src: map_var(*src, map, voff),
        },
        Instruction::FloatToInt { dest, src } => Instruction::FloatToInt {
            dest: map_var(*dest, map, voff),
            src: map_var(*src, map, voff),
        },
        Instruction::ToString { dest, src } => Instruction::ToString {
            dest: map_var(*dest, map, voff),
            src: map_var(*src, map, voff),
        },
        Instruction::Bitcast { dest, src, to_ty } => Instruction::Bitcast {
            dest: map_var(*dest, map, voff),
            src: map_var(*src, map, voff),
            to_ty: to_ty.clone(),
        },
        Instruction::Print { value } => Instruction::Print { value: map_var(*value, map, voff) },
        Instruction::Throw { exception } => Instruction::Throw {
            exception: map_var(*exception, map, voff),
        },
        Instruction::TryBegin { catch_block } => Instruction::TryBegin {
            catch_block: BlockId(catch_block.0 + boff),
        },
        Instruction::TryEnd => Instruction::TryEnd,
        Instruction::GetException { dest } => Instruction::GetException {
            dest: map_var(*dest, map, voff),
        },
        Instruction::GlobalLoad { dest, name, ty } => Instruction::GlobalLoad {
            dest: map_var(*dest, map, voff),
            name: name.clone(),
            ty: ty.clone(),
        },
        Instruction::GlobalStore { name, value } => Instruction::GlobalStore {
            name: name.clone(),
            value: map_var(*value, map, voff),
        },
        Instruction::Copy { dest, src, ty } => Instruction::Copy {
            dest: map_var(*dest, map, voff),
            src: map_var(*src, map, voff),
            ty: ty.clone(),
        },
        Instruction::Nop => Instruction::Nop,
    }
}

/// The callee's instructions as copied into the caller: the returns are
/// dropped, the others remapped.
pub open spec fn copy_insts(s: Seq<InstView>, m: Map<u32, VarId>, voff: u32, boff: u32, cont: BlockId) -> Seq<
    InstView,
>
    decreases s.len(),
{
    if s.len() == 0 {
        Seq::empty()
    } else {
        let pre = copy_insts(s.drop_last(), m, voff, boff, cont);
        match s.last() {
            InstView::Return { .. } => pre.push(InstView::Jump { target: cont }),
            i => pre.push(remap_spec(i, m, voff, boff)),
        }
    }
}

/// The caller variable of the value that the callee returns: the value of the
/// last return that returns one, starting from `acc`.
pub open spec fn ret_var_insts(acc: Option<VarId>, s: Seq<InstView>, m: Map<u32, VarId>, voff: u32) -> Option<VarId>
    decreases s.len(),
{
    if s.len() == 0 {
        acc
    } else {
        let pre = ret_var_insts(acc, s.drop_last(), m, voff);
        match s.last() {
            InstView::Return { value: Some(v) } => Some(map_var_spec(v, m, voff)),
            _ => pre,
        }
    }
}

/// The same over the callee's blocks, in order.
pub open spec fn ret_var_blocks(bs: Seq<BlockView>, m: Map<u32, VarId>, voff: u32) -> Option<VarId>
    decreases bs.len(),
{
    if bs.len() == 0 {
        None
    } else {
        ret_var_insts(ret_var_blocks(bs.drop_last(), m, voff), bs.last().instructions, m, voff)
    }
}

/// A new block with the given id and instructions.
pub open spec fn plain_block(id: BlockId, insts: Seq<InstView>) -> BlockView {
    BlockView {
        id,
        label: None,
        instructions: insts,
        predecessors: Seq::empty(),
        successors: Seq::empty(),
    }
}

/// The callee's blocks as copied into the caller: block `i` gets id
/// `boff + i`, and each return becomes a jump to the block `cont`.
pub open spec fn copy_blocks(bs: Seq<BlockView>, m: Map<u32, VarId>, voff: u32, boff: u32, cont: BlockId) -> Seq<
    BlockView,
> {
    Seq::new(
        bs.len(),
        |i: int| plain_block(BlockId((boff + i) as u32), copy_insts(bs[i].instructions, m, voff, boff, cont)),
    )
}

/// Whether block `bi` of the caller has an instruction `ii` that is a call.
pub open spec fn is_call_site(caller: FunctionView, bi: int, ii: int) -> bool {
    &&& 0 <= bi < caller.blocks.len()
    &&& 0 <= ii < caller.blocks[bi].instructions.len()
    &&& caller.blocks[bi].instructions[ii] is Call
}

/// Inlining the call stays within `u32`: the offsets, the new block ids and
/// every remapped variable and block.
pub open spec fn inline_call_ok(caller: FunctionView, bi: int, ii: int, callee: FunctionView) -> bool {
    is_call_site(caller, bi, ii) ==> {
        let args = caller.blocks[bi].instructions[ii]->Call_args;
        let voff = (max_var_id(caller) + 1) as u32;
        let boff = (max_block_id(caller) + 1) as u32;
        let m = param_map(callee.params, args);
        &&& max_var_id(caller) < u32::MAX
        &&& max_block_id(caller) < u32::MAX
        &&& boff + callee.blocks.len() <= u32::MAX
        &&& forall|b: int, j: int|
            0 <= b < callee.blocks.len() && 0 <= j < callee.blocks[b].instructions.len() ==> match #[trigger] callee.blocks[b].instructions[j] {
                InstView::Return { value } => opt_var_ok(value, m, voff),
                i => remap_ok(i, m, voff, boff),
            }
    }
}

/// The caller after inlining the call at instruction `ii` of block `bi`:
/// the block ends before the call, jumping to the copied callee blocks,
/// which follow it and in which each return jumps on to a new last block;
/// that block first copies the returned value (that of the last return, in
/// block order, that returns one) into the call's destination,
/// with the callee's return type, then holds the instructions after the
/// call. Where there is no call at that place, the caller stays as it is.
pub open spec fn inline_call_spec(caller: FunctionView, bi: int, ii: int, callee: FunctionView) -> FunctionView {
    if !is_call_site(caller, bi, ii) {
        caller
    } else {
        let b = caller.blocks[bi];
        let insts = b.instructions;
        let dest = insts[ii]->Call_dest;
        let args = insts[ii]->Call_args;
        let voff = (max_var_id(caller) + 1) as u32;
        let boff = (max_block_id(caller) + 1) as u32;
        let m = param_map(callee.params, args);
        let cont_id = BlockId((boff + callee.blocks.len()) as u32);
        let copied = copy_blocks(callee.blocks, m, voff, boff, cont_id);
        let ret = ret_var_blocks(callee.blocks, m, voff);
        let head = if copied.len() > 0 {
            insts.take(ii).push(InstView::Jump { target: BlockId(boff) })
        } else {
            insts.take(ii)
        };
        let cont_head = if dest is Some && ret is Some {
            seq![InstView::Copy { dest: dest.unwrap(), src: ret.unwrap(), ty: callee.return_type }]
        } else {
            Seq::empty()
        };
        let blocks = caller.blocks.update(bi, BlockView { instructions: head, ..b });
        let blocks2 = blocks.take(bi + 1) + copied + blocks.skip(bi + 1);
        FunctionView {
            blocks: blocks2.push(plain_block(cont_id, cont_head + insts.skip(ii + 1))),
            ..caller
        }
    }
}

/// The variable that the inliner counts as defined by an instruction.
fn inl_defined_var(inst: &Instruction) -> (r: Option<VarId>)
    ensures
        r == inl_defined(inst@),
{
    match inst {
        Instruction::Copy { .. } => None,
        _ => instruction_defined_var(inst),
    }
}

/// The variables that the inliner counts as read by an instruction.
fn inl_used_vars(inst: &Instruction) -> (r: Vec<VarId>)
    ensures
        r@ == inl_used(inst@),
{
    match inst {
        Instruction::Copy { .. } => Vec::new(),
        _ => instruction_uses(inst),
    }
}

/// The largest variable number of a function.
fn find_max_var_id(func: &Function) -> (r: u32)
    ensures
        r == max_var_id(func@),
{
    let mut max_id: u32 = 0;
    let ghost ps = params_view(func.params@);
    let mut p: usize = 0;
    while p < func.params.len()
        invariant
            p <= func.params.len(),
            ps == params_view(func.params@),
            max_id == max_var_params(0, ps.take(p as int)),
        decreases func.params.len() - p,
    {
        let id = func.params[p].id.0;
        if id > max_id {
            max_id = id;
        }
        p = p + 1;
        proof {
            assert(ps.take(p as int).drop_last() =~= ps.take(p - 1));
        }
    }
    proof {
        assert(ps.take(func.params.len() as int) =~= ps);
    }
    let ghost bs = blocks_view(func.blocks@);
    let ghost m0 = max_id;
    let mut k: usize = 0;
    proof {
        assert(bs.take(0) =~= Seq::<BlockView>::empty());
    }
    while k < func.blocks.len()
        invariant
            k <= func.blocks.len(),
            bs == blocks_view(func.blocks@),
            max_id == max_var_blocks(m0, bs.take(k as int)),
        decreases func.blocks.len() - k,
    {
        let insts = &func.blocks[k].instructions;
        let ghost s = insts_view(insts@);
        let ghost mb = max_id;
        let mut j: usize = 0;
        proof {
            assert(s.take(0) =~= Seq::<InstView>::empty());
        }
        while j < insts.len()
            invariant
                j <= insts.len(),
                s == insts_view(insts@),
                max_id == max_var_insts(mb, s.take(j as int)),
            decreases insts.len() - j,
        {
            proof {
                assert(s.take(j + 1).drop_last() =~= s.take(j as int));
                assert(s.take(j + 1).last() == insts@[j as int]@);
            }
            if let Some(d) = inl_defined_var(&insts[j]) {
                if d.0 > max_id {
                    max_id = d.0;
                }
            }
            let used = inl_used_vars(&insts[j]);
            let ghost m1 = max_id;
            let mut u: usize = 0;
            proof {
                assert(used@.take(0) =~= Seq::<VarId>::empty());
            }
            while u < used.len()
                invariant
                    u <= used.len(),
                    max_id == max_vars(m1, used@.take(u as int)),
                decreases used.len() - u,
            {
                if used[u].0 > max_id {
                    max_id = used[u].0;
                }
                u = u + 1;
                proof {
                    assert(used@.take(u as int).drop_last() =~= used@.take(u - 1));
                }
            }
            proof {
                assert(used@.take(used.len() as int) =~= used@);
            }
            j = j + 1;
        }
        proof {
            assert(s.take(insts.len() as int) =~= s);
            assert(bs.take(k + 1).drop_last() =~= bs.take(k as int));
            assert(bs.take(k + 1).last() == func.blocks@[k as int]@);
        }
        k = k + 1;
    }
    proof {
        assert(bs.take(func.blocks.len() as int) =~= bs);
    }
    max_id
}

/// The largest block id of a function.
fn find_max_block_id(func: &Function) -> (r: u32)
    ensures
        r == max_block_id(func@),
{
    let ghost bs = blocks_view(func.blocks@);
    let mut max_id: u32 = 0;
    let mut k: usize = 0;
    proof {
        assert(bs.take(0) =~= Seq::<BlockView>::empty());
    }
    while k < func.blocks.len()
        invariant
            k <= func.blocks.len(),
            bs == blocks_view(func.blocks@),
            max_id == max_block_ids(0, bs.take(k as int)),
        decreases func.blocks.len() - k,
    {
        if func.blocks[k].id.0 > max_id {
            max_id = func.blocks[k].id.0;
        }
        k = k + 1;
        proof {
            assert(bs.take(k as int).drop_last() =~= bs.take(k - 1));
            assert(bs.take(k as int).last() == func.blocks@[k - 1]@);
        }
    }
    proof {
        assert(bs.take(func.blocks.len() as int) =~= bs);
    }
    max_id
}

/// Whether every callee instruction can be copied into the caller within
/// `u32`.
pub open spec fn insts_copy_ok(s: Seq<InstView>, m: Map<u32, VarId>, voff: u32, boff: u32) -> bool {
    forall|j: int|
        0 <= j < s.len() ==> match #[trigger] s[j] {
            InstView::Return { value } => opt_var_ok(value, m, voff),
            i => remap_ok(i, m, voff, boff),
        }
}

/// The map from the callee's parameters to the call's arguments.
fn build_param_map(params: &Vec<Parameter>, args: &Vec<VarId>) -> (r: HashMap<u32, VarId>)
    ensures
        r@ == param_map(params_view(params@), args@),
{
    let ghost ps = params_view(params@);
    let mut map: HashMap<u32, VarId> = HashMap::new();
    let mut i: usize = 0;
    proof {
        assert(ps.take(0) =~= Seq::<ParamView>::empty());
        assert(map@ =~= Map::<u32, VarId>::empty());
    }
    while i < params.len()
        invariant
            i <= params.len(),
            ps == params_view(params@),
            map@ == param_map(ps.take(i as int), args@),
        decreases params.len() - i,
    {
        proof {
            assert(ps.take(i + 1).drop_last() =~= ps.take(i as int));
            assert(ps.take(i + 1).last() == params@[i as int]@);
        }
        if i < args.len() {
            map.insert(params[i].id.0, args[i]);
        }
        i = i + 1;
    }
    proof {
        assert(ps.take(params.len() as int) =~= ps);
    }
    map
}

/// The instructions of one callee block as copied into the caller; `ret`
/// follows the value of the last return that returns one.
fn copy_callee_insts(
    insts: &Vec<Instruction>,
    map: &HashMap<u32, VarId>,
    voff: u32,
    boff: u32,
    cont: BlockId,
    ret: &mut Option<VarId>,
) -> (r: Vec<Instruction>)
    requires
        insts_copy_ok(insts_view(insts@), map@, voff, boff),
    ensures
        insts_view(r@) == copy_insts(insts_view(insts@), map@, voff, boff, cont),
        *final(ret) == ret_var_insts(*old(ret), insts_view(insts@), map@, voff),
{
    let ghost s = insts_view(insts@);
    let ghost r0 = *ret;
    let mut out: Vec<Instruction> = Vec::new();
    let mut j: usize = 0;
    proof {
        assert(s.take(0) =~= Seq::<InstView>::empty());
        assert(insts_view(out@) =~= Seq::<InstView>::empty());
    }
    while j < insts.len()
        invariant
            j <= insts.len(),
            s == insts_view(insts@),
            insts_copy_ok(s, map@, voff, boff),
            insts_view(out@) == copy_insts(s.take(j as int), map@, voff, boff, cont),
            *ret == ret_var_insts(r0, s.take(j as int), map@, voff),
        decreases insts.len() - j,
    {
        proof {
            assert(s.take(j + 1).drop_last() =~= s.take(j as int));
            assert(s.take(j + 1).last() == insts@[j as int]@);
            assert(s[j as int] == insts@[j as int]@);
        }
        match &insts[j] {
            Instruction::Return { value } => {
                if let Some(v) = value {
                    *ret = Some(map_var(*v, map, voff));
                }
                out.push(Instruction::Jump { target: cont });
            },
            other => {
                let ri = remap_instruction(other, map, voff, boff);
                out.push(ri);
            },
        }
        j = j + 1;
        proof {
            assert(insts_view(out@) =~= copy_insts(s.take(j as int), map@, voff, boff, cont));
        }
    }
    proof {
        assert(s.take(insts.len() as int) =~= s);
    }
    out
}

/// Whether every block of the callee can be copied into the caller within
/// `u32`.
pub open spec fn blocks_copy_ok(bs: Seq<BlockView>, m: Map<u32, VarId>, voff: u32, boff: u32) -> bool {
    &&& boff + bs.len() <= u32::MAX
    &&& forall|b: int| 0 <= b < bs.len() ==> insts_copy_ok(#[trigger] bs[b].instructions, m, voff, boff)
}

/// The callee's blocks as copied into the caller, each return jumping to
/// `cont`, with the caller variable that holds the returned value.
fn copy_callee_blocks(
    blocks: &Vec<BasicBlock>,
    map: &HashMap<u32, VarId>,
    voff: u32,
    boff: u32,
    cont: BlockId,
) -> (r: (Vec<BasicBlock>, Option<VarId>))
    requires
        blocks_copy_ok(blocks_view(blocks@), map@, voff, boff),
    ensures
        blocks_view(r.0@) == copy_blocks(blocks_view(blocks@), map@, voff, boff, cont),
        r.1 == ret_var_blocks(blocks_view(blocks@), map@, voff),
{
    let ghost bs = blocks_view(blocks@);
    let mut out: Vec<BasicBlock> = Vec::new();
    let mut ret: Option<VarId> = None;
    let mut i: usize = 0;
    proof {
        assert(bs.take(0) =~= Seq::<BlockView>::empty());
    }
    while i < blocks.len()
        invariant
            i <= blocks.len(),
            bs == blocks_view(blocks@),
            blocks_copy_ok(bs, map@, voff, boff),
            out@.len() == i,
            forall|k: int|
                0 <= k < i ==> #[trigger] out@[k]@ == plain_block(
                    BlockId((boff + k) as u32),
                    copy_insts(bs[k].instructions, map@, voff, boff, cont),
                ),
            ret == ret_var_blocks(bs.take(i as int), map@, voff),
        decreases blocks.len() - i,
    {
        proof {
            assert(bs.take(i + 1).drop_last() =~= bs.take(i as int));
            assert(bs.take(i + 1).last() == blocks@[i as int]@);
            assert(bs[i as int] == blocks@[i as int]@);
            assert(insts_copy_ok(bs[i as int].instructions, map@, voff, boff));
        }
        let insts = copy_callee_insts(&blocks[i].instructions, map, voff, boff, cont, &mut ret);
        let nb = BasicBlock {
            id: BlockId(boff + i as u32),
            label: None,
            instructions: insts,
            predecessors: Vec::new(),
            successors: Vec::new(),
        };
        proof {
            assert(nb@.predecessors =~= Seq::<BlockId>::empty());
            assert(nb@.successors =~= Seq::<BlockId>::empty());
        }
        out.push(nb);
        i = i + 1;
    }
    proof {
        assert(bs.take(blocks.len() as int) =~= bs);
        assert(blocks_view(out@) =~= copy_blocks(bs, map@, voff, boff, cont));
    }
    (out, ret)
}

/// Inlines `callee` at instruction `ii` of block `bi` of `caller`
/// (`inline_call_spec`); where that instruction is not a call, `caller`
/// stays as it is.
fn inline_call(caller: &mut Function, bi: usize, ii: usize, callee: &Function)
    requires
        inline_call_ok(old(caller)@, bi as int, ii as int, callee@),
    ensures
        final(caller)@ == inline_call_spec(old(caller)@, bi as int, ii as int, callee@),
{
    if bi >= caller.blocks.len() || ii >= caller.blocks[bi].instructions.len() {
        return;
    }
    proof {
        assert(blocks_view(caller.blocks@)[bi as int] == caller.blocks@[bi as int]@);
        assert(insts_view(caller.blocks@[bi as int].instructions@)[ii as int]
            == caller.blocks@[bi as int].instructions@[ii as int]@);
    }
    let (dest, args) = match &caller.blocks[bi].instructions[ii] {
        Instruction::Call { dest, args, .. } => (*dest, copy_vars(args)),
        _ => {
            return;
        },
    };
    let ghost c0 = caller@;
    let voff = find_max_var_id(caller) + 1;
    let boff = find_max_block_id(caller) + 1;
    let map = build_param_map(&callee.params, &args);
    proof {
        let cb = callee@.blocks;
        assert forall|b: int| 0 <= b < cb.len() implies insts_copy_ok(
            #[trigger] cb[b].instructions,
            map@,
            voff,
            boff,
        ) by {
            assert forall|j: int| 0 <= j < cb[b].instructions.len() implies match #[trigger] cb[b].instructions[j] {
                InstView::Return { value } => opt_var_ok(value, map@, voff),
                i => remap_ok(i, map@, voff, boff),
            } by {
                let _ = callee@.blocks[b].instructions[j];
            }
        }
    }
    let cont_id = BlockId(boff + callee.blocks.len() as u32);
    let (mut inlined, ret) = copy_callee_blocks(&callee.blocks, &map, voff, boff, cont_id);
    let ghost copied = blocks_view(inlined@);
    let n = inlined.len();
    let ghost copied2 = copied;
    let mut blocks: Vec<BasicBlock> = Vec::new();
    std::mem::swap(&mut blocks, &mut caller.blocks);
    let ghost ob = blocks@;
    let mut rest = blocks.split_off(bi + 1);
    let b = blocks.pop().unwrap();
    let BasicBlock { id, label, instructions, predecessors, successors } = b;
    let mut head = instructions;
    let ghost hi = head@;
    let mut tail = head.split_off(ii);
    let _call = tail.remove(0);
    if n > 0 {
        head.push(Instruction::Jump { target: BlockId(boff) });
    }
    blocks.push(BasicBlock { id, label, instructions: head, predecessors, successors });
    blocks.append(&mut inlined);
    blocks.append(&mut rest);
    let mut cont_insts: Vec<Instruction> = Vec::new();
    match (dest, ret) {
        (Some(d), Some(r)) => {
            cont_insts.push(Instruction::Copy { dest: d, src: r, ty: callee.return_type.clone() });
        },
        _ => {},
    }
    let ghost ch = insts_view(cont_insts@);
    proof {
        if dest is Some && ret is Some {
            assert(ch =~= seq![InstView::Copy { dest: dest.unwrap(), src: ret.unwrap(), ty: callee@.return_type }]);
        } else {
            assert(ch =~= Seq::<InstView>::empty());
        }
    }
    cont_insts.append(&mut tail);
    let cont = BasicBlock {
        id: cont_id,
        label: None,
        instructions: cont_insts,
        predecessors: Vec::new(),
        successors: Vec::new(),
    };
    blocks.push(cont);
    proof {
        let bv = c0.blocks[bi as int];
        let iv = bv.instructions;
        assert(iv == insts_view(hi));
        let head_v = if copied.len() > 0 {
            iv.take(ii as int).push(InstView::Jump { target: BlockId(boff) })
        } else {
            iv.take(ii as int)
        };
        let upd = c0.blocks.update(bi as int, BlockView { instructions: head_v, ..bv });
        assert(upd.take(bi + 1) =~= blocks_view(ob.subrange(0, bi as int)).push(
            BlockView { instructions: head_v, ..bv },
        ));
        assert(upd.skip(bi + 1) =~= blocks_view(ob.subrange(bi + 1, ob.len() as int)));
        assert(insts_view(hi.subrange(ii + 1, hi.len() as int)) =~= iv.skip(ii + 1));
        assert(ch + iv.skip(ii + 1) =~= insts_view(cont.instructions@));
        assert(insts_view(hi.subrange(0, ii as int)) =~= iv.take(ii as int));
        if n > 0 {
            assert(insts_view(hi.subrange(0, ii as int).push(Instruction::Jump { target: BlockId(boff) }))
                =~= head_v);
        }
        assert(blocks_view(blocks@) =~= (upd.take(bi + 1) + copied2 + upd.skip(bi + 1)).push(
            plain_block(cont_id, ch + iv.skip(ii + 1)),
        ));
    }
    caller.blocks = blocks;
}

/// The number of instructions in a sequence of blocks.
pub open spec fn inst_count(bs: Seq<BlockView>) -> nat
    decreases bs.len(),
{
    if bs.len() == 0 {
        0
    } else {
        inst_count(bs.drop_last()) + bs.last().instructions.len()
    }
}

/// Whether an instruction is a direct call of the function named `id`.
pub open spec fn calls_fn(i: InstView, id: Seq<char>) -> bool {
    match i {
        InstView::Call { func, .. } => func == id,
        _ => false,
    }
}

/// Whether a function calls itself directly.
pub open spec fn spec_is_recursive(f: FunctionView) -> bool {
    exists|b: int, j: int|
        0 <= b < f.blocks.len() && 0 <= j < f.blocks[b].instructions.len() && calls_fn(
            #[trigger] f.blocks[b].instructions[j],
            f.id,
        )
}

/// Whether a function may be inlined: few enough blocks and instructions,
/// and no call of itself.
pub open spec fn spec_is_candidate(cfg: InlineConfig, f: FunctionView) -> bool {
    &&& f.blocks.len() <= cfg.max_blocks
    &&& inst_count(f.blocks) <= cfg.max_instructions
    &&& !spec_is_recursive(f)
}

/// Whether some function named `id` may be inlined.
pub open spec fn is_candidate_id(cfg: InlineConfig, fs: Seq<FunctionView>, id: Seq<char>) -> bool {
    exists|k: int| 0 <= k < fs.len() && #[trigger] fs[k].id == id && spec_is_candidate(cfg, fs[k])
}

/// The number of calls of `id` in a sequence of instructions.
pub open spec fn calls_in_insts(s: Seq<InstView>, id: Seq<char>) -> nat
    decreases s.len(),
{
    if s.len() == 0 {
        0
    } else {
        calls_in_insts(s.drop_last(), id) + if calls_fn(s.last(), id) {
            1nat
        } else {
            0nat
        }
    }
}

/// The number of calls of `id` in a sequence of blocks.
pub open spec fn calls_in_blocks(bs: Seq<BlockView>, id: Seq<char>) -> nat
    decreases bs.len(),
{
    if bs.len() == 0 {
        0
    } else {
        calls_in_blocks(bs.drop_last(), id) + calls_in_insts(bs.last().instructions, id)
    }
}

/// The number of call sites of `id` in a sequence of functions.
pub open spec fn call_count(fs: Seq<FunctionView>, id: Seq<char>) -> nat
    decreases fs.len(),
{
    if fs.len() == 0 {
        0
    } else {
        call_count(fs.drop_last(), id) + calls_in_blocks(fs.last().blocks, id)
    }
}

/// Whether a function is a candidate small enough to be inlined however
/// often it is called: at most `always_inline_threshold` instructions.
pub open spec fn spec_is_small(cfg: InlineConfig, f: FunctionView) -> bool {
    spec_is_candidate(cfg, f) && inst_count(f.blocks) <= cfg.always_inline_threshold
}

/// Whether some function named `id` is such a small candidate.
pub open spec fn is_small_id(cfg: InlineConfig, fs: Seq<FunctionView>, id: Seq<char>) -> bool {
    exists|k: int| 0 <= k < fs.len() && #[trigger] fs[k].id == id && spec_is_small(cfg, fs[k])
}

/// The functions whose calls are inlined: candidates called at no more
/// than `max_call_sites` places, and small candidates however often they
/// are called.
pub open spec fn inline_targets(cfg: InlineConfig, fs: Seq<FunctionView>) -> Set<Seq<char>> {
    Set::new(
        |id: Seq<char>|
            is_candidate_id(cfg, fs, id) && (call_count(fs, id) <= cfg.max_call_sites || is_small_id(cfg, fs, id)),
    )
}

/// The calls in one block (number `bi`) to inline, in order: block,
/// instruction and callee of each call of a target other than the function
/// itself.
pub open spec fn calls_in_insts_to(
    targets: Set<Seq<char>>,
    self_id: Seq<char>,
    bi: int,
    s: Seq<InstView>,
) -> Seq<(int, int, Seq<char>)>
    decreases s.len(),
{
    if s.len() == 0 {
        Seq::empty()
    } else {
        let pre = calls_in_insts_to(targets, self_id, bi, s.drop_last());
        match s.last() {
            InstView::Call { func, .. } => if func != self_id && targets.contains(func) {
                pre.push((bi, s.len() - 1, func))
            } else {
                pre
            },
            _ => pre,
        }
    }
}

/// The calls to inline in a sequence of blocks, in order.
pub open spec fn calls_in_blocks_to(
    targets: Set<Seq<char>>,
    self_id: Seq<char>,
    bs: Seq<BlockView>,
) -> Seq<(int, int, Seq<char>)>
    decreases bs.len(),
{
    if bs.len() == 0 {
        Seq::empty()
    } else {
        calls_in_blocks_to(targets, self_id, bs.drop_last()) + calls_in_insts_to(
            targets,
            self_id,
            bs.len() - 1,
            bs.last().instructions,
        )
    }
}

/// The model of a list of calls to inline.
pub open spec fn calls_view(v: Seq<(usize, usize, FuncId)>) -> Seq<(int, int, Seq<char>)> {
    v.map_values(|c: (usize, usize, FuncId)| (c.0 as int, c.1 as int, c.2@))
}

/// The index of the first function named `id`.
pub open spec fn first_with_id(fs: Seq<FunctionView>, id: Seq<char>) -> Option<int>
    decreases fs.len(),
{
    if fs.len() == 0 {
        None
    } else {
        match first_with_id(fs.drop_last(), id) {
            Some(k) => Some(k),
            None => if fs.last().id == id {
                Some(fs.len() - 1)
            } else {
                None
            },
        }
    }
}

/// Settings of the inliner.
#[derive(Debug, Clone, Copy)]
pub struct InlineConfig {
    pub max_instructions: usize,
    pub max_blocks: usize,
    pub max_call_sites: usize,
    pub always_inline_threshold: usize,
}

impl Default for InlineConfig {
    fn default() -> (r: Self)
        ensures
            r.max_instructions == 50,
            r.max_blocks == 5,
            r.max_call_sites == 10,
            r.always_inline_threshold == 10,
    {
        InlineConfig { max_instructions: 50, max_blocks: 5, max_call_sites: 10, always_inline_threshold: 10 }
    }
}

/// Whether one of the names is `k`.
pub open spec fn ids_have(ids: Seq<FuncId>, k: Seq<char>) -> bool {
    exists|j: int| 0 <= j < ids.len() && #[trigger] ids[j]@ == k
}

/// Whether one of the first `i` functions is named `k` and may be inlined.
pub open spec fn candidate_upto(cfg: InlineConfig, fs: Seq<FunctionView>, i: int, k: Seq<char>) -> bool {
    exists|j: int| 0 <= j < i && #[trigger] fs[j].id == k && spec_is_candidate(cfg, fs[j])
}

/// Whether one of the first `i` functions is a small candidate named `k`.
pub open spec fn small_upto(cfg: InlineConfig, fs: Seq<FunctionView>, i: int, k: Seq<char>) -> bool {
    exists|j: int| 0 <= j < i && #[trigger] fs[j].id == k && spec_is_small(cfg, fs[j])
}

/// A set of function names.
pub struct FuncSet {
    ids: Vec<FuncId>,
    small: Vec<FuncId>,
}

impl FuncSet {
    /// Whether the set holds the name `k`.
    pub closed spec fn has(&self, k: Seq<char>) -> bool {
        ids_have(self.ids@, k)
    }

    /// Whether the set marks the name `k` as small enough to be inlined
    /// however often it is called.
    pub closed spec fn has_small(&self, k: Seq<char>) -> bool {
        ids_have(self.small@, k)
    }

    /// Whether the set marks `id` as small enough to be inlined however
    /// often it is called.
    pub fn is_small(&self, id: &FuncId) -> (r: bool)
        ensures
            r == self.has_small(id@),
    {
        let mut j: usize = 0;
        while j < self.small.len()
            invariant
                j <= self.small.len(),
                forall|i: int| 0 <= i < j ==> #[trigger] self.small@[i]@ != id@,
            decreases self.small.len() - j,
        {
            if self.small[j] == *id {
                assert(self.small@[j as int]@ == id@);
                return true;
            }
            j = j + 1;
        }
        false
    }

    pub fn contains(&self, id: &FuncId) -> (r: bool)
        ensures
            r == self.has(id@),
    {
        let mut j: usize = 0;
        while j < self.ids.len()
            invariant
                j <= self.ids.len(),
                forall|i: int| 0 <= i < j ==> #[trigger] self.ids@[i]@ != id@,
            decreases self.ids.len() - j,
        {
            if self.ids[j] == *id {
                assert(self.ids@[j as int]@ == id@);
                return true;
            }
            j = j + 1;
        }
        false
    }
}

/// The entries of a call count table have distinct names and positive
/// counts.
pub open spec fn entries_wf(e: Seq<(FuncId, usize)>) -> bool {
    &&& forall|i: int, j: int| 0 <= i < j < e.len() ==> #[trigger] e[i].0@ != #[trigger] e[j].0@
    &&& forall|i: int| 0 <= i < e.len() ==> #[trigger] e[i].1 > 0
}

/// The count that the entries give to the name `k`.
pub open spec fn entries_count(e: Seq<(FuncId, usize)>, k: Seq<char>) -> nat
    decreases e.len(),
{
    if e.len() == 0 {
        0
    } else {
        entries_count(e.drop_last(), k) + if e.last().0@ == k {
            e.last().1 as nat
        } else {
            0nat
        }
    }
}

/// How often each function is called, by name.
pub struct CallCounts {
    entries: Vec<(FuncId, usize)>,
}

impl CallCounts {
    #[verifier::type_invariant]
    spec fn inv(&self) -> bool {
        entries_wf(self.entries@)
    }

    /// The count of the name `k` (0 for a name never called).
    pub closed spec fn count_of(&self, k: Seq<char>) -> nat {
        entries_count(self.entries@, k)
    }

    /// The count of a function, where it is called at all.
    pub fn get(&self, id: &FuncId) -> (r: Option<&usize>)
        ensures
            match r {
                Some(c) => *c == self.count_of(id@) && *c > 0,
                None => self.count_of(id@) == 0,
            },
    {
        proof {
            use_type_invariant(self);
        }
        let mut j: usize = 0;
        while j < self.entries.len()
            invariant
                j <= self.entries.len(),
                entries_wf(self.entries@),
                forall|i: int| 0 <= i < j ==> #[trigger] self.entries@[i].0@ != id@,
            decreases self.entries.len() - j,
        {
            if self.entries[j].0 == *id {
                proof {
                    lemma_entries_count_at(self.entries@, j as int);
                }
                return Some(&self.entries[j].1);
            }
            j = j + 1;
        }
        proof {
            lemma_entries_count_absent(self.entries@, id@);
        }
        None
    }
}

proof fn lemma_entries_count_absent(e: Seq<(FuncId, usize)>, k: Seq<char>)
    requires
        forall|i: int| 0 <= i < e.len() ==> #[trigger] e[i].0@ != k,
    ensures
        entries_count(e, k) == 0,
    decreases e.len(),
{
    if e.len() > 0 {
        assert forall|i: int| 0 <= i < e.drop_last().len() implies #[trigger] e.drop_last()[i].0@ != k by {
            assert(e.drop_last()[i] == e[i]);
        }
        lemma_entries_count_absent(e.drop_last(), k);
    }
}

proof fn lemma_entries_count_at(e: Seq<(FuncId, usize)>, j: int)
    requires
        entries_wf(e),
        0 <= j < e.len(),
    ensures
        entries_count(e, e[j].0@) == e[j].1,
    decreases e.len(),
{
    let k = e[j].0@;
    let d = e.drop_last();
    if j == e.len() - 1 {
        assert forall|i: int| 0 <= i < d.len() implies #[trigger] d[i].0@ != k by {
            assert(d[i] == e[i]);
            assert(e[i].0@ != e[j].0@);
        }
        lemma_entries_count_absent(d, k);
    } else {
        assert(entries_wf(d)) by {
            assert forall|a: int, b: int| 0 <= a < b < d.len() implies #[trigger] d[a].0@ != #[trigger] d[b].0@ by {
                assert(d[a] == e[a] && d[b] == e[b]);
            }
            assert forall|a: int| 0 <= a < d.len() implies #[trigger] d[a].1 > 0 by {
                assert(d[a] == e[a]);
            }
        }
        assert(d[j] == e[j]);
        lemma_entries_count_at(d, j);
        assert(e.last().0@ != k) by {
            assert(e[j].0@ != e[e.len() - 1].0@);
        }
    }
}

proof fn lemma_entries_count_update(e: Seq<(FuncId, usize)>, j: int, v: usize, k: Seq<char>)
    requires
        0 <= j < e.len(),
    ensures
        entries_count(e.update(j, (e[j].0, v)), k) == if e[j].0@ == k {
            entries_count(e, k) - e[j].1 + v
        } else {
            entries_count(e, k) as int
        },
    decreases e.len(),
{
    let u = e.update(j, (e[j].0, v));
    if j == e.len() - 1 {
        assert(u.drop_last() =~= e.drop_last());
    } else {
        assert(u.drop_last() =~= e.drop_last().update(j, (e[j].0, v)));
        lemma_entries_count_update(e.drop_last(), j, v, k);
    }
}

proof fn lemma_inst_count_prefix(bs: Seq<BlockView>, k: int)
    requires
        0 <= k <= bs.len(),
    ensures
        inst_count(bs.take(k)) <= inst_count(bs),
    decreases bs.len(),
{
    if k < bs.len() {
        lemma_inst_count_prefix(bs.drop_last(), k);
        assert(bs.drop_last().take(k) =~= bs.take(k));
    } else {
        assert(bs.take(k) =~= bs);
    }
}

proof fn lemma_calls_insts_prefix(s: Seq<InstView>, k: int, id: Seq<char>)
    requires
        0 <= k <= s.len(),
    ensures
        calls_in_insts(s.take(k), id) <= calls_in_insts(s, id),
    decreases s.len(),
{
    if k < s.len() {
        lemma_calls_insts_prefix(s.drop_last(), k, id);
        assert(s.drop_last().take(k) =~= s.take(k));
    } else {
        assert(s.take(k) =~= s);
    }
}

proof fn lemma_calls_blocks_prefix(bs: Seq<BlockView>, k: int, id: Seq<char>)
    requires
        0 <= k <= bs.len(),
    ensures
        calls_in_blocks(bs.take(k), id) <= calls_in_blocks(bs, id),
    decreases bs.len(),
{
    if k < bs.len() {
        lemma_calls_blocks_prefix(bs.drop_last(), k, id);
        assert(bs.drop_last().take(k) =~= bs.take(k));
    } else {
        assert(bs.take(k) =~= bs);
    }
}

proof fn lemma_call_count_prefix(fs: Seq<FunctionView>, k: int, id: Seq<char>)
    requires
        0 <= k <= fs.len(),
    ensures
        call_count(fs.take(k), id) <= call_count(fs, id),
    decreases fs.len(),
{
    if k < fs.len() {
        lemma_call_count_prefix(fs.drop_last(), k, id);
        assert(fs.drop_last().take(k) =~= fs.take(k));
    } else {
        assert(fs.take(k) =~= fs);
    }
}

/// The index of the entry named `id`, if any.
fn find_entry(entries: &Vec<(FuncId, usize)>, id: &FuncId) -> (r: Option<usize>)
    ensures
        match r {
            Some(p) => p < entries@.len() && entries@[p as int].0@ == id@,
            None => forall|i: int| 0 <= i < entries@.len() ==> #[trigger] entries@[i].0@ != id@,
        },
{
    let mut p: usize = 0;
    while p < entries.len()
        invariant
            p <= entries.len(),
            forall|i: int| 0 <= i < p ==> #[trigger] entries@[i].0@ != id@,
        decreases entries.len() - p,
    {
        if entries[p].0 == *id {
            return Some(p);
        }
        p = p + 1;
    }
    None
}

/// Adds one call of `id` to the entries.
fn count_one_call(entries: &mut Vec<(FuncId, usize)>, id: &FuncId)
    requires
        entries_wf(old(entries)@),
        entries_count(old(entries)@, id@) + 1 <= usize::MAX,
    ensures
        entries_wf(final(entries)@),
        forall|k: Seq<char>| #[trigger] entries_count(final(entries)@, k) == entries_count(old(entries)@, k) + if k == id@ {
            1nat
        } else {
            0nat
        },
{
    let ghost e0 = entries@;
    match find_entry(entries, id) {
        Some(p) => {
            proof {
                lemma_entries_count_at(e0, p as int);
            }
            let c = entries[p].1;
            entries[p].1 = c + 1;
            proof {
                assert(entries@ =~= e0.update(p as int, (e0[p as int].0, (c + 1) as usize)));
                assert forall|k: Seq<char>| #[trigger] entries_count(entries@, k) == entries_count(e0, k) + if k == id@ {
                    1nat
                } else {
                    0nat
                } by {
                    lemma_entries_count_update(e0, p as int, (c + 1) as usize, k);
                }
                assert forall|i: int, j: int| 0 <= i < j < entries@.len() implies #[trigger] entries@[i].0@
                    != #[trigger] entries@[j].0@ by {
                    assert(e0[i].0@ != e0[j].0@);
                }
                assert forall|i: int| 0 <= i < entries@.len() implies #[trigger] entries@[i].1 > 0 by {
                    assert(e0[i].1 > 0);
                }
            }
        },
        None => {
            entries.push((copy_func_id(id), 1));
            proof {
                assert(entries@.drop_last() =~= e0);
                assert forall|i: int, j: int| 0 <= i < j < entries@.len() implies #[trigger] entries@[i].0@
                    != #[trigger] entries@[j].0@ by {
                    if j == entries@.len() - 1 {
                        assert(e0[i].0@ != id@);
                    } else {
                        assert(e0[i].0@ != e0[j].0@);
                    }
                }
                assert forall|i: int| 0 <= i < entries@.len() implies #[trigger] entries@[i].1 > 0 by {
                    if i < e0.len() {
                        assert(e0[i].1 > 0);
                    }
                }
            }
        },
    }
}

/// Counts the calls in a sequence of instructions.
fn count_calls_in_insts(entries: &mut Vec<(FuncId, usize)>, insts: &Vec<Instruction>)
    requires
        entries_wf(old(entries)@),
        forall|k: Seq<char>| entries_count(old(entries)@, k) + #[trigger] calls_in_insts(insts_view(insts@), k)
            <= usize::MAX,
    ensures
        entries_wf(final(entries)@),
        forall|k: Seq<char>| #[trigger] entries_count(final(entries)@, k) == entries_count(old(entries)@, k)
            + calls_in_insts(insts_view(insts@), k),
{
    let ghost s = insts_view(insts@);
    let ghost e0 = entries@;
    let mut j: usize = 0;
    proof {
        assert(s.take(0) =~= Seq::<InstView>::empty());
    }
    while j < insts.len()
        invariant
            j <= insts.len(),
            s == insts_view(insts@),
            entries_wf(entries@),
            forall|k: Seq<char>| entries_count(e0, k) + #[trigger] calls_in_insts(s, k) <= usize::MAX,
            forall|k: Seq<char>| #[trigger] entries_count(entries@, k) == entries_count(e0, k) + calls_in_insts(
                s.take(j as int),
                k,
            ),
        decreases insts.len() - j,
    {
        proof {
            assert(s.take(j + 1).drop_last() =~= s.take(j as int));
            assert(s.take(j + 1).last() == insts@[j as int]@);
        }
        let ghost e1 = entries@;
        if let Instruction::Call { func, .. } = &insts[j] {
            proof {
                lemma_calls_insts_prefix(s, j + 1, func@);
                assert(calls_in_insts(s.take(j + 1), func@) == calls_in_insts(s.take(j as int), func@) + 1);
            }
            count_one_call(entries, func);
            proof {
                assert forall|k: Seq<char>| #[trigger] entries_count(entries@, k) == entries_count(e0, k)
                    + calls_in_insts(s.take(j + 1), k) by {
                    assert(entries_count(entries@, k) == entries_count(e1, k) + if k == func@ {
                        1nat
                    } else {
                        0nat
                    });
                }
            }
        }
        j = j + 1;
    }
    proof {
        assert(s.take(insts.len() as int) =~= s);
    }
}

/// Counts the calls in a sequence of blocks.
fn count_calls_in_blocks(entries: &mut Vec<(FuncId, usize)>, blocks: &Vec<BasicBlock>)
    requires
        entries_wf(old(entries)@),
        forall|k: Seq<char>| entries_count(old(entries)@, k) + #[trigger] calls_in_blocks(blocks_view(blocks@), k)
            <= usize::MAX,
    ensures
        entries_wf(final(entries)@),
        forall|k: Seq<char>| #[trigger] entries_count(final(entries)@, k) == entries_count(old(entries)@, k)
            + calls_in_blocks(blocks_view(blocks@), k),
{
    let ghost bs = blocks_view(blocks@);
    let ghost e0 = entries@;
    let mut q: usize = 0;
    proof {
        assert(bs.take(0) =~= Seq::<BlockView>::empty());
    }
    while q < blocks.len()
        invariant
            q <= blocks.len(),
            bs == blocks_view(blocks@),
            entries_wf(entries@),
            forall|k: Seq<char>| entries_count(e0, k) + #[trigger] calls_in_blocks(bs, k) <= usize::MAX,
            forall|k: Seq<char>| #[trigger] entries_count(entries@, k) == entries_count(e0, k) + calls_in_blocks(
                bs.take(q as int),
                k,
            ),
        decreases blocks.len() - q,
    {
        proof {
            assert(bs.take(q + 1).drop_last() =~= bs.take(q as int));
            assert(bs.take(q + 1).last() == blocks@[q as int]@);
            assert forall|k: Seq<char>| entries_count(entries@, k) + #[trigger] calls_in_insts(
                insts_view(blocks@[q as int].instructions@),
                k,
            ) <= usize::MAX by {
                lemma_calls_blocks_prefix(bs, q + 1, k);
                assert(calls_in_blocks(bs, k) >= 0);
            }
        }
        let ghost e1 = entries@;
        count_calls_in_insts(entries, &blocks[q].instructions);
        proof {
            assert forall|k: Seq<char>| #[trigger] entries_count(entries@, k) == entries_count(e0, k)
                + calls_in_blocks(bs.take(q + 1), k) by {
                assert(entries_count(entries@, k) == entries_count(e1, k) + calls_in_insts(
                    insts_view(blocks@[q as int].instructions@),
                    k,
                ));
            }
        }
        q = q + 1;
    }
    proof {
        assert(bs.take(blocks.len() as int) =~= bs);
    }
}

proof fn lemma_first_with_id_prefix(fs: Seq<FunctionView>, k: int, id: Seq<char>)
    requires
        0 <= k <= fs.len(),
        first_with_id(fs.take(k), id) is Some,
    ensures
        first_with_id(fs, id) == first_with_id(fs.take(k), id),
    decreases fs.len(),
{
    if k < fs.len() {
        assert(fs.drop_last().take(k) =~= fs.take(k));
        lemma_first_with_id_prefix(fs.drop_last(), k, id);
    } else {
        assert(fs.take(k) =~= fs);
    }
}

proof fn lemma_first_with_id_found(fs: Seq<FunctionView>, id: Seq<char>)
    ensures
        first_with_id(fs, id) matches Some(k) ==> 0 <= k < fs.len() && fs[k].id == id,
        first_with_id(fs, id) is None ==> forall|j: int| 0 <= j < fs.len() ==> #[trigger] fs[j].id != id,
    decreases fs.len(),
{
    if fs.len() > 0 {
        lemma_first_with_id_found(fs.drop_last(), id);
        assert forall|j: int| 0 <= j < fs.len() - 1 implies #[trigger] fs[j] == fs.drop_last()[j] by {}
    }
}

proof fn lemma_first_with_id_same_ids(fs: Seq<FunctionView>, gs: Seq<FunctionView>, id: Seq<char>)
    requires
        fs.len() == gs.len(),
        forall|j: int| 0 <= j < fs.len() ==> #[trigger] fs[j].id == gs[j].id,
    ensures
        first_with_id(fs, id) == first_with_id(gs, id),
    decreases fs.len(),
{
    if fs.len() > 0 {
        assert forall|j: int| 0 <= j < fs.len() - 1 implies #[trigger] fs.drop_last()[j].id == gs.drop_last()[j].id by {
            assert(fs[j].id == gs[j].id);
        }
        lemma_first_with_id_same_ids(fs.drop_last(), gs.drop_last(), id);
        assert(fs.last().id == gs.last().id);
    }
}

/// The index of the first function named `id`.
fn find_function(functions: &Vec<Function>, id: &FuncId) -> (r: Option<usize>)
    ensures
        match r {
            Some(k) => first_with_id(functions_view(functions@), id@) == Some(k as int),
            None => first_with_id(functions_view(functions@), id@) is None,
        },
{
    let ghost fs = functions_view(functions@);
    let mut i: usize = 0;
    proof {
        assert(fs.take(0) =~= Seq::<FunctionView>::empty());
    }
    while i < functions.len()
        invariant
            i <= functions.len(),
            fs == functions_view(functions@),
            first_with_id(fs.take(i as int), id@) is None,
        decreases functions.len() - i,
    {
        proof {
            assert(fs.take(i + 1).drop_last() =~= fs.take(i as int));
            assert(fs.take(i + 1).last() == functions@[i as int]@);
        }
        if functions[i].id == *id {
            proof {
                lemma_first_with_id_prefix(fs, i + 1, id@);
            }
            return Some(i);
        }
        i = i + 1;
    }
    proof {
        assert(fs.take(functions.len() as int) =~= fs);
    }
    None
}

/// One inlining step: the call `c` inlined into `caller` where a function
/// of that name exists, with the number of calls inlined (0 or 1).
pub open spec fn inline_step(caller: FunctionView, c: (int, int, Seq<char>), fs: Seq<FunctionView>) -> (FunctionView, nat) {
    match first_with_id(fs, c.2) {
        Some(k) => (inline_call_spec(caller, c.0, c.1, fs[k]), 1nat),
        None => (caller, 0nat),
    }
}

/// The calls inlined into `caller` from the last to the first, each callee
/// the first function of `fs` with its name; with the number inlined.
pub open spec fn inline_all(caller: FunctionView, calls: Seq<(int, int, Seq<char>)>, fs: Seq<FunctionView>) -> (FunctionView, nat)
    decreases calls.len(),
{
    if calls.len() == 0 {
        (caller, 0)
    } else {
        let st = inline_step(caller, calls.last(), fs);
        let rest = inline_all(st.0, calls.drop_last(), fs);
        (rest.0, st.1 + rest.1)
    }
}

/// Every step of `inline_all` stays within `u32`.
pub open spec fn inline_all_ok(caller: FunctionView, calls: Seq<(int, int, Seq<char>)>, fs: Seq<FunctionView>) -> bool
    decreases calls.len(),
{
    calls.len() == 0 || {
        let c = calls.last();
        &&& match first_with_id(fs, c.2) {
            Some(k) => inline_call_ok(caller, c.0, c.1, fs[k]),
            None => true,
        }
        &&& inline_all_ok(inline_step(caller, c, fs).0, calls.drop_last(), fs)
    }
}

/// The functions after the inliner has processed the first `n` of them,
/// with the number of calls inlined.
pub open spec fn inline_module(cfg: InlineConfig, fs0: Seq<FunctionView>, n: nat) -> (Seq<FunctionView>, nat)
    decreases n,
{
    if n == 0 {
        (fs0, 0)
    } else {
        let prev = inline_module(cfg, fs0, (n - 1) as nat);
        let fs = prev.0;
        let idx = n - 1;
        if idx < fs.len() {
            let calls = calls_in_blocks_to(inline_targets(cfg, fs0), fs[idx].id, fs[idx].blocks);
            let r = inline_all(fs[idx], calls, fs);
            (fs.update(idx, r.0), prev.1 + r.1)
        } else {
            prev
        }
    }
}

/// Every inlining of the first `n` functions stays within `u32`.
pub open spec fn inline_module_ok(cfg: InlineConfig, fs0: Seq<FunctionView>, n: nat) -> bool
    decreases n,
{
    n == 0 || {
        let fs = inline_module(cfg, fs0, (n - 1) as nat).0;
        let idx = n - 1;
        &&& inline_module_ok(cfg, fs0, (n - 1) as nat)
        &&& idx < fs.len() ==> inline_all_ok(
            fs[idx],
            calls_in_blocks_to(inline_targets(cfg, fs0), fs[idx].id, fs[idx].blocks),
            fs,
        )
    }
}

proof fn lemma_inline_module_len(cfg: InlineConfig, fs0: Seq<FunctionView>, n: nat)
    ensures
        inline_module(cfg, fs0, n).0.len() == fs0.len(),
    decreases n,
{
    if n > 0 {
        lemma_inline_module_len(cfg, fs0, (n - 1) as nat);
    }
}

proof fn lemma_inline_module_count_mono(cfg: InlineConfig, fs0: Seq<FunctionView>, a: nat, b: nat)
    requires
        a <= b,
    ensures
        inline_module(cfg, fs0, a).1 <= inline_module(cfg, fs0, b).1,
    decreases b,
{
    if a < b {
        lemma_inline_module_count_mono(cfg, fs0, a, (b - 1) as nat);
    }
}

/// The callees that a candidate set and a call count table select: called
/// at no more than `max_call_sites` places, or small.
pub open spec fn chosen(cands: FuncSet, counts: CallCounts, max_call_sites: usize) -> Set<Seq<char>> {
    Set::new(|k: Seq<char>| cands.has(k) && (counts.count_of(k) <= max_call_sites || cands.has_small(k)))
}

proof fn lemma_calls_not_self_insts(t: Set<Seq<char>>, id: Seq<char>, bi: int, s: Seq<InstView>)
    ensures
        forall|j: int|
            0 <= j < calls_in_insts_to(t, id, bi, s).len() ==> #[trigger] calls_in_insts_to(t, id, bi, s)[j].2 != id,
    decreases s.len(),
{
    if s.len() > 0 {
        lemma_calls_not_self_insts(t, id, bi, s.drop_last());
        let pre = calls_in_insts_to(t, id, bi, s.drop_last());
        let all = calls_in_insts_to(t, id, bi, s);
        assert forall|j: int| 0 <= j < all.len() implies #[trigger] all[j].2 != id by {
            if j < pre.len() {
                assert(all[j] == pre[j]);
            }
        }
    }
}

/// The inliner never plans to inline a function into itself: no planned
/// call names the function that holds it.
pub proof fn law_calls_exclude_self(t: Set<Seq<char>>, id: Seq<char>, bs: Seq<BlockView>)
    ensures
        forall|j: int| 0 <= j < calls_in_blocks_to(t, id, bs).len() ==> #[trigger] calls_in_blocks_to(t, id, bs)[j].2 != id,
    decreases bs.len(),
{
    if bs.len() > 0 {
        law_calls_exclude_self(t, id, bs.drop_last());
        lemma_calls_not_self_insts(t, id, bs.len() - 1, bs.last().instructions);
        let a = calls_in_blocks_to(t, id, bs.drop_last());
        let b = calls_in_insts_to(t, id, bs.len() - 1, bs.last().instructions);
        assert forall|j: int| 0 <= j < (a + b).len() implies #[trigger] (a + b)[j].2 != id by {
            if j < a.len() {
                assert((a + b)[j] == a[j]);
            } else {
                assert((a + b)[j] == b[j - a.len()]);
            }
        }
    }
}

proof fn lemma_inline_module_ok_mono(cfg: InlineConfig, fs0: Seq<FunctionView>, a: nat, b: nat)
    requires
        a <= b,
        inline_module_ok(cfg, fs0, b),
    ensures
        inline_module_ok(cfg, fs0, a),
    decreases b,
{
    if a < b {
        lemma_inline_module_ok_mono(cfg, fs0, a, (b - 1) as nat);
    }
}

/// Statistics with `n` more functions inlined.
pub open spec fn add_inlined(s: OptStats, n: nat) -> OptStats {
    OptStats { functions_inlined: (s.functions_inlined + n) as usize, ..s }
}

/// The inlining pass.
pub struct FunctionInliner {
    stats: OptStats,
    config: InlineConfig,
}

impl View for FunctionInliner {
    type V = OptStats;

    closed spec fn view(&self) -> OptStats {
        self.stats
    }
}

impl FunctionInliner {
    /// The settings the pass runs with.
    pub closed spec fn cfg(&self) -> InlineConfig {
        self.config
    }

    pub fn new() -> (r: Self)
        ensures
            r@.is_zero(),
            r.cfg().max_instructions == 50,
            r.cfg().max_blocks == 5,
            r.cfg().max_call_sites == 10,
            r.cfg().always_inline_threshold == 10,
    {
        FunctionInliner { stats: OptStats::new(), config: InlineConfig::default() }
    }

    pub fn with_config(config: InlineConfig) -> (r: Self)
        ensures
            r@.is_zero(),
            r.cfg() == config,
    {
        FunctionInliner { stats: OptStats::new(), config }
    }

    pub fn stats(&self) -> (r: &OptStats)
        ensures
            *r == self@,
    {
        &self.stats
    }

    /// Whether the function calls itself directly.
    pub fn is_recursive(&self, func: &Function) -> (r: bool)
        ensures
            r == spec_is_recursive(func@),
    {
        let ghost f = func@;
        let mut b: usize = 0;
        while b < func.blocks.len()
            invariant
                b <= func.blocks.len(),
                f == func@,
                forall|x: int, j: int|
                    0 <= x < b && 0 <= j < f.blocks[x].instructions.len() ==> !calls_fn(
                        #[trigger] f.blocks[x].instructions[j],
                        f.id,
                    ),
            decreases func.blocks.len() - b,
        {
            let insts = &func.blocks[b].instructions;
            proof {
                assert(f.blocks[b as int] == func.blocks@[b as int]@);
            }
            let mut i: usize = 0;
            while i < insts.len()
                invariant
                    i <= insts.len(),
                    b < func.blocks.len(),
                    f == func@,
                    insts == func.blocks@[b as int].instructions,
                    forall|x: int, j: int|
                        0 <= x < b && 0 <= j < f.blocks[x].instructions.len() ==> !calls_fn(
                            #[trigger] f.blocks[x].instructions[j],
                            f.id,
                        ),
                    forall|j: int| 0 <= j < i ==> !calls_fn(#[trigger] f.blocks[b as int].instructions[j], f.id),
                decreases insts.len() - i,
            {
                proof {
                    assert(f.blocks[b as int].instructions[i as int] == insts@[i as int]@);
                }
                if let Instruction::Call { func: called, .. } = &insts[i] {
                    if *called == func.id {
                        proof {
                            assert(calls_fn(f.blocks[b as int].instructions[i as int], f.id));
                        }
                        return true;
                    }
                }
                i = i + 1;
            }
            b = b + 1;
        }
        false
    }

    /// Whether the function may be inlined.
    pub fn is_inline_candidate(&self, func: &Function) -> (r: bool)
        ensures
            r == spec_is_candidate(self.cfg(), func@),
    {
        if func.blocks.len() > self.config.max_blocks {
            return false;
        }
        let ghost bs = func@.blocks;
        let mut total: usize = 0;
        let mut k: usize = 0;
        proof {
            assert(bs.take(0) =~= Seq::<BlockView>::empty());
        }
        while k < func.blocks.len()
            invariant
                k <= func.blocks.len(),
                bs == func@.blocks,
                total == inst_count(bs.take(k as int)),
                total <= self.config.max_instructions,
            decreases func.blocks.len() - k,
        {
            proof {
                assert(bs.take(k + 1).drop_last() =~= bs.take(k as int));
                assert(bs.take(k + 1).last() == func.blocks@[k as int]@);
            }
            let len = func.blocks[k].instructions.len();
            if len > self.config.max_instructions - total {
                proof {
                    lemma_inst_count_prefix(bs, k + 1);
                }
                return false;
            }
            total = total + len;
            k = k + 1;
        }
        proof {
            assert(bs.take(func.blocks.len() as int) =~= bs);
        }
        if self.is_recursive(func) {
            return false;
        }
        true
    }

    /// Whether the function has at most `always_inline_threshold`
    /// instructions.
    fn within_always_threshold(&self, func: &Function) -> (r: bool)
        ensures
            r == (inst_count(func@.blocks) <= self.cfg().always_inline_threshold),
    {
        let ghost bs = func@.blocks;
        let mut total: usize = 0;
        let mut k: usize = 0;
        proof {
            assert(bs.take(0) =~= Seq::<BlockView>::empty());
        }
        while k < func.blocks.len()
            invariant
                k <= func.blocks.len(),
                bs == func@.blocks,
                total == inst_count(bs.take(k as int)),
                total <= self.config.always_inline_threshold,
            decreases func.blocks.len() - k,
        {
            proof {
                assert(bs.take(k + 1).drop_last() =~= bs.take(k as int));
                assert(bs.take(k + 1).last() == func.blocks@[k as int]@);
            }
            let len = func.blocks[k].instructions.len();
            if len > self.config.always_inline_threshold - total {
                proof {
                    lemma_inst_count_prefix(bs, k + 1);
                }
                return false;
            }
            total = total + len;
            k = k + 1;
        }
        proof {
            assert(bs.take(func.blocks.len() as int) =~= bs);
        }
        true
    }

    /// The names of the functions that may be inlined, with those small
    /// enough to be inlined however often they are called marked.
    pub fn find_inline_candidates(&self, module: &Module) -> (r: FuncSet)
        ensures
            forall|k: Seq<char>| #[trigger] r.has(k) == is_candidate_id(
                self.cfg(),
                functions_view(module.functions@),
                k,
            ),
            forall|k: Seq<char>| #[trigger] r.has_small(k) == is_small_id(
                self.cfg(),
                functions_view(module.functions@),
                k,
            ),
    {
        let ghost fs = functions_view(module.functions@);
        let mut ids: Vec<FuncId> = Vec::new();
        let mut small: Vec<FuncId> = Vec::new();
        let mut i: usize = 0;
        while i < module.functions.len()
            invariant
                i <= module.functions.len(),
                fs == functions_view(module.functions@),
                forall|k: Seq<char>| #[trigger] ids_have(ids@, k) == candidate_upto(self.cfg(), fs, i as int, k),
                forall|k: Seq<char>| #[trigger] ids_have(small@, k) == small_upto(self.cfg(), fs, i as int, k),
            decreases module.functions.len() - i,
        {
            let ghost ids0 = ids@;
            let ghost small0 = small@;
            let ok = self.is_inline_candidate(&module.functions[i]);
            proof {
                assert(fs[i as int] == module.functions@[i as int]@);
            }
            let mut is_small = false;
            if ok {
                ids.push(copy_func_id(&module.functions[i].id));
                if self.within_always_threshold(&module.functions[i]) {
                    small.push(copy_func_id(&module.functions[i].id));
                    is_small = true;
                }
            }
            proof {
                assert(is_small == spec_is_small(self.cfg(), fs[i as int]));
                assert forall|k: Seq<char>| #[trigger] ids_have(ids@, k) == candidate_upto(self.cfg(), fs, i + 1, k) by {
                    if ids_have(ids@, k) {
                        let j = choose|j: int| 0 <= j < ids@.len() && #[trigger] ids@[j]@ == k;
                        if j < ids0.len() {
                            assert(ids0[j]@ == k);
                            assert(ids_have(ids0, k));
                        } else {
                            assert(fs[i as int].id == k);
                        }
                    }
                    if candidate_upto(self.cfg(), fs, i + 1, k) {
                        let j = choose|j: int| 0 <= j < i + 1 && #[trigger] fs[j].id == k && spec_is_candidate(self.cfg(), fs[j]);
                        if j < i {
                            assert(candidate_upto(self.cfg(), fs, i as int, k));
                            assert(ids_have(ids0, k));
                            let x = choose|x: int| 0 <= x < ids0.len() && #[trigger] ids0[x]@ == k;
                            assert(ids@[x] == ids0[x]);
                        } else {
                            assert(ids@[ids@.len() - 1]@ == k);
                        }
                    }
                }
                assert forall|k: Seq<char>| #[trigger] ids_have(small@, k) == small_upto(self.cfg(), fs, i + 1, k) by {
                    if ids_have(small@, k) {
                        let j = choose|j: int| 0 <= j < small@.len() && #[trigger] small@[j]@ == k;
                        if j < small0.len() {
                            assert(small0[j]@ == k);
                            assert(ids_have(small0, k));
                        } else {
                            assert(fs[i as int].id == k);
                        }
                    }
                    if small_upto(self.cfg(), fs, i + 1, k) {
                        let j = choose|j: int| 0 <= j < i + 1 && #[trigger] fs[j].id == k && spec_is_small(self.cfg(), fs[j]);
                        if j < i {
                            assert(small_upto(self.cfg(), fs, i as int, k));
                            assert(ids_have(small0, k));
                            let x = choose|x: int| 0 <= x < small0.len() && #[trigger] small0[x]@ == k;
                            assert(small@[x] == small0[x]);
                        } else {
                            assert(small@[small@.len() - 1]@ == k);
                        }
                    }
                }
            }
            i = i + 1;
        }
        let r = FuncSet { ids, small };
        proof {
            assert forall|k: Seq<char>| #[trigger] r.has(k) == is_candidate_id(self.cfg(), fs, k) by {
                assert(r.has(k) == ids_have(ids@, k));
                assert(candidate_upto(self.cfg(), fs, fs.len() as int, k) == is_candidate_id(self.cfg(), fs, k));
            }
            assert forall|k: Seq<char>| #[trigger] r.has_small(k) == is_small_id(self.cfg(), fs, k) by {
                assert(r.has_small(k) == ids_have(small@, k));
                assert(small_upto(self.cfg(), fs, fs.len() as int, k) == is_small_id(self.cfg(), fs, k));
            }
        }
        r
    }

    /// The number of call sites of each function of the module.
    pub fn count_call_sites(&self, module: &Module) -> (r: CallCounts)
        requires
            forall|k: Seq<char>| #[trigger] call_count(functions_view(module.functions@), k) <= usize::MAX,
        ensures
            forall|k: Seq<char>| #[trigger] r.count_of(k) == call_count(functions_view(module.functions@), k),
    {
        let ghost fs = functions_view(module.functions@);
        let mut entries: Vec<(FuncId, usize)> = Vec::new();
        let mut i: usize = 0;
        proof {
            assert(fs.take(0) =~= Seq::<FunctionView>::empty());
        }
        while i < module.functions.len()
            invariant
                i <= module.functions.len(),
                fs == functions_view(module.functions@),
                forall|k: Seq<char>| #[trigger] call_count(fs, k) <= usize::MAX,
                entries_wf(entries@),
                forall|k: Seq<char>| #[trigger] entries_count(entries@, k) == call_count(fs.take(i as int), k),
            decreases module.functions.len() - i,
        {
            proof {
                assert(fs.take(i + 1).drop_last() =~= fs.take(i as int));
                assert(fs.take(i + 1).last() == module.functions@[i as int]@);
                assert forall|k: Seq<char>| entries_count(entries@, k) + #[trigger] calls_in_blocks(
                    blocks_view(module.functions@[i as int].blocks@),
                    k,
                ) <= usize::MAX by {
                    lemma_call_count_prefix(fs, i + 1, k);
                    assert(call_count(fs, k) <= usize::MAX);
                }
            }
            let ghost e1 = entries@;
            count_calls_in_blocks(&mut entries, &module.functions[i].blocks);
            proof {
                assert forall|k: Seq<char>| #[trigger] entries_count(entries@, k) == call_count(fs.take(i + 1), k) by {
                    assert(entries_count(entries@, k) == entries_count(e1, k) + calls_in_blocks(
                        blocks_view(module.functions@[i as int].blocks@),
                        k,
                    ));
                }
            }
            i = i + 1;
        }
        proof {
            assert(fs.take(module.functions.len() as int) =~= fs);
        }
        CallCounts { entries }
    }

    /// The calls of `func` to inline, in order: block, instruction and
    /// callee of each call of a selected function other than `func` itself.
    pub fn find_calls_to_inline(&self, func: &Function, candidates: &FuncSet, call_counts: &CallCounts) -> (r: Vec<
        (usize, usize, FuncId),
    >)
        ensures
            calls_view(r@) == calls_in_blocks_to(
                chosen(*candidates, *call_counts, self.cfg().max_call_sites),
                func@.id,
                func@.blocks,
            ),
    {
        let ghost t = chosen(*candidates, *call_counts, self.cfg().max_call_sites);
        let ghost f = func@;
        let ghost bs = func@.blocks;
        let mut out: Vec<(usize, usize, FuncId)> = Vec::new();
        let mut b: usize = 0;
        proof {
            assert(bs.take(0) =~= Seq::<BlockView>::empty());
            assert(calls_view(out@) =~= Seq::<(int, int, Seq<char>)>::empty());
        }
        while b < func.blocks.len()
            invariant
                b <= func.blocks.len(),
                f == func@,
                bs == f.blocks,
                t == chosen(*candidates, *call_counts, self.cfg().max_call_sites),
                calls_view(out@) == calls_in_blocks_to(t, f.id, bs.take(b as int)),
            decreases func.blocks.len() - b,
        {
            let insts = &func.blocks[b].instructions;
            let ghost s = insts_view(insts@);
            let ghost pre = calls_view(out@);
            proof {
                assert(bs[b as int] == func.blocks@[b as int]@);
                assert(s.take(0) =~= Seq::<InstView>::empty());
                assert(pre + calls_in_insts_to(t, f.id, b as int, s.take(0)) =~= pre);
            }
            let mut i: usize = 0;
            while i < insts.len()
                invariant
                    i <= insts.len(),
                    b < func.blocks.len(),
                    f == func@,
                    insts == func.blocks@[b as int].instructions,
                    s == insts_view(insts@),
                    t == chosen(*candidates, *call_counts, self.cfg().max_call_sites),
                    pre == calls_in_blocks_to(t, f.id, bs.take(b as int)),
                    calls_view(out@) == pre + calls_in_insts_to(t, f.id, b as int, s.take(i as int)),
                decreases insts.len() - i,
            {
                proof {
                    assert(s.take(i + 1).drop_last() =~= s.take(i as int));
                    assert(s.take(i + 1).last() == insts@[i as int]@);
                }
                let ghost out0 = calls_view(out@);
                if let Instruction::Call { func: callee, .. } = &insts[i] {
                    if !(*callee == func.id) && candidates.contains(callee) {
                        let count = match call_counts.get(callee) {
                            Some(c) => *c,
                            None => 0,
                        };
                        if count <= self.config.max_call_sites || candidates.is_small(callee) {
                            out.push((b, i, copy_func_id(callee)));
                            proof {
                                assert(calls_view(out@) =~= out0.push((b as int, i as int, callee@)));
                            }
                        }
                    }
                }
                proof {
                    assert(calls_view(out@) =~= pre + calls_in_insts_to(t, f.id, b as int, s.take(i + 1)));
                }
                i = i + 1;
            }
            proof {
                assert(s.take(insts.len() as int) =~= s);
                assert(bs.take(b + 1).drop_last() =~= bs.take(b as int));
                assert(bs.take(b + 1).last() == bs[b as int]);
            }
            b = b + 1;
        }
        proof {
            assert(bs.take(func.blocks.len() as int) =~= bs);
        }
        out
    }

    /// Inlines the selected calls of function `idx`, from the last call to
    /// the first.
    fn inline_calls_in_function(
        &mut self,
        module: &mut Module,
        idx: usize,
        candidates: &FuncSet,
        call_counts: &CallCounts,
    )
        requires
            idx < old(module).functions@.len(),
            ({
                let fs = functions_view(old(module).functions@);
                let cs = calls_in_blocks_to(
                    chosen(*candidates, *call_counts, old(self).cfg().max_call_sites),
                    fs[idx as int].id,
                    fs[idx as int].blocks,
                );
                &&& inline_all_ok(fs[idx as int], cs, fs)
                &&& old(self)@.functions_inlined + inline_all(fs[idx as int], cs, fs).1 <= usize::MAX
            }),
        ensures
            ({
                let fs = functions_view(old(module).functions@);
                let cs = calls_in_blocks_to(
                    chosen(*candidates, *call_counts, old(self).cfg().max_call_sites),
                    fs[idx as int].id,
                    fs[idx as int].blocks,
                );
                let r = inline_all(fs[idx as int], cs, fs);
                &&& functions_view(final(module).functions@) == fs.update(idx as int, r.0)
                &&& final(self)@ == add_inlined(old(self)@, r.1)
            }),
            final(self).cfg() == old(self).cfg(),
            final(module).name == old(module).name,
            final(module).strings == old(module).strings,
            final(module).classes == old(module).classes,
            final(module).globals == old(module).globals,
    {
        let ghost fs = functions_view(module.functions@);
        let ghost s0 = self@;
        let calls = self.find_calls_to_inline(&module.functions[idx], candidates, call_counts);
        let ghost cs = calls_view(calls@);
        let ghost r = inline_all(fs[idx as int], cs, fs);
        proof {
            assert(fs[idx as int] == module.functions@[idx as int]@);
            law_calls_exclude_self(
                chosen(*candidates, *call_counts, self.cfg().max_call_sites),
                fs[idx as int].id,
                fs[idx as int].blocks,
            );
        }
        if calls.len() == 0 {
            proof {
                assert(functions_view(module.functions@) =~= fs.update(idx as int, r.0));
                assert(self@ =~= add_inlined(s0, r.1));
            }
            return;
        }
        let mut caller = Function::new(copy_func_id(&module.functions[idx].id), String::new(), Vec::new(), IrType::Void);
        std::mem::swap(&mut caller, &mut module.functions[idx]);
        let mut k: usize = calls.len();
        proof {
            assert(cs.take(k as int) =~= cs);
        }
        while k > 0
            invariant
                k <= calls@.len(),
                cs == calls_view(calls@),
                forall|j: int| 0 <= j < cs.len() ==> #[trigger] cs[j].2 != fs[idx as int].id,
                idx < fs.len(),
                module.functions@.len() == fs.len(),
                module.functions@[idx as int].id@ == fs[idx as int].id,
                forall|j: int| 0 <= j < fs.len() && j != idx ==> #[trigger] module.functions@[j]@ == fs[j],
                inline_all(caller@, cs.take(k as int), fs).0 == r.0,
                self@.functions_inlined + inline_all(caller@, cs.take(k as int), fs).1 == s0.functions_inlined + r.1,
                s0.functions_inlined + r.1 <= usize::MAX,
                inline_all_ok(caller@, cs.take(k as int), fs),
                self@ == (OptStats { functions_inlined: self@.functions_inlined, ..s0 }),
                self.cfg() == old(self).cfg(),
                module.name == old(module).name,
                module.strings == old(module).strings,
                module.classes == old(module).classes,
                module.globals == old(module).globals,
            decreases k,
        {
            k = k - 1;
            let c = &calls[k];
            proof {
                assert(cs.take(k + 1).drop_last() =~= cs.take(k as int));
                assert(cs.take(k + 1).last() == cs[k as int]);
                assert(cs[k as int] == (c.0 as int, c.1 as int, c.2@));
                let gs = functions_view(module.functions@);
                assert forall|j: int| 0 <= j < fs.len() implies #[trigger] gs[j].id == fs[j].id by {
                    if j != idx {
                        assert(module.functions@[j]@ == fs[j]);
                    }
                }
                lemma_first_with_id_same_ids(gs, fs, c.2@);
                lemma_first_with_id_found(fs, c.2@);
            }
            match find_function(&module.functions, &c.2) {
                Some(j) => {
                    proof {
                        assert(fs[j as int].id == c.2@);
                        assert(j != idx);
                        assert(module.functions@[j as int]@ == fs[j as int]);
                    }
                    inline_call(&mut caller, c.0, c.1, &module.functions[j]);
                    self.stats.functions_inlined = self.stats.functions_inlined + 1;
                },
                None => {},
            }
        }
        std::mem::swap(&mut caller, &mut module.functions[idx]);
        proof {
            assert(cs.take(0) =~= Seq::<(int, int, Seq<char>)>::empty());
            assert(functions_view(module.functions@) =~= fs.update(idx as int, r.0));
        }
    }

    /// Inlines the selected calls in every function of the module, in order;
    /// candidates and call counts are those of the module before the pass.
    pub fn run(&mut self, module: &mut Module)
        requires
            inline_module_ok(
                old(self).cfg(),
                functions_view(old(module).functions@),
                functions_view(old(module).functions@).len(),
            ),
            forall|k: Seq<char>| #[trigger] call_count(functions_view(old(module).functions@), k) <= usize::MAX,
            old(self)@.functions_inlined + inline_module(
                old(self).cfg(),
                functions_view(old(module).functions@),
                functions_view(old(module).functions@).len(),
            ).1 <= usize::MAX,
        ensures
            ({
                let fs0 = functions_view(old(module).functions@);
                let r = inline_module(old(self).cfg(), fs0, fs0.len());
                &&& functions_view(final(module).functions@) == r.0
                &&& final(self)@ == add_inlined(old(self)@, r.1)
            }),
            final(self).cfg() == old(self).cfg(),
            final(module).name == old(module).name,
            final(module).strings == old(module).strings,
            final(module).classes == old(module).classes,
            final(module).globals == old(module).globals,
    {
        let ghost fs0 = functions_view(module.functions@);
        let ghost s0 = self@;
        let ghost cfg = self.cfg();
        let candidates = self.find_inline_candidates(module);
        let call_counts = self.count_call_sites(module);
        proof {
            assert(chosen(candidates, call_counts, cfg.max_call_sites) =~= inline_targets(cfg, fs0));
        }
        let n = module.functions.len();
        let mut idx: usize = 0;
        while idx < n
            invariant
                idx <= n,
                n == fs0.len(),
                cfg == self.cfg(),
                chosen(candidates, call_counts, cfg.max_call_sites) == inline_targets(cfg, fs0),
                inline_module_ok(cfg, fs0, fs0.len()),
                s0.functions_inlined + inline_module(cfg, fs0, fs0.len()).1 <= usize::MAX,
                functions_view(module.functions@) == inline_module(cfg, fs0, idx as nat).0,
                self@ == add_inlined(s0, inline_module(cfg, fs0, idx as nat).1),
                module.name == old(module).name,
                module.strings == old(module).strings,
                module.classes == old(module).classes,
                module.globals == old(module).globals,
            decreases n - idx,
        {
            proof {
                lemma_inline_module_len(cfg, fs0, idx as nat);
                lemma_inline_module_ok_mono(cfg, fs0, (idx + 1) as nat, fs0.len());
                lemma_inline_module_count_mono(cfg, fs0, (idx + 1) as nat, fs0.len());
            }
            self.inline_calls_in_function(module, idx, &candidates, &call_counts);
            idx = idx + 1;
        }
    }
}

impl Default for FunctionInliner {
    fn default() -> (r: Self)
        ensures
            r@.is_zero(),
            r.cfg().max_instructions == 50,
            r.cfg().max_blocks == 5,
            r.cfg().max_call_sites == 10,
            r.cfg().always_inline_threshold == 10,
    {
        Self::new()
    }
}

/// Inlining a call keeps the caller's name, parameters and return type;
/// it adds the callee's blocks and one block for the code after the call;
/// where there is no call at that place, it changes nothing.
pub proof fn law_inline_call_shape(caller: FunctionView, bi: int, ii: int, callee: FunctionView)
    ensures
        ({
            let r = inline_call_spec(caller, bi, ii, callee);
            &&& r.id == caller.id
            &&& r.name == caller.name
            &&& r.params == caller.params
            &&& r.return_type == caller.return_type
            &&& is_call_site(caller, bi, ii) ==> r.blocks.len() == caller.blocks.len() + callee.blocks.len() + 1
            &&& !is_call_site(caller, bi, ii) ==> r == caller
        }),
{
}

/// A candidate within the always-inline threshold is inlined however often
/// it is called.
pub proof fn law_small_functions_always_inlined(cfg: InlineConfig, fs: Seq<FunctionView>, id: Seq<char>)
    requires
        is_small_id(cfg, fs, id),
    ensures
        inline_targets(cfg, fs).contains(id),
{
    let k = choose|k: int| 0 <= k < fs.len() && #[trigger] fs[k].id == id && spec_is_small(cfg, fs[k]);
    assert(fs[k].id == id && spec_is_candidate(cfg, fs[k]));
}

/// Every function whose calls the inliner inlines is small enough and does
/// not call itself; it is called at few enough places, unless it is within
/// the always-inline threshold.
pub proof fn law_inline_targets_eligible(cfg: InlineConfig, fs: Seq<FunctionView>, id: Seq<char>)
    requires
        inline_targets(cfg, fs).contains(id),
    ensures
        call_count(fs, id) <= cfg.max_call_sites || is_small_id(cfg, fs, id),
        exists|k: int|
            0 <= k < fs.len() && #[trigger] fs[k].id == id && fs[k].blocks.len() <= cfg.max_blocks && inst_count(
                fs[k].blocks,
            ) <= cfg.max_instructions && !spec_is_recursive(fs[k]),
{
}

proof fn lemma_copy_insts_no_return(s: Seq<InstView>, m: Map<u32, VarId>, voff: u32, boff: u32, cont: BlockId)
    ensures
        forall|j: int| 0 <= j < copy_insts(s, m, voff, boff, cont).len() ==> !(#[trigger] copy_insts(
            s,
            m,
            voff,
            boff,
            cont,
        )[j] is Return),
    decreases s.len(),
{
    if s.len() > 0 {
        lemma_copy_insts_no_return(s.drop_last(), m, voff, boff, cont);
        let pre = copy_insts(s.drop_last(), m, voff, boff, cont);
        let all = copy_insts(s, m, voff, boff, cont);
        assert forall|j: int| 0 <= j < all.len() implies !(#[trigger] all[j] is Return) by {
            if j < pre.len() {
                assert(all[j] == pre[j]);
            }
        }
    }
}

/// Inlining turns every return of the callee into a jump: no copied block
/// holds a `ret`, so control leaves each of them for the block after the
/// call or another copied block.
pub proof fn law_inlined_blocks_return_nowhere(bs: Seq<BlockView>, m: Map<u32, VarId>, voff: u32, boff: u32, cont: BlockId, b: int, j: int)
    requires
        0 <= b < copy_blocks(bs, m, voff, boff, cont).len(),
        0 <= j < copy_blocks(bs, m, voff, boff, cont)[b].instructions.len(),
    ensures
        !(copy_blocks(bs, m, voff, boff, cont)[b].instructions[j] is Return),
{
    lemma_copy_insts_no_return(bs[b].instructions, m, voff, boff, cont);
}

/// The instruction that stands for `i` among the copied callee
/// instructions: a return becomes a jump to `cont`, any other instruction
/// is remapped.
pub open spec fn copy_one(i: InstView, m: Map<u32, VarId>, voff: u32, boff: u32, cont: BlockId) -> InstView {
    match i {
        InstView::Return { .. } => InstView::Jump { target: cont },
        _ => remap_spec(i, m, voff, boff),
    }
}

proof fn lemma_copy_insts_index(s: Seq<InstView>, m: Map<u32, VarId>, voff: u32, boff: u32, cont: BlockId)
    ensures
        copy_insts(s, m, voff, boff, cont).len() == s.len(),
        forall|j: int|
            0 <= j < s.len() ==> #[trigger] copy_insts(s, m, voff, boff, cont)[j] == copy_one(s[j], m, voff, boff, cont),
    decreases s.len(),
{
    if s.len() > 0 {
        lemma_copy_insts_index(s.drop_last(), m, voff, boff, cont);
        let pre = copy_insts(s.drop_last(), m, voff, boff, cont);
        let all = copy_insts(s, m, voff, boff, cont);
        assert forall|j: int| 0 <= j < s.len() implies #[trigger] all[j] == copy_one(s[j], m, voff, boff, cont) by {
            if j < s.len() - 1 {
                assert(all[j] == pre[j]);
                assert(s.drop_last()[j] == s[j]);
            }
        }
    }
}

proof fn lemma_copy_one_terminator(i: InstView, m: Map<u32, VarId>, voff: u32, boff: u32, cont: BlockId)
    ensures
        is_terminator(copy_one(i, m, voff, boff, cont)) == is_terminator(i),
{
}

/// A block's instructions end in a terminator and hold no other.
pub open spec fn block_terminated(s: Seq<InstView>) -> bool {
    &&& s.len() > 0
    &&& is_terminator(s.last())
    &&& forall|j: int| 0 <= j < s.len() - 1 ==> !is_terminator(#[trigger] s[j])
}

/// Every block ends in exactly one terminator, with nothing after it.
pub open spec fn blocks_terminated(bs: Seq<BlockView>) -> bool {
    forall|b: int| 0 <= b < bs.len() ==> #[trigger] block_terminated(bs[b].instructions)
}

proof fn lemma_copied_terminated(bs: Seq<BlockView>, m: Map<u32, VarId>, voff: u32, boff: u32, cont: BlockId)
    requires
        blocks_terminated(bs),
    ensures
        blocks_terminated(copy_blocks(bs, m, voff, boff, cont)),
{
    let c = copy_blocks(bs, m, voff, boff, cont);
    assert forall|b: int| 0 <= b < c.len() implies #[trigger] block_terminated(c[b].instructions) by {
        let s = bs[b].instructions;
        let t = c[b].instructions;
        assert(block_terminated(s));
        lemma_copy_insts_index(s, m, voff, boff, cont);
        assert(t == copy_insts(s, m, voff, boff, cont));
        lemma_copy_one_terminator(s.last(), m, voff, boff, cont);
        assert(t.last() == copy_one(s[s.len() - 1], m, voff, boff, cont));
        assert forall|j: int| 0 <= j < t.len() - 1 implies !is_terminator(#[trigger] t[j]) by {
            lemma_copy_one_terminator(s[j], m, voff, boff, cont);
        }
    }
}

/// Inlining keeps every block ending in exactly one terminator: where the
/// caller's and the callee's blocks each end in one, so do the caller's
/// blocks afterwards. The block of the call ends in a jump to the first
/// copied block, each copied return is a jump to the block after the call,
/// and that block ends in the terminator that followed the call.
#[verifier::rlimit(60)]
pub proof fn law_inline_keeps_blocks_terminated(caller: FunctionView, bi: int, ii: int, callee: FunctionView)
    requires
        is_call_site(caller, bi, ii),
        blocks_terminated(caller.blocks),
        blocks_terminated(callee.blocks),
        callee.blocks.len() > 0,
    ensures
        blocks_terminated(inline_call_spec(caller, bi, ii, callee).blocks),
{
    let b = caller.blocks[bi];
    let insts = b.instructions;
    let dest = insts[ii]->Call_dest;
    let args = insts[ii]->Call_args;
    let voff = (max_var_id(caller) + 1) as u32;
    let boff = (max_block_id(caller) + 1) as u32;
    let m = param_map(callee.params, args);
    let cont_id = BlockId((boff + callee.blocks.len()) as u32);
    let copied = copy_blocks(callee.blocks, m, voff, boff, cont_id);
    let ret = ret_var_blocks(callee.blocks, m, voff);
    let head = insts.take(ii).push(InstView::Jump { target: BlockId(boff) });
    let cont_head = if dest is Some && ret is Some {
        seq![InstView::Copy { dest: dest.unwrap(), src: ret.unwrap(), ty: callee.return_type }]
    } else {
        Seq::<InstView>::empty()
    };
    let blocks = caller.blocks.update(bi, BlockView { instructions: head, ..b });
    let blocks2 = blocks.take(bi + 1) + copied + blocks.skip(bi + 1);
    let tail = cont_head + insts.skip(ii + 1);
    let r = blocks2.push(plain_block(cont_id, tail));
    assert(r == inline_call_spec(caller, bi, ii, callee).blocks);
    assert(block_terminated(insts));
    assert(ii < insts.len() - 1) by {
        assert(!is_terminator(insts[ii]));
    }
    lemma_copied_terminated(callee.blocks, m, voff, boff, cont_id);
    assert(block_terminated(head)) by {
        assert forall|j: int| 0 <= j < head.len() - 1 implies !is_terminator(#[trigger] head[j]) by {
            assert(head[j] == insts[j]);
        }
    }
    assert(block_terminated(tail)) by {
        assert(tail.last() == insts.last());
        assert forall|j: int| 0 <= j < tail.len() - 1 implies !is_terminator(#[trigger] tail[j]) by {
            if j >= cont_head.len() {
                assert(tail[j] == insts[ii + 1 + j - cont_head.len()]);
            }
        }
    }
    assert(blocks_terminated(blocks)) by {
        assert forall|k: int| 0 <= k < blocks.len() implies #[trigger] block_terminated(blocks[k].instructions) by {
            if k != bi {
                assert(blocks[k] == caller.blocks[k]);
            }
        }
    }
    assert forall|k: int| 0 <= k < r.len() implies #[trigger] block_terminated(r[k].instructions) by {
        if k == r.len() - 1 {
            assert(r[k] == plain_block(cont_id, tail));
        } else if k <= bi {
            assert(r[k] == blocks[k]);
        } else if k < bi + 1 + copied.len() {
            assert(r[k] == copied[k - bi - 1]);
        } else {
            assert(r[k] == blocks[k - copied.len()]);
        }
    }
}


/// Copying an instruction into the caller maps each variable it reads in
/// its own place: the copy reads, in order, the mapped variables that the
/// original reads, and defines the mapped variable that it defines. A
/// binary or unary copy keeps its operator.
pub proof fn law_remap_keeps_operands_in_place(i: InstView, m: Map<u32, VarId>, voff: u32, boff: u32)
    ensures
        inst_uses(remap_spec(i, m, voff, boff)) == map_vars_spec(inst_uses(i), m, voff),
        defined_var(remap_spec(i, m, voff, boff)) == match defined_var(i) {
            Some(d) => Some(map_var_spec(d, m, voff)),
            None => None,
        },
        i is Binary ==> remap_spec(i, m, voff, boff) is Binary && remap_spec(i, m, voff, boff)->Binary_op
            == i->Binary_op,
        i is Unary ==> remap_spec(i, m, voff, boff) is Unary && remap_spec(i, m, voff, boff)->Unary_op
            == i->Unary_op,
{
    assert(inst_uses(remap_spec(i, m, voff, boff)) =~= map_vars_spec(inst_uses(i), m, voff));
}
} // verus!
