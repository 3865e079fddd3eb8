//! Printing instructions, blocks, functions and modules as IR text.
//!
//! Printed IR is a sequence of text pieces. A floating-point constant is
//! left as its own piece, holding the bits of the double, for the caller to
//! write in decimal with six digits after the point.
use vstd::prelude::*;

use crate::display::{
    block_text, class_text, func_text, incoming_text, inst_line, push_block, push_call_prefix, push_class,
    push_field, push_method, push_var, push_vars, type_text, var_text,
};
use crate::instruction::{BlockId, Constant, InstView, Instruction, IrType, VarId};
use crate::program::{
    functions_view, BasicBlock, BlockView, Class, Function, FunctionView, Module, ParamView,
};
use crate::text::{decimal, push_decimal, push_signed, push_str, signed_decimal};

verus! {

/// Appends the incoming edges of a phi, `[%v, bbN]` separated by `, `.
fn push_incoming(s: &mut String, inc: &Vec<(VarId, BlockId)>)
    ensures
        final(s)@ == old(s)@ + incoming_text(inc@),
{
    let ghost s0 = s@;
    let mut i: usize = 0;
    proof {
        assert(inc@.take(0) =~= Seq::<(VarId, BlockId)>::empty());
        assert(s@ =~= s0 + incoming_text(inc@.take(0)));
    }
    while i < inc.len()
        invariant
            i <= inc.len(),
            s@ == s0 + incoming_text(inc@.take(i as int)),
        decreases inc.len() - i,
    {
        if i > 0 {
            push_str(s, ", ");
        }
        let (v, b) = inc[i];
        push_str(s, "[");
        push_var(s, v);
        push_str(s, ", ");
        push_block(s, b);
        push_str(s, "]");
        proof {
            assert(inc@.take(i + 1).drop_last() =~= inc@.take(i as int));
            assert(inc@.take(i + 1).last() == inc@[i as int]);
            assert(s@ =~= s0 + incoming_text(inc@.take(i + 1)));
        }
        i = i + 1;
    }
    proof {
        assert(inc@.take(inc.len() as int) =~= inc@);
    }
}

/// Appends the text of the instruction; for a constant, the text before its
/// value.
#[verifier::rlimit(40)]
pub(crate) fn push_inst_line(s: &mut String, inst: &Instruction)
    ensures
        final(s)@ == old(s)@ + inst_line(inst@),
{
    let ghost s0 = s@;
    match inst {
        Instruction::Const { dest, ty, .. } => {
            push_var(s, *dest);
            push_str(s, ": ");
            ty.push_text(s);
            push_str(s, " = const ");
        },
        Instruction::Binary { dest, op, left, right, ty } => {
            push_var(s, *dest);
            push_str(s, ": ");
            ty.push_text(s);
            push_str(s, " = ");
            push_str(s, op.name());
            push_str(s, " ");
            push_var(s, *left);
            push_str(s, ", ");
            push_var(s, *right);
        },
        Instruction::Unary { dest, op, operand, ty } => {
            push_var(s, *dest);
            push_str(s, ": ");
            ty.push_text(s);
            push_str(s, " = ");
            push_str(s, op.name());
            push_str(s, " ");
            push_var(s, *operand);
        },
        Instruction::IntToFloat { dest, src } => {
            push_var(s, *dest);
            push_str(s, ": f64 = int_to_float ");
            push_var(s, *src);
        },
        Instruction::FloatToInt { dest, src } => {
            push_var(s, *dest);
            push_str(s, ": i64 = float_to_int ");
            push_var(s, *src);
        },
        Instruction::ToString { dest, src } => {
            push_var(s, *dest);
            push_str(s, ": str = to_string ");
            push_var(s, *src);
        },
        Instruction::Bitcast { dest, src, to_ty } => {
            push_var(s, *dest);
            push_str(s, ": ");
            to_ty.push_text(s);
            push_str(s, " = bitcast ");
            push_var(s, *src);
        },
        Instruction::Alloca { dest, ty } => {
            push_var(s, *dest);
            push_str(s, ": *");
            ty.push_text(s);
            push_str(s, " = alloca ");
            ty.push_text(s);
        },
        Instruction::Load { dest, ptr, ty } => {
            push_var(s, *dest);
            push_str(s, ": ");
            ty.push_text(s);
            push_str(s, " = load ");
            push_var(s, *ptr);
        },
        Instruction::Store { ptr, value } => {
            push_str(s, "store ");
            push_var(s, *value);
            push_str(s, ", ");
            push_var(s, *ptr);
        },
        Instruction::GlobalLoad { dest, name, ty } => {
            push_var(s, *dest);
            push_str(s, ": ");
            ty.push_text(s);
            push_str(s, " = global_load @");
            push_str(s, name.as_str());
        },
        Instruction::GlobalStore { name, value } => {
            push_str(s, "global_store @");
            push_str(s, name.as_str());
            push_str(s, ", ");
            push_var(s, *value);
        },
        Instruction::GetElementPtr { dest, ptr, index, elem_ty } => {
            push_var(s, *dest);
            push_str(s, ": *");
            elem_ty.push_text(s);
            push_str(s, " = gep ");
            push_var(s, *ptr);
            push_str(s, ", ");
            push_var(s, *index);
        },
        Instruction::Jump { target } => {
            push_str(s, "jump ");
            push_block(s, *target);
        },
        Instruction::Branch { cond, then_block, else_block } => {
            push_str(s, "branch ");
            push_var(s, *cond);
            push_str(s, ", ");
            push_block(s, *then_block);
            push_str(s, ", ");
            push_block(s, *else_block);
        },
        Instruction::Return { value } => {
            match value {
                Some(v) => {
                    push_str(s, "ret ");
                    push_var(s, *v);
                },
                None => push_str(s, "ret void"),
            }
        },
        _ => push_inst_line_rest(s, inst),
    }
    proof {
        assert(s@ =~= s0 + inst_line(inst@));
    }
}

/// `push_inst_line` for calls, objects, arrays, exceptions and the rest.
#[verifier::rlimit(40)]
fn push_inst_line_rest(s: &mut String, inst: &Instruction)
    requires
        !(inst is Const || inst is Binary || inst is Unary || inst is IntToFloat || inst is FloatToInt
            || inst is ToString || inst is Bitcast || inst is Alloca || inst is Load || inst is Store
            || inst is GlobalLoad || inst is GlobalStore || inst is GetElementPtr || inst is Jump
            || inst is Branch || inst is Return),
    ensures
        final(s)@ == old(s)@ + inst_line(inst@),
{
    let ghost s0 = s@;
    match inst {
        Instruction::Call { dest, func, args, ret_ty } => {
            push_call_prefix(s, dest, ret_ty);
            push_str(s, "call ");
            push_str(s, "@");
            push_str(s, func.0.as_str());
            push_str(s, "(");
            push_vars(s, args);
            push_str(s, ")");
            proof {
                assert(s@ =~= s0 + inst_line(inst@));
            }
        },
        Instruction::CallIndirect { dest, func_ptr, args, ret_ty } => {
            push_call_prefix(s, dest, ret_ty);
            push_str(s, "call_indirect ");
            push_var(s, *func_ptr);
            push_str(s, "(");
            push_vars(s, args);
            push_str(s, ")");
            proof {
                assert(s@ =~= s0 + inst_line(inst@));
            }
        },
        Instruction::NewObject { dest, class } => {
            push_var(s, *dest);
            push_str(s, ": ");
            push_class(s, class);
            push_str(s, " = new ");
            push_class(s, class);
            proof {
                assert(s@ =~= s0 + inst_line(inst@));
            }
        },
        Instruction::GetField { dest, object, field, ty } => {
            push_var(s, *dest);
            push_str(s, ": ");
            ty.push_text(s);
            push_str(s, " = getfield ");
            push_var(s, *object);
            push_str(s, ", ");
            push_field(s, field);
            proof {
                assert(s@ =~= s0 + inst_line(inst@));
            }
        },
        Instruction::SetField { object, field, value } => {
            push_str(s, "setfield ");
            push_var(s, *object);
            push_str(s, ", ");
            push_field(s, field);
            push_str(s, ", ");
            push_var(s, *value);
            proof {
                assert(s@ =~= s0 + inst_line(inst@));
            }
        },
        Instruction::CallMethod { dest, object, method, args, ret_ty } => {
            push_call_prefix(s, dest, ret_ty);
            push_str(s, "call_method ");
            push_var(s, *object);
            push_str(s, ", ");
            push_method(s, method);
            push_str(s, "(");
            push_vars(s, args);
            push_str(s, ")");
            proof {
                assert(s@ =~= s0 + inst_line(inst@));
            }
        },
        Instruction::CallVirtual { dest, object, method_index, args, ret_ty } => {
            push_call_prefix(s, dest, ret_ty);
            push_str(s, "call_virtual ");
            push_var(s, *object);
            push_str(s, ", #");
            push_decimal(s, *method_index as u64);
            push_str(s, "(");
            push_vars(s, args);
            push_str(s, ")");
            proof {
                assert(s@ =~= s0 + inst_line(inst@));
            }
        },
        Instruction::NewArray { dest, elem_ty, elements } => {
            push_var(s, *dest);
            push_str(s, ": [");
            elem_ty.push_text(s);
            push_str(s, "] = array [");
            push_vars(s, elements);
            push_str(s, "]");
            proof {
                assert(s@ =~= s0 + inst_line(inst@));
            }
        },
        _ => push_inst_line_tail(s, inst),
    }
}


/// `push_inst_line` for arrays, strings, exceptions, phis and the rest.
#[verifier::rlimit(40)]
fn push_inst_line_tail(s: &mut String, inst: &Instruction)
    requires
        !(inst is Const || inst is Binary || inst is Unary || inst is IntToFloat || inst is FloatToInt
            || inst is ToString || inst is Bitcast || inst is Alloca || inst is Load || inst is Store
            || inst is GlobalLoad || inst is GlobalStore || inst is GetElementPtr || inst is Jump
            || inst is Branch || inst is Return || inst is Call || inst is CallIndirect || inst is NewObject
            || inst is GetField || inst is SetField || inst is CallMethod || inst is CallVirtual
            || inst is NewArray),
    ensures
        final(s)@ == old(s)@ + inst_line(inst@),
{
    let ghost s0 = s@;
    match inst {
        Instruction::ArrayLen { dest, array } => {
            push_var(s, *dest);
            push_str(s, ": i64 = array_len ");
            push_var(s, *array);
            proof {
                assert(s@ =~= s0 + inst_line(inst@));
            }
        },
        Instruction::ArrayGet { dest, array, index, elem_ty } => {
            push_var(s, *dest);
            push_str(s, ": ");
            elem_ty.push_text(s);
            push_str(s, " = array_get ");
            push_var(s, *array);
            push_str(s, ", ");
            push_var(s, *index);
            proof {
                assert(s@ =~= s0 + inst_line(inst@));
            }
        },
        Instruction::ArraySet { array, index, value } => {
            push_str(s, "array_set ");
            push_var(s, *array);
            push_str(s, ", ");
            push_var(s, *index);
            push_str(s, ", ");
            push_var(s, *value);
            proof {
                assert(s@ =~= s0 + inst_line(inst@));
            }
        },
        Instruction::ArrayPush { array, value, elem_ty } => {
            push_str(s, "array_push ");
            push_var(s, *array);
            push_str(s, ", ");
            push_var(s, *value);
            push_str(s, ": ");
            elem_ty.push_text(s);
            proof {
                assert(s@ =~= s0 + inst_line(inst@));
            }
        },
        Instruction::StringConcat { dest, left, right } => {
            push_var(s, *dest);
            push_str(s, ": str = string_concat ");
            push_var(s, *left);
            push_str(s, ", ");
            push_var(s, *right);
            proof {
                assert(s@ =~= s0 + inst_line(inst@));
            }
        },
        Instruction::TryBegin { catch_block } => {
            push_str(s, "try_begin catch=");
            push_block(s, *catch_block);
            proof {
                assert(s@ =~= s0 + inst_line(inst@));
            }
        },
        Instruction::TryEnd => {
            push_str(s, "try_end");
            proof {
                assert(s@ =~= s0 + inst_line(inst@));
            }
        },
        Instruction::Throw { exception } => {
            push_str(s, "throw ");
            push_var(s, *exception);
            proof {
                assert(s@ =~= s0 + inst_line(inst@));
            }
        },
        Instruction::GetException { dest } => {
            push_var(s, *dest);
            push_str(s, ": exception = get_exception");
            proof {
                assert(s@ =~= s0 + inst_line(inst@));
            }
        },
        Instruction::Phi { dest, ty, incoming } => {
            push_var(s, *dest);
            push_str(s, ": ");
            ty.push_text(s);
            push_str(s, " = phi ");
            push_incoming(s, incoming);
            proof {
                assert(s@ =~= s0 + inst_line(inst@));
            }
        },
        Instruction::Print { value } => {
            push_str(s, "print ");
            push_var(s, *value);
            proof {
                assert(s@ =~= s0 + inst_line(inst@));
            }
        },
        Instruction::Copy { dest, src, ty } => {
            push_var(s, *dest);
            push_str(s, ": ");
            ty.push_text(s);
            push_str(s, " = copy ");
            push_var(s, *src);
            proof {
                assert(s@ =~= s0 + inst_line(inst@));
            }
        },
        Instruction::Nop => {
            push_str(s, "nop");
            proof {
                assert(s@ =~= s0 + inst_line(inst@));
            }
        },
        _ => {},
    }
}

/// A piece of printed IR: text, or a floating-point constant, by the bits of
/// its double, which the caller writes in decimal with six digits after the
/// point.
#[derive(Debug, Clone, PartialEq)]
pub enum TextPiece {
    Text(String),
    Float(u64),
}

/// A unit of printed IR: a character, by its code point, or the place of a
/// floating-point constant.
pub enum Mark {
    Glyph(u32),
    Float(u64),
}

/// The characters of `t` as marks.
pub open spec fn text_marks(t: Seq<char>) -> Seq<Mark>
    decreases t.len(),
{
    if t.len() == 0 {
        Seq::empty()
    } else {
        text_marks(t.drop_last()).push(Mark::Glyph(t.last() as u32))
    }
}

/// What a piece prints.
pub open spec fn piece_marks(p: TextPiece) -> Seq<Mark> {
    match p {
        TextPiece::Text(t) => text_marks(t@),
        TextPiece::Float(bits) => seq![Mark::Float(bits)],
    }
}

/// What a sequence of pieces prints.
pub open spec fn marks(ps: Seq<TextPiece>) -> Seq<Mark>
    decreases ps.len(),
{
    if ps.len() == 0 {
        Seq::empty()
    } else {
        marks(ps.drop_last()) + piece_marks(ps.last())
    }
}

/// No piece is empty text and no two text pieces are neighbours, so that
/// the pieces of a printed text are determined by it.
pub open spec fn canonical(ps: Seq<TextPiece>) -> bool {
    &&& forall|i: int| 0 <= i < ps.len() && (#[trigger] ps[i] is Text) ==> ps[i]->Text_0@.len() > 0
    &&& forall|i: int| 0 <= i < ps.len() - 1 && (#[trigger] ps[i] is Text) ==> ps[i + 1] is Float
}

proof fn lemma_chars_add(a: Seq<char>, b: Seq<char>)
    ensures
        text_marks(a + b) == text_marks(a) + text_marks(b),
    decreases b.len(),
{
    if b.len() == 0 {
        assert(a + b =~= a);
        assert(text_marks(a) + text_marks(b) =~= text_marks(a));
    } else {
        lemma_chars_add(a, b.drop_last());
        assert((a + b).drop_last() =~= a + b.drop_last());
        assert((a + b).last() == b.last());
        assert(text_marks(a + b) == text_marks(a + b.drop_last()).push(Mark::Glyph(b.last() as u32)));
        assert(text_marks(b) == text_marks(b.drop_last()).push(Mark::Glyph(b.last() as u32)));
        assert((text_marks(a) + text_marks(b.drop_last())).push(Mark::Glyph(b.last() as u32)) =~= text_marks(a)
            + text_marks(b.drop_last()).push(Mark::Glyph(b.last() as u32)));
    }
}

proof fn lemma_chars_empty()
    ensures
        text_marks(Seq::empty()) == Seq::<Mark>::empty(),
{
}

proof fn lemma_marks_push(ps: Seq<TextPiece>, p: TextPiece)
    ensures
        marks(ps.push(p)) == marks(ps) + piece_marks(p),
{
    assert(ps.push(p).drop_last() =~= ps);
}

proof fn lemma_canonical_push(ps: Seq<TextPiece>, p: TextPiece)
    requires
        canonical(ps),
        ps.len() > 0 && ps.last() is Text ==> p is Float,
        p is Text ==> p->Text_0@.len() > 0,
    ensures
        canonical(ps.push(p)),
{
    let q = ps.push(p);
    assert forall|i: int| 0 <= i < q.len() && (#[trigger] q[i] is Text) implies q[i]->Text_0@.len() > 0 by {
        if i < ps.len() {
            assert(q[i] == ps[i]);
        }
    }
    assert forall|i: int| 0 <= i < q.len() - 1 && (#[trigger] q[i] is Text) implies q[i + 1] is Float by {
        assert(q[i] == ps[i]);
        if i < ps.len() - 1 {
            assert(q[i + 1] == ps[i + 1]);
        }
    }
}

/// The text of a constant other than a floating-point one.
pub open spec fn const_text(c: Constant) -> Seq<char> {
    match c {
        Constant::Null => "null"@,
        Constant::Bool(b) => if b {
            "true"@
        } else {
            "false"@
        },
        Constant::Int(i) => signed_decimal(i as int),
        Constant::Float(_) => Seq::empty(),
        Constant::String(n) => "str#"@ + decimal(n as nat),
    }
}

/// What a constant prints: `null`, `true`, `false`, the integer, `str#N`,
/// or the place of the floating-point value.
pub open spec fn const_marks(c: Constant) -> Seq<Mark> {
    match c {
        Constant::Float(bits) => seq![Mark::Float(bits)],
        _ => text_marks(const_text(c)),
    }
}

/// What an instruction prints.
pub open spec fn inst_marks(i: InstView) -> Seq<Mark> {
    match i {
        InstView::Const { value, .. } => text_marks(inst_line(i)) + const_marks(value),
        _ => text_marks(inst_line(i)),
    }
}

/// The first line of a block: `bbN:  ; label` or `bbN:`.
pub open spec fn block_head(id: BlockId, label: Option<Seq<char>>) -> Seq<char> {
    match label {
        Some(l) => block_text(id) + ":  ; "@ + l + "\n"@,
        None => block_text(id) + ":\n"@,
    }
}

/// The instructions of a block, one to a line, indented by four spaces.
pub open spec fn body_marks(s: Seq<InstView>) -> Seq<Mark>
    decreases s.len(),
{
    if s.len() == 0 {
        Seq::empty()
    } else {
        body_marks(s.drop_last()) + text_marks("    "@) + inst_marks(s.last()) + text_marks("\n"@)
    }
}

/// What a block prints.
pub open spec fn block_marks(b: BlockView) -> Seq<Mark> {
    text_marks(block_head(b.id, b.label)) + body_marks(b.instructions)
}

/// What a sequence of blocks prints.
pub open spec fn blocks_marks(s: Seq<BlockView>) -> Seq<Mark>
    decreases s.len(),
{
    if s.len() == 0 {
        Seq::empty()
    } else {
        blocks_marks(s.drop_last()) + block_marks(s.last())
    }
}

/// Parameters as `%N: T`, separated by `, `.
pub open spec fn params_text(ps: Seq<ParamView>) -> Seq<char>
    decreases ps.len(),
{
    if ps.len() == 0 {
        Seq::empty()
    } else {
        params_text(ps.drop_last()) + (if ps.len() > 1 {
            ", "@
        } else {
            Seq::empty()
        }) + var_text(ps.last().id) + ": "@ + type_text(ps.last().ty)
    }
}

/// The first line of a function: `fn @id(params) -> T {`.
pub open spec fn function_head(f: FunctionView) -> Seq<char> {
    "fn "@ + func_text(f.id) + "("@ + params_text(f.params) + ") -> "@ + type_text(f.return_type) + " {\n"@
}

/// What a function prints: its first line, its blocks, and `}`.
pub open spec fn function_marks(f: FunctionView) -> Seq<Mark> {
    text_marks(function_head(f)) + blocks_marks(f.blocks) + text_marks("}\n"@)
}

/// Appends the first line of a function.
fn push_function_head(head: &mut String, f: &Function)
    ensures
        final(head)@ == old(head)@ + function_head(f@),
{
    let ghost ps = f@.params;
    push_str(head, "fn ");
    push_str(head, "@");
    push_str(head, f.id.0.as_str());
    push_str(head, "(");
    let ghost h0 = head@;
    let mut i: usize = 0;
    proof {
        assert(ps.take(0) =~= Seq::<ParamView>::empty());
        assert(head@ =~= h0 + params_text(ps.take(0)));
    }
    while i < f.params.len()
        invariant
            i <= f.params.len(),
            ps == f@.params,
            ps.len() == f.params@.len(),
            forall|k: int| 0 <= k < ps.len() ==> #[trigger] ps[k] == f.params@[k]@,
            head@ == h0 + params_text(ps.take(i as int)),
        decreases f.params.len() - i,
    {
        if i > 0 {
            push_str(head, ", ");
        }
        push_var(head, f.params[i].id);
        push_str(head, ": ");
        f.params[i].ty.push_text(head);
        proof {
            assert(ps.take(i + 1).drop_last() =~= ps.take(i as int));
            assert(ps.take(i + 1).last() == f.params@[i as int]@);
            assert(head@ =~= h0 + params_text(ps.take(i + 1)));
        }
        i = i + 1;
    }
    push_str(head, ") -> ");
    f.return_type.push_text(head);
    push_str(head, " {\n");
    proof {
        assert(ps.take(f.params.len() as int) =~= ps);
        assert(head@ =~= old(head)@ + function_head(f@));
    }
}

/// What `format!("{:?}", s)` writes for a string `s`.
pub uninterp spec fn debug_quoted(s: Seq<char>) -> Seq<char>;

/// The `Debug` form of a string (`<str as Debug>::fmt`, through
/// `format!("{:?}", ..)`): the string in double quotes, with quotes,
/// backslashes and characters that do not print escaped. The result is
/// named by `debug_quoted`; nothing more of it is stated.
#[verifier::external_body]
fn debug_string(t: &str) -> (r: String)
    ensures
        r@ == debug_quoted(t@),
{
    format!("{:?}", t)
}

/// The lines of the string table, `;   str#N = "text"`, with each
/// position taken as a `u32`.
pub open spec fn string_lines(t: Seq<Seq<char>>) -> Seq<char>
    decreases t.len(),
{
    if t.len() == 0 {
        Seq::empty()
    } else {
        string_lines(t.drop_last()) + ";   str#"@ + decimal(((t.len() - 1) as u32) as nat) + " = "@ + debug_quoted(t.last())
            + "\n"@
    }
}

/// The string table section of a module, empty where there are no strings.
pub open spec fn strings_section(t: Seq<Seq<char>>) -> Seq<char> {
    if t.len() == 0 {
        Seq::empty()
    } else {
        "; String table\n"@ + string_lines(t) + "\n"@
    }
}

/// The fields of a class, `    name: T` one to a line.
pub open spec fn fields_text(fs: Seq<(String, IrType)>) -> Seq<char>
    decreases fs.len(),
{
    if fs.len() == 0 {
        Seq::empty()
    } else {
        fields_text(fs.drop_last()) + "    "@ + fs.last().0@ + ": "@ + type_text(fs.last().1@) + "\n"@
    }
}

/// The section of a class: a comment with its name and its struct.
pub open spec fn class_section(c: Class) -> Seq<char> {
    "; Class: "@ + c.name@ + "\n"@ + "struct "@ + class_text(c.id@) + " {\n"@ + fields_text(c.fields@) + "}\n"@
        + "\n"@
}

/// The sections of the classes.
pub open spec fn classes_text(cs: Seq<Class>) -> Seq<char>
    decreases cs.len(),
{
    if cs.len() == 0 {
        Seq::empty()
    } else {
        classes_text(cs.drop_last()) + class_section(cs.last())
    }
}

/// The line of a global: `global @name: T`, with ` = value` where it has an
/// initial value.
pub open spec fn global_marks(g: (String, IrType, Option<Constant>)) -> Seq<Mark> {
    text_marks("global @"@ + g.0@ + ": "@ + type_text(g.1@)) + match g.2 {
        Some(c) => text_marks(" = "@) + const_marks(c),
        None => Seq::empty(),
    } + text_marks("\n"@)
}

/// The lines of the globals.
pub open spec fn globals_marks(gs: Seq<(String, IrType, Option<Constant>)>) -> Seq<Mark>
    decreases gs.len(),
{
    if gs.len() == 0 {
        Seq::empty()
    } else {
        globals_marks(gs.drop_last()) + global_marks(gs.last())
    }
}

/// The functions, each followed by an empty line.
pub open spec fn functions_marks(fs: Seq<FunctionView>) -> Seq<Mark>
    decreases fs.len(),
{
    if fs.len() == 0 {
        Seq::empty()
    } else {
        functions_marks(fs.drop_last()) + function_marks(fs.last()) + text_marks("\n"@)
    }
}

/// The text before the globals: the module's name, its string table and its
/// classes.
pub open spec fn module_head(m: Module) -> Seq<char> {
    "; Module: "@ + m.name@ + "\n"@ + "\n"@ + strings_section(m.strings@) + classes_text(m.classes@)
}

/// What a module prints: its name, string table, classes, globals (and an
/// empty line after them where there are any) and functions.
pub open spec fn module_marks(m: Module) -> Seq<Mark> {
    text_marks(module_head(m)) + globals_marks(m.globals@) + (if m.globals@.len() > 0 {
        text_marks("\n"@)
    } else {
        Seq::empty()
    }) + functions_marks(functions_view(m.functions@))
}

/// Appends the string table section.
fn push_strings_section(s: &mut String, m: &Module)
    ensures
        final(s)@ == old(s)@ + strings_section(m.strings@),
{
    let n = m.strings.len();
    if n == 0 {
        proof {
            assert(s@ =~= old(s)@ + strings_section(m.strings@));
        }
        return;
    }
    let ghost t = m.strings@;
    push_str(s, "; String table\n");
    let ghost s1 = s@;
    let mut i: usize = 0;
    proof {
        assert(t.take(0) =~= Seq::<Seq<char>>::empty());
        assert(s@ =~= s1 + string_lines(t.take(0)));
    }
    while i < n
        invariant
            i <= n,
            n == t.len(),
            t == m.strings@,
            s@ == s1 + string_lines(t.take(i as int)),
        decreases n - i,
    {
        let q = debug_string(m.strings.entry(i));
        push_str(s, ";   str#");
        push_decimal(s, (i as u32) as u64);
        push_str(s, " = ");
        push_str(s, q.as_str());
        push_str(s, "\n");
        proof {
            assert(t.take(i + 1).drop_last() =~= t.take(i as int));
            assert(t.take(i + 1).last() == t[i as int]);
            assert(s@ =~= s1 + string_lines(t.take(i + 1)));
        }
        i = i + 1;
    }
    push_str(s, "\n");
    proof {
        assert(t.take(n as int) =~= t);
        assert(s@ =~= old(s)@ + strings_section(m.strings@));
    }
}

/// Appends the section of a class.
fn push_class_section(s: &mut String, c: &Class)
    ensures
        final(s)@ == old(s)@ + class_section(*c),
{
    let ghost fs = c.fields@;
    push_str(s, "; Class: ");
    push_str(s, c.name.as_str());
    push_str(s, "\n");
    push_str(s, "struct ");
    push_class(s, &c.id);
    push_str(s, " {\n");
    let ghost s1 = s@;
    let mut i: usize = 0;
    proof {
        assert(fs.take(0) =~= Seq::<(String, IrType)>::empty());
        assert(s@ =~= s1 + fields_text(fs.take(0)));
    }
    while i < c.fields.len()
        invariant
            i <= c.fields.len(),
            fs == c.fields@,
            s@ == s1 + fields_text(fs.take(i as int)),
        decreases c.fields.len() - i,
    {
        push_str(s, "    ");
        push_str(s, c.fields[i].0.as_str());
        push_str(s, ": ");
        c.fields[i].1.push_text(s);
        push_str(s, "\n");
        proof {
            assert(fs.take(i + 1).drop_last() =~= fs.take(i as int));
            assert(fs.take(i + 1).last() == fs[i as int]);
            assert(s@ =~= s1 + fields_text(fs.take(i + 1)));
        }
        i = i + 1;
    }
    push_str(s, "}\n");
    push_str(s, "\n");
    proof {
        assert(fs.take(c.fields.len() as int) =~= fs);
        assert(s@ =~= old(s)@ + class_section(*c));
    }
}

/// Appends the text before the globals.
fn push_module_head(s: &mut String, m: &Module)
    ensures
        final(s)@ == old(s)@ + module_head(*m),
{
    push_str(s, "; Module: ");
    push_str(s, m.name.as_str());
    push_str(s, "\n");
    push_str(s, "\n");
    push_strings_section(s, m);
    let ghost cs = m.classes@;
    let ghost s1 = s@;
    let mut i: usize = 0;
    proof {
        assert(cs.take(0) =~= Seq::<Class>::empty());
        assert(s@ =~= s1 + classes_text(cs.take(0)));
    }
    while i < m.classes.len()
        invariant
            i <= m.classes.len(),
            cs == m.classes@,
            s@ == s1 + classes_text(cs.take(i as int)),
        decreases m.classes.len() - i,
    {
        push_class_section(s, &m.classes[i]);
        proof {
            assert(cs.take(i + 1).drop_last() =~= cs.take(i as int));
            assert(cs.take(i + 1).last() == cs[i as int]);
            assert(s@ =~= s1 + classes_text(cs.take(i + 1)));
        }
        i = i + 1;
    }
    proof {
        assert(cs.take(m.classes.len() as int) =~= cs);
        assert(s@ =~= old(s)@ + module_head(*m));
    }
}

/// Builds printed IR: the pieces so far, and the text after the last one.
struct Printer {
    done: Vec<TextPiece>,
    cur: String,
}

impl Printer {
    spec fn out(&self) -> Seq<Mark> {
        marks(self.done@) + text_marks(self.cur@)
    }

    spec fn inv(&self) -> bool {
        &&& canonical(self.done@)
        &&& self.done@.len() > 0 ==> self.done@.last() is Float
    }

    fn new() -> (p: Self)
        ensures
            p.out() == Seq::<Mark>::empty(),
            p.inv(),
    {
        let p = Printer { done: Vec::new(), cur: String::new() };
        proof {
            assert(p.done@ =~= Seq::<TextPiece>::empty());
            lemma_chars_empty();
            assert(p.out() =~= Seq::<Mark>::empty());
        }
        p
    }

    fn text(&mut self, t: &str)
        requires
            old(self).inv(),
        ensures
            final(self).inv(),
            final(self).out() == old(self).out() + text_marks(t@),
    {
        push_str(&mut self.cur, t);
        proof {
            lemma_chars_add(old(self).cur@, t@);
            assert(self.out() =~= old(self).out() + text_marks(t@));
        }
    }

    fn float(&mut self, bits: u64)
        requires
            old(self).inv(),
        ensures
            final(self).inv(),
            final(self).out() == old(self).out() + seq![Mark::Float(bits)],
    {
        let ghost d0 = self.done@;
        let ghost c0 = self.cur@;
        if !self.cur.as_str().is_empty() {
            let t = self.cur.clone();
            proof {
                lemma_marks_push(d0, TextPiece::Text(t));
                lemma_canonical_push(d0, TextPiece::Text(t));
            }
            self.done.push(TextPiece::Text(t));
            self.cur = String::new();
        } else {
            proof {
                assert(c0 =~= Seq::<char>::empty());
                lemma_chars_empty();
            }
        }
        let ghost d1 = self.done@;
        proof {
            lemma_marks_push(d1, TextPiece::Float(bits));
            lemma_canonical_push(d1, TextPiece::Float(bits));
            lemma_chars_empty();
            assert(marks(d1) == marks(d0) + text_marks(c0));
        }
        self.done.push(TextPiece::Float(bits));
        proof {
            assert(self.cur@ =~= Seq::<char>::empty());
            assert(self.out() =~= old(self).out() + seq![Mark::Float(bits)]);
        }
    }

    fn finish(self) -> (r: Vec<TextPiece>)
        requires
            self.inv(),
        ensures
            marks(r@) == self.out(),
            canonical(r@),
    {
        let ghost d0 = self.done@;
        let ghost c0 = self.cur@;
        let mut done = self.done;
        if !self.cur.as_str().is_empty() {
            proof {
                lemma_marks_push(d0, TextPiece::Text(self.cur));
                lemma_canonical_push(d0, TextPiece::Text(self.cur));
            }
            done.push(TextPiece::Text(self.cur));
        } else {
            proof {
                assert(c0 =~= Seq::<char>::empty());
                lemma_chars_empty();
                assert(marks(d0) + text_marks(c0) =~= marks(d0));
            }
        }
        done
    }

    /// Prints a constant.
    fn constant(&mut self, c: &Constant)
        requires
            old(self).inv(),
        ensures
            final(self).inv(),
            final(self).out() == old(self).out() + const_marks(*c),
    {
        match c {
            Constant::Float(bits) => self.float(*bits),
            Constant::Null => self.text("null"),
            Constant::Bool(b) => {
                if *b {
                    self.text("true");
                } else {
                    self.text("false");
                }
            },
            Constant::Int(i) => {
                let mut t = String::new();
                push_signed(&mut t, *i);
                proof {
                    assert(t@ =~= signed_decimal(*i as int));
                }
                self.text(t.as_str());
            },
            Constant::String(n) => {
                let mut t = String::new();
                push_str(&mut t, "str#");
                push_decimal(&mut t, *n as u64);
                proof {
                    assert(t@ =~= "str#"@ + decimal(*n as nat));
                }
                self.text(t.as_str());
            },
        }
    }

    /// Prints an instruction.
    fn inst(&mut self, inst: &Instruction)
        requires
            old(self).inv(),
        ensures
            final(self).inv(),
            final(self).out() == old(self).out() + inst_marks(inst@),
    {
        let mut line = String::new();
        push_inst_line(&mut line, inst);
        proof {
            assert(line@ =~= inst_line(inst@));
        }
        self.text(line.as_str());
        match inst {
            Instruction::Const { value, .. } => {
                self.constant(value);
                proof {
                    assert(self.out() =~= old(self).out() + inst_marks(inst@));
                }
            },
            _ => {},
        }
    }

    /// Prints a block.
    fn block(&mut self, b: &BasicBlock)
        requires
            old(self).inv(),
        ensures
            final(self).inv(),
            final(self).out() == old(self).out() + block_marks(b@),
    {
        let ghost o0 = self.out();
        let mut head = String::new();
        push_block(&mut head, b.id);
        match &b.label {
            Some(l) => {
                push_str(&mut head, ":  ; ");
                push_str(&mut head, l.as_str());
                push_str(&mut head, "\n");
            },
            None => {
                push_str(&mut head, ":\n");
            },
        }
        proof {
            assert(head@ =~= block_head(b.id, b@.label));
        }
        self.text(head.as_str());
        let ghost insts = b@.instructions;
        let mut i: usize = 0;
        proof {
            assert(insts.take(0) =~= Seq::<InstView>::empty());
            assert(self.out() =~= o0 + text_marks(block_head(b.id, b@.label)) + body_marks(insts.take(0)));
        }
        while i < b.instructions.len()
            invariant
                i <= b.instructions.len(),
                self.inv(),
                insts == b@.instructions,
                insts.len() == b.instructions@.len(),
                forall|k: int| 0 <= k < insts.len() ==> #[trigger] insts[k] == b.instructions@[k]@,
                self.out() == o0 + text_marks(block_head(b.id, b@.label)) + body_marks(insts.take(i as int)),
            decreases b.instructions.len() - i,
        {
            self.text("    ");
            self.inst(&b.instructions[i]);
            self.text("\n");
            proof {
                assert(insts.take(i + 1).drop_last() =~= insts.take(i as int));
                assert(insts.take(i + 1).last() == b.instructions@[i as int]@);
                assert(self.out() =~= o0 + text_marks(block_head(b.id, b@.label)) + body_marks(insts.take(i + 1)));
            }
            i = i + 1;
        }
        proof {
            assert(insts.take(b.instructions.len() as int) =~= insts);
            assert(self.out() =~= o0 + block_marks(b@));
        }
    }

    /// Prints a function.
    fn function(&mut self, f: &Function)
        requires
            old(self).inv(),
        ensures
            final(self).inv(),
            final(self).out() == old(self).out() + function_marks(f@),
    {
        let ghost o0 = self.out();
        let mut head = String::new();
        push_function_head(&mut head, f);
        proof {
            assert(head@ =~= function_head(f@));
        }
        self.text(head.as_str());
        let ghost bs = f@.blocks;
        let mut j: usize = 0;
        proof {
            assert(bs.take(0) =~= Seq::<BlockView>::empty());
            assert(self.out() =~= o0 + text_marks(function_head(f@)) + blocks_marks(bs.take(0)));
        }
        while j < f.blocks.len()
            invariant
                j <= f.blocks.len(),
                self.inv(),
                bs == f@.blocks,
                bs.len() == f.blocks@.len(),
                forall|k: int| 0 <= k < bs.len() ==> #[trigger] bs[k] == f.blocks@[k]@,
                self.out() == o0 + text_marks(function_head(f@)) + blocks_marks(bs.take(j as int)),
            decreases f.blocks.len() - j,
        {
            self.block(&f.blocks[j]);
            proof {
                assert(bs.take(j + 1).drop_last() =~= bs.take(j as int));
                assert(bs.take(j + 1).last() == f.blocks@[j as int]@);
                assert(self.out() =~= o0 + text_marks(function_head(f@)) + blocks_marks(bs.take(j + 1)));
            }
            j = j + 1;
        }
        self.text("}\n");
        proof {
            assert(bs.take(f.blocks.len() as int) =~= bs);
            assert(self.out() =~= o0 + function_marks(f@));
        }
    }

    /// Prints the line of a global.
    fn global(&mut self, g: &(String, IrType, Option<Constant>))
        requires
            old(self).inv(),
        ensures
            final(self).inv(),
            final(self).out() == old(self).out() + global_marks(*g),
    {
        let mut head = String::new();
        push_str(&mut head, "global @");
        push_str(&mut head, g.0.as_str());
        push_str(&mut head, ": ");
        g.1.push_text(&mut head);
        proof {
            assert(head@ =~= "global @"@ + g.0@ + ": "@ + type_text(g.1@));
        }
        self.text(head.as_str());
        match &g.2 {
            Some(c) => {
                self.text(" = ");
                self.constant(c);
            },
            None => {},
        }
        self.text("\n");
        proof {
            assert(self.out() =~= old(self).out() + global_marks(*g));
        }
    }

    /// Prints a module.
    fn module(&mut self, m: &Module)
        requires
            old(self).inv(),
        ensures
            final(self).inv(),
            final(self).out() == old(self).out() + module_marks(*m),
    {
        let ghost o0 = self.out();
        let mut head = String::new();
        push_module_head(&mut head, m);
        proof {
            assert(head@ =~= module_head(*m));
        }
        self.text(head.as_str());
        let ghost gs = m.globals@;
        let mut i: usize = 0;
        proof {
            assert(gs.take(0) =~= Seq::<(String, IrType, Option<Constant>)>::empty());
            assert(self.out() =~= o0 + text_marks(module_head(*m)) + globals_marks(gs.take(0)));
        }
        while i < m.globals.len()
            invariant
                i <= m.globals.len(),
                self.inv(),
                gs == m.globals@,
                self.out() == o0 + text_marks(module_head(*m)) + globals_marks(gs.take(i as int)),
            decreases m.globals.len() - i,
        {
            self.global(&m.globals[i]);
            proof {
                assert(gs.take(i + 1).drop_last() =~= gs.take(i as int));
                assert(gs.take(i + 1).last() == gs[i as int]);
                assert(self.out() =~= o0 + text_marks(module_head(*m)) + globals_marks(gs.take(i + 1)));
            }
            i = i + 1;
        }
        proof {
            assert(gs.take(m.globals.len() as int) =~= gs);
        }
        if m.globals.len() > 0 {
            self.text("\n");
        } else {
            proof {
                assert(self.out() =~= self.out() + Seq::<Mark>::empty());
            }
        }
        let ghost o1 = self.out();
        let ghost fs = functions_view(m.functions@);
        let mut j: usize = 0;
        proof {
            assert(fs.take(0) =~= Seq::<FunctionView>::empty());
            assert(self.out() =~= o1 + functions_marks(fs.take(0)));
        }
        while j < m.functions.len()
            invariant
                j <= m.functions.len(),
                self.inv(),
                fs == functions_view(m.functions@),
                fs.len() == m.functions@.len(),
                forall|k: int| 0 <= k < fs.len() ==> #[trigger] fs[k] == m.functions@[k]@,
                self.out() == o1 + functions_marks(fs.take(j as int)),
            decreases m.functions.len() - j,
        {
            self.function(&m.functions[j]);
            self.text("\n");
            proof {
                assert(fs.take(j + 1).drop_last() =~= fs.take(j as int));
                assert(fs.take(j + 1).last() == m.functions@[j as int]@);
                assert(self.out() =~= o1 + functions_marks(fs.take(j + 1)));
            }
            j = j + 1;
        }
        proof {
            assert(fs.take(m.functions.len() as int) =~= fs);
            assert(self.out() =~= o0 + module_marks(*m));
        }
    }
}

impl Constant {
    /// The printed constant.
    pub fn render(&self) -> (r: Vec<TextPiece>)
        ensures
            marks(r@) == const_marks(*self),
            canonical(r@),
    {
        let mut p = Printer::new();
        p.constant(self);
        proof {
            assert(p.out() =~= const_marks(*self));
        }
        p.finish()
    }
}

impl Instruction {
    /// The printed instruction.
    pub fn render(&self) -> (r: Vec<TextPiece>)
        ensures
            marks(r@) == inst_marks(self@),
            canonical(r@),
    {
        let mut p = Printer::new();
        p.inst(self);
        proof {
            assert(p.out() =~= inst_marks(self@));
        }
        p.finish()
    }
}

impl BasicBlock {
    /// The printed block: its first line, then each instruction on a line
    /// of its own.
    pub fn render(&self) -> (r: Vec<TextPiece>)
        ensures
            marks(r@) == block_marks(self@),
            canonical(r@),
    {
        let mut p = Printer::new();
        p.block(self);
        proof {
            assert(p.out() =~= block_marks(self@));
        }
        p.finish()
    }
}

impl Function {
    /// The printed function.
    pub fn render(&self) -> (r: Vec<TextPiece>)
        ensures
            marks(r@) == function_marks(self@),
            canonical(r@),
    {
        let mut p = Printer::new();
        p.function(self);
        proof {
            assert(p.out() =~= function_marks(self@));
        }
        p.finish()
    }
}

impl Module {
    /// The printed module.
    pub fn render(&self) -> (r: Vec<TextPiece>)
        ensures
            marks(r@) == module_marks(*self),
            canonical(r@),
    {
        let mut p = Printer::new();
        p.module(self);
        proof {
            assert(p.out() =~= module_marks(*self));
        }
        p.finish()
    }
}

} // verus!
