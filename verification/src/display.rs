//! Text forms of identifiers, types and operators, as they appear in
//! printed IR.
use vstd::prelude::*;

use crate::instruction::{
    types_view, BinaryOp, BlockId, ClassId, Constant, FieldId, FieldView, FuncId, InstView, Instruction, IrType,
    MethodId, MethodView, TypeView, UnaryOp, VarId,
};
use crate::text::{decimal, push_decimal, push_signed, push_str, signed_decimal};

verus! {

/// `%N` for variable `N`.
pub open spec fn var_text(v: VarId) -> Seq<char> {
    "%"@ + decimal(v.0 as nat)
}

/// `bbN` for block `N`.
pub open spec fn block_text(b: BlockId) -> Seq<char> {
    "bb"@ + decimal(b.0 as nat)
}

/// `@name` for a function.
pub open spec fn func_text(name: Seq<char>) -> Seq<char> {
    "@"@ + name
}

/// `%class.name` for a class.
pub open spec fn class_text(name: Seq<char>) -> Seq<char> {
    "%class."@ + name
}

/// The name of a binary operator.
pub open spec fn binary_op_text(op: BinaryOp) -> Seq<char> {
    match op {
        BinaryOp::Add => "add"@,
        BinaryOp::Sub => "sub"@,
        BinaryOp::Mul => "mul"@,
        BinaryOp::Div => "div"@,
        BinaryOp::Mod => "mod"@,
        BinaryOp::Pow => "pow"@,
        BinaryOp::Eq => "eq"@,
        BinaryOp::Ne => "ne"@,
        BinaryOp::Lt => "lt"@,
        BinaryOp::Le => "le"@,
        BinaryOp::Gt => "gt"@,
        BinaryOp::Ge => "ge"@,
        BinaryOp::And => "and"@,
        BinaryOp::Or => "or"@,
        BinaryOp::BitAnd => "bitand"@,
        BinaryOp::BitOr => "bitor"@,
        BinaryOp::BitXor => "bitxor"@,
        BinaryOp::Shl => "shl"@,
        BinaryOp::Shr => "shr"@,
    }
}

/// The name of a unary operator.
pub open spec fn unary_op_text(op: UnaryOp) -> Seq<char> {
    match op {
        UnaryOp::Neg => "neg"@,
        UnaryOp::Not => "not"@,
        UnaryOp::BitNot => "bitnot"@,
    }
}

/// The text of a type: `void`, `bool`, `i64`, `f64`, `str`, `*T`,
/// `[N x T]`, `fn(A, B) -> R`, or the class of a struct.
pub open spec fn type_text(t: TypeView) -> Seq<char>
    decreases t,
{
    match t {
        TypeView::Void => "void"@,
        TypeView::Bool => "bool"@,
        TypeView::Int => "i64"@,
        TypeView::Float => "f64"@,
        TypeView::Str => "str"@,
        TypeView::Ptr(inner) => "*"@ + type_text(*inner),
        TypeView::Array(elem, n) => "["@ + decimal(n as nat) + " x "@ + type_text(*elem) + "]"@,
        TypeView::Function(params, ret) => "fn("@ + types_text(params) + ") -> "@ + type_text(*ret),
        TypeView::Struct(c) => class_text(c),
    }
}

/// The texts of types, separated by `, `.
pub open spec fn types_text(ps: Seq<TypeView>) -> Seq<char>
    decreases ps,
{
    if ps.len() == 0 {
        Seq::empty()
    } else {
        types_text(ps.drop_last()) + (if ps.len() > 1 {
            ", "@
        } else {
            Seq::empty()
        }) + type_text(ps.last())
    }
}

proof fn lemma_types_view_index(s: Seq<IrType>)
    ensures
        types_view(s).len() == s.len(),
        forall|i: int| 0 <= i < s.len() ==> #[trigger] types_view(s)[i] == s[i]@,
    decreases s.len(),
{
    if s.len() > 0 {
        lemma_types_view_index(s.drop_first());
        assert forall|i: int| 0 <= i < s.len() implies #[trigger] types_view(s)[i] == s[i]@ by {
            if i > 0 {
                assert(types_view(s)[i] == types_view(s.drop_first())[i - 1]);
                assert(s.drop_first()[i - 1] == s[i]);
            }
        }
    }
}

impl VarId {
    /// `%N`.
    pub fn to_string(&self) -> (r: String)
        ensures
            r@ == var_text(*self),
    {
        let mut s = String::new();
        push_str(&mut s, "%");
        push_decimal(&mut s, self.0 as u64);
        proof {
            assert(Seq::<char>::empty() + "%"@ =~= "%"@);
        }
        s
    }
}

impl BlockId {
    /// `bbN`.
    pub fn to_string(&self) -> (r: String)
        ensures
            r@ == block_text(*self),
    {
        let mut s = String::new();
        push_str(&mut s, "bb");
        push_decimal(&mut s, self.0 as u64);
        proof {
            assert(Seq::<char>::empty() + "bb"@ =~= "bb"@);
        }
        s
    }
}

impl FuncId {
    /// `@name`.
    pub fn to_string(&self) -> (r: String)
        ensures
            r@ == func_text(self@),
    {
        let mut s = String::new();
        push_str(&mut s, "@");
        push_str(&mut s, self.0.as_str());
        proof {
            assert(Seq::<char>::empty() + "@"@ =~= "@"@);
        }
        s
    }
}

/// Appends `%class.name` to `s`.
pub(crate) fn push_class(s: &mut String, c: &ClassId)
    ensures
        final(s)@ == old(s)@ + class_text(c@),
{
    push_str(s, "%class.");
    push_str(s, c.0.as_str());
    proof {
        assert(old(s)@ + "%class."@ + c@ =~= old(s)@ + class_text(c@));
    }
}

impl ClassId {
    /// `%class.name`.
    pub fn to_string(&self) -> (r: String)
        ensures
            r@ == class_text(self@),
    {
        let mut s = String::new();
        push_class(&mut s, self);
        proof {
            assert(Seq::<char>::empty() + class_text(self@) =~= class_text(self@));
        }
        s
    }
}

impl FieldId {
    /// `%class.C.name`.
    pub fn to_string(&self) -> (r: String)
        ensures
            r@ == class_text(self.class@) + "."@ + self.name@,
    {
        let mut s = String::new();
        push_class(&mut s, &self.class);
        push_str(&mut s, ".");
        push_str(&mut s, self.name.as_str());
        proof {
            assert(Seq::<char>::empty() + class_text(self.class@) =~= class_text(self.class@));
        }
        s
    }
}

impl MethodId {
    /// `%class.C::name`.
    pub fn to_string(&self) -> (r: String)
        ensures
            r@ == class_text(self.class@) + "::"@ + self.name@,
    {
        let mut s = String::new();
        push_class(&mut s, &self.class);
        push_str(&mut s, "::");
        push_str(&mut s, self.name.as_str());
        proof {
            assert(Seq::<char>::empty() + class_text(self.class@) =~= class_text(self.class@));
        }
        s
    }
}

impl IrType {
    /// Appends the text of the type to `s`.
    #[verifier::loop_isolation(false)]
    pub fn push_text(&self, s: &mut String)
        ensures
            final(s)@ == old(s)@ + type_text(self@),
        decreases self,
    {
        match self {
            IrType::Void => push_str(s, "void"),
            IrType::Bool => push_str(s, "bool"),
            IrType::Int => push_str(s, "i64"),
            IrType::Float => push_str(s, "f64"),
            IrType::String => push_str(s, "str"),
            IrType::Ptr(inner) => {
                push_str(s, "*");
                inner.push_text(s);
                proof {
                    assert(old(s)@ + type_text(self@) =~= old(s)@ + "*"@ + type_text(inner@));
                }
            },
            IrType::Array(elem, n) => {
                let ghost s0 = s@;
                push_str(s, "[");
                push_decimal(s, *n as u64);
                push_str(s, " x ");
                elem.push_text(s);
                push_str(s, "]");
                proof {
                    assert(s@ =~= s0 + ("["@ + decimal(*n as nat) + " x "@ + type_text(elem@) + "]"@));
                }
            },
            IrType::Function { params, ret } => {
                let ghost s0 = s@;
                let ghost ps = types_view(params@);
                proof {
                    lemma_types_view_index(params@);
                    assert(ps.take(0) =~= Seq::<TypeView>::empty());
                }
                push_str(s, "fn(");
                let mut i: usize = 0;
                while i < params.len()
                    invariant
                        i <= params.len(),
                        ps == types_view(params@),
                        ps.len() == params@.len(),
                        forall|j: int| 0 <= j < params@.len() ==> #[trigger] ps[j] == params@[j]@,
                        s@ == s0 + "fn("@ + types_text(ps.take(i as int)),
                    decreases params.len() - i,
                {
                    let ghost s1 = s@;
                    if i > 0 {
                        push_str(s, ", ");
                    }
                    params[i].push_text(s);
                    proof {
                        assert(ps.take(i + 1).drop_last() =~= ps.take(i as int));
                        assert(ps.take(i + 1).last() == params@[i as int]@);
                        if i > 0 {
                            assert(s@ =~= s0 + "fn("@ + types_text(ps.take(i + 1)));
                        } else {
                            assert(s@ =~= s0 + "fn("@ + types_text(ps.take(i + 1)));
                        }
                    }
                    i = i + 1;
                }
                push_str(s, ") -> ");
                ret.push_text(s);
                proof {
                    assert(ps.take(params.len() as int) =~= ps);
                    assert(s@ =~= s0 + ("fn("@ + types_text(ps) + ") -> "@ + type_text(ret@)));
                }
            },
            IrType::Struct(c) => push_class(s, c),
        }
    }

    /// The text of the type.
    pub fn to_string(&self) -> (r: String)
        ensures
            r@ == type_text(self@),
    {
        let mut s = String::new();
        self.push_text(&mut s);
        proof {
            assert(Seq::<char>::empty() + type_text(self@) =~= type_text(self@));
        }
        s
    }
}

impl BinaryOp {
    /// The name of the operator.
    pub fn name(&self) -> (r: &'static str)
        ensures
            r@ == binary_op_text(*self),
    {
        match self {
            BinaryOp::Add => "add",
            BinaryOp::Sub => "sub",
            BinaryOp::Mul => "mul",
            BinaryOp::Div => "div",
            BinaryOp::Mod => "mod",
            BinaryOp::Pow => "pow",
            BinaryOp::Eq => "eq",
            BinaryOp::Ne => "ne",
            BinaryOp::Lt => "lt",
            BinaryOp::Le => "le",
            BinaryOp::Gt => "gt",
            BinaryOp::Ge => "ge",
            BinaryOp::And => "and",
            BinaryOp::Or => "or",
            BinaryOp::BitAnd => "bitand",
            BinaryOp::BitOr => "bitor",
            BinaryOp::BitXor => "bitxor",
            BinaryOp::Shl => "shl",
            BinaryOp::Shr => "shr",
        }
    }

    /// The name of the operator.
    pub fn to_string(&self) -> (r: String)
        ensures
            r@ == binary_op_text(*self),
    {
        self.name().to_owned()
    }
}

impl UnaryOp {
    /// The name of the operator.
    pub fn name(&self) -> (r: &'static str)
        ensures
            r@ == unary_op_text(*self),
    {
        match self {
            UnaryOp::Neg => "neg",
            UnaryOp::Not => "not",
            UnaryOp::BitNot => "bitnot",
        }
    }

    /// The name of the operator.
    pub fn to_string(&self) -> (r: String)
        ensures
            r@ == unary_op_text(*self),
    {
        self.name().to_owned()
    }
}

/// `%class.C.name` for a field.
pub open spec fn field_text(f: FieldView) -> Seq<char> {
    class_text(f.class) + "."@ + f.name
}

/// `%class.C::name` for a method.
pub open spec fn method_text(m: MethodView) -> Seq<char> {
    class_text(m.class) + "::"@ + m.name
}

/// Variables separated by `, `.
pub open spec fn vars_text(vs: Seq<VarId>) -> Seq<char>
    decreases vs.len(),
{
    if vs.len() == 0 {
        Seq::empty()
    } else {
        vars_text(vs.drop_last()) + (if vs.len() > 1 {
            ", "@
        } else {
            Seq::empty()
        }) + var_text(vs.last())
    }
}

/// The incoming edges of a phi, `[%v, bbN]` separated by `, `.
pub open spec fn incoming_text(inc: Seq<(VarId, BlockId)>) -> Seq<char>
    decreases inc.len(),
{
    if inc.len() == 0 {
        Seq::empty()
    } else {
        incoming_text(inc.drop_last()) + (if inc.len() > 1 {
            ", "@
        } else {
            Seq::empty()
        }) + "["@ + var_text(inc.last().0) + ", "@ + block_text(inc.last().1) + "]"@
    }
}

/// `%d: T = ` where a call has a destination.
pub open spec fn call_prefix(dest: Option<VarId>, ret_ty: TypeView) -> Seq<char> {
    match dest {
        Some(d) => var_text(d) + ": "@ + type_text(ret_ty) + " = "@,
        None => Seq::empty(),
    }
}

/// The text of an instruction; for a constant, the text before its value.
pub open spec fn inst_line(i: InstView) -> Seq<char> {
    match i {
        InstView::Const { dest, ty, .. } => var_text(dest) + ": "@ + type_text(ty) + " = const "@,
        InstView::Binary { dest, op, left, right, ty } => var_text(dest) + ": "@ + type_text(ty) + " = "@
            + binary_op_text(op) + " "@ + var_text(left) + ", "@ + var_text(right),
        InstView::Unary { dest, op, operand, ty } => var_text(dest) + ": "@ + type_text(ty) + " = "@ + unary_op_text(op)
            + " "@ + var_text(operand),
        InstView::IntToFloat { dest, src } => var_text(dest) + ": f64 = int_to_float "@ + var_text(src),
        InstView::FloatToInt { dest, src } => var_text(dest) + ": i64 = float_to_int "@ + var_text(src),
        InstView::ToString { dest, src } => var_text(dest) + ": str = to_string "@ + var_text(src),
        InstView::Bitcast { dest, src, to_ty } => var_text(dest) + ": "@ + type_text(to_ty) + " = bitcast "@
            + var_text(src),
        InstView::Alloca { dest, ty } => var_text(dest) + ": *"@ + type_text(ty) + " = alloca "@ + type_text(ty),
        InstView::Load { dest, ptr, ty } => var_text(dest) + ": "@ + type_text(ty) + " = load "@ + var_text(ptr),
        InstView::Store { ptr, value } => "store "@ + var_text(value) + ", "@ + var_text(ptr),
        InstView::GlobalLoad { dest, name, ty } => var_text(dest) + ": "@ + type_text(ty) + " = global_load @"@ + name,
        InstView::GlobalStore { name, value } => "global_store @"@ + name + ", "@ + var_text(value),
        InstView::GetElementPtr { dest, ptr, index, elem_ty } => var_text(dest) + ": *"@ + type_text(elem_ty)
            + " = gep "@ + var_text(ptr) + ", "@ + var_text(index),
        InstView::Jump { target } => "jump "@ + block_text(target),
        InstView::Branch { cond, then_block, else_block } => "branch "@ + var_text(cond) + ", "@ + block_text(
            then_block,
        ) + ", "@ + block_text(else_block),
        InstView::Return { value } => match value {
            Some(v) => "ret "@ + var_text(v),
            None => "ret void"@,
        },
        InstView::Call { dest, func, args, ret_ty } => call_prefix(dest, ret_ty) + "call "@ + func_text(func) + "("@
            + vars_text(args) + ")"@,
        InstView::CallIndirect { dest, func_ptr, args, ret_ty } => call_prefix(dest, ret_ty) + "call_indirect "@
            + var_text(func_ptr) + "("@ + vars_text(args) + ")"@,
        InstView::NewObject { dest, class } => var_text(dest) + ": "@ + class_text(class) + " = new "@ + class_text(
            class,
        ),
        InstView::GetField { dest, object, field, ty } => var_text(dest) + ": "@ + type_text(ty) + " = getfield "@
            + var_text(object) + ", "@ + field_text(field),
        InstView::SetField { object, field, value } => "setfield "@ + var_text(object) + ", "@ + field_text(field)
            + ", "@ + var_text(value),
        InstView::CallMethod { dest, object, method, args, ret_ty } => call_prefix(dest, ret_ty) + "call_method "@
            + var_text(object) + ", "@ + method_text(method) + "("@ + vars_text(args) + ")"@,
        InstView::CallVirtual { dest, object, method_index, args, ret_ty } => call_prefix(dest, ret_ty)
            + "call_virtual "@ + var_text(object) + ", #"@ + decimal(method_index as nat) + "("@ + vars_text(args)
            + ")"@,
        InstView::NewArray { dest, elem_ty, elements } => var_text(dest) + ": ["@ + type_text(elem_ty)
            + "] = array ["@ + vars_text(elements) + "]"@,
        InstView::ArrayLen { dest, array } => var_text(dest) + ": i64 = array_len "@ + var_text(array),
        InstView::ArrayGet { dest, array, index, elem_ty } => var_text(dest) + ": "@ + type_text(elem_ty)
            + " = array_get "@ + var_text(array) + ", "@ + var_text(index),
        InstView::ArraySet { array, index, value } => "array_set "@ + var_text(array) + ", "@ + var_text(index) + ", "@
            + var_text(value),
        InstView::ArrayPush { array, value, elem_ty } => "array_push "@ + var_text(array) + ", "@ + var_text(value)
            + ": "@ + type_text(elem_ty),
        InstView::StringConcat { dest, left, right } => var_text(dest) + ": str = string_concat "@ + var_text(left)
            + ", "@ + var_text(right),
        InstView::TryBegin { catch_block } => "try_begin catch="@ + block_text(catch_block),
        InstView::TryEnd => "try_end"@,
        InstView::Throw { exception } => "throw "@ + var_text(exception),
        InstView::GetException { dest } => var_text(dest) + ": exception = get_exception"@,
        InstView::Phi { dest, ty, incoming } => var_text(dest) + ": "@ + type_text(ty) + " = phi "@ + incoming_text(
            incoming,
        ),
        InstView::Print { value } => "print "@ + var_text(value),
        InstView::Copy { dest, src, ty } => var_text(dest) + ": "@ + type_text(ty) + " = copy "@ + var_text(src),
        InstView::Nop => "nop"@,
    }
}

/// Appends `%N`.
pub(crate) fn push_var(s: &mut String, v: VarId)
    ensures
        final(s)@ == old(s)@ + var_text(v),
{
    push_str(s, "%");
    push_decimal(s, v.0 as u64);
    proof {
        assert(final(s)@ =~= old(s)@ + var_text(v)) by {
            assert(s@ =~= old(s)@ + "%"@ + decimal(v.0 as nat));
        }
    }
}

/// Appends `bbN`.
pub(crate) fn push_block(s: &mut String, b: BlockId)
    ensures
        final(s)@ == old(s)@ + block_text(b),
{
    push_str(s, "bb");
    push_decimal(s, b.0 as u64);
    proof {
        assert(s@ =~= old(s)@ + block_text(b));
    }
}

/// Appends the variables separated by `, `.
pub(crate) fn push_vars(s: &mut String, vs: &Vec<VarId>)
    ensures
        final(s)@ == old(s)@ + vars_text(vs@),
{
    let ghost s0 = s@;
    let mut i: usize = 0;
    proof {
        assert(vs@.take(0) =~= Seq::<VarId>::empty());
        assert(s@ =~= s0 + vars_text(vs@.take(0)));
    }
    while i < vs.len()
        invariant
            i <= vs.len(),
            s@ == s0 + vars_text(vs@.take(i as int)),
        decreases vs.len() - i,
    {
        if i > 0 {
            push_str(s, ", ");
        }
        push_var(s, vs[i]);
        proof {
            assert(vs@.take(i + 1).drop_last() =~= vs@.take(i as int));
            assert(vs@.take(i + 1).last() == vs@[i as int]);
            assert(s@ =~= s0 + vars_text(vs@.take(i + 1)));
        }
        i = i + 1;
    }
    proof {
        assert(vs@.take(vs.len() as int) =~= vs@);
    }
}

/// Appends `%d: T = ` where there is a destination.
pub(crate) fn push_call_prefix(s: &mut String, dest: &Option<VarId>, ret_ty: &IrType)
    ensures
        final(s)@ == old(s)@ + call_prefix(*dest, ret_ty@),
{
    match dest {
        Some(d) => {
            push_var(s, *d);
            push_str(s, ": ");
            ret_ty.push_text(s);
            push_str(s, " = ");
            proof {
                assert(s@ =~= old(s)@ + call_prefix(*dest, ret_ty@));
            }
        },
        None => {
            proof {
                assert(s@ =~= old(s)@ + call_prefix(*dest, ret_ty@));
            }
        },
    }
}

/// Appends `%class.C.name`.
pub(crate) fn push_field(s: &mut String, f: &FieldId)
    ensures
        final(s)@ == old(s)@ + field_text(f@),
{
    push_class(s, &f.class);
    push_str(s, ".");
    push_str(s, f.name.as_str());
    proof {
        assert(s@ =~= old(s)@ + field_text(f@));
    }
}

/// Appends `%class.C::name`.
pub(crate) fn push_method(s: &mut String, m: &MethodId)
    ensures
        final(s)@ == old(s)@ + method_text(m@),
{
    push_class(s, &m.class);
    push_str(s, "::");
    push_str(s, m.name.as_str());
    proof {
        assert(s@ =~= old(s)@ + method_text(m@));
    }
}

} // verus!
