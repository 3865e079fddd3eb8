//! IR value types: identifiers, types, constants and operators.
use vstd::prelude::*;

verus! {

/// An SSA variable.
#[derive(Debug, Clone, Copy, PartialEq, Eq, Hash, Structural)]
pub struct VarId(pub u32);

/// A basic block.
#[derive(Debug, Clone, Copy, PartialEq, Eq, Hash, Structural)]
pub struct BlockId(pub u32);

/// The name of a function.
#[derive(Debug, Clone, Hash)]
pub struct FuncId(pub String);

/// The name of a class.
#[derive(Debug, Clone, Hash)]
pub struct ClassId(pub String);

impl PartialEq for FuncId {
    fn eq(&self, other: &Self) -> (r: bool) {
        self.0 == other.0
    }
}

impl vstd::std_specs::cmp::PartialEqSpecImpl for FuncId {
    open spec fn obeys_eq_spec() -> bool {
        true
    }

    open spec fn eq_spec(&self, other: &FuncId) -> bool {
        self.0@ == other.0@
    }
}

impl Eq for FuncId {

}

impl PartialEq for ClassId {
    fn eq(&self, other: &Self) -> (r: bool) {
        self.0 == other.0
    }
}

impl vstd::std_specs::cmp::PartialEqSpecImpl for ClassId {
    open spec fn obeys_eq_spec() -> bool {
        true
    }

    open spec fn eq_spec(&self, other: &ClassId) -> bool {
        self.0@ == other.0@
    }
}

impl Eq for ClassId {

}

/// A field of a class, with its slot index.
#[derive(Debug, Clone, PartialEq, Eq, Hash)]
pub struct FieldId {
    pub class: ClassId,
    pub name: String,
    pub index: u32,
}

/// A method of a class.
#[derive(Debug, Clone, PartialEq, Eq, Hash)]
pub struct MethodId {
    pub class: ClassId,
    pub name: String,
}

/// Mathematical model of an `IrType`: strings as character sequences and
/// parameter lists as sequences.
pub enum TypeView {
    Void,
    Bool,
    Int,
    Float,
    Str,
    Ptr(Box<TypeView>),
    Array(Box<TypeView>, usize),
    Function(Seq<TypeView>, Box<TypeView>),
    Struct(Seq<char>),
}

/// The type of an IR value.
#[derive(Debug, PartialEq, Eq)]
pub enum IrType {
    Void,
    Bool,
    Int,
    Float,
    String,
    Ptr(Box<IrType>),
    Array(Box<IrType>, usize),
    Function { params: Vec<IrType>, ret: Box<IrType> },
    Struct(ClassId),
}

impl IrType {
    pub open spec fn tview(&self) -> TypeView
        decreases self,
    {
        match self {
            IrType::Void => TypeView::Void,
            IrType::Bool => TypeView::Bool,
            IrType::Int => TypeView::Int,
            IrType::Float => TypeView::Float,
            IrType::String => TypeView::Str,
            IrType::Ptr(inner) => TypeView::Ptr(Box::new(inner.tview())),
            IrType::Array(elem, n) => TypeView::Array(Box::new(elem.tview()), *n),
            IrType::Function { params, ret } => TypeView::Function(
                types_view(params@),
                Box::new(ret.tview()),
            ),
            IrType::Struct(c) => TypeView::Struct(c.0@),
        }
    }
}


/// A compile-time constant. A floating-point constant is held as the bit
/// pattern of its IEEE-754 double.
#[derive(Debug, Clone, Copy, PartialEq, Eq, Structural)]
pub enum Constant {
    Null,
    Bool(bool),
    Int(i64),
    Float(u64),
    String(u32),
}

#[derive(Debug, Clone, Copy, PartialEq, Eq, Hash, Structural)]
pub enum BinaryOp {
    Add,
    Sub,
    Mul,
    Div,
    Mod,
    Pow,
    Eq,
    Ne,
    Lt,
    Le,
    Gt,
    Ge,
    And,
    Or,
    BitAnd,
    BitOr,
    BitXor,
    Shl,
    Shr,
}

#[derive(Debug, Clone, Copy, PartialEq, Eq, Hash, Structural)]
pub enum UnaryOp {
    Neg,
    Not,
    BitNot,
}

/// Model of a `FieldId`.
pub struct FieldView {
    pub class: Seq<char>,
    pub name: Seq<char>,
    pub index: u32,
}

/// Model of a `MethodId`.
pub struct MethodView {
    pub class: Seq<char>,
    pub name: Seq<char>,
}

impl View for FuncId {
    type V = Seq<char>;

    open spec fn view(&self) -> Seq<char> {
        self.0@
    }
}

impl View for ClassId {
    type V = Seq<char>;

    open spec fn view(&self) -> Seq<char> {
        self.0@
    }
}

impl View for FieldId {
    type V = FieldView;

    open spec fn view(&self) -> FieldView {
        FieldView { class: self.class@, name: self.name@, index: self.index }
    }
}

impl View for MethodId {
    type V = MethodView;

    open spec fn view(&self) -> MethodView {
        MethodView { class: self.class@, name: self.name@ }
    }
}

impl View for IrType {
    type V = TypeView;

    open spec fn view(&self) -> TypeView {
        self.tview()
    }
}

/// A three-address IR instruction.
#[derive(Debug, Clone, PartialEq)]
pub enum Instruction {
    Const { dest: VarId, value: Constant, ty: IrType },
    Binary { dest: VarId, op: BinaryOp, left: VarId, right: VarId, ty: IrType },
    Unary { dest: VarId, op: UnaryOp, operand: VarId, ty: IrType },
    IntToFloat { dest: VarId, src: VarId },
    FloatToInt { dest: VarId, src: VarId },
    ToString { dest: VarId, src: VarId },
    Bitcast { dest: VarId, src: VarId, to_ty: IrType },
    Alloca { dest: VarId, ty: IrType },
    Load { dest: VarId, ptr: VarId, ty: IrType },
    Store { ptr: VarId, value: VarId },
    GlobalLoad { dest: VarId, name: String, ty: IrType },
    GlobalStore { name: String, value: VarId },
    GetElementPtr { dest: VarId, ptr: VarId, index: VarId, elem_ty: IrType },
    Jump { target: BlockId },
    Branch { cond: VarId, then_block: BlockId, else_block: BlockId },
    Return { value: Option<VarId> },
    Call { dest: Option<VarId>, func: FuncId, args: Vec<VarId>, ret_ty: IrType },
    CallIndirect { dest: Option<VarId>, func_ptr: VarId, args: Vec<VarId>, ret_ty: IrType },
    NewObject { dest: VarId, class: ClassId },
    GetField { dest: VarId, object: VarId, field: FieldId, ty: IrType },
    SetField { object: VarId, field: FieldId, value: VarId },
    CallMethod { dest: Option<VarId>, object: VarId, method: MethodId, args: Vec<VarId>, ret_ty: IrType },
    CallVirtual { dest: Option<VarId>, object: VarId, method_index: u32, args: Vec<VarId>, ret_ty: IrType },
    NewArray { dest: VarId, elem_ty: IrType, elements: Vec<VarId> },
    ArrayLen { dest: VarId, array: VarId },
    ArrayGet { dest: VarId, array: VarId, index: VarId, elem_ty: IrType },
    ArraySet { array: VarId, index: VarId, value: VarId },
    ArrayPush { array: VarId, value: VarId, elem_ty: IrType },
    StringConcat { dest: VarId, left: VarId, right: VarId },
    TryBegin { catch_block: BlockId },
    TryEnd,
    Throw { exception: VarId },
    GetException { dest: VarId },
    Phi { dest: VarId, ty: IrType, incoming: Vec<(VarId, BlockId)> },
    Print { value: VarId },
    /// Copy a value from one variable to another.
    Copy { dest: VarId, src: VarId, ty: IrType },
    Nop,
}

/// Model of an `Instruction`: the same shape, with names, types and operand
/// lists taken by their models.
pub enum InstView {
    Const { dest: VarId, value: Constant, ty: TypeView },
    Binary { dest: VarId, op: BinaryOp, left: VarId, right: VarId, ty: TypeView },
    Unary { dest: VarId, op: UnaryOp, operand: VarId, ty: TypeView },
    IntToFloat { dest: VarId, src: VarId },
    FloatToInt { dest: VarId, src: VarId },
    ToString { dest: VarId, src: VarId },
    Bitcast { dest: VarId, src: VarId, to_ty: TypeView },
    Alloca { dest: VarId, ty: TypeView },
    Load { dest: VarId, ptr: VarId, ty: TypeView },
    Store { ptr: VarId, value: VarId },
    GlobalLoad { dest: VarId, name: Seq<char>, ty: TypeView },
    GlobalStore { name: Seq<char>, value: VarId },
    GetElementPtr { dest: VarId, ptr: VarId, index: VarId, elem_ty: TypeView },
    Jump { target: BlockId },
    Branch { cond: VarId, then_block: BlockId, else_block: BlockId },
    Return { value: Option<VarId> },
    Call { dest: Option<VarId>, func: Seq<char>, args: Seq<VarId>, ret_ty: TypeView },
    CallIndirect { dest: Option<VarId>, func_ptr: VarId, args: Seq<VarId>, ret_ty: TypeView },
    NewObject { dest: VarId, class: Seq<char> },
    GetField { dest: VarId, object: VarId, field: FieldView, ty: TypeView },
    SetField { object: VarId, field: FieldView, value: VarId },
    CallMethod { dest: Option<VarId>, object: VarId, method: MethodView, args: Seq<VarId>, ret_ty: TypeView },
    CallVirtual { dest: Option<VarId>, object: VarId, method_index: u32, args: Seq<VarId>, ret_ty: TypeView },
    NewArray { dest: VarId, elem_ty: TypeView, elements: Seq<VarId> },
    ArrayLen { dest: VarId, array: VarId },
    ArrayGet { dest: VarId, array: VarId, index: VarId, elem_ty: TypeView },
    ArraySet { array: VarId, index: VarId, value: VarId },
    ArrayPush { array: VarId, value: VarId, elem_ty: TypeView },
    StringConcat { dest: VarId, left: VarId, right: VarId },
    TryBegin { catch_block: BlockId },
    TryEnd,
    Throw { exception: VarId },
    GetException { dest: VarId },
    Phi { dest: VarId, ty: TypeView, incoming: Seq<(VarId, BlockId)> },
    Print { value: VarId },
    Copy { dest: VarId, src: VarId, ty: TypeView },
    Nop,
}

impl View for Instruction {
    type V = InstView;

    open spec fn view(&self) -> InstView {
        match self {
            Instruction::Const { dest, value, ty } => InstView::Const { dest: *dest, value: *value, ty: ty@ },
            Instruction::Binary { dest, op, left, right, ty } => InstView::Binary {
                dest: *dest,
                op: *op,
                left: *left,
                right: *right,
                ty: ty@,
            },
            Instruction::Unary { dest, op, operand, ty } => InstView::Unary {
                dest: *dest,
                op: *op,
                operand: *operand,
                ty: ty@,
            },
            Instruction::IntToFloat { dest, src } => InstView::IntToFloat { dest: *dest, src: *src },
            Instruction::FloatToInt { dest, src } => InstView::FloatToInt { dest: *dest, src: *src },
            Instruction::ToString { dest, src } => InstView::ToString { dest: *dest, src: *src },
            Instruction::Bitcast { dest, src, to_ty } => InstView::Bitcast { dest: *dest, src: *src, to_ty: to_ty@ },
            Instruction::Alloca { dest, ty } => InstView::Alloca { dest: *dest, ty: ty@ },
            Instruction::Load { dest, ptr, ty } => InstView::Load { dest: *dest, ptr: *ptr, ty: ty@ },
            Instruction::Store { ptr, value } => InstView::Store { ptr: *ptr, value: *value },
            Instruction::GlobalLoad { dest, name, ty } => InstView::GlobalLoad { dest: *dest, name: name@, ty: ty@ },
            Instruction::GlobalStore { name, value } => InstView::GlobalStore { name: name@, value: *value },
            Instruction::GetElementPtr { dest, ptr, index, elem_ty } => InstView::GetElementPtr {
                dest: *dest,
                ptr: *ptr,
                index: *index,
                elem_ty: elem_ty@,
            },
            Instruction::Jump { target } => InstView::Jump { target: *target },
            Instruction::Branch { cond, then_block, else_block } => InstView::Branch {
                cond: *cond,
                then_block: *then_block,
                else_block: *else_block,
            },
            Instruction::Return { value } => InstView::Return { value: *value },
            Instruction::Call { dest, func, args, ret_ty } => InstView::Call {
                dest: *dest,
                func: func@,
                args: args@,
                ret_ty: ret_ty@,
            },
            Instruction::CallIndirect { dest, func_ptr, args, ret_ty } => InstView::CallIndirect {
                dest: *dest,
                func_ptr: *func_ptr,
                args: args@,
                ret_ty: ret_ty@,
            },
            Instruction::NewObject { dest, class } => InstView::NewObject { dest: *dest, class: class@ },
            Instruction::GetField { dest, object, field, ty } => InstView::GetField {
                dest: *dest,
                object: *object,
                field: field@,
                ty: ty@,
            },
            Instruction::SetField { object, field, value } => InstView::SetField {
                object: *object,
                field: field@,
                value: *value,
            },
            Instruction::CallMethod { dest, object, method, args, ret_ty } => InstView::CallMethod {
                dest: *dest,
                object: *object,
                method: method@,
                args: args@,
                ret_ty: ret_ty@,
            },
            Instruction::CallVirtual { dest, object, method_index, args, ret_ty } => InstView::CallVirtual {
                dest: *dest,
                object: *object,
                method_index: *method_index,
                args: args@,
                ret_ty: ret_ty@,
            },
            Instruction::NewArray { dest, elem_ty, elements } => InstView::NewArray {
                dest: *dest,
                elem_ty: elem_ty@,
                elements: elements@,
            },
            Instruction::ArrayLen { dest, array } => InstView::ArrayLen { dest: *dest, array: *array },
            Instruction::ArrayGet { dest, array, index, elem_ty } => InstView::ArrayGet {
                dest: *dest,
                array: *array,
                index: *index,
                elem_ty: elem_ty@,
            },
            Instruction::ArraySet { array, index, value } => InstView::ArraySet {
                array: *array,
                index: *index,
                value: *value,
            },
            Instruction::ArrayPush { array, value, elem_ty } => InstView::ArrayPush {
                array: *array,
                value: *value,
                elem_ty: elem_ty@,
            },
            Instruction::StringConcat { dest, left, right } => InstView::StringConcat {
                dest: *dest,
                left: *left,
                right: *right,
            },
            Instruction::TryBegin { catch_block } => InstView::TryBegin { catch_block: *catch_block },
            Instruction::TryEnd => InstView::TryEnd,
            Instruction::Throw { exception } => InstView::Throw { exception: *exception },
            Instruction::GetException { dest } => InstView::GetException { dest: *dest },
            Instruction::Phi { dest, ty, incoming } => InstView::Phi {
                dest: *dest,
                ty: ty@,
                incoming: incoming@,
            },
            Instruction::Print { value } => InstView::Print { value: *value },
            Instruction::Copy { dest, src, ty } => InstView::Copy { dest: *dest, src: *src, ty: ty@ },
            Instruction::Nop => InstView::Nop,
        }
    }
}

/// The models of a sequence of instructions.
pub open spec fn insts_view(s: Seq<Instruction>) -> Seq<InstView> {
    s.map_values(|i: Instruction| i@)
}

impl Clone for IrType {
    fn clone(&self) -> (r: Self)
        ensures
            r@ == self@,
        decreases self,
    {
        match self {
            IrType::Void => IrType::Void,
            IrType::Bool => IrType::Bool,
            IrType::Int => IrType::Int,
            IrType::Float => IrType::Float,
            IrType::String => IrType::String,
            IrType::Ptr(inner) => IrType::Ptr(Box::new((**inner).clone())),
            IrType::Array(elem, n) => IrType::Array(Box::new((**elem).clone()), *n),
            IrType::Function { params, ret } => {
                let mut ps: Vec<IrType> = Vec::new();
                let mut i: usize = 0;
                #[verifier::loop_isolation(false)]
                while i < params.len()
                    invariant
                        i <= params.len(),
                        ps@.len() == i,
                        forall|j: int| 0 <= j < i ==> #[trigger] ps@[j]@ == params@[j]@,
                    decreases params.len() - i,
                {
                    proof {
                        assert(decreases_to!(params => params@));
                        assert(decreases_to!(params@ => params@[i as int]));
                    }
                    ps.push(params[i].clone());
                    i = i + 1;
                }
                proof {
                    lemma_types_view_pointwise(ps@, params@);
                }
                IrType::Function { params: ps, ret: Box::new((**ret).clone()) }
            },
            IrType::Struct(c) => IrType::Struct(ClassId(c.0.clone())),
        }
    }
}

/// Two type lists whose elements have equal models have equal models.
pub proof fn lemma_types_view_pointwise(a: Seq<IrType>, b: Seq<IrType>)
    requires
        a.len() == b.len(),
        forall|j: int| 0 <= j < a.len() ==> #[trigger] a[j]@ == b[j]@,
    ensures
        types_view(a) == types_view(b),
    decreases a.len(),
{
    if a.len() > 0 {
        lemma_types_view_pointwise(a.drop_first(), b.drop_first());
        assert(a[0]@ == b[0]@);
    }
}

/// The models of a sequence of types, element by element.
pub open spec fn types_view(s: Seq<IrType>) -> Seq<TypeView>
    decreases s,
{
    if s.len() == 0 {
        Seq::empty()
    } else {
        seq![s[0].tview()] + types_view(s.drop_first())
    }
}

} // verus!
