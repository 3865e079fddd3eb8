//! Containers of IR code: basic blocks, functions, classes, the string table
//! and whole modules.
use vstd::prelude::*;

use crate::instruction::{
    insts_view, BlockId, ClassId, Constant, FuncId, InstView, Instruction, IrType, MethodId,
    TypeView, VarId,
};
use vstd::string::StringSliceAdditionalSpecFns;

verus! {

/// Model of a `BasicBlock`.
pub struct BlockView {
    pub id: BlockId,
    pub label: Option<Seq<char>>,
    pub instructions: Seq<InstView>,
    pub predecessors: Seq<BlockId>,
    pub successors: Seq<BlockId>,
}

#[derive(Debug, Clone)]
pub struct BasicBlock {
    pub id: BlockId,
    pub label: Option<String>,
    pub instructions: Vec<Instruction>,
    pub predecessors: Vec<BlockId>,
    pub successors: Vec<BlockId>,
}

/// The model of an optional string.
pub open spec fn opt_str_view(s: Option<String>) -> Option<Seq<char>> {
    match s {
        Some(t) => Some(t@),
        None => None,
    }
}

impl View for BasicBlock {
    type V = BlockView;

    open spec fn view(&self) -> BlockView {
        BlockView {
            id: self.id,
            label: opt_str_view(self.label),
            instructions: insts_view(self.instructions@),
            predecessors: self.predecessors@,
            successors: self.successors@,
        }
    }
}

/// Whether an instruction ends a basic block.
pub open spec fn is_terminator(i: InstView) -> bool {
    match i {
        InstView::Jump { .. } | InstView::Branch { .. } | InstView::Return { .. } | InstView::Throw {
            ..
        } => true,
        _ => false,
    }
}

/// Whether the last instruction of a sequence ends a block.
pub open spec fn ends_with_terminator(s: Seq<InstView>) -> bool {
    s.len() > 0 && is_terminator(s.last())
}

/// Whether an instruction (exec value) ends a block.
pub fn instruction_is_terminator(inst: &Instruction) -> (r: bool)
    ensures
        r == is_terminator(inst@),
{
    match inst {
        Instruction::Jump { .. } | Instruction::Branch { .. } | Instruction::Return { .. }
        | Instruction::Throw { .. } => true,
        _ => false,
    }
}

impl BasicBlock {
    pub fn new(id: BlockId) -> (b: Self)
        ensures
            b@ == (BlockView {
                id,
                label: None,
                instructions: Seq::empty(),
                predecessors: Seq::empty(),
                successors: Seq::empty(),
            }),
    {
        let b = BasicBlock {
            id,
            label: None,
            instructions: Vec::new(),
            predecessors: Vec::new(),
            successors: Vec::new(),
        };
        assert(insts_view(b.instructions@) =~= Seq::empty());
        b
    }

    pub fn with_label(id: BlockId, label: String) -> (b: Self)
        ensures
            b@ == (BlockView {
                id,
                label: Some(label@),
                instructions: Seq::empty(),
                predecessors: Seq::empty(),
                successors: Seq::empty(),
            }),
    {
        let b = BasicBlock {
            id,
            label: Some(label),
            instructions: Vec::new(),
            predecessors: Vec::new(),
            successors: Vec::new(),
        };
        assert(insts_view(b.instructions@) =~= Seq::empty());
        b
    }

    pub fn has_terminator(&self) -> (r: bool)
        ensures
            r == ends_with_terminator(self@.instructions),
    {
        let n = self.instructions.len();
        if n == 0 {
            false
        } else {
            instruction_is_terminator(&self.instructions[n - 1])
        }
    }

    pub fn terminator(&self) -> (r: Option<&Instruction>)
        ensures
            ends_with_terminator(self@.instructions) ==> r == Some(
                &self.instructions@[self.instructions@.len() - 1],
            ),
            !ends_with_terminator(self@.instructions) ==> r == None::<&Instruction>,
    {
        let n = self.instructions.len();
        if n == 0 {
            None
        } else if instruction_is_terminator(&self.instructions[n - 1]) {
            Some(&self.instructions[n - 1])
        } else {
            None
        }
    }
}

/// Model of a `Parameter`.
pub struct ParamView {
    pub id: VarId,
    pub name: Seq<char>,
    pub ty: TypeView,
}

#[derive(Debug, Clone)]
pub struct Parameter {
    pub id: VarId,
    pub name: String,
    pub ty: IrType,
}

impl View for Parameter {
    type V = ParamView;

    open spec fn view(&self) -> ParamView {
        ParamView { id: self.id, name: self.name@, ty: self.ty@ }
    }
}

/// Model of a `Function`.
pub struct FunctionView {
    pub id: Seq<char>,
    pub name: Seq<char>,
    pub params: Seq<ParamView>,
    pub return_type: TypeView,
    pub blocks: Seq<BlockView>,
    pub var_counter: u32,
    pub block_counter: u32,
    pub is_async: bool,
}

#[derive(Debug, Clone)]
pub struct Function {
    pub id: FuncId,
    pub name: String,
    pub params: Vec<Parameter>,
    pub return_type: IrType,
    pub blocks: Vec<BasicBlock>,
    pub var_counter: u32,
    pub block_counter: u32,
    pub is_async: bool,
}

/// The models of a sequence of blocks.
pub open spec fn blocks_view(s: Seq<BasicBlock>) -> Seq<BlockView> {
    s.map_values(|b: BasicBlock| b@)
}

/// The models of a sequence of parameters.
pub open spec fn params_view(s: Seq<Parameter>) -> Seq<ParamView> {
    s.map_values(|p: Parameter| p@)
}

/// The models of a sequence of functions.
pub open spec fn functions_view(s: Seq<Function>) -> Seq<FunctionView> {
    s.map_values(|f: Function| f@)
}

impl View for Function {
    type V = FunctionView;

    open spec fn view(&self) -> FunctionView {
        FunctionView {
            id: self.id@,
            name: self.name@,
            params: params_view(self.params@),
            return_type: self.return_type@,
            blocks: blocks_view(self.blocks@),
            var_counter: self.var_counter,
            block_counter: self.block_counter,
            is_async: self.is_async,
        }
    }
}

/// The index of the first block with the given id, if any.
pub open spec fn find_block(blocks: Seq<BlockView>, id: BlockId) -> Option<int>
    decreases blocks.len(),
{
    if blocks.len() == 0 {
        None
    } else if blocks[0].id == id {
        Some(0)
    } else {
        match find_block(blocks.drop_first(), id) {
            Some(k) => Some(k + 1),
            None => None,
        }
    }
}

/// `find_block` yields the first index with a matching id.
pub proof fn lemma_find_block(blocks: Seq<BlockView>, id: BlockId)
    ensures
        match find_block(blocks, id) {
            Some(k) => 0 <= k < blocks.len() && blocks[k].id == id && forall|j: int|
                0 <= j < k ==> blocks[j].id != id,
            None => forall|j: int| 0 <= j < blocks.len() ==> blocks[j].id != id,
        },
    decreases blocks.len(),
{
    if blocks.len() > 0 {
        lemma_find_block(blocks.drop_first(), id);
        if blocks[0].id != id {
            match find_block(blocks.drop_first(), id) {
                Some(k) => {
                    assert forall|j: int| 0 <= j < k + 1 implies blocks[j].id != id by {
                        if j > 0 {
                            assert(blocks[j] == blocks.drop_first()[j - 1]);
                        }
                    }
                },
                None => {
                    assert forall|j: int| 0 <= j < blocks.len() implies blocks[j].id != id by {
                        if j > 0 {
                            assert(blocks[j] == blocks.drop_first()[j - 1]);
                        }
                    }
                },
            }
        }
    }
}

/// The position of the first block with the given id.
pub fn block_position(blocks: &Vec<BasicBlock>, id: BlockId) -> (r: Option<usize>)
    ensures
        match r {
            Some(k) => find_block(blocks_view(blocks@), id) == Some(k as int),
            None => find_block(blocks_view(blocks@), id) == None::<int>,
        },
        r matches Some(k) ==> k < blocks@.len() && blocks@[k as int].id == id,
{
    proof {
        lemma_find_block(blocks_view(blocks@), id);
    }
    let mut i: usize = 0;
    #[verifier::loop_isolation(false)]
    while i < blocks.len()
        invariant
            i <= blocks.len(),
            forall|j: int| 0 <= j < i ==> blocks@[j].id != id,
        decreases blocks.len() - i,
    {
        assert(blocks_view(blocks@)[i as int] == blocks@[i as int]@);
        if blocks[i].id == id {
            return Some(i);
        }
        i = i + 1;
    }
    proof {
        assert forall|j: int| 0 <= j < blocks@.len() implies blocks_view(blocks@)[j].id != id by {
            assert(blocks_view(blocks@)[j] == blocks@[j]@);
        }
    }
    None
}

impl Function {
    pub fn new(id: FuncId, name: String, params: Vec<Parameter>, return_type: IrType) -> (f: Self)
        ensures
            f.id == id,
            f.name == name,
            f.params == params,
            f.return_type == return_type,
            f.blocks@ == Seq::<BasicBlock>::empty(),
            f.var_counter == 0,
            f.block_counter == 0,
            !f.is_async,
    {
        Function {
            id,
            name,
            params,
            return_type,
            blocks: Vec::new(),
            var_counter: 0,
            block_counter: 0,
            is_async: false,
        }
    }

    pub fn entry_block(&self) -> (r: Option<&BasicBlock>)
        ensures
            self.blocks@.len() > 0 ==> r == Some(&self.blocks@[0]),
            self.blocks@.len() == 0 ==> r == None::<&BasicBlock>,
    {
        if self.blocks.len() > 0 {
            Some(&self.blocks[0])
        } else {
            None
        }
    }

    pub fn get_block(&self, id: BlockId) -> (r: Option<&BasicBlock>)
        ensures
            match find_block(blocks_view(self.blocks@), id) {
                Some(k) => r == Some(&self.blocks@[k]),
                None => r == None::<&BasicBlock>,
            },
    {
        proof {
            lemma_find_block(blocks_view(self.blocks@), id);
            assert(blocks_view(self.blocks@).len() == self.blocks@.len());
        }
        match block_position(&self.blocks, id) {
            Some(k) => {
                assert(find_block(blocks_view(self.blocks@), id) == Some(k as int));
                let b = &self.blocks[k];
                assert(*b == self.blocks@[k as int]);
                Some(b)
            },
            None => None,
        }
    }

    /// The entry block, to change in place: the first block, whose final
    /// value becomes the first block of the function.
    pub fn entry_block_mut(&mut self) -> (r: Option<&mut BasicBlock>)
        ensures
            old(self).blocks@.len() == 0 ==> r is None && *final(self) == *old(self),
            old(self).blocks@.len() > 0 ==> r is Some,
            match r {
                Some(b) => {
                    &&& *b == old(self).blocks@[0]
                    &&& final(self).blocks@ == old(self).blocks@.update(0, *final(b))
                    &&& final(self).id == old(self).id
                    &&& final(self).name == old(self).name
                    &&& final(self).params == old(self).params
                    &&& final(self).return_type == old(self).return_type
                    &&& final(self).var_counter == old(self).var_counter
                    &&& final(self).block_counter == old(self).block_counter
                    &&& final(self).is_async == old(self).is_async
                },
                None => true,
            },
    {
        if self.blocks.len() > 0 {
            Some(&mut self.blocks[0])
        } else {
            None
        }
    }

    /// The first block with the given id, to change in place.
    pub fn get_block_mut(&mut self, id: BlockId) -> (r: Option<&mut BasicBlock>)
        ensures
            find_block(blocks_view(old(self).blocks@), id) is None ==> r is None && *final(self) == *old(self),
            find_block(blocks_view(old(self).blocks@), id) is Some ==> r is Some,
            match r {
                Some(b) => {
                    let k = find_block(blocks_view(old(self).blocks@), id)->0;
                    &&& *b == old(self).blocks@[k]
                    &&& final(self).blocks@ == old(self).blocks@.update(k, *final(b))
                    &&& final(self).id == old(self).id
                    &&& final(self).name == old(self).name
                    &&& final(self).params == old(self).params
                    &&& final(self).return_type == old(self).return_type
                    &&& final(self).var_counter == old(self).var_counter
                    &&& final(self).block_counter == old(self).block_counter
                    &&& final(self).is_async == old(self).is_async
                },
                None => true,
            },
    {
        proof {
            lemma_find_block(blocks_view(self.blocks@), id);
            assert(blocks_view(self.blocks@).len() == self.blocks@.len());
        }
        match block_position(&self.blocks, id) {
            Some(k) => {
                assert(find_block(blocks_view(self.blocks@), id) == Some(k as int));
                Some(&mut self.blocks[k])
            },
            None => None,
        }
    }
}

#[derive(Debug, Clone)]
pub struct Class {
    pub id: ClassId,
    pub name: String,
    pub parent: Option<ClassId>,
    pub interfaces: Vec<ClassId>,
    pub fields: Vec<(String, IrType)>,
    pub methods: Vec<FuncId>,
    pub vtable: Vec<MethodId>,
}

/// The index of the first field with the given name, if any.
pub open spec fn first_field_named(fields: Seq<(String, IrType)>, name: Seq<char>) -> Option<int>
    decreases fields.len(),
{
    if fields.len() == 0 {
        None
    } else if fields[0].0@ == name {
        Some(0)
    } else {
        match first_field_named(fields.drop_first(), name) {
            Some(k) => Some(k + 1),
            None => None,
        }
    }
}

/// `first_field_named` yields the first matching index.
pub proof fn lemma_first_field_named(fields: Seq<(String, IrType)>, name: Seq<char>)
    ensures
        match first_field_named(fields, name) {
            Some(k) => 0 <= k < fields.len() && fields[k].0@ == name && forall|j: int|
                0 <= j < k ==> fields[j].0@ != name,
            None => forall|j: int| 0 <= j < fields.len() ==> fields[j].0@ != name,
        },
    decreases fields.len(),
{
    if fields.len() > 0 {
        lemma_first_field_named(fields.drop_first(), name);
        if fields[0].0@ != name {
            assert forall|j: int| 0 < j < fields.len() implies fields[j] == fields.drop_first()[j
                - 1] by {}
        }
    }
}

impl Class {
    pub fn new(id: ClassId, name: String) -> (c: Self)
        ensures
            c.id == id,
            c.name == name,
            c.parent == None::<ClassId>,
            c.interfaces@ == Seq::<ClassId>::empty(),
            c.fields@ == Seq::<(String, IrType)>::empty(),
            c.methods@ == Seq::<FuncId>::empty(),
            c.vtable@ == Seq::<MethodId>::empty(),
    {
        Class {
            id,
            name,
            parent: None,
            interfaces: Vec::new(),
            fields: Vec::new(),
            methods: Vec::new(),
            vtable: Vec::new(),
        }
    }

    /// The slot of the first field called `name`: its position taken as a
    /// `u32`.
    pub fn field_index(&self, name: &str) -> (r: Option<u32>)
        ensures
            match first_field_named(self.fields@, name@) {
                Some(j) => r == Some(j as u32),
                None => r is None,
            },
    {
        proof {
            lemma_first_field_named(self.fields@, name@);
        }
        let owned = name.to_owned();
        let mut i: usize = 0;
        #[verifier::loop_isolation(false)]
        while i < self.fields.len()
            invariant
                i <= self.fields.len(),
                forall|j: int| 0 <= j < i ==> self.fields@[j].0@ != name@,
            decreases self.fields.len() - i,
        {
            if self.fields[i].0 == owned {
                return Some(i as u32);
            }
            i = i + 1;
        }
        None
    }
}

/// The interned string literals of a module. Each string occurs once.
#[derive(Debug)]
pub struct StringTable {
    strings: Vec<String>,
}

impl Clone for StringTable {
    fn clone(&self) -> (r: Self)
        ensures
            r@ == self@,
    {
        proof {
            use_type_invariant(self);
        }
        let ghost v = self@;
        let mut strings: Vec<String> = Vec::new();
        let mut i: usize = 0;
        while i < self.strings.len()
            invariant
                i <= self.strings.len(),
                v == self.strings@.map_values(|s: String| s@),
                all_distinct(v),
                strings@.len() == i,
                strings@.map_values(|s: String| s@) == v.take(i as int),
            decreases self.strings.len() - i,
        {
            let c = self.strings[i].clone();
            let ghost before = strings@;
            strings.push(c);
            proof {
                assert(v[i as int] == self.strings@[i as int]@);
                assert(strings@[i as int] == c);
                assert forall|j: int| 0 <= j < i implies strings@[j] == before[j] by {}
                assert(before.map_values(|s: String| s@) == v.take(i as int));
                let w = strings@.map_values(|s: String| s@);
                let w0 = before.map_values(|s: String| s@);
                assert forall|j: int| 0 <= j < i + 1 implies #[trigger] w[j] == v.take(i + 1)[j] by {
                    if j < i {
                        assert(w0[j] == v.take(i as int)[j]);
                    }
                }
                assert(strings@.map_values(|s: String| s@) =~= v.take(i + 1));
            }
            i = i + 1;
        }
        proof {
            assert(v.take(i as int) =~= v);
        }
        StringTable { strings }
    }
}

/// Whether no string occurs twice.
pub open spec fn all_distinct(s: Seq<Seq<char>>) -> bool {
    forall|i: int, j: int| 0 <= i < j < s.len() ==> s[i] != s[j]
}

/// The table after adding `s`, and the index that `add` returns: the
/// position of `s` where it is already present, else a new last position.
pub open spec fn table_add(t: Seq<Seq<char>>, s: Seq<char>) -> (Seq<Seq<char>>, int) {
    if exists|i: int| 0 <= i < t.len() && t[i] == s {
        (t, choose|i: int| 0 <= i < t.len() && t[i] == s)
    } else {
        (t.push(s), t.len() as int)
    }
}

impl View for StringTable {
    type V = Seq<Seq<char>>;

    closed spec fn view(&self) -> Seq<Seq<char>> {
        self.strings@.map_values(|s: String| s@)
    }
}

impl StringTable {
    /// No string occurs twice in the table.
    #[verifier::type_invariant]
    spec fn inv(&self) -> bool {
        all_distinct(self.strings@.map_values(|s: String| s@))
    }

    pub fn new() -> (t: Self)
        ensures
            t@ == Seq::<Seq<char>>::empty(),
    {
        let t = StringTable { strings: Vec::new() };
        assert(t@ =~= Seq::<Seq<char>>::empty());
        t
    }

    /// Interns `s`: returns its index (its position taken as a `u32`),
    /// adding it at the end when it is new.
    pub fn add(&mut self, s: String) -> (idx: u32)
        ensures
            all_distinct(old(self)@),
            all_distinct(final(self)@),
            final(self)@ == table_add(old(self)@, s@).0,
            idx == table_add(old(self)@, s@).1 as u32,
            final(self)@[table_add(old(self)@, s@).1] == s@,
    {
        proof {
            use_type_invariant(&*self);
        }
        let ghost view0 = self@;
        let mut i: usize = 0;
        while i < self.strings.len()
            invariant
                i <= self.strings.len(),
                self@ == view0,
                view0 == self.strings@.map_values(|s: String| s@),
                all_distinct(view0),
                forall|j: int| 0 <= j < i ==> view0[j] != s@,
            decreases self.strings.len() - i,
        {
            if self.strings[i] == s {
                proof {
                    assert(view0[i as int] == s@);
                    let k = choose|k: int| 0 <= k < view0.len() && view0[k] == s@;
                    assert(all_distinct(view0));
                    assert(k == i);
                }
                return i as u32;
            }
            i = i + 1;
        }
        let idx = self.strings.len() as u32;
        let mut strings: Vec<String> = Vec::new();
        std::mem::swap(&mut strings, &mut self.strings);
        proof {
            assert(strings@.map_values(|s: String| s@) == view0);
        }
        strings.push(s);
        proof {
            let v1 = strings@.map_values(|t: String| t@);
            assert(v1 =~= view0.push(s@));
            assert forall|a: int, b: int| 0 <= a < b < v1.len() implies v1[a] != v1[b] by {
                if b == view0.len() {
                    assert(v1[a] == view0[a]);
                }
            }
        }
        self.strings = strings;
        proof {
            assert(self@ =~= view0.push(s@));
        }
        idx
    }

    pub fn get(&self, idx: u32) -> (r: Option<&str>)
        ensures
            idx < self@.len() ==> (r matches Some(t) && t@ == self@[idx as int]),
            idx >= self@.len() ==> r == None::<&str>,
    {
        if (idx as usize) < self.strings.len() {
            Some(self.strings[idx as usize].as_str())
        } else {
            None
        }
    }

    /// The number of strings in the table.
    pub(crate) fn len(&self) -> (r: usize)
        ensures
            r == self@.len(),
    {
        self.strings.len()
    }

    /// The string at position `i`.
    pub(crate) fn entry(&self, i: usize) -> (r: &str)
        requires
            i < self@.len(),
        ensures
            r@ == self@[i as int],
    {
        self.strings[i].as_str()
    }

    /// The entries of the table with their indices, in order. An index is
    /// the position taken as a `u32`.
    pub fn iter(&self) -> (r: Vec<(u32, &str)>)
        ensures
            r@.len() == self@.len(),
            forall|k: int| 0 <= k < r@.len() ==> (#[trigger] r@[k]).0 == k as u32,
            forall|k: int| 0 <= k < r@.len() ==> (#[trigger] r@[k]).1@ == self@[k],
    {
        let ghost v = self@;
        let mut r: Vec<(u32, &str)> = Vec::new();
        let mut i: usize = 0;
        while i < self.strings.len()
            invariant
                i <= self.strings.len(),
                v == self@,
                v == self.strings@.map_values(|s: String| s@),
                r@.len() == i,
                forall|j: int| 0 <= j < i ==> (#[trigger] r@[j]).0 == j as u32,
                forall|j: int| 0 <= j < i ==> (#[trigger] r@[j]).1@ == v[j],
            decreases self.strings.len() - i,
        {
            let t = self.strings[i].as_str();
            let ghost r0 = r@;
            r.push((i as u32, t));
            proof {
                assert(v[i as int] == self.strings@[i as int]@);
                assert(r@[i as int].1@ == v[i as int]);
                assert forall|j: int| 0 <= j < i + 1 implies (#[trigger] r@[j]).0 == j as u32 by {
                    if j < i {
                        assert(r@[j] == r0[j]);
                    }
                }
                assert forall|j: int| 0 <= j < i + 1 implies (#[trigger] r@[j]).1@ == v[j] by {
                    if j < i {
                        assert(r@[j] == r0[j]);
                    }
                }
            }
            i = i + 1;
        }
        r
    }
}

#[derive(Debug, Clone)]
pub struct Module {
    pub name: String,
    pub strings: StringTable,
    pub classes: Vec<Class>,
    pub functions: Vec<Function>,
    pub globals: Vec<(String, IrType, Option<Constant>)>,
}

impl Module {
    pub fn new(name: String) -> (m: Self)
        ensures
            m.name == name,
            m.strings@ == Seq::<Seq<char>>::empty(),
            m.classes@ == Seq::<Class>::empty(),
            m.functions@ == Seq::<Function>::empty(),
            m.globals@ == Seq::<(String, IrType, Option<Constant>)>::empty(),
    {
        Module {
            name,
            strings: StringTable::new(),
            classes: Vec::new(),
            functions: Vec::new(),
            globals: Vec::new(),
        }
    }

    /// The first function with the given id.
    pub fn get_function(&self, id: &FuncId) -> (r: Option<&Function>)
        ensures
            match r {
                Some(f) => exists|k: int|
                    0 <= k < self.functions@.len() && *f == self.functions@[k] && self.functions@[k].id@
                        == id@ && forall|j: int| 0 <= j < k ==> self.functions@[j].id@ != id@,
                None => forall|j: int| 0 <= j < self.functions@.len() ==> self.functions@[j].id@ != id@,
            },
    {
        let mut i: usize = 0;
        while i < self.functions.len()
            invariant
                i <= self.functions.len(),
                forall|j: int| 0 <= j < i ==> self.functions@[j].id@ != id@,
            decreases self.functions.len() - i,
        {
            if self.functions[i].id == *id {
                return Some(&self.functions[i]);
            }
            i = i + 1;
        }
        None
    }

    /// The first class with the given id.
    pub fn get_class(&self, id: &ClassId) -> (r: Option<&Class>)
        ensures
            match r {
                Some(c) => exists|k: int|
                    0 <= k < self.classes@.len() && *c == self.classes@[k] && self.classes@[k].id@
                        == id@ && forall|j: int| 0 <= j < k ==> self.classes@[j].id@ != id@,
                None => forall|j: int| 0 <= j < self.classes@.len() ==> self.classes@[j].id@ != id@,
            },
    {
        let mut i: usize = 0;
        while i < self.classes.len()
            invariant
                i <= self.classes.len(),
                forall|j: int| 0 <= j < i ==> self.classes@[j].id@ != id@,
            decreases self.classes.len() - i,
        {
            if self.classes[i].id == *id {
                return Some(&self.classes[i]);
            }
            i = i + 1;
        }
        None
    }
}

/// Interning gives back an index that holds the string, keeps every string
/// at its index, and keeps the table free of repeats.
pub proof fn law_table_add_finds(t: Seq<Seq<char>>, s: Seq<char>)
    requires
        all_distinct(t),
    ensures
        0 <= table_add(t, s).1 < table_add(t, s).0.len(),
        table_add(t, s).0[table_add(t, s).1] == s,
        table_add(t, s).0.take(t.len() as int) == t,
        all_distinct(table_add(t, s).0),
{
    if !(exists|i: int| 0 <= i < t.len() && t[i] == s) {
        let t2 = t.push(s);
        assert(t2.take(t.len() as int) =~= t);
        assert forall|i: int, j: int| 0 <= i < j < t2.len() implies t2[i] != t2[j] by {
            if j == t.len() {
                assert(t2[i] == t[i]);
            }
        }
    } else {
        assert(t.take(t.len() as int) =~= t);
    }
}

/// Interning a string a second time changes nothing and gives the same
/// index.
pub proof fn law_table_add_twice(t: Seq<Seq<char>>, s: Seq<char>)
    requires
        all_distinct(t),
    ensures
        table_add(table_add(t, s).0, s) == table_add(t, s),
{
    law_table_add_finds(t, s);
    let (t2, i) = table_add(t, s);
    assert(exists|k: int| 0 <= k < t2.len() && t2[k] == s);
    let k = choose|k: int| 0 <= k < t2.len() && t2[k] == s;
    assert(k == i);
}

} // verus!
