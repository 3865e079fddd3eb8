use tarqeem_ir::names::{
    bare_method_name, calculate_discriminant, fnv1a, missing_accessor_error, normalize_name,
    unknown_member_error,
};
use tarqeem_ir::opt::loop_opt::{InductionStep, LoopInvariantCodeMotion, LoopUnroller, StrengthReduction};
use tarqeem_ir::opt::{
    CommonSubexprElim, ConstantFolder, DeadCodeEliminator, FunctionInliner, InlineConfig, LoopAnalysis, OptLevel,
    OptStats, Optimizer,
};
use tarqeem_ir::{
    BasicBlock, BinaryOp, BlockId, Class, ClassId, Constant, FieldId, FuncId, Function, Instruction, IrError,
    IrType, MethodId, Module, Parameter, StringTable, TextPiece, UnaryOp, VarId,
};

/// The text of printed IR, with each floating-point constant written with
/// six digits after the point.
fn text_of(pieces: Vec<TextPiece>) -> String {
    let mut out = String::new();
    for p in pieces {
        match p {
            TextPiece::Text(t) => out.push_str(&t),
            TextPiece::Float(bits) => out.push_str(&format!("{:.6}", f64::from_bits(bits))),
        }
    }
    out
}

fn int_const(dest: u32, value: i64) -> Instruction {
    Instruction::Const { dest: VarId(dest), value: Constant::Int(value), ty: IrType::Int }
}

fn binary(dest: u32, op: BinaryOp, left: u32, right: u32) -> Instruction {
    Instruction::Binary { dest: VarId(dest), op, left: VarId(left), right: VarId(right), ty: IrType::Int }
}

fn function_with(name: &str, blocks: Vec<BasicBlock>) -> Function {
    let mut f = Function::new(FuncId(name.to_string()), name.to_string(), vec![], IrType::Int);
    f.blocks = blocks;
    f
}

fn block_with(id: u32, insts: Vec<Instruction>) -> BasicBlock {
    let mut b = BasicBlock::new(BlockId(id));
    b.instructions = insts;
    b
}

fn module_with(functions: Vec<Function>) -> Module {
    let mut m = Module::new("test".to_string());
    m.functions = functions;
    m
}

fn instruction_count(f: &Function) -> usize {
    f.blocks.iter().map(|b| b.instructions.len()).sum()
}

// ---------------------------------------------------------------------------
// Names, errors and discriminants
// ---------------------------------------------------------------------------

#[test]
fn normalize_name_composes_decomposed_letters() {
    assert_eq!(normalize_name("e\u{301}"), "\u{e9}");
    assert_eq!(normalize_name("\u{627}\u{653}"), "\u{622}");
    assert_eq!(normalize_name("عدد"), "عدد");
}

#[test]
fn fnv1a_known_values() {
    assert_eq!(fnv1a(b""), 2166136261);
    assert_eq!(fnv1a(b"a"), 0xe40c292c);
    assert_eq!(fnv1a(b"foobar"), 0xbf9cf968);
}

#[test]
fn discriminant_hashes_the_normalized_name() {
    assert_eq!(calculate_discriminant(""), 2166136261);
    assert_eq!(calculate_discriminant("a"), 0xe40c292c);
    assert_eq!(calculate_discriminant("e\u{301}"), calculate_discriminant("\u{e9}"));
    assert_eq!(calculate_discriminant("e\u{301}"), fnv1a("\u{e9}".as_bytes()));
    assert_ne!(calculate_discriminant("أحمر"), calculate_discriminant("أخضر"));
}

#[test]
fn bare_method_name_keeps_the_last_part() {
    assert_eq!(bare_method_name("Person::get_name"), "get_name");
    assert_eq!(bare_method_name("a::b::c"), "c");
    assert_eq!(bare_method_name("plain"), "plain");
    assert_eq!(bare_method_name("Class::"), "");
    assert_eq!(bare_method_name("صنف::اسم"), "اسم");
}

#[test]
fn ir_error_holds_its_message() {
    let e = IrError::new("boom".to_string());
    assert_eq!(e.message, "boom");
}

#[test]
fn unknown_member_error_names_class_and_member() {
    let e = unknown_member_error("Point", "z");
    assert_eq!(
        e.message,
        "العضو 'z' غير موجود في تخطيط الصنف 'Point' ولا في أي من أصوله / member 'z' is missing from the layout of class 'Point' and all of its ancestors"
    );
}

#[test]
fn missing_accessor_error_for_read_and_write() {
    let read = missing_accessor_error("Box", "size", true);
    assert_eq!(
        read.message,
        "لا يمكن قراءة الخاصية 'size' في الصنف 'Box': لا تملك مُلحق 'احصل' / cannot read property 'size' on class 'Box': it declares no 'احصل' accessor"
    );
    let write = missing_accessor_error("Box", "size", false);
    assert_eq!(
        write.message,
        "لا يمكن التعيين إلى الخاصية 'size' في الصنف 'Box': لا تملك مُلحق 'عيّن' / cannot assign to property 'size' on class 'Box': it declares no 'عيّن' accessor"
    );
}

// ---------------------------------------------------------------------------
// Text forms
// ---------------------------------------------------------------------------

#[test]
fn identifiers_and_types_print() {
    assert_eq!(VarId(7).to_string(), "%7");
    assert_eq!(BlockId(12).to_string(), "bb12");
    let f = FieldId { class: ClassId("P".to_string()), name: "x".to_string(), index: 0 };
    assert_eq!(f.to_string(), "%class.P.x");
    let m = MethodId { class: ClassId("P".to_string()), name: "m".to_string() };
    assert_eq!(m.to_string(), "%class.P::m");
    let t = IrType::Array(Box::new(IrType::Ptr(Box::new(IrType::Struct(ClassId("P".to_string()))))), 3);
    assert_eq!(t.to_string(), "[3 x *%class.P]");
    let g = IrType::Function { params: vec![IrType::String], ret: Box::new(IrType::Void) };
    assert_eq!(g.to_string(), "fn(str) -> void");
    assert_eq!(UnaryOp::BitNot.to_string(), "bitnot");
}

#[test]
fn instructions_print() {
    let cases: Vec<(Instruction, &str)> = vec![
        (
            Instruction::Call { dest: None, func: FuncId("print".to_string()), args: vec![VarId(0), VarId(1)], ret_ty: IrType::Void },
            "call @print(%0, %1)",
        ),
        (
            Instruction::Call { dest: Some(VarId(2)), func: FuncId("add".to_string()), args: vec![VarId(0), VarId(1)], ret_ty: IrType::Int },
            "%2: i64 = call @add(%0, %1)",
        ),
        (
            Instruction::CallVirtual { dest: Some(VarId(3)), object: VarId(1), method_index: 2, args: vec![], ret_ty: IrType::Void },
            "%3: void = call_virtual %1, #2()",
        ),
        (
            Instruction::CallIndirect { dest: None, func_ptr: VarId(4), args: vec![VarId(5)], ret_ty: IrType::Int },
            "call_indirect %4(%5)",
        ),
        (
            Instruction::Phi { dest: VarId(4), ty: IrType::Int, incoming: vec![(VarId(1), BlockId(0)), (VarId(2), BlockId(1))] },
            "%4: i64 = phi [%1, bb0], [%2, bb1]",
        ),
        (
            Instruction::GetField {
                dest: VarId(5),
                object: VarId(0),
                field: FieldId { class: ClassId("P".to_string()), name: "x".to_string(), index: 0 },
                ty: IrType::Int,
            },
            "%5: i64 = getfield %0, %class.P.x",
        ),
        (
            Instruction::SetField {
                object: VarId(0),
                field: FieldId { class: ClassId("P".to_string()), name: "x".to_string(), index: 0 },
                value: VarId(5),
            },
            "setfield %0, %class.P.x, %5",
        ),
        (
            Instruction::CallMethod {
                dest: None,
                object: VarId(0),
                method: MethodId { class: ClassId("P".to_string()), name: "m".to_string() },
                args: vec![VarId(1)],
                ret_ty: IrType::Void,
            },
            "call_method %0, %class.P::m(%1)",
        ),
        (Instruction::NewObject { dest: VarId(6), class: ClassId("P".to_string()) }, "%6: %class.P = new %class.P"),
        (
            Instruction::NewArray { dest: VarId(7), elem_ty: IrType::Int, elements: vec![VarId(1), VarId(2)] },
            "%7: [i64] = array [%1, %2]",
        ),
        (Instruction::ArrayPush { array: VarId(7), value: VarId(1), elem_ty: IrType::Int }, "array_push %7, %1: i64"),
        (Instruction::ArrayLen { dest: VarId(8), array: VarId(7) }, "%8: i64 = array_len %7"),
        (
            Instruction::ArrayGet { dest: VarId(9), array: VarId(7), index: VarId(1), elem_ty: IrType::Int },
            "%9: i64 = array_get %7, %1",
        ),
        (Instruction::ArraySet { array: VarId(7), index: VarId(1), value: VarId(2) }, "array_set %7, %1, %2"),
        (Instruction::TryBegin { catch_block: BlockId(3) }, "try_begin catch=bb3"),
        (Instruction::TryEnd, "try_end"),
        (Instruction::Throw { exception: VarId(1) }, "throw %1"),
        (Instruction::GetException { dest: VarId(8) }, "%8: exception = get_exception"),
        (Instruction::Alloca { dest: VarId(9), ty: IrType::Int }, "%9: *i64 = alloca i64"),
        (
            Instruction::GetElementPtr { dest: VarId(10), ptr: VarId(9), index: VarId(1), elem_ty: IrType::Int },
            "%10: *i64 = gep %9, %1",
        ),
        (Instruction::Load { dest: VarId(3), ptr: VarId(9), ty: IrType::Int }, "%3: i64 = load %9"),
        (Instruction::Store { ptr: VarId(9), value: VarId(3) }, "store %3, %9"),
        (
            Instruction::GlobalLoad { dest: VarId(11), name: "g".to_string(), ty: IrType::Int },
            "%11: i64 = global_load @g",
        ),
        (Instruction::GlobalStore { name: "g".to_string(), value: VarId(11) }, "global_store @g, %11"),
        (Instruction::Return { value: None }, "ret void"),
        (Instruction::Copy { dest: VarId(12), src: VarId(1), ty: IrType::Int }, "%12: i64 = copy %1"),
        (Instruction::StringConcat { dest: VarId(13), left: VarId(1), right: VarId(2) }, "%13: str = string_concat %1, %2"),
        (Instruction::ToString { dest: VarId(14), src: VarId(1) }, "%14: str = to_string %1"),
        (Instruction::IntToFloat { dest: VarId(15), src: VarId(1) }, "%15: f64 = int_to_float %1"),
        (Instruction::FloatToInt { dest: VarId(16), src: VarId(15) }, "%16: i64 = float_to_int %15"),
        (Instruction::Bitcast { dest: VarId(17), src: VarId(9), to_ty: IrType::String }, "%17: str = bitcast %9"),
        (
            Instruction::Unary { dest: VarId(18), op: UnaryOp::Neg, operand: VarId(1), ty: IrType::Int },
            "%18: i64 = neg %1",
        ),
        (
            Instruction::Branch { cond: VarId(0), then_block: BlockId(1), else_block: BlockId(2) },
            "branch %0, bb1, bb2",
        ),
        (Instruction::Jump { target: BlockId(4) }, "jump bb4"),
        (Instruction::Print { value: VarId(1) }, "print %1"),
        (Instruction::Nop, "nop"),
        (
            Instruction::Const { dest: VarId(19), value: Constant::String(3), ty: IrType::String },
            "%19: str = const str#3",
        ),
        (
            Instruction::Const { dest: VarId(20), value: Constant::Null, ty: IrType::Ptr(Box::new(IrType::Void)) },
            "%20: *void = const null",
        ),
    ];
    for (inst, expected) in cases {
        assert_eq!(text_of(inst.render()), expected);
    }
}

#[test]
fn float_constant_is_left_as_a_piece() {
    let bits = 2.5f64.to_bits();
    let inst = Instruction::Const { dest: VarId(0), value: Constant::Float(bits), ty: IrType::Float };
    let pieces = inst.render();
    assert_eq!(pieces, vec![TextPiece::Text("%0: f64 = const ".to_string()), TextPiece::Float(bits)]);
    assert_eq!(text_of(pieces), "%0: f64 = const 2.500000");
    assert_eq!(Constant::Float(bits).render(), vec![TextPiece::Float(bits)]);
    assert_eq!(Constant::Int(-7).render(), vec![TextPiece::Text("-7".to_string())]);
}

#[test]
fn block_prints_label_and_indented_instructions() {
    let mut b = BasicBlock::with_label(BlockId(2), "loop".to_string());
    b.instructions = vec![int_const(0, 1), Instruction::Jump { target: BlockId(2) }];
    assert_eq!(text_of(b.render()), "bb2:  ; loop\n    %0: i64 = const 1\n    jump bb2\n");
    let plain = block_with(0, vec![Instruction::Return { value: None }]);
    assert_eq!(text_of(plain.render()), "bb0:\n    ret void\n");
}

#[test]
fn function_prints_parameters_and_blocks() {
    let mut f = Function::new(
        FuncId("add".to_string()),
        "add".to_string(),
        vec![
            Parameter { id: VarId(0), name: "a".to_string(), ty: IrType::Int },
            Parameter { id: VarId(1), name: "b".to_string(), ty: IrType::Int },
        ],
        IrType::Int,
    );
    f.blocks.push(block_with(0, vec![binary(2, BinaryOp::Add, 0, 1), Instruction::Return { value: Some(VarId(2)) }]));
    assert_eq!(
        text_of(f.render()),
        "fn @add(%0: i64, %1: i64) -> i64 {\nbb0:\n    %2: i64 = add %0, %1\n    ret %2\n}\n"
    );
}

#[test]
fn module_prints_every_section() {
    let mut m = Module::new("demo".to_string());
    m.strings.add("hi".to_string());
    m.strings.add("say \"x\"".to_string());
    let mut c = Class::new(ClassId("Point".to_string()), "Point".to_string());
    c.fields = vec![("x".to_string(), IrType::Int), ("y".to_string(), IrType::Float)];
    m.classes.push(c);
    let half = 0.5f64.to_bits();
    m.globals = vec![
        ("count".to_string(), IrType::Int, Some(Constant::Int(3))),
        ("ratio".to_string(), IrType::Float, Some(Constant::Float(half))),
        ("flag".to_string(), IrType::Bool, None),
    ];
    let mut main = Function::new(FuncId("main".to_string()), "main".to_string(), vec![], IrType::Int);
    let mut entry = BasicBlock::with_label(BlockId(0), "entry".to_string());
    entry.instructions = vec![int_const(0, 1), Instruction::Return { value: Some(VarId(0)) }];
    main.blocks.push(entry);
    m.functions.push(main);

    let pieces = m.render();
    assert_eq!(pieces.len(), 3);
    assert_eq!(pieces[1], TextPiece::Float(half));
    assert_eq!(
        text_of(pieces),
        "; Module: demo\n\n\
         ; String table\n\
         ;   str#0 = \"hi\"\n\
         ;   str#1 = \"say \\\"x\\\"\"\n\n\
         ; Class: Point\n\
         struct %class.Point {\n    x: i64\n    y: f64\n}\n\n\
         global @count: i64 = 3\n\
         global @ratio: f64 = 0.500000\n\
         global @flag: bool\n\n\
         fn @main() -> i64 {\nbb0:  ; entry\n    %0: i64 = const 1\n    ret %0\n}\n\n"
    );
}

#[test]
fn empty_module_prints_only_its_name() {
    let m = Module::new("empty".to_string());
    assert_eq!(text_of(m.render()), "; Module: empty\n\n");
}

#[test]
fn opt_stats_report() {
    let s = OptStats { constants_folded: 2, cse_hits: 1, ..Default::default() };
    assert_eq!(
        s.to_string(),
        "Optimization Statistics:\n  Constants folded: 2\n  Dead instructions removed: 0\n  Dead blocks removed: 0\n  CSE hits: 1\n  Functions inlined: 0\n"
    );
    let l = OptStats { loops_detected: 1, loop_invariants_hoisted: 4, ..Default::default() };
    assert!(l.to_string().ends_with("  Loops detected: 1\n  Loop invariants hoisted: 4\n"));
}

// ---------------------------------------------------------------------------
// Optimization levels and statistics
// ---------------------------------------------------------------------------

#[test]
fn opt_level_flags_read_back() {
    for level in [OptLevel::O0, OptLevel::O1, OptLevel::O2, OptLevel::O3] {
        assert_eq!(level.to_string().parse::<OptLevel>().unwrap(), level);
    }
    assert_eq!(OptLevel::O2.to_string(), "-O2");
    assert_eq!(OptLevel::default(), OptLevel::O0);
}

#[test]
fn opt_level_rejects_unknown_text() {
    assert_eq!("fast".parse::<OptLevel>(), Err("Unknown optimization level: fast".to_string()));
    assert_eq!(OptLevel::parse("O4"), Err("Unknown optimization level: O4".to_string()));
    assert_eq!(OptLevel::parse("-O1"), Ok(OptLevel::O1));
    assert!(OptLevel::O1 < OptLevel::O3);
}

#[test]
fn stats_merge_with_zero_and_in_either_order() {
    let a = OptStats { constants_folded: 3, loops_detected: 2, ..Default::default() };
    let b = OptStats { cse_hits: 5, dead_blocks_removed: 1, ..Default::default() };
    let mut ab = a.clone();
    ab.merge(&b);
    let mut ba = b.clone();
    ba.merge(&a);
    assert_eq!(ab.constants_folded, ba.constants_folded);
    assert_eq!(ab.cse_hits, ba.cse_hits);
    assert_eq!(ab.loops_detected, ba.loops_detected);
    assert_eq!(ab.dead_blocks_removed, ba.dead_blocks_removed);
    let mut z = a.clone();
    z.merge(&OptStats::new());
    assert_eq!(z.constants_folded, 3);
    assert_eq!(z.loops_detected, 2);
    let only_loops = OptStats { loops_detected: 1, ..Default::default() };
    assert!(!only_loops.any_changes());
    let mut merged = only_loops.clone();
    merged.merge(&b);
    assert_eq!(merged.any_changes(), only_loops.any_changes() || b.any_changes());
}

// ---------------------------------------------------------------------------
// String table and module lookups
// ---------------------------------------------------------------------------

#[test]
fn string_table_interns_once() {
    let mut t = StringTable::new();
    let a = t.add("x".to_string());
    let b = t.add("y".to_string());
    let again = t.add("x".to_string());
    assert_eq!((a, b, again), (0, 1, 0));
    assert_eq!(t.get(0), Some("x"));
    assert_eq!(t.get(2), None);
    let entries = t.iter();
    assert_eq!(entries, vec![(0, "x"), (1, "y")]);
}

#[test]
fn class_field_index_finds_the_first_match() {
    let mut c = Class::new(ClassId("P".to_string()), "P".to_string());
    c.fields = vec![("x".to_string(), IrType::Int), ("y".to_string(), IrType::Int), ("x".to_string(), IrType::Bool)];
    assert_eq!(c.field_index("x"), Some(0));
    assert_eq!(c.field_index("y"), Some(1));
    assert_eq!(c.field_index("z"), None);
}

#[test]
fn module_and_function_lookups() {
    let mut m = module_with(vec![function_with("f", vec![block_with(0, vec![]), block_with(3, vec![])])]);
    m.classes.push(Class::new(ClassId("C".to_string()), "C".to_string()));
    assert!(m.get_function(&FuncId("f".to_string())).is_some());
    assert!(m.get_function(&FuncId("g".to_string())).is_none());
    assert!(m.get_class(&ClassId("C".to_string())).is_some());
    let f = &m.functions[0];
    assert_eq!(f.entry_block().map(|b| b.id), Some(BlockId(0)));
    assert_eq!(f.get_block(BlockId(3)).map(|b| b.id), Some(BlockId(3)));
    assert!(f.get_block(BlockId(1)).is_none());
    let empty = function_with("e", vec![]);
    assert!(empty.entry_block().is_none());
}

// ---------------------------------------------------------------------------
// Passes
// ---------------------------------------------------------------------------

#[test]
fn folding_twice_changes_nothing_more() {
    let f = function_with(
        "f",
        vec![block_with(
            0,
            vec![
                int_const(0, 6),
                int_const(1, 7),
                binary(2, BinaryOp::Mul, 0, 1),
                binary(3, BinaryOp::Sub, 2, 0),
                Instruction::Return { value: Some(VarId(3)) },
            ],
        )],
    );
    let mut m = module_with(vec![f]);
    let mut first = ConstantFolder::new();
    first.run(&mut m);
    assert_eq!(first.stats().constants_folded, 2);
    assert_eq!(m.functions[0].blocks[0].instructions.len(), 5);
    assert_eq!(m.functions[0].blocks[0].instructions[3], int_const(3, 36));
    let before = m.functions[0].blocks[0].instructions.clone();
    let mut second = ConstantFolder::new();
    second.run(&mut m);
    assert_eq!(second.stats().constants_folded, 0);
    assert_eq!(m.functions[0].blocks[0].instructions, before);
}

#[test]
fn folding_powers_wraps() {
    let f = function_with(
        "f",
        vec![block_with(
            0,
            vec![
                int_const(0, 2),
                int_const(1, 10),
                binary(2, BinaryOp::Pow, 0, 1),
                int_const(3, 3),
                int_const(4, 41),
                binary(5, BinaryOp::Pow, 3, 4),
                int_const(6, -1),
                binary(7, BinaryOp::Pow, 0, 6),
                Instruction::Return { value: None },
            ],
        )],
    );
    let mut m = module_with(vec![f]);
    let mut folder = ConstantFolder::new();
    folder.run(&mut m);
    let insts = &m.functions[0].blocks[0].instructions;
    assert_eq!(insts[2], int_const(2, 1024));
    assert_eq!(insts[5], int_const(5, 3i64.wrapping_pow(41)));
    assert_eq!(insts[7], binary(7, BinaryOp::Pow, 0, 6));
    assert_eq!(folder.stats().constants_folded, 2);
}

#[test]
fn folding_float_negation_flips_the_sign() {
    let bits = 1.5f64.to_bits();
    let f = function_with(
        "f",
        vec![block_with(
            0,
            vec![
                Instruction::Const { dest: VarId(0), value: Constant::Float(bits), ty: IrType::Float },
                Instruction::Unary { dest: VarId(1), op: UnaryOp::Neg, operand: VarId(0), ty: IrType::Float },
                Instruction::Return { value: Some(VarId(1)) },
            ],
        )],
    );
    let mut m = module_with(vec![f]);
    let mut folder = ConstantFolder::new();
    folder.run(&mut m);
    assert_eq!(
        m.functions[0].blocks[0].instructions[1],
        Instruction::Const { dest: VarId(1), value: Constant::Float((-1.5f64).to_bits()), ty: IrType::Float }
    );
}

#[test]
fn cse_removes_one_instruction_per_hit() {
    let f = function_with(
        "f",
        vec![block_with(
            0,
            vec![
                binary(2, BinaryOp::Add, 0, 1),
                binary(3, BinaryOp::Mul, 0, 1),
                binary(4, BinaryOp::Add, 1, 0),
                binary(5, BinaryOp::Mul, 1, 0),
                binary(6, BinaryOp::Sub, 4, 5),
                Instruction::Return { value: Some(VarId(6)) },
            ],
        )],
    );
    let mut m = module_with(vec![f]);
    let mut cse = CommonSubexprElim::new();
    cse.run(&mut m);
    assert_eq!(cse.stats().cse_hits, 2);
    let insts = &m.functions[0].blocks[0].instructions;
    assert_eq!(insts.len(), 6 - 2);
    assert_eq!(insts[2], binary(6, BinaryOp::Sub, 2, 3));
}

#[test]
fn dce_keeps_entry_and_side_effects() {
    let f = function_with(
        "f",
        vec![
            block_with(
                0,
                vec![
                    int_const(0, 1),
                    int_const(1, 2),
                    Instruction::Print { value: VarId(0) },
                    Instruction::Store { ptr: VarId(0), value: VarId(0) },
                    Instruction::Jump { target: BlockId(2) },
                ],
            ),
            block_with(1, vec![Instruction::Return { value: None }]),
            block_with(2, vec![Instruction::Return { value: None }]),
        ],
    );
    let mut m = module_with(vec![f]);
    let mut dce = DeadCodeEliminator::new();
    dce.run(&mut m);
    let f = &m.functions[0];
    assert_eq!(f.blocks[0].id, BlockId(0));
    assert_eq!(f.blocks.len(), 2);
    assert_eq!(
        f.blocks[0].instructions,
        vec![
            int_const(0, 1),
            Instruction::Print { value: VarId(0) },
            Instruction::Store { ptr: VarId(0), value: VarId(0) },
            Instruction::Jump { target: BlockId(2) },
        ]
    );
    assert_eq!(dce.stats().dead_blocks_removed, 1);
    assert_eq!(dce.stats().dead_instructions_removed, 1);
}

#[test]
fn inlining_splits_the_caller() {
    let mut helper = Function::new(
        FuncId("helper".to_string()),
        "helper".to_string(),
        vec![Parameter { id: VarId(0), name: "x".to_string(), ty: IrType::Int }],
        IrType::Int,
    );
    helper.blocks.push(block_with(0, vec![Instruction::Return { value: Some(VarId(0)) }]));
    let main = function_with(
        "main",
        vec![block_with(
            0,
            vec![
                int_const(0, 5),
                Instruction::Call {
                    dest: Some(VarId(1)),
                    func: FuncId("helper".to_string()),
                    args: vec![VarId(0)],
                    ret_ty: IrType::Int,
                },
                Instruction::Return { value: Some(VarId(1)) },
            ],
        )],
    );
    let mut m = module_with(vec![helper, main]);
    let mut inliner = FunctionInliner::new();
    inliner.run(&mut m);
    assert_eq!(inliner.stats().functions_inlined, 1);
    let main = &m.functions[1];
    assert_eq!(main.blocks.len(), 3);
    assert_eq!(main.blocks[0].instructions, vec![int_const(0, 5), Instruction::Jump { target: BlockId(1) }]);
    assert_eq!(main.blocks[1].id, BlockId(1));
    assert_eq!(main.blocks[1].instructions, vec![Instruction::Jump { target: BlockId(2) }]);
    assert_eq!(main.blocks[2].id, BlockId(2));
    assert_eq!(
        main.blocks[2].instructions,
        vec![
            Instruction::Copy { dest: VarId(1), src: VarId(0), ty: IrType::Int },
            Instruction::Return { value: Some(VarId(1)) },
        ]
    );
    assert_eq!(m.functions[0].blocks.len(), 1);
}

#[test]
fn inliner_leaves_recursive_and_large_functions() {
    let rec = function_with(
        "rec",
        vec![block_with(
            0,
            vec![
                Instruction::Call { dest: Some(VarId(0)), func: FuncId("rec".to_string()), args: vec![], ret_ty: IrType::Int },
                Instruction::Return { value: Some(VarId(0)) },
            ],
        )],
    );
    let big = function_with("big", vec![block_with(0, vec![int_const(0, 1), int_const(1, 2), Instruction::Return { value: None }])]);
    let caller = function_with(
        "caller",
        vec![block_with(
            0,
            vec![
                Instruction::Call { dest: Some(VarId(0)), func: FuncId("rec".to_string()), args: vec![], ret_ty: IrType::Int },
                Instruction::Call { dest: None, func: FuncId("big".to_string()), args: vec![], ret_ty: IrType::Void },
                Instruction::Return { value: Some(VarId(0)) },
            ],
        )],
    );
    let tiny = function_with("tiny", vec![block_with(0, vec![Instruction::Return { value: None }])]);
    let config = InlineConfig { max_instructions: 2, ..Default::default() };
    let mut m = module_with(vec![rec, big, caller, tiny]);
    let inliner = FunctionInliner::with_config(config);
    let candidates = inliner.find_inline_candidates(&m);
    assert!(!candidates.contains(&FuncId("rec".to_string())));
    assert!(!candidates.contains(&FuncId("big".to_string())));
    assert!(!candidates.contains(&FuncId("caller".to_string())));
    assert!(candidates.contains(&FuncId("tiny".to_string())));
    let mut inliner = inliner;
    inliner.run(&mut m);
    assert_eq!(inliner.stats().functions_inlined, 0);
    assert_eq!(m.functions[2].blocks.len(), 1);
}

#[test]
fn loop_analysis_shapes() {
    let mut bb0 = block_with(0, vec![Instruction::Jump { target: BlockId(1) }]);
    bb0.successors = vec![BlockId(1)];
    let mut bb1 = block_with(1, vec![Instruction::Branch { cond: VarId(0), then_block: BlockId(2), else_block: BlockId(3) }]);
    bb1.successors = vec![BlockId(2), BlockId(3)];
    let mut bb2 = block_with(2, vec![Instruction::Jump { target: BlockId(1) }]);
    bb2.successors = vec![BlockId(1)];
    let bb3 = block_with(3, vec![Instruction::Return { value: None }]);
    let f = function_with("f", vec![bb0, bb1, bb2, bb3]);
    let a = LoopAnalysis::analyze(&f);
    assert_eq!(a.loops.len(), 1);
    let l = &a.loops[0];
    assert_eq!(l.header, BlockId(1));
    assert_eq!(l.back_edges, vec![BlockId(2)]);
    assert_eq!(l.blocks, vec![BlockId(1), BlockId(2)]);
    assert_eq!(l.exits, vec![BlockId(1)]);
    assert_eq!(l.preheader, Some(BlockId(0)));
    assert_eq!(l.depth, 0);
    assert!(l.contains(BlockId(2)));
    assert_eq!(a.block_to_loop.get(&1), Some(&0));
    assert_eq!(a.block_to_loop.get(&2), Some(&0));
    assert_eq!(a.block_to_loop.get(&0), None);
    let straight = function_with("g", vec![block_with(0, vec![Instruction::Return { value: None }])]);
    assert!(LoopAnalysis::analyze(&straight).loops.is_empty());
}

#[test]
fn hoisting_keeps_every_instruction() {
    let mut bb0 = block_with(0, vec![int_const(0, 1), Instruction::Jump { target: BlockId(1) }]);
    bb0.successors = vec![BlockId(1)];
    let mut bb1 = block_with(
        1,
        vec![
            int_const(1, 10),
            binary(2, BinaryOp::Add, 0, 1),
            Instruction::Print { value: VarId(2) },
            Instruction::Branch { cond: VarId(0), then_block: BlockId(1), else_block: BlockId(2) },
        ],
    );
    bb1.successors = vec![BlockId(1), BlockId(2)];
    let bb2 = block_with(2, vec![Instruction::Return { value: None }]);
    let f = function_with("f", vec![bb0, bb1, bb2]);
    let count = instruction_count(&f);
    let mut m = module_with(vec![f]);
    let mut licm = LoopInvariantCodeMotion::new();
    licm.run(&mut m);
    let f = &m.functions[0];
    assert_eq!(instruction_count(f), count);
    assert_eq!(licm.stats().loop_invariants_hoisted, 2);
    assert_eq!(licm.stats().dead_instructions_removed, 0);
    assert_eq!(
        f.blocks[0].instructions,
        vec![int_const(0, 1), int_const(1, 10), binary(2, BinaryOp::Add, 0, 1), Instruction::Jump { target: BlockId(1) }]
    );
    assert_eq!(
        f.blocks[1].instructions,
        vec![
            Instruction::Print { value: VarId(2) },
            Instruction::Branch { cond: VarId(0), then_block: BlockId(1), else_block: BlockId(2) },
        ]
    );
}

#[test]
fn optimizer_at_o0_changes_nothing() {
    let f = function_with("f", vec![block_with(0, vec![int_const(0, 1), int_const(1, 2), binary(2, BinaryOp::Add, 0, 1), Instruction::Return { value: None }])]);
    let mut m = module_with(vec![f]);
    let before = m.functions[0].blocks[0].instructions.clone();
    let mut opt = Optimizer::default();
    assert_eq!(opt.level(), OptLevel::O0);
    opt.optimize(&mut m);
    assert_eq!(m.functions[0].blocks[0].instructions, before);
    assert!(!opt.stats().any_changes());
}

#[test]
fn optimizer_stops_once_nothing_changes() {
    let build = || {
        module_with(vec![function_with(
            "f",
            vec![block_with(
                0,
                vec![int_const(0, 2), int_const(1, 3), binary(2, BinaryOp::Add, 0, 1), Instruction::Return { value: Some(VarId(2)) }],
            )],
        )])
    };
    let mut few = build();
    let mut opt_few = Optimizer::new(OptLevel::O2);
    opt_few.set_max_iterations(3);
    opt_few.optimize(&mut few);
    let mut many = build();
    let mut opt_many = Optimizer::new(OptLevel::O2);
    opt_many.set_max_iterations(50);
    opt_many.optimize(&mut many);
    assert_eq!(few.functions[0].blocks[0].instructions, many.functions[0].blocks[0].instructions);
    assert_eq!(opt_few.stats().constants_folded, opt_many.stats().constants_folded);
    assert_eq!(opt_few.stats().dead_instructions_removed, opt_many.stats().dead_instructions_removed);
    assert_eq!(
        many.functions[0].blocks[0].instructions,
        vec![int_const(2, 5), Instruction::Return { value: Some(VarId(2)) }]
    );
}

#[test]
fn blocks_change_in_place() {
    let mut f = function_with("f", vec![block_with(0, vec![]), block_with(4, vec![])]);
    if let Some(b) = f.entry_block_mut() {
        b.label = Some("entry".to_string());
    }
    assert_eq!(f.blocks[0].label, Some("entry".to_string()));
    if let Some(b) = f.get_block_mut(BlockId(4)) {
        b.instructions.push(Instruction::Nop);
    }
    assert_eq!(f.blocks[1].instructions, vec![Instruction::Nop]);
    assert!(f.get_block_mut(BlockId(9)).is_none());
    let mut empty = function_with("e", vec![]);
    assert!(empty.entry_block_mut().is_none());
}

#[test]
fn ir_error_text_is_its_message() {
    let e = unknown_member_error("C", "m");
    assert_eq!(e.to_string(), e.message);
}

/// `for (i = 0; i < 10; i += 1) { t = i * 3 }`: bb0 sets up, bb1 tests,
/// bb2 steps, bb3 leaves.
fn counted_loop() -> Function {
    let mut bb0 = block_with(0, vec![int_const(0, 0), int_const(1, 10), int_const(2, 1), Instruction::Jump { target: BlockId(1) }]);
    bb0.successors = vec![BlockId(1)];
    let mut bb1 = block_with(
        1,
        vec![
            Instruction::Phi { dest: VarId(3), ty: IrType::Int, incoming: vec![(VarId(0), BlockId(0)), (VarId(4), BlockId(2))] },
            binary(5, BinaryOp::Lt, 3, 1),
            Instruction::Branch { cond: VarId(5), then_block: BlockId(2), else_block: BlockId(3) },
        ],
    );
    bb1.successors = vec![BlockId(2), BlockId(3)];
    let mut bb2 = block_with(
        2,
        vec![
            int_const(6, 3),
            binary(7, BinaryOp::Mul, 3, 6),
            binary(4, BinaryOp::Add, 3, 2),
            Instruction::Jump { target: BlockId(1) },
        ],
    );
    bb2.successors = vec![BlockId(1)];
    let bb3 = block_with(3, vec![Instruction::Return { value: None }]);
    function_with("count", vec![bb0, bb1, bb2, bb3])
}

#[test]
fn induction_variable_of_a_counted_loop() {
    let a = LoopAnalysis::analyze(&counted_loop());
    assert_eq!(a.loops.len(), 1);
    let l = &a.loops[0];
    assert_eq!(l.induction_vars.len(), 1);
    let iv = &l.induction_vars[0];
    assert_eq!(iv.var, VarId(3));
    assert_eq!(iv.init, VarId(0));
    assert!(matches!(iv.step, InductionStep::Constant(1)));
    assert_eq!(iv.final_val, None);
}

#[test]
fn strength_reduction_reports_no_rewrite() {
    let mut m = module_with(vec![counted_loop()]);
    let before = m.functions[0].blocks[2].instructions.clone();
    let mut sr = StrengthReduction::new();
    sr.run(&mut m);
    assert!(!sr.stats().any_changes());
    assert_eq!(sr.stats().constants_folded, 0);
    assert_eq!(m.functions[0].blocks[2].instructions, before);
}

#[test]
fn unroller_counts_loops_with_known_trip_counts() {
    let mut m = module_with(vec![counted_loop()]);
    let mut unroller = LoopUnroller::new();
    unroller.set_unroll_factor(2);
    unroller.run(&mut m);
    assert_eq!(unroller.stats().constants_folded, 1);
    let mut small = LoopUnroller::new();
    small.set_max_body_size(6);
    small.run(&mut m);
    assert_eq!(small.stats().constants_folded, 0);
}

#[test]
fn module_doc_example_prints() {
    let mut f = Function::new(
        FuncId("add".to_string()),
        "add".to_string(),
        vec![
            Parameter { id: VarId(0), name: "a".to_string(), ty: IrType::Int },
            Parameter { id: VarId(1), name: "b".to_string(), ty: IrType::Int },
        ],
        IrType::Int,
    );
    let mut entry = BasicBlock::with_label(BlockId(0), "entry".to_string());
    entry.instructions = vec![binary(2, BinaryOp::Add, 0, 1), Instruction::Return { value: Some(VarId(2)) }];
    f.blocks.push(entry);
    assert_eq!(
        text_of(f.render()),
        "fn @add(%0: i64, %1: i64) -> i64 {\nbb0:  ; entry\n    %2: i64 = add %0, %1\n    ret %2\n}\n"
    );
}

#[test]
fn cse_doc_example() {
    let f = function_with(
        "f",
        vec![block_with(
            0,
            vec![
                binary(1, BinaryOp::Add, 10, 11),
                binary(2, BinaryOp::Mul, 1, 12),
                binary(3, BinaryOp::Add, 10, 11),
                binary(4, BinaryOp::Mul, 3, 13),
            ],
        )],
    );
    let mut m = module_with(vec![f]);
    let mut cse = CommonSubexprElim::new();
    cse.run(&mut m);
    assert_eq!(
        m.functions[0].blocks[0].instructions,
        vec![binary(1, BinaryOp::Add, 10, 11), binary(2, BinaryOp::Mul, 1, 12), binary(4, BinaryOp::Mul, 1, 13)]
    );
}

#[test]
fn cse_replaces_reads_in_later_blocks() {
    let f = function_with(
        "f",
        vec![
            block_with(0, vec![binary(2, BinaryOp::Add, 0, 1), binary(3, BinaryOp::Add, 0, 1), Instruction::Jump { target: BlockId(1) }]),
            block_with(1, vec![Instruction::Return { value: Some(VarId(3)) }]),
        ],
    );
    let mut m = module_with(vec![f]);
    let mut cse = CommonSubexprElim::new();
    cse.run(&mut m);
    assert_eq!(cse.stats().cse_hits, 1);
    assert_eq!(m.functions[0].blocks[1].instructions, vec![Instruction::Return { value: Some(VarId(2)) }]);
}

#[test]
fn cse_replaces_every_operand() {
    let f = function_with(
        "f",
        vec![block_with(
            0,
            vec![
                binary(2, BinaryOp::Mul, 0, 1),
                binary(3, BinaryOp::Mul, 0, 1),
                Instruction::IntToFloat { dest: VarId(5), src: VarId(3) },
                Instruction::ToString { dest: VarId(6), src: VarId(3) },
                Instruction::ArrayPush { array: VarId(7), value: VarId(3), elem_ty: IrType::Int },
                Instruction::GlobalStore { name: "g".to_string(), value: VarId(3) },
            ],
        )],
    );
    let mut m = module_with(vec![f]);
    let mut cse = CommonSubexprElim::new();
    cse.run(&mut m);
    assert_eq!(
        m.functions[0].blocks[0].instructions,
        vec![
            binary(2, BinaryOp::Mul, 0, 1),
            Instruction::IntToFloat { dest: VarId(5), src: VarId(2) },
            Instruction::ToString { dest: VarId(6), src: VarId(2) },
            Instruction::ArrayPush { array: VarId(7), value: VarId(2), elem_ty: IrType::Int },
            Instruction::GlobalStore { name: "g".to_string(), value: VarId(2) },
        ]
    );
}

#[test]
fn dce_keeps_catch_blocks() {
    let f = function_with(
        "f",
        vec![
            block_with(0, vec![Instruction::TryBegin { catch_block: BlockId(2) }, Instruction::Jump { target: BlockId(1) }]),
            block_with(1, vec![Instruction::TryEnd, Instruction::Return { value: None }]),
            block_with(2, vec![Instruction::Return { value: None }]),
            block_with(3, vec![Instruction::Return { value: None }]),
        ],
    );
    let mut m = module_with(vec![f]);
    let mut dce = DeadCodeEliminator::new();
    dce.run(&mut m);
    let ids: Vec<BlockId> = m.functions[0].blocks.iter().map(|b| b.id).collect();
    assert_eq!(ids, vec![BlockId(0), BlockId(1), BlockId(2)]);
    assert_eq!(dce.stats().dead_blocks_removed, 1);
}

#[test]
fn inlined_returns_all_jump_to_the_continuation() {
    let mut callee = Function::new(
        FuncId("pick".to_string()),
        "pick".to_string(),
        vec![Parameter { id: VarId(0), name: "x".to_string(), ty: IrType::Bool }],
        IrType::Bool,
    );
    callee.blocks = vec![
        block_with(0, vec![Instruction::Branch { cond: VarId(0), then_block: BlockId(1), else_block: BlockId(2) }]),
        block_with(1, vec![Instruction::Return { value: Some(VarId(0)) }]),
        block_with(2, vec![Instruction::Return { value: Some(VarId(0)) }]),
    ];
    let main = function_with(
        "main",
        vec![block_with(
            0,
            vec![
                Instruction::Const { dest: VarId(0), value: Constant::Bool(true), ty: IrType::Bool },
                Instruction::Call { dest: Some(VarId(1)), func: FuncId("pick".to_string()), args: vec![VarId(0)], ret_ty: IrType::Bool },
                Instruction::Return { value: Some(VarId(1)) },
            ],
        )],
    );
    let mut m = module_with(vec![callee, main]);
    let mut inliner = FunctionInliner::new();
    inliner.run(&mut m);
    let main = &m.functions[1];
    assert_eq!(main.blocks.len(), 5);
    assert_eq!(main.blocks[1].instructions, vec![Instruction::Branch { cond: VarId(0), then_block: BlockId(2), else_block: BlockId(3) }]);
    assert_eq!(main.blocks[2].instructions, vec![Instruction::Jump { target: BlockId(4) }]);
    assert_eq!(main.blocks[3].instructions, vec![Instruction::Jump { target: BlockId(4) }]);
    assert_eq!(main.blocks[4].id, BlockId(4));
    assert_eq!(main.blocks[4].instructions[0], Instruction::Copy { dest: VarId(1), src: VarId(0), ty: IrType::Bool });
}

#[test]
fn small_functions_are_inlined_however_often_called() {
    let mut helper = Function::new(FuncId("id".to_string()), "id".to_string(), vec![], IrType::Void);
    helper.blocks.push(block_with(0, vec![Instruction::Return { value: None }]));
    let mut calls = Vec::new();
    for _ in 0..12 {
        calls.push(Instruction::Call { dest: None, func: FuncId("id".to_string()), args: vec![], ret_ty: IrType::Void });
    }
    calls.push(Instruction::Return { value: None });
    let main = function_with("main", vec![block_with(0, calls)]);
    let mut m = module_with(vec![helper, main]);
    let inliner = FunctionInliner::new();
    let counts = inliner.count_call_sites(&m);
    assert_eq!(counts.get(&FuncId("id".to_string())), Some(&12));
    let mut inliner = inliner;
    inliner.run(&mut m);
    assert_eq!(inliner.stats().functions_inlined, 12);
}

#[test]
fn hoisting_leaves_side_effects_in_the_loop() {
    let mut bb0 = block_with(0, vec![int_const(0, 1), Instruction::Jump { target: BlockId(1) }]);
    bb0.successors = vec![BlockId(1)];
    let mut bb1 = block_with(
        1,
        vec![
            Instruction::GlobalStore { name: "g".to_string(), value: VarId(0) },
            Instruction::ArrayPush { array: VarId(0), value: VarId(0), elem_ty: IrType::Int },
            Instruction::Branch { cond: VarId(0), then_block: BlockId(1), else_block: BlockId(2) },
        ],
    );
    bb1.successors = vec![BlockId(1), BlockId(2)];
    let bb2 = block_with(2, vec![Instruction::Return { value: None }]);
    let mut m = module_with(vec![function_with("f", vec![bb0, bb1, bb2])]);
    let before = m.functions[0].blocks[1].instructions.clone();
    let mut licm = LoopInvariantCodeMotion::new();
    licm.run(&mut m);
    assert_eq!(m.functions[0].blocks[1].instructions, before);
    assert_eq!(licm.stats().loop_invariants_hoisted, 0);
}

#[test]
fn negating_the_least_integer_wraps() {
    let f = function_with(
        "f",
        vec![block_with(
            0,
            vec![
                int_const(0, i64::MIN),
                Instruction::Unary { dest: VarId(1), op: UnaryOp::Neg, operand: VarId(0), ty: IrType::Int },
                Instruction::Return { value: Some(VarId(1)) },
            ],
        )],
    );
    let mut m = module_with(vec![f]);
    let mut folder = ConstantFolder::new();
    folder.run(&mut m);
    assert_eq!(m.functions[0].blocks[0].instructions[1], int_const(1, i64::MIN));
}

fn ends_a_block(i: &Instruction) -> bool {
    matches!(
        i,
        Instruction::Jump { .. } | Instruction::Branch { .. } | Instruction::Return { .. } | Instruction::Throw { .. }
    )
}

#[test]
fn inlining_keeps_every_block_terminated() {
    let mut callee = Function::new(
        FuncId("pick".to_string()),
        "pick".to_string(),
        vec![Parameter { id: VarId(0), name: "x".to_string(), ty: IrType::Bool }],
        IrType::Bool,
    );
    callee.blocks = vec![
        block_with(0, vec![Instruction::Branch { cond: VarId(0), then_block: BlockId(1), else_block: BlockId(2) }]),
        block_with(1, vec![Instruction::Return { value: Some(VarId(0)) }]),
        block_with(2, vec![Instruction::Return { value: Some(VarId(0)) }]),
    ];
    let main = function_with(
        "main",
        vec![
            block_with(
                0,
                vec![
                    Instruction::Const { dest: VarId(0), value: Constant::Bool(true), ty: IrType::Bool },
                    Instruction::Call { dest: Some(VarId(1)), func: FuncId("pick".to_string()), args: vec![VarId(0)], ret_ty: IrType::Bool },
                    Instruction::Print { value: VarId(1) },
                    Instruction::Jump { target: BlockId(1) },
                ],
            ),
            block_with(1, vec![Instruction::Return { value: Some(VarId(1)) }]),
        ],
    );
    let mut m = module_with(vec![callee, main]);
    let mut inliner = FunctionInliner::new();
    inliner.run(&mut m);
    assert_eq!(inliner.stats().functions_inlined, 1);
    for b in &m.functions[1].blocks {
        let n = b.instructions.len();
        assert!(n > 0);
        assert!(ends_a_block(&b.instructions[n - 1]));
        assert!(b.instructions[..n - 1].iter().all(|i| !ends_a_block(i)));
    }
}

#[test]
fn cse_leaves_no_read_of_a_dropped_result() {
    let f = function_with(
        "f",
        vec![
            block_with(
                0,
                vec![
                    binary(3, BinaryOp::Sub, 0, 1),
                    binary(4, BinaryOp::Sub, 0, 1),
                    Instruction::Branch { cond: VarId(2), then_block: BlockId(1), else_block: BlockId(2) },
                ],
            ),
            block_with(1, vec![binary(5, BinaryOp::Add, 4, 4), Instruction::Return { value: Some(VarId(5)) }]),
            block_with(2, vec![Instruction::Print { value: VarId(4) }, Instruction::Return { value: Some(VarId(4)) }]),
        ],
    );
    let mut m = module_with(vec![f]);
    let mut cse = CommonSubexprElim::new();
    cse.run(&mut m);
    assert_eq!(cse.stats().cse_hits, 1);
    let blocks = &m.functions[0].blocks;
    assert_eq!(blocks[0].instructions, vec![
        binary(3, BinaryOp::Sub, 0, 1),
        Instruction::Branch { cond: VarId(2), then_block: BlockId(1), else_block: BlockId(2) },
    ]);
    assert_eq!(blocks[1].instructions, vec![binary(5, BinaryOp::Add, 3, 3), Instruction::Return { value: Some(VarId(5)) }]);
    assert_eq!(blocks[2].instructions, vec![Instruction::Print { value: VarId(3) }, Instruction::Return { value: Some(VarId(3)) }]);
}

#[test]
fn folding_overflow_is_found_before_folding() {
    let overflowing = function_with(
        "f",
        vec![block_with(
            0,
            vec![int_const(0, i64::MIN), int_const(1, -1), binary(2, BinaryOp::Mod, 0, 1), Instruction::Return { value: Some(VarId(2)) }],
        )],
    );
    assert_eq!(ConstantFolder::find_overflow(&module_with(vec![overflowing])), Some(BinaryOp::Mod));
    let carried = function_with(
        "g",
        vec![
            block_with(0, vec![int_const(0, i64::MIN), int_const(1, -1), Instruction::Jump { target: BlockId(1) }]),
            block_with(1, vec![binary(2, BinaryOp::Div, 0, 1), Instruction::Return { value: Some(VarId(2)) }]),
        ],
    );
    assert_eq!(ConstantFolder::find_overflow(&module_with(vec![carried])), Some(BinaryOp::Div));
    let fine = function_with(
        "h",
        vec![block_with(
            0,
            vec![int_const(0, i64::MIN), int_const(1, 2), binary(2, BinaryOp::Div, 0, 1), Instruction::Return { value: Some(VarId(2)) }],
        )],
    );
    assert_eq!(ConstantFolder::find_overflow(&module_with(vec![fine])), None);
}
