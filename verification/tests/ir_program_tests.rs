use tarqeem_ir::{
    BasicBlock, BinaryOp, BlockId, Constant, FuncId, Function, Instruction, IrType, StringTable, TextPiece, VarId,
};

/// The text of printed IR, with each floating-point constant written with
/// six digits after the point.
fn printed(pieces: Vec<TextPiece>) -> String {
    let mut out = String::new();
    for p in pieces {
        match p {
            TextPiece::Text(t) => out.push_str(&t),
            TextPiece::Float(bits) => out.push_str(&format!("{:.6}", f64::from_bits(bits))),
        }
    }
    out
}

#[test]
fn test_instruction_display() {
    let inst = Instruction::Const {
        dest: VarId(0),
        value: Constant::Int(42),
        ty: IrType::Int,
    };
    assert_eq!(printed(inst.render()), "%0: i64 = const 42");

    let inst = Instruction::Binary {
        dest: VarId(2),
        op: BinaryOp::Add,
        left: VarId(0),
        right: VarId(1),
        ty: IrType::Int,
    };
    assert_eq!(printed(inst.render()), "%2: i64 = add %0, %1");
}

#[test]
fn test_basic_block() {
    let mut block = BasicBlock::new(BlockId(0));
    block.instructions.push(Instruction::Const {
        dest: VarId(0),
        value: Constant::Int(42),
        ty: IrType::Int,
    });
    block.instructions.push(Instruction::Return {
        value: Some(VarId(0)),
    });

    assert!(block.has_terminator());
    assert!(matches!(
        block.terminator(),
        Some(Instruction::Return { .. })
    ));
}

#[test]
fn test_function_display() {
    let mut func = Function::new(
        FuncId("main".to_string()),
        "main".to_string(),
        vec![],
        IrType::Int,
    );

    let mut entry = BasicBlock::with_label(BlockId(0), "entry".to_string());
    entry.instructions.push(Instruction::Const {
        dest: VarId(0),
        value: Constant::Int(0),
        ty: IrType::Int,
    });
    entry.instructions.push(Instruction::Return {
        value: Some(VarId(0)),
    });
    func.blocks.push(entry);

    let output = printed(func.render());
    assert!(output.contains("fn @main()"));
    assert!(output.contains("const 0"));
    assert!(output.contains("ret %0"));
}

#[test]
fn test_string_table() {
    let mut table = StringTable::new();
    let idx1 = table.add("hello".to_string());
    let idx2 = table.add("world".to_string());
    let idx3 = table.add("hello".to_string()); // Duplicate

    assert_eq!(idx1, 0);
    assert_eq!(idx2, 1);
    assert_eq!(idx3, 0); // Should return existing index

    assert_eq!(table.get(0), Some("hello"));
    assert_eq!(table.get(1), Some("world"));
}
