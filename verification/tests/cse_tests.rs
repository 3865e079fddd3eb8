use tarqeem_ir::opt::{CommonSubexprElim};
use tarqeem_ir::{BasicBlock, BinaryOp, BlockId, Constant, FuncId, Function, Instruction, IrType, Module, Parameter, VarId};

#[test]
fn test_cse_binary() {
    let mut func = Function::new(
        FuncId("test".to_string()),
        "test".to_string(),
        vec![
            Parameter {
                id: VarId(0),
                name: "a".to_string(),
                ty: IrType::Int,
            },
            Parameter {
                id: VarId(1),
                name: "b".to_string(),
                ty: IrType::Int,
            },
        ],
        IrType::Int,
    );

    let mut block = BasicBlock::new(BlockId(0));

    block.instructions.push(Instruction::Binary {
        dest: VarId(2),
        op: BinaryOp::Add,
        left: VarId(0),
        right: VarId(1),
        ty: IrType::Int,
    });

    block.instructions.push(Instruction::Const {
        dest: VarId(10),
        value: Constant::Int(2),
        ty: IrType::Int,
    });
    block.instructions.push(Instruction::Binary {
        dest: VarId(3),
        op: BinaryOp::Mul,
        left: VarId(2),
        right: VarId(10),
        ty: IrType::Int,
    });

    block.instructions.push(Instruction::Binary {
        dest: VarId(4),
        op: BinaryOp::Add,
        left: VarId(0),
        right: VarId(1),
        ty: IrType::Int,
    });

    block.instructions.push(Instruction::Const {
        dest: VarId(11),
        value: Constant::Int(3),
        ty: IrType::Int,
    });
    block.instructions.push(Instruction::Binary {
        dest: VarId(5),
        op: BinaryOp::Mul,
        left: VarId(4),
        right: VarId(11),
        ty: IrType::Int,
    });

    block.instructions.push(Instruction::Return {
        value: Some(VarId(5)),
    });

    func.blocks.push(block);

    let mut module = Module::new("test".to_string());
    module.functions.push(func);

    let mut cse = CommonSubexprElim::new();
    cse.run(&mut module);

    assert_eq!(cse.stats().cse_hits, 1);

    let block = &module.functions[0].blocks[0];
    assert_eq!(block.instructions.len(), 6);
}

#[test]
fn test_cse_commutative() {
    let mut func = Function::new(
        FuncId("test".to_string()),
        "test".to_string(),
        vec![
            Parameter {
                id: VarId(0),
                name: "a".to_string(),
                ty: IrType::Int,
            },
            Parameter {
                id: VarId(1),
                name: "b".to_string(),
                ty: IrType::Int,
            },
        ],
        IrType::Int,
    );

    let mut block = BasicBlock::new(BlockId(0));

    block.instructions.push(Instruction::Binary {
        dest: VarId(2),
        op: BinaryOp::Add,
        left: VarId(0),
        right: VarId(1),
        ty: IrType::Int,
    });

    block.instructions.push(Instruction::Binary {
        dest: VarId(3),
        op: BinaryOp::Add,
        left: VarId(1),
        right: VarId(0),
        ty: IrType::Int,
    });

    block.instructions.push(Instruction::Return {
        value: Some(VarId(3)),
    });

    func.blocks.push(block);

    let mut module = Module::new("test".to_string());
    module.functions.push(func);

    let mut cse = CommonSubexprElim::new();
    cse.run(&mut module);

    assert_eq!(cse.stats().cse_hits, 1);
}
