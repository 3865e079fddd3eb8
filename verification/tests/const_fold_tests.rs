use tarqeem_ir::opt::{ConstantFolder};
use tarqeem_ir::{BasicBlock, BinaryOp, BlockId, Constant, FuncId, Function, Instruction, IrType, Module, VarId};

fn create_test_function() -> Function {
    let mut func = Function::new(
        FuncId("test".to_string()),
        "test".to_string(),
        vec![],
        IrType::Void,
    );

    let mut block = BasicBlock::new(BlockId(0));

    // %0 = const 2
    block.instructions.push(Instruction::Const {
        dest: VarId(0),
        value: Constant::Int(2),
        ty: IrType::Int,
    });

    // %1 = const 3
    block.instructions.push(Instruction::Const {
        dest: VarId(1),
        value: Constant::Int(3),
        ty: IrType::Int,
    });

    // %2 = add %0, %1  (should be folded to const 5)
    block.instructions.push(Instruction::Binary {
        dest: VarId(2),
        op: BinaryOp::Add,
        left: VarId(0),
        right: VarId(1),
        ty: IrType::Int,
    });

    // ret void
    block.instructions.push(Instruction::Return { value: None });

    func.blocks.push(block);
    func
}

#[test]
fn test_constant_folding_add() {
    let mut module = Module::new("test".to_string());
    module.functions.push(create_test_function());

    let mut folder = ConstantFolder::new();
    folder.run(&mut module);

    // Check that the add was folded
    assert!(folder.stats().constants_folded > 0);

    // Check the resulting instruction
    let block = &module.functions[0].blocks[0];
    // Should now have: const 2, const 3, const 5, ret
    let folded = &block.instructions[2];
    match folded {
        Instruction::Const { value, .. } => {
            assert_eq!(*value, Constant::Int(5));
        }
        _ => panic!("Expected Const instruction after folding"),
    }
}

#[test]
fn test_constant_folding_comparison() {
    let mut func = Function::new(
        FuncId("test".to_string()),
        "test".to_string(),
        vec![],
        IrType::Void,
    );

    let mut block = BasicBlock::new(BlockId(0));

    // %0 = const 5
    block.instructions.push(Instruction::Const {
        dest: VarId(0),
        value: Constant::Int(5),
        ty: IrType::Int,
    });

    // %1 = const 3
    block.instructions.push(Instruction::Const {
        dest: VarId(1),
        value: Constant::Int(3),
        ty: IrType::Int,
    });

    // %2 = gt %0, %1  (should be folded to const true)
    block.instructions.push(Instruction::Binary {
        dest: VarId(2),
        op: BinaryOp::Gt,
        left: VarId(0),
        right: VarId(1),
        ty: IrType::Bool,
    });

    block.instructions.push(Instruction::Return { value: None });

    func.blocks.push(block);

    let mut module = Module::new("test".to_string());
    module.functions.push(func);

    let mut folder = ConstantFolder::new();
    folder.run(&mut module);

    let folded = &module.functions[0].blocks[0].instructions[2];
    match folded {
        Instruction::Const { value, .. } => {
            assert_eq!(*value, Constant::Bool(true));
        }
        _ => panic!("Expected Const instruction after folding"),
    }
}

#[test]
fn test_branch_folding() {
    let mut func = Function::new(
        FuncId("test".to_string()),
        "test".to_string(),
        vec![],
        IrType::Void,
    );

    let mut entry = BasicBlock::new(BlockId(0));
    let then_block = BasicBlock::new(BlockId(1));
    let else_block = BasicBlock::new(BlockId(2));

    // %0 = const true
    entry.instructions.push(Instruction::Const {
        dest: VarId(0),
        value: Constant::Bool(true),
        ty: IrType::Bool,
    });

    // branch %0, bb1, bb2 (should be folded to jump bb1)
    entry.instructions.push(Instruction::Branch {
        cond: VarId(0),
        then_block: BlockId(1),
        else_block: BlockId(2),
    });

    func.blocks.push(entry);
    func.blocks.push(then_block);
    func.blocks.push(else_block);

    let mut module = Module::new("test".to_string());
    module.functions.push(func);

    let mut folder = ConstantFolder::new();
    folder.run(&mut module);

    // The branch should be replaced with a jump
    let terminator = module.functions[0].blocks[0].instructions.last().unwrap();
    match terminator {
        Instruction::Jump { target } => {
            assert_eq!(*target, BlockId(1));
        }
        _ => panic!("Expected Jump instruction after folding"),
    }
}
