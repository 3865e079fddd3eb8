use tarqeem_ir::opt::{DeadCodeEliminator};
use tarqeem_ir::{BasicBlock, BlockId, Constant, FuncId, Function, Instruction, IrType, Module, VarId};

#[test]
fn test_remove_unused_variable() {
    let mut func = Function::new(
        FuncId("test".to_string()),
        "test".to_string(),
        vec![],
        IrType::Void,
    );

    let mut block = BasicBlock::new(BlockId(0));

    block.instructions.push(Instruction::Const {
        dest: VarId(0),
        value: Constant::Int(5),
        ty: IrType::Int,
    });

    block.instructions.push(Instruction::Const {
        dest: VarId(1),
        value: Constant::Int(10),
        ty: IrType::Int,
    });

    block.instructions.push(Instruction::Return {
        value: Some(VarId(0)),
    });

    func.blocks.push(block);

    let mut module = Module::new("test".to_string());
    module.functions.push(func);

    let mut dce = DeadCodeEliminator::new();
    dce.run(&mut module);

    assert_eq!(dce.stats().dead_instructions_removed, 1);

    assert_eq!(module.functions[0].blocks[0].instructions.len(), 2);
}

#[test]
fn test_remove_unreachable_block() {
    let mut func = Function::new(
        FuncId("test".to_string()),
        "test".to_string(),
        vec![],
        IrType::Void,
    );

    let mut entry = BasicBlock::new(BlockId(0));
    entry
        .instructions
        .push(Instruction::Jump { target: BlockId(2) });

    let mut unreachable = BasicBlock::new(BlockId(1));
    unreachable
        .instructions
        .push(Instruction::Return { value: None });

    let mut reachable = BasicBlock::new(BlockId(2));
    reachable
        .instructions
        .push(Instruction::Return { value: None });

    func.blocks.push(entry);
    func.blocks.push(unreachable);
    func.blocks.push(reachable);

    let mut module = Module::new("test".to_string());
    module.functions.push(func);

    let mut dce = DeadCodeEliminator::new();
    dce.run(&mut module);

    assert_eq!(dce.stats().dead_blocks_removed, 1);
    assert_eq!(module.functions[0].blocks.len(), 2);
}

#[test]
fn test_keep_side_effects() {
    let mut func = Function::new(
        FuncId("test".to_string()),
        "test".to_string(),
        vec![],
        IrType::Void,
    );

    let mut block = BasicBlock::new(BlockId(0));

    block.instructions.push(Instruction::Const {
        dest: VarId(0),
        value: Constant::Int(5),
        ty: IrType::Int,
    });

    block
        .instructions
        .push(Instruction::Print { value: VarId(0) });

    block.instructions.push(Instruction::Return { value: None });

    func.blocks.push(block);

    let mut module = Module::new("test".to_string());
    module.functions.push(func);

    let mut dce = DeadCodeEliminator::new();
    dce.run(&mut module);

    assert_eq!(dce.stats().dead_instructions_removed, 0);
    assert_eq!(module.functions[0].blocks[0].instructions.len(), 3);
}
