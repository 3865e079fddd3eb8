use tarqeem_ir::opt::{FunctionInliner};
use tarqeem_ir::{BasicBlock, BlockId, FuncId, Function, Instruction, IrType, Module, Parameter, VarId};

#[test]
fn test_inline_candidate_detection() {
    // Create a simple small function
    let mut small_func = Function::new(
        FuncId("small".to_string()),
        "small".to_string(),
        vec![Parameter {
            id: VarId(0),
            name: "x".to_string(),
            ty: IrType::Int,
        }],
        IrType::Int,
    );

    let mut block = BasicBlock::new(BlockId(0));
    block.instructions.push(Instruction::Return {
        value: Some(VarId(0)),
    });
    small_func.blocks.push(block);

    let module = Module::new("test".to_string());
    let mut module = module;
    module.functions.push(small_func);

    let inliner = FunctionInliner::new();
    let candidates = inliner.find_inline_candidates(&module);

    assert!(candidates.contains(&FuncId("small".to_string())));
}

#[test]
fn test_recursive_detection() {
    let mut recursive_func = Function::new(
        FuncId("recursive".to_string()),
        "recursive".to_string(),
        vec![Parameter {
            id: VarId(0),
            name: "n".to_string(),
            ty: IrType::Int,
        }],
        IrType::Int,
    );

    let mut block = BasicBlock::new(BlockId(0));
    // Call itself
    block.instructions.push(Instruction::Call {
        dest: Some(VarId(1)),
        func: FuncId("recursive".to_string()),
        args: vec![VarId(0)],
        ret_ty: IrType::Int,
    });
    block.instructions.push(Instruction::Return {
        value: Some(VarId(1)),
    });
    recursive_func.blocks.push(block);

    let inliner = FunctionInliner::new();
    assert!(inliner.is_recursive(&recursive_func));
}

#[test]
fn test_call_counting() {
    let mut caller = Function::new(
        FuncId("caller".to_string()),
        "caller".to_string(),
        vec![],
        IrType::Int,
    );

    let mut block = BasicBlock::new(BlockId(0));
    // Call "helper" twice
    block.instructions.push(Instruction::Call {
        dest: Some(VarId(0)),
        func: FuncId("helper".to_string()),
        args: vec![],
        ret_ty: IrType::Int,
    });
    block.instructions.push(Instruction::Call {
        dest: Some(VarId(1)),
        func: FuncId("helper".to_string()),
        args: vec![],
        ret_ty: IrType::Int,
    });
    block.instructions.push(Instruction::Call {
        dest: Some(VarId(2)),
        func: FuncId("other".to_string()),
        args: vec![],
        ret_ty: IrType::Int,
    });
    block.instructions.push(Instruction::Return {
        value: Some(VarId(1)),
    });
    caller.blocks.push(block);

    let mut module = Module::new("test".to_string());
    module.functions.push(caller);

    let inliner = FunctionInliner::new();
    let counts = inliner.count_call_sites(&module);

    assert_eq!(counts.get(&FuncId("helper".to_string())), Some(&2));
    assert_eq!(counts.get(&FuncId("other".to_string())), Some(&1));
}
