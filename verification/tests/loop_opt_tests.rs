use tarqeem_ir::opt::loop_opt::InductionStep;
use tarqeem_ir::opt::{LoopAnalysis, LoopOptimizer};
use tarqeem_ir::{BlockId, Constant, FuncId, Function, Instruction, IrType, BasicBlock, VarId};

#[test]
fn test_loop_detection() {

    let mut func = Function::new(
        FuncId("test".to_string()),
        "test".to_string(),
        vec![],
        IrType::Void,
    );

    let mut bb0 = BasicBlock::new(BlockId(0));
    bb0.successors = vec![BlockId(1)];
    bb0.instructions
        .push(Instruction::Jump { target: BlockId(1) });

    let mut bb1 = BasicBlock::new(BlockId(1));
    bb1.predecessors = vec![BlockId(0), BlockId(2)];
    bb1.successors = vec![BlockId(2), BlockId(3)];
    bb1.instructions.push(Instruction::Const {
        dest: VarId(0),
        value: Constant::Bool(true),
        ty: IrType::Bool,
    });
    bb1.instructions.push(Instruction::Branch {
        cond: VarId(0),
        then_block: BlockId(2),
        else_block: BlockId(3),
    });

    let mut bb2 = BasicBlock::new(BlockId(2));
    bb2.predecessors = vec![BlockId(1)];
    bb2.successors = vec![BlockId(1)];
    bb2.instructions
        .push(Instruction::Jump { target: BlockId(1) });

    let mut bb3 = BasicBlock::new(BlockId(3));
    bb3.predecessors = vec![BlockId(1)];
    bb3.instructions.push(Instruction::Return { value: None });

    func.blocks = vec![bb0, bb1, bb2, bb3];

    let analysis = LoopAnalysis::analyze(&func);

    assert_eq!(analysis.loops.len(), 1);
    assert_eq!(analysis.loops[0].header, BlockId(1));
    assert!(analysis.loops[0].blocks.contains(&BlockId(1)));
    assert!(analysis.loops[0].blocks.contains(&BlockId(2)));
    assert!(!analysis.loops[0].blocks.contains(&BlockId(0)));
    assert!(!analysis.loops[0].blocks.contains(&BlockId(3)));
}

#[test]
fn test_loop_optimizer_creation() {
    let opt = LoopOptimizer::new();
    assert!(!opt.enable_unrolling);
}

#[test]
fn test_induction_step() {
    let step = InductionStep::Constant(1);
    match step {
        InductionStep::Constant(v) => assert_eq!(v, 1),
        _ => panic!("Expected constant step"),
    }
}
