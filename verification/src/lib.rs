//! Intermediate representation of the Tarqeem compiler: a three-address
//! code in SSA form, its text form, and verified optimization passes.

pub mod display;
pub mod instruction;
pub mod names;
pub mod opt;
pub mod program;
pub mod render;
pub mod text;

pub use instruction::{
    BinaryOp, BlockId, ClassId, Constant, FieldId, FuncId, Instruction, IrType, MethodId, UnaryOp, VarId,
};
pub use names::IrError;
pub use opt::{OptLevel, OptStats, Optimizer};
pub use program::{BasicBlock, Class, Function, Module, Parameter, StringTable};
pub use render::TextPiece;
