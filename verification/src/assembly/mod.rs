pub mod block;
pub mod function;
pub mod size_laws;
pub mod line;
pub mod model;

pub use block::GlobalAsmBlock;
pub use function::Function;
