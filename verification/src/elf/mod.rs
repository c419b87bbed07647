pub mod constants;
pub mod file;
pub mod format;
pub mod header;
pub mod relocation;
pub mod roundtrip;
pub mod section;
pub mod symbol;

pub use file::ElfFile;
pub use format::ElfFormat;
pub use header::ElfHeader;
pub use relocation::Relocation;
pub use section::{ElfSection, Section};
pub use symbol::Symbol;
