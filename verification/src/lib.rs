//! Pre- and post-processing of C sources that embed MIPS assembly through
//! `GLOBAL_ASM` blocks, together with the ELF object-file model that the
//! post-processing step works on.
pub mod assembly;
pub mod driver;
pub mod cli;
pub mod elf;
pub mod objfile;
pub mod processor;
pub mod utils;
