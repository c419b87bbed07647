# asm_processor

Pre-processing of C sources that embed MIPS assembly in `GLOBAL_ASM` blocks, and
post-processing of the object files compiled from them. The library's steps are
stated in `requires`/`ensures` contracts and proved with Verus; the few calls into
the standard library and the `regex` crate that it makes (comment blanking, label
stripping, the cutscene-data test, UTF-8 decoding, character lists) stand behind
trusted wrappers whose contracts say what those calls return.

Layout:

- `src/assembly/`: one assembly block, line by line (section sizes, labels,
  late rodata), and the placeholder declarations that stand in for it;
  `size_laws.rs` proves what every line keeps of a block's section sizes.
- `src/processor.rs`: the C source, line by line: inline blocks, block files,
  recursive includes, cutscene data; the text that pre-processing prints.
- `src/elf/`: the ELF object file model: header, sections, symbols,
  relocations, reading and writing; `roundtrip.rs` proves that a written file
  reads back as written.
- `src/objfile/`: the fix-up of a compiled object file with the assembled
  blocks: planning, copying contents, register masks, symbol table,
  relocations, `.mdebug` symbols.
- `src/cli.rs`, `src/driver.rs`: the options that a command line asks for, and
  the build driver's command line and dependency file.
- `app/`: the program around the library: argument parsing, files, the
  assembler and compiler processes, float encoding.
- `tests/`: tests of the library on concrete values.
