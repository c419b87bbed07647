use asm_processor::cli::{post_process_step, run_mode, RunMode, Step};
use asm_processor::driver::{deps_file_text, split_build_args, BuildArgsError};
use asm_processor::utils::text::is_whitespace;
use asm_processor::utils::Error;

fn strings(v: &[&str]) -> Vec<String> {
    v.iter().map(|s| s.to_string()).collect()
}

#[test]
fn test_split_build_args() {
    let argv = strings(&[
        "--framepointer",
        "ido/cc",
        "-c",
        "--",
        "mips-as",
        "-march=vr4300",
        "--",
        "-O2",
        "-g",
        "-o",
        "out.o",
        "-Wab,-r4300_mul",
        "src/a.c",
    ]);
    let c = split_build_args(&argv).unwrap();
    assert_eq!(c.compiler, strings(&["ido/cc", "-c"]));
    assert_eq!(c.assembler_args, strings(&["mips-as", "-march=vr4300"]));
    assert_eq!(c.compile_args, strings(&["-O2", "-g", "-Wab,-r4300_mul"]));
    assert_eq!(c.out_file, "out.o");
    assert_eq!(c.in_file, "src/a.c");
    assert_eq!(c.asmproc_flags, strings(&["--framepointer", "-mips1", "-O2", "-g"]));
    assert!(!c.keep_preprocessed);
}

#[test]
fn test_split_build_args_mips2() {
    let argv = strings(&["cc", "--", "as", "--", "-mips2", "-o", "x.o", "x.c"]);
    let c = split_build_args(&argv).unwrap();
    assert_eq!(c.asmproc_flags, Vec::<String>::new());
    assert_eq!(c.compile_args, strings(&["-mips2"]));
    assert_eq!(c.compiler, strings(&["cc"]));
}

#[test]
fn test_split_build_args_errors() {
    assert_eq!(split_build_args(&strings(&["cc", "-o", "x.o"])).err(), Some(BuildArgsError::NoFirstSeparator));
    assert_eq!(split_build_args(&strings(&["cc", "--", "as"])).err(), Some(BuildArgsError::NoSecondSeparator));
    assert_eq!(split_build_args(&strings(&["cc", "--", "as", "--", "x.c"])).err(), Some(BuildArgsError::NoOutputFile));
    assert_eq!(split_build_args(&strings(&["cc", "--", "as", "--", "-o"])).err(), Some(BuildArgsError::NoOutputPath));
    assert_eq!(split_build_args(&strings(&["cc", "--", "as", "--", "-o", "x.o"])).err(), Some(BuildArgsError::NoInputFile));
}

#[test]
fn test_deps_file_text() {
    let deps = strings(&["a.s", "b/c.s"]);
    assert_eq!(deps_file_text("out.o", &deps), "out.o: a.s \\\n    b/c.s\n\na.s:\n\nb/c.s:\n");
    assert_eq!(deps_file_text("o", &strings(&["x"])), "o: x\n\nx:\n");
}

#[test]
fn test_run_mode_and_step() {
    assert_eq!(run_mode(false, false).unwrap(), RunMode::Preprocess);
    assert_eq!(run_mode(true, true).unwrap(), RunMode::PostProcess);
    match run_mode(true, false) {
        Err(Error::InvalidInput(msg)) => assert_eq!(msg, "must pass assembler command"),
        _ => panic!("a missing assembler command is refused"),
    }
    assert_eq!(post_process_step(false, false, 3, false).unwrap(), Step::Preprocess);
    assert!(matches!(post_process_step(true, false, 3, true), Err(Error::InvalidInput(_))));
    assert_eq!(post_process_step(true, true, 0, false).unwrap(), Step::Skip);
    assert_eq!(post_process_step(true, true, 0, true).unwrap(), Step::Fixup);
    assert_eq!(post_process_step(true, true, 2, false).unwrap(), Step::Fixup);
}

#[test]
fn test_is_whitespace_agrees_with_std() {
    for u in 0u32..=0x10ffff {
        if let Some(c) = char::from_u32(u) {
            assert_eq!(is_whitespace(c), c.is_whitespace(), "U+{:04X}", u);
        }
    }
}
