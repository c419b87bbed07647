use asm_processor::cli::{check_args, create_opts, is_pascal, resolve_opts, Args};
use asm_processor::processor::{SourceAction, SourceParser};
use asm_processor::utils::{Error, Opts};

fn opts(opt: &str, encode: bool) -> Opts {
    Opts::new(opt, false, false, encode, false, false, "t.c", "utf-8")
}

fn feed(p: &mut SourceParser, line: &str) -> Result<SourceAction, Error> {
    assert!(!p.panics_on(line));
    p.process_source_line(line)
}

#[test]
fn test_parser_new() {
    let p = SourceParser::new(&opts("O2", false)).unwrap();
    assert_eq!(p.output_lines, vec!["#line 1 \"t.c\"".to_string()]);
    assert_eq!(p.state.min_instr_count, 2);
    assert_eq!(p.state.skip_instr_count, 1);
    assert!(p.state.use_jtbl_for_rodata);
    assert_eq!(p.line_no, 1);
    assert!(SourceParser::new(&opts("O3", false)).is_err());
    match SourceParser::new(&opts("O3", false)) {
        Err(Error::InvalidInput(msg)) => assert_eq!(msg, "must pass one of -g, -O0, -O1, -O2, -O2 -g3"),
        _ => panic!("an unknown level is refused"),
    }
    let g3 = SourceParser::new(&Opts::new("g3", false, true, false, false, false, "t.c", "utf-8")).unwrap();
    assert!(!g3.state.use_jtbl_for_rodata);
    assert_eq!(g3.state.prelude_if_late_rodata, 3);
}

#[test]
fn test_plain_lines_are_kept() {
    let mut p = SourceParser::new(&opts("O2", false)).unwrap();
    assert!(matches!(feed(&mut p, "int x;   "), Ok(SourceAction::Continue)));
    assert!(matches!(feed(&mut p, "  int y;"), Ok(SourceAction::Continue)));
    assert_eq!(p.output_text(), "#line 1 \"t.c\"\nint x;\n  int y;\n");
    assert_eq!(p.line_no, 3);
}

#[test]
fn test_inline_block() {
    let mut p = SourceParser::new(&opts("O2", false)).unwrap();
    for l in ["int x;", "GLOBAL_ASM(", "glabel f", "nop", ".rodata", ".word 1", ")", "int y;"] {
        assert!(matches!(feed(&mut p, l), Ok(SourceAction::Continue)), "{}", l);
    }
    assert_eq!(
        p.output_lines,
        vec![
            "#line 1 \"t.c\"".to_string(),
            "int x;".to_string(),
            String::new(),
            String::new(),
            String::new(),
            String::new(),
            String::new(),
            " const char _asmpp_rodata1[4] = {1};".to_string(),
            "int y;".to_string(),
        ]
    );
    assert_eq!(p.asm_functions.len(), 1);
    assert_eq!(p.asm_functions[0].text_glabels, vec!["f".to_string()]);
    assert_eq!(p.asm_functions[0].fn_desc, "GLOBAL_ASM block at line 2");
    assert_eq!(p.state.namectr, 1);
    assert!(p.inline_block.is_none());
}

#[test]
fn test_inline_block_error() {
    let mut p = SourceParser::new(&opts("O2", false)).unwrap();
    feed(&mut p, "GLOBAL_ASM(").unwrap();
    assert!(feed(&mut p, ")").is_err());
    let mut q = SourceParser::new(&opts("O2", false)).unwrap();
    feed(&mut q, "#pragma GLOBAL_ASM(").unwrap();
    assert!(feed(&mut q, "nop").is_err());
}

#[test]
fn test_include_asm_file() {
    let mut p = SourceParser::new(&opts("O2", false)).unwrap();
    match feed(&mut p, "INCLUDE_ASM(\"asm/f\", func);").unwrap() {
        SourceAction::ReadAsmFile(name) => assert_eq!(name, "asm/f/func.s"),
        _ => panic!("expected a block file"),
    }
    p.asm_file_line("glabel func").unwrap();
    p.asm_file_line("jr $ra").unwrap();
    p.asm_file_line(".data").unwrap();
    p.asm_file_line(".word 2").unwrap();
    p.asm_file_end().unwrap();
    assert!(p.file_block.is_none());
    assert_eq!(p.dependencies, vec!["asm/f/func.s".to_string()]);
    assert_eq!(p.asm_functions.len(), 1);
    assert_eq!(p.output_lines[1], " char _asmpp_data1[4] = {1};");
    assert_eq!(p.asm_functions[0].fn_desc, "asm/f/func.s");
}

#[test]
fn test_global_asm_file_missing() {
    let mut p = SourceParser::new(&opts("O2", false)).unwrap();
    match feed(&mut p, "GLOBAL_ASM(\"asm/g.s\")").unwrap() {
        SourceAction::ReadAsmFile(name) => assert_eq!(name, "asm/g.s"),
        _ => panic!("expected a block file"),
    }
    p.asm_file_missing();
    assert_eq!(p.output_lines[1], "#include \"GLOBAL_ASM:asm/g.s\"");
    assert!(p.dependencies.is_empty());
}

#[test]
fn test_include_rodata_starts_in_rodata() {
    let mut p = SourceParser::new(&opts("O2", false)).unwrap();
    match feed(&mut p, "INCLUDE_RODATA(\"asm/r\", tbl);").unwrap() {
        SourceAction::ReadAsmFile(name) => assert_eq!(name, "asm/r/tbl.s"),
        _ => panic!("expected a block file"),
    }
    assert_eq!(p.file_block.as_ref().unwrap().cur_section, ".rodata");
    p.asm_file_line(".word 1, 2").unwrap();
    p.asm_file_end().unwrap();
    assert_eq!(p.output_lines[1], " const char _asmpp_rodata1[8] = {1};");
}

#[test]
fn test_asm_file_without_label() {
    let mut p = SourceParser::new(&opts("O2", false)).unwrap();
    feed(&mut p, "GLOBAL_ASM(\"asm/g.s\")").unwrap();
    assert!(p.asm_file_end().is_err());
}

#[test]
fn test_recursive_include() {
    let mut p = SourceParser::new(&opts("O2", false)).unwrap();
    assert!(matches!(feed(&mut p, "#pragma asmproc recurse"), Ok(SourceAction::Continue)));
    match feed(&mut p, "#include \"inc.h\"").unwrap() {
        SourceAction::Include(path) => assert_eq!(path, "inc.h"),
        _ => panic!("expected an include"),
    }
    p.include_done("dir/inc.h".to_string(), "int z;\n");
    assert_eq!(p.output_lines[2], "int z;\n#line 3 \"t.c\"\n");
    assert_eq!(p.dependencies, vec!["dir/inc.h".to_string()]);
}

#[test]
fn test_recurse_needs_include() {
    let mut p = SourceParser::new(&opts("O2", false)).unwrap();
    feed(&mut p, "#pragma asmproc recurse").unwrap();
    assert!(matches!(feed(&mut p, "int x;"), Err(Error::InvalidInput(_))));
}

#[test]
fn test_cutscene_data() {
    let mut p = SourceParser::new(&opts("O2", true)).unwrap();
    match feed(&mut p, "CutsceneData cs[] = {").unwrap() {
        SourceAction::EncodeFloats(l) => assert_eq!(l, "CutsceneData cs[] = {"),
        _ => panic!("expected cutscene data"),
    }
    p.set_current_line("CutsceneData cs[] = {".to_string());
    match feed(&mut p, "1.0f, 2,").unwrap() {
        SourceAction::EncodeFloats(l) => assert_eq!(l, "1.0f, 2,"),
        _ => panic!("expected cutscene data"),
    }
    p.set_current_line("0x3F800000, 2,".to_string());
    assert!(matches!(feed(&mut p, "};"), Ok(SourceAction::Continue)));
    assert!(!p.is_cutscene_data);
    assert_eq!(p.output_lines[2], "0x3F800000, 2,");
    assert_eq!(p.output_lines[3], "};");

    let mut q = SourceParser::new(&opts("O2", false)).unwrap();
    assert!(matches!(feed(&mut q, "CutsceneData cs[] = {"), Ok(SourceAction::Continue)));
}

#[test]
fn test_is_pascal() {
    assert!(is_pascal("src/a.pas"));
    assert!(is_pascal("a.p"));
    assert!(is_pascal("dir/a.pp"));
    assert!(!is_pascal("a.c"));
    assert!(!is_pascal("dir.p/file"));
    assert!(!is_pascal("pas"));
}

fn args(filename: &str) -> Args {
    Args {
        filename: filename.to_string(),
        post_process: None,
        assembler: None,
        asm_prelude: None,
        input_enc: "latin1".to_string(),
        output_enc: "latin1".to_string(),
        drop_mdebug_gptab: false,
        convert_statics: "local".to_string(),
        force: false,
        encode_cutscene_data_floats: false,
        framepointer: false,
        mips1: false,
        g3: false,
        kpic: false,
        opt_o0: false,
        opt_o1: false,
        opt_o2: false,
        opt_g: false,
    }
}

#[test]
fn test_resolve_opts() {
    let a = args("a.c");
    assert!(matches!(resolve_opts(&a), Err(Error::InvalidInput(_))));

    let mut b = args("a.c");
    b.opt_o2 = true;
    b.g3 = true;
    let o = resolve_opts(&b).unwrap();
    assert_eq!(o.opt, "g3");
    assert_eq!(o.output_enc, "latin1");

    let mut c = args("a.c");
    c.opt_o1 = true;
    c.g3 = true;
    assert!(resolve_opts(&c).is_err());

    let mut d = args("a.c");
    d.opt_o0 = true;
    d.mips1 = true;
    assert!(resolve_opts(&d).is_err());

    let mut e = args("a.pas");
    e.opt_g = true;
    assert!(resolve_opts(&e).is_err());
    e.opt_g = false;
    e.opt_o1 = true;
    let o = resolve_opts(&e).unwrap();
    assert!(o.pascal);
    assert_eq!(o.opt, "O1");
}

#[test]
fn test_check_args_and_create_opts() {
    assert!(check_args("O2", true, false, false, "a.c").is_ok());
    assert!(check_args("O1", true, false, false, "a.c").is_err());
    assert!(check_args("O2", false, true, true, "a.c").is_err());
    assert!(check_args("g", false, false, false, "a.p").is_err());
    assert!(check_args("O1", false, true, false, "a.pp").is_ok());
    let o = create_opts("O1", true, true, true, false, "x.pas", "utf-8");
    assert!(o.pascal);
    assert!(o.kpic);
    assert_eq!(o.filename, "x.pas");
}

#[test]
fn test_source_run_counts_lines_and_blocks() {
    let mut p = SourceParser::new(&opts("O2", false)).unwrap();
    let lines = [
        "int x;", "GLOBAL_ASM(", "glabel f", "nop", ")", "GLOBAL_ASM(", "glabel g", "nop", "nop", ")", "int y;  ",
    ];
    for l in lines {
        assert!(matches!(feed(&mut p, l), Ok(SourceAction::Continue)));
    }
    assert_eq!(p.output_lines.len(), lines.len() + 1);
    assert_eq!(p.asm_functions.len(), 2);
    assert!(p.dependencies.is_empty());
    assert!(p.inline_block.is_none());
    assert_eq!(p.output_lines[1], "int x;");
    assert_eq!(p.output_lines[lines.len()], "int y;");
}
