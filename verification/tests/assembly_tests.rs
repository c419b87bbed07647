use asm_processor::assembly::line::re_comment_replacer;
use asm_processor::assembly::GlobalAsmBlock;
use asm_processor::utils::{Error, GlobalState};

fn run(lines: &[&str]) -> (GlobalAsmBlock, Result<(), Error>) {
    let mut b = GlobalAsmBlock::new("test block");
    for l in lines {
        let r = b.process_line(l, "utf-8");
        if r.is_err() {
            return (b, r);
        }
    }
    (b, Ok(()))
}

fn message(e: Error) -> String {
    match e {
        Error::AssemblyProcessing(s) => s,
        other => panic!("unexpected error {:?}", other),
    }
}

#[test]
fn test_new_block_is_empty() {
    let b = GlobalAsmBlock::new("f");
    assert_eq!(b.cur_section, ".text");
    assert_eq!(b.fn_desc, "f");
    assert!(b.asm_conts.is_empty());
    assert!(b.text_glabels.is_empty());
    assert_eq!(b.fn_section_sizes.get(".text"), 0);
    assert_eq!(b.num_lines, 0);
}

#[test]
fn test_glabel_and_instructions() {
    let (b, r) = run(&["glabel func", "addiu $sp, $sp, -0x18", "jr $ra", "nop"]);
    assert!(r.is_ok());
    assert_eq!(b.text_glabels, vec!["func".to_string()]);
    assert_eq!(b.fn_section_sizes.get(".text"), 12);
    assert_eq!(b.fn_ins_inds, vec![(1, 1), (2, 1), (3, 1)]);
    assert_eq!(b.asm_conts.len(), 4);
    assert_eq!(b.num_lines, 4);
}

#[test]
fn test_text_without_label_fails() {
    let (_, r) = run(&["nop"]);
    let m = message(r.unwrap_err());
    assert_eq!(m, ".text block without an initial glabel\nwithin test block, at line \"nop\"");
}

#[test]
fn test_non_text_instruction_fails() {
    let (_, r) = run(&[".data", "nop"]);
    let m = message(r.unwrap_err());
    assert!(m.starts_with("instruction or macro call in non-.text section? not supported"));
}

#[test]
fn test_data_word_space_ascii() {
    let (b, r) = run(&[".data", ".word 1, 2, 3", ".space 3", ".asciz \"ab\"", ".ascii \"x\\n\""]);
    assert!(r.is_ok(), "{:?}", r);
    // 12 + 3 + ("ab" and its zero: 3) + ("x\n": 2)
    assert_eq!(b.fn_section_sizes.get(".data"), 20);
    assert_eq!(b.asm_conts.len(), 5);
}

#[test]
fn test_word_aligns_first() {
    let (b, r) = run(&[".rodata", ".space 2", ".word 5"]);
    assert!(r.is_ok());
    assert_eq!(b.fn_section_sizes.get(".rodata"), 8);
}

#[test]
fn test_rdata_is_rodata() {
    let (b, r) = run(&[".rdata", ".word 1"]);
    assert!(r.is_ok());
    assert_eq!(b.cur_section, ".rodata");
    assert_eq!(b.fn_section_sizes.get(".rodata"), 4);
}

#[test]
fn test_section_directive() {
    let (b, r) = run(&[".section .bss, \"wa\"", ".space 16"]);
    assert!(r.is_ok(), "{:?}", r);
    assert_eq!(b.cur_section, ".bss");
    assert_eq!(b.fn_section_sizes.get(".bss"), 16);
    let (_, r2) = run(&[".section .sdata"]);
    assert!(message(r2.unwrap_err()).starts_with("unrecognized .section directive"));
}

#[test]
fn test_comments_and_labels_are_ignored() {
    let (b, r) = run(&["glabel f", "label: nop # a comment", "/* c */ nop", "# only a comment", "L1:"]);
    assert!(r.is_ok(), "{:?}", r);
    assert_eq!(b.fn_section_sizes.get(".text"), 8);
    assert_eq!(b.asm_conts.len(), 5);
}

#[test]
fn test_glued_lines() {
    let mut b = GlobalAsmBlock::new("g");
    b.process_line("glabel f", "utf-8").unwrap();
    b.process_line("addiu $sp, \\", "utf-8").unwrap();
    assert_eq!(b.glued_line, "addiu $sp, ");
    assert_eq!(b.asm_conts.len(), 1);
    b.process_line("$sp, 8", "utf-8").unwrap();
    assert_eq!(b.glued_line, "");
    assert_eq!(b.asm_conts[1], "addiu $sp, $sp, 8");
    assert_eq!(b.fn_section_sizes.get(".text"), 4);
    assert_eq!(b.num_lines, 3);
}

#[test]
fn test_alignment_directives() {
    let (b, r) = run(&[".data", ".space 1", ".align 2", ".space 1", ".balign 4"]);
    assert!(r.is_ok());
    assert_eq!(b.fn_section_sizes.get(".data"), 8);
    let (_, r2) = run(&[".data", ".align 3"]);
    assert!(message(r2.unwrap_err()).starts_with("only .align 2 is supported"));
    let (_, r3) = run(&[".data", ".balign 8"]);
    assert!(message(r3.unwrap_err()).starts_with("only .balign 4 is supported"));
}

#[test]
fn test_text_sizes_multiple_of_four() {
    let (_, r) = run(&["glabel f", ".space 2"]);
    assert!(message(r.unwrap_err()).starts_with("size must be a multiple of 4"));
    let (_, r2) = run(&[".data", ".space -4"]);
    assert!(message(r2.unwrap_err()).starts_with("size cannot be negative"));
}

#[test]
fn test_incbin() {
    let (b, r) = run(&[".data", ".incbin \"file.bin\", 0, 24"]);
    assert!(r.is_ok(), "{:?}", r);
    assert_eq!(b.fn_section_sizes.get(".data"), 24);
}

#[test]
fn test_ascii_errors() {
    let (_, r) = run(&[".data", ".ascii \"abc"]);
    assert!(message(r.unwrap_err()).starts_with("unterminated string literal"));
    let (_, r2) = run(&[".data", ".ascii"]);
    assert!(message(r2.unwrap_err()).starts_with(".ascii with no string"));
    let (_, r3) = run(&[".data", ".asciz \"a\" \"b\""]);
    assert!(message(r3.unwrap_err()).starts_with(".asciiz with glued strings is not supported"));
}

#[test]
fn test_late_rodata_double() {
    let (b, r) = run(&[".late_rodata", ".word 1", ".double 1.5"]);
    assert!(r.is_ok(), "{:?}", r);
    assert_eq!(b.fn_section_sizes.get(".late_rodata"), 12);
    assert_eq!(b.late_rodata_alignment, 4);
    assert!(b.late_rodata_alignment_from_content);
    assert_eq!(
        b.late_rodata_asm_conts,
        vec![".word 1".to_string(), ".align 0".to_string(), ".double 1.5".to_string(), ".align 2".to_string()]
    );
    assert!(b.asm_conts.is_empty());
}

#[test]
fn test_late_rodata_alignment_directive() {
    let (b, r) = run(&[".late_rodata", ".late_rodata_alignment 8", ".double 2.0"]);
    assert!(r.is_ok(), "{:?}", r);
    assert_eq!(b.late_rodata_alignment, 8);
    let (_, r2) = run(&[".late_rodata_alignment 8"]);
    assert!(message(r2.unwrap_err()).starts_with(".late_rodata_alignment must occur within .late_rodata section"));
    let (_, r3) = run(&[".late_rodata", ".late_rodata_alignment 2"]);
    assert!(message(r3.unwrap_err()).starts_with(".late_rodata_alignment argument must be 4 or 8"));
    let (_, r4) = run(&[".late_rodata", ".late_rodata_alignment 8", ".word 1", ".double 2.0"]);
    assert!(message(r4.unwrap_err()).starts_with(".double at address that is not 0 mod 8"));
}

#[test]
fn test_finish_placeholders() {
    let (b, r) = run(&["glabel f", "nop", ".rodata", ".word 1", ".data", ".space 3", ".bss", ".space 8", ".late_rodata", ".word 7", ".float 1.0"]);
    assert!(r.is_ok(), "{:?}", r);
    let mut state = GlobalState::new(2, 1, true, 0, false, false);
    let (lines, f) = b.finish(&mut state).unwrap();
    assert_eq!(
        lines,
        vec![
            " const char _asmpp_rodata1[4] = {1};".to_string(),
            " char _asmpp_data2[3] = {1};".to_string(),
            " char _asmpp_bss3[8];".to_string(),
        ]
    );
    assert_eq!(state.namectr, 3);
    assert_eq!(f.text_glabels, vec!["f".to_string()]);
    assert_eq!(f.jtbl_rodata_size, 4);
    assert_eq!(f.late_rodata_dummy_bytes, vec![".float 1.0".to_string()]);
    assert!(f.late_rodata_asm_conts.is_empty());
    assert_eq!(f.data.len(), 3);
    assert_eq!(f.data[0], (".rodata".to_string(), ("_asmpp_rodata1".to_string(), 4)));
    assert_eq!(f.data[2], (".bss".to_string(), ("_asmpp_bss3".to_string(), 8)));
}

#[test]
fn test_finish_without_label_fails() {
    let b = GlobalAsmBlock::new("empty");
    let mut state = GlobalState::new(2, 1, true, 0, false, false);
    let e = b.finish(&mut state).unwrap_err();
    assert_eq!(message(e), "no function labels found\nwithin empty");
    assert_eq!(state.namectr, 0);
}

#[test]
fn test_comment_replacer() {
    assert_eq!(re_comment_replacer("# hello"), " ");
    assert_eq!(re_comment_replacer("/* x */"), " ");
    assert_eq!(re_comment_replacer("\"str\""), "\"str\"");
}

#[test]
fn test_next_id_counts_up() {
    let mut st = GlobalState::new(2, 1, true, 0, false, false);
    assert_eq!(st.get_next_id(), 1);
    assert_eq!(st.get_next_id(), 2);
    assert_eq!(st.namectr, 2);
}

#[test]
fn test_state_from_opts() {
    let st = GlobalState::from_opts("O2", false, false, false, false);
    assert_eq!((st.min_instr_count, st.skip_instr_count), (2, 1));
    assert!(st.use_jtbl_for_rodata);
    let st = GlobalState::from_opts("O0", true, false, true, false);
    assert_eq!((st.min_instr_count, st.skip_instr_count), (11, 11));
    assert!(!st.use_jtbl_for_rodata);
    let st = GlobalState::from_opts("g3", false, false, true, false);
    assert_eq!(st.prelude_if_late_rodata, 3);
    assert!(!st.use_jtbl_for_rodata);
}

#[test]
fn test_label_before_directive() {
    let (b, r) = run(&[".data", "tbl: .word 1, 2", "tail:   .space 3"]);
    assert!(r.is_ok(), "{:?}", r);
    assert_eq!(b.fn_section_sizes.get(".data"), 11);
    assert_eq!(b.asm_conts, vec![".data".to_string(), "tbl: .word 1, 2".to_string(), "tail:   .space 3".to_string()]);
}

#[test]
fn test_comment_hides_directive() {
    let (b, r) = run(&[".data", ".word 1 # , 2, 3", "/* .word 9 */"]);
    assert!(r.is_ok(), "{:?}", r);
    assert_eq!(b.fn_section_sizes.get(".data"), 4);
}

#[test]
fn test_sizes_only_grow_and_stay_aligned() {
    let lines = [
        "glabel f", "nop", ".data", ".asciz \"ab\"", ".late_rodata", ".word 1", ".double 1.0",
        ".text", "glabel g", "nop", ".bss", ".space 3", ".rodata", ".incbin \"x\", 0, 5",
    ];
    let names = [".text", ".data", ".bss", ".rodata", ".late_rodata"];
    let mut b = GlobalAsmBlock::new("test block");
    for l in lines {
        let before = b.clone();
        b.process_line(l, "utf-8").unwrap();
        assert_eq!(b.fn_section_sizes.get(".text") % 4, 0);
        assert_eq!(b.fn_section_sizes.get(".late_rodata") % 4, 0);
        for n in names {
            let (x, y) = (before.fn_section_sizes.get(n), b.fn_section_sizes.get(n));
            assert!(x <= y);
            if n != b.cur_section {
                assert_eq!(x, y);
            }
        }
        assert_eq!(&b.text_glabels[..before.text_glabels.len()], &before.text_glabels[..]);
    }
    assert_eq!(b.text_glabels, vec!["f".to_string(), "g".to_string()]);
}

#[test]
fn test_comment_blanking_scan() {
    let (b, r) = run(&[".data", ".word 1 /* , 2"]);
    assert!(r.is_ok(), "{:?}", r);
    assert_eq!(b.fn_section_sizes.get(".data"), 8);
    let (b, r) = run(&[".data", ".word 1 /* a */, 2 /* , 3 */"]);
    assert!(r.is_ok(), "{:?}", r);
    assert_eq!(b.fn_section_sizes.get(".data"), 8);
    let (b, r) = run(&[".data", ".asciz \"a#b\""]);
    assert!(r.is_ok(), "{:?}", r);
    assert_eq!(b.fn_section_sizes.get(".data"), 4);
    let (b, r) = run(&[".data", ".asciz \"x\" # \"yy\", \"z\""]);
    assert!(r.is_ok(), "{:?}", r);
    assert_eq!(b.fn_section_sizes.get(".data"), 2);
    let (b, r) = run(&[".data", ".ascii \"/*\", \"*/\""]);
    assert!(r.is_ok(), "{:?}", r);
    assert_eq!(b.fn_section_sizes.get(".data"), 4);
}
