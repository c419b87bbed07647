use crate::assembly::block::{
    GlobalAsmBlock,
    SectionSizes,
    is_asm_section,
    views,
    round_up,
    quote_scan,
    quote_failure_message,
    is_failure,
};
use crate::utils::error::Error;
use crate::utils::text::{
    has_prefix,
    has_suffix,
    words,
    count_char,
    prefix_before,
    suffix_after,
    trimmed,
    unsigned_value,
    signed_value,
};
use vstd::prelude::*;

verus! {

/// The part of a block's state that its lines change.
pub struct BlockModel {
    pub cur_section: Seq<char>,
    pub asm_conts: Seq<Seq<char>>,
    pub late_rodata_asm_conts: Seq<Seq<char>>,
    pub late_rodata_alignment: int,
    pub late_rodata_alignment_from_content: bool,
    pub text_glabels: Seq<Seq<char>>,
    pub sizes: SectionSizes,
    pub fn_ins_inds: Seq<(usize, usize)>,
}

/// A failure of a line: its message and the line that it names, if any.
pub struct Failure {
    pub message: Seq<char>,
    pub line: Option<Seq<char>>,
}

impl GlobalAsmBlock {
    /// The block's state as its lines see it.
    pub open spec fn model(&self) -> BlockModel {
        BlockModel {
            cur_section: self.cur_section@,
            asm_conts: views(self.asm_conts@),
            late_rodata_asm_conts: views(self.late_rodata_asm_conts@),
            late_rodata_alignment: self.late_rodata_alignment as int,
            late_rodata_alignment_from_content: self.late_rodata_alignment_from_content,
            text_glabels: views(self.text_glabels@),
            sizes: self.fn_section_sizes,
            fn_ins_inds: self.fn_ins_inds@,
        }
    }
}

/// `r` is the outcome that `f` describes for a block described by `desc`.
pub open spec fn fails_with(r: Result<(), Error>, f: Option<Failure>, desc: Seq<char>) -> bool {
    match f {
        None => r is Ok,
        Some(f) => r matches Err(e) && is_failure(e, f.message, desc, f.line),
    }
}

/// `new` is `old` after `step`: its model is the step's, the outcome `r` is the step's, and
/// the description, the pending continued text and the line count are left alone.
pub open spec fn stepped(
    old: GlobalAsmBlock,
    new: GlobalAsmBlock,
    r: Result<(), Error>,
    step: (BlockModel, Option<Failure>),
) -> bool {
    &&& new.model() == step.0
    &&& fails_with(r, step.1, old.fn_desc@)
    &&& new.fn_desc == old.fn_desc
    &&& new.glued_line == old.glued_line
    &&& new.num_lines == old.num_lines
}

/// The failure with message `message` at line `text`.
pub open spec fn fail_at(message: Seq<char>, text: Seq<char>) -> Option<Failure> {
    Some(Failure { message, line: Some(text) })
}

/// The lines that name a section on their own.
pub open spec fn is_section_line(ln: Seq<char>) -> bool {
    ln == ".text"@ || ln == ".data"@ || ln == ".rdata"@ || ln == ".rodata"@ || ln == ".bss"@ || ln
        == ".late_rodata"@
}

/// What a line is, in the order in which it is recognised: empty (0), a label in `.text` that
/// names a function (1), another label (2), a section change (3), `.late_rodata_alignment`
/// (4), `.incbin` (5), words (6), doubles (7), `.space` (8), `.balign` (9), `.align` (10),
/// a string directive (11), or an instruction (12).
pub open spec fn line_kind(cur: Seq<char>, ln: Seq<char>) -> int {
    if ln.len() == 0 {
        0
    } else if (has_prefix(ln, "glabel "@) || has_prefix(ln, "jlabel "@)) && cur == ".text"@ {
        1
    } else if has_prefix(ln, "glabel "@) || has_prefix(ln, "dlabel "@) || has_prefix(ln, "jlabel "@)
        || has_prefix(ln, "endlabel "@) || (!ln.contains(' ') && has_suffix(ln, ":"@)) {
        2
    } else if has_prefix(ln, ".section"@) || is_section_line(ln) {
        3
    } else if has_prefix(ln, ".late_rodata_alignment"@) {
        4
    } else if has_prefix(ln, ".incbin"@) {
        5
    } else if has_prefix(ln, ".word"@) || has_prefix(ln, ".gpword"@) || has_prefix(ln, ".float"@) {
        6
    } else if has_prefix(ln, ".double"@) {
        7
    } else if has_prefix(ln, ".space"@) {
        8
    } else if has_prefix(ln, ".balign"@) {
        9
    } else if has_prefix(ln, ".align"@) {
        10
    } else if has_prefix(ln, ".asci"@) {
        11
    } else {
        12
    }
}

/// The value of a numeral that `str::parse::<usize>` accepts.
pub open spec fn usize_value(w: Seq<char>) -> Option<int> {
    match unsigned_value(w) {
        Some(v) => if 0 <= v <= usize::MAX {
            Some(v)
        } else {
            None
        },
        None => None,
    }
}

/// The value of a numeral that `str::parse::<isize>` accepts.
pub open spec fn isize_value(w: Seq<char>) -> Option<int> {
    match signed_value(w) {
        Some(v) => if isize::MIN <= v <= isize::MAX {
            Some(v)
        } else {
            None
        },
        None => None,
    }
}

/// The second word of a line, where it has one.
pub open spec fn second_word(ln: Seq<char>) -> Option<Seq<char>> {
    if words(ln).len() > 1 {
        Some(words(ln)[1])
    } else {
        None
    }
}

/// The directive argument of a line read as a `usize`.
pub open spec fn arg_usize(ln: Seq<char>) -> Option<int> {
    match second_word(ln) {
        Some(w) => usize_value(w),
        None => None,
    }
}

/// The directive argument of a line read as an `isize`.
pub open spec fn arg_isize(ln: Seq<char>) -> Option<int> {
    match second_word(ln) {
        Some(w) => isize_value(w),
        None => None,
    }
}

/// The size that an `.incbin` line gives: its last comma-separated piece.
pub open spec fn incbin_size(ln: Seq<char>) -> Option<int> {
    isize_value(trimmed(suffix_after(ln, ',')))
}

/// The number of comma-separated values of a data directive.
pub open spec fn arg_count(ln: Seq<char>) -> int {
    count_char(ln, ',') + 1int
}

/// Whether a string directive ends each string with a zero.
pub open spec fn zero_terminated(ln: Seq<char>) -> bool {
    has_prefix(ln, ".asciz"@) || has_prefix(ln, ".asciiz"@)
}

/// The size of the current section.
pub open spec fn cur_size(m: BlockModel) -> int {
    m.sizes.size_of(m.cur_section)
}

/// The model with the current section grown by `size`.
pub open spec fn grown(m: BlockModel, size: int) -> BlockModel {
    BlockModel { sizes: m.sizes.with_size(m.cur_section, (cur_size(m) + size) as usize), ..m }
}

/// The model with the current section padded to a multiple of four.
pub open spec fn align4_step(m: BlockModel) -> BlockModel {
    BlockModel { sizes: m.sizes.with_size(m.cur_section, round_up(cur_size(m), 4) as usize), ..m }
}

/// Adding `size` bytes to the current section, for line number `n`: a multiple of four in
/// `.text` and `.late_rodata`, never negative, and in `.text` only after a label; each piece
/// of `.text` is recorded with its line and instruction count.
pub open spec fn add_sized_step(m: BlockModel, size: int, text: Seq<char>, n: int) -> (
    BlockModel,
    Option<Failure>,
) {
    let four = m.cur_section == ".text"@ || m.cur_section == ".late_rodata"@;
    if four && size % 4 != 0 {
        (m, fail_at("size must be a multiple of 4"@, text))
    } else if size < 0 {
        (m, fail_at("size cannot be negative"@, text))
    } else if m.cur_section == ".text"@ {
        if m.text_glabels.len() == 0 {
            (grown(m, size), fail_at(".text block without an initial glabel"@, text))
        } else {
            (
                BlockModel {
                    fn_ins_inds: m.fn_ins_inds.push(((n - 1) as usize, (size / 4) as usize)),
                    ..grown(m, size)
                },
                None,
            )
        }
    } else {
        (grown(m, size), None)
    }
}

/// Where a line's text goes once it is processed: into the `.late_rodata` lines (unless it
/// changed the section or its alignment), bracketed by alignment directives for doubles, or
/// else into the block's assembly.
pub open spec fn post_step(m: BlockModel, text: Seq<char>, changed: bool, double: bool) -> BlockModel {
    if m.cur_section == ".late_rodata"@ {
        if changed {
            m
        } else {
            let l1 = if double {
                m.late_rodata_asm_conts.push(".align 0"@)
            } else {
                m.late_rodata_asm_conts
            };
            let l2 = l1.push(text);
            let l3 = if double {
                l2.push(".align 2"@)
            } else {
                l2
            };
            BlockModel { late_rodata_asm_conts: l3, ..m }
        }
    } else {
        BlockModel { asm_conts: m.asm_conts.push(text), ..m }
    }
}

/// A step followed, where it succeeded, by the placing of the line's text.
pub open spec fn then_post(s: (BlockModel, Option<Failure>), text: Seq<char>, double: bool) -> (
    BlockModel,
    Option<Failure>,
) {
    if s.1 is Some {
        s
    } else {
        (post_step(s.0, text, false, double), None)
    }
}

/// The section that a section change names: `.rdata` stands for `.rodata`, and otherwise
/// the last word before the first comma.
pub open spec fn section_target(ln: Seq<char>) -> Option<Seq<char>> {
    if ln == ".rdata"@ {
        Some(".rodata"@)
    } else {
        let ws = words(prefix_before(ln, ','));
        if ws.len() > 0 {
            Some(ws.last())
        } else {
            None
        }
    }
}

/// A section change. A section that a block cannot hold is still entered, and fails.
pub open spec fn section_step(m: BlockModel, ln: Seq<char>, text: Seq<char>) -> (BlockModel, Option<Failure>) {
    match section_target(ln) {
        None => (m, fail_at("invalid section directive"@, text)),
        Some(t) => if is_asm_section(t) {
            (post_step(BlockModel { cur_section: t, ..m }, text, true, false), None)
        } else {
            (BlockModel { cur_section: t, ..m }, fail_at("unrecognized .section directive"@, text))
        },
    }
}

/// `.late_rodata_alignment`: within `.late_rodata`, an argument of 4 or 8 that agrees with
/// any alignment assumed before.
pub open spec fn alignment_step(m: BlockModel, ln: Seq<char>, text: Seq<char>) -> (BlockModel, Option<Failure>) {
    if m.cur_section != ".late_rodata"@ {
        (m, fail_at(".late_rodata_alignment must occur within .late_rodata section"@, text))
    } else {
        match arg_usize(ln) {
            None => (m, fail_at("invalid .late_rodata_alignment value"@, text)),
            Some(v) => if v != 4 && v != 8 {
                (m, fail_at(".late_rodata_alignment argument must be 4 or 8"@, text))
            } else if m.late_rodata_alignment != 0 && m.late_rodata_alignment != v {
                (
                    m,
                    Some(
                        Failure {
                            message: ".late_rodata_alignment alignment assumption conflicts with earlier .double directive. Make sure to provide explicit alignment padding."@,
                            line: None,
                        },
                    ),
                )
            } else {
                (post_step(BlockModel { late_rodata_alignment: v, ..m }, text, true, false), None)
            },
        }
    }
}

/// `.double`: padded to four bytes; in `.late_rodata` its address modulo eight is fixed by
/// the first one, or checked against what was fixed before.
pub open spec fn double_step(m: BlockModel, ln: Seq<char>, text: Seq<char>, n: int) -> (BlockModel, Option<Failure>) {
    let m1 = align4_step(m);
    let size = 8 * arg_count(ln);
    if m1.cur_section == ".late_rodata"@ {
        let gap = 8 - cur_size(m1) % 8;
        if m1.late_rodata_alignment == 0 {
            then_post(
                add_sized_step(
                    BlockModel { late_rodata_alignment: gap, late_rodata_alignment_from_content: true, ..m1 },
                    size,
                    text,
                    n,
                ),
                text,
                true,
            )
        } else if m1.late_rodata_alignment != gap {
            if m1.late_rodata_alignment_from_content {
                (
                    m1,
                    fail_at(
                        "found two .double directives with different start addresses mod 8. Make sure to provide explicit alignment padding."@,
                        text,
                    ),
                )
            } else {
                (
                    m1,
                    fail_at(
                        ".double at address that is not 0 mod 8 (based on .late_rodata_alignment assumption). Make sure to provide explicit alignment padding."@,
                        text,
                    ),
                )
            }
        } else {
            then_post(add_sized_step(m1, size, text, n), text, true)
        }
    } else {
        then_post(add_sized_step(m1, size, text, n), text, true)
    }
}

/// `.balign 4` and `.align 2`, the only alignments supported: both pad to four bytes.
pub open spec fn align_step(
    m: BlockModel,
    ln: Seq<char>,
    text: Seq<char>,
    expected: int,
    invalid: Seq<char>,
    unsupported: Seq<char>,
) -> (BlockModel, Option<Failure>) {
    match arg_usize(ln) {
        None => (m, fail_at(invalid, text)),
        Some(v) => if v != expected {
            (m, fail_at(unsupported, text))
        } else {
            (post_step(align4_step(m), text, false, false), None)
        },
    }
}

/// A string directive: the bytes that its strings take.
pub open spec fn ascii_step(m: BlockModel, ln: Seq<char>, text: Seq<char>, n: int) -> (BlockModel, Option<Failure>) {
    match quote_scan(ln, zero_terminated(ln), 0, 0, true, 0, 0) {
        Err(code) => (m, fail_at(quote_failure_message(code), text)),
        Ok(size) => then_post(add_sized_step(m, size, text, n), text, false),
    }
}

/// What one line does to a block: `ln` is the line as it is read (comments and strings
/// blanked, trimmed, any leading label removed), `text` the line as written and `n` its
/// number.
pub open spec fn line_step(m: BlockModel, ln: Seq<char>, text: Seq<char>, n: int) -> (BlockModel, Option<Failure>) {
    let k = line_kind(m.cur_section, ln);
    if k == 0 || k == 2 {
        (post_step(m, text, false, false), None)
    } else if k == 1 {
        let m1 = match second_word(ln) {
            Some(w) => BlockModel { text_glabels: m.text_glabels.push(w), ..m },
            None => m,
        };
        (post_step(m1, text, false, false), None)
    } else if k == 3 {
        section_step(m, ln, text)
    } else if k == 4 {
        alignment_step(m, ln, text)
    } else if k == 5 {
        match incbin_size(ln) {
            None => (m, fail_at("invalid .incbin size"@, text)),
            Some(v) => then_post(add_sized_step(m, v, text, n), text, false),
        }
    } else if k == 6 {
        then_post(add_sized_step(align4_step(m), 4 * arg_count(ln), text, n), text, false)
    } else if k == 7 {
        double_step(m, ln, text, n)
    } else if k == 8 {
        match arg_isize(ln) {
            None => (m, fail_at("invalid .space size"@, text)),
            Some(v) => then_post(add_sized_step(m, v, text, n), text, false),
        }
    } else if k == 9 {
        align_step(m, ln, text, 4, "invalid .balign value"@, "only .balign 4 is supported"@)
    } else if k == 10 {
        align_step(m, ln, text, 2, "invalid .align value"@, "only .align 2 is supported"@)
    } else if k == 11 {
        ascii_step(m, ln, text, n)
    } else if m.cur_section != ".text"@ {
        (m, fail_at("instruction or macro call in non-.text section? not supported"@, text))
    } else {
        then_post(add_sized_step(m, 4, text, n), text, false)
    }
}

/// Whether a line can be processed without the current section's size passing
/// `usize::MAX`, and is short enough to be scanned as characters.
pub open spec fn fits(m: BlockModel, ln: Seq<char>) -> bool {
    let k = line_kind(m.cur_section, ln);
    let s = cur_size(m);
    &&& ln.len() <= usize::MAX / 8
    &&& k == 5 ==> (incbin_size(ln) matches Some(v) ==> s + v <= usize::MAX)
    &&& k == 6 ==> round_up(s, 4) + 4 * arg_count(ln) <= usize::MAX && 4 * arg_count(ln) <= isize::MAX
    &&& k == 7 ==> round_up(s, 4) + 8 * arg_count(ln) <= usize::MAX && 8 * arg_count(ln) <= isize::MAX
    &&& k == 8 ==> (arg_isize(ln) matches Some(v) ==> s + v <= usize::MAX)
    &&& (k == 9 || k == 10) ==> s + 3 <= usize::MAX
    &&& k == 11 ==> (quote_scan(ln, zero_terminated(ln), 0, 0, true, 0, 0) matches Ok(v) ==> s + v
        <= usize::MAX)
    &&& k == 12 ==> s + 4 <= usize::MAX
}

} // verus!
