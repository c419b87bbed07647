use crate::assembly::block::{lemma_section_names, is_asm_section, GlobalAsmBlock, SectionSizes, block_finished, fresh_block, views, placeholders};
use crate::assembly::function::Function;
use crate::assembly::line::line_processed;
use crate::assembly::model::{line_kind, fits, section_target, line_step};
use crate::assembly::size_laws::{sizes_aligned, lemma_process_line_keeps_sizes, lemma_rodata_section_line};
use crate::utils::error::Error;
use crate::utils::options::Opts;
use crate::utils::state::{GlobalState, is_opt_level, base_instr_counts};
use crate::utils::text::{
    chars_of,
    string_of,
    str_eq,
    starts_with,
    ends_with,
    contains_str,
    has_prefix,
    has_suffix,
    contains_sub,
    trim_start,
    trim_end,
    trimmed,
    trim_chars,
    decimal,
    usize_to_string,
};
use vstd::prelude::*;
use vstd::string::{StringExecFns, StringSliceAdditionalSpecFns};
use vstd::utf8::{encode_utf8, decode_utf8, valid_utf8};

verus! {

/// Whether `p` occurs in `t` at position `i`.
pub open spec fn occurs_in_at(t: Seq<char>, p: Seq<char>, i: int) -> bool {
    0 <= i && i + p.len() <= t.len() && t.subrange(i, i + p.len()) == p
}

/// Whether a line opens the data of a cutscene: `CutsceneData ` and, later, `[] = {`.
pub open spec fn cutscene_start(t: Seq<char>) -> bool {
    exists|i: int, j: int| occurs_in_at(t, "CutsceneData "@, i) && i + 13 <= j && occurs_in_at(t, "[] = {"@, j)
}

/// Calls `regex::Regex::is_match` with the pattern `CutsceneData (.|\n)*\[\] = \{`. Trusted:
/// the contract states what the pattern matches: `CutsceneData ` somewhere, and `[] = {`
/// anywhere after it, `(.|\n)*` matching any text between.
#[verifier::external_body]
fn starts_cutscene_data(line: &str) -> (r: bool)
    ensures
        r == cutscene_start(line@),
{
    regex::Regex::new(r"CutsceneData (.|\n)*\[\] = \{").unwrap().is_match(line)
}

/// The text between byte positions `a` and `b` of `s`, where that is a whole piece of text:
/// what `&s[a..b]` gives where it does not panic.
pub open spec fn byte_slice(s: Seq<char>, a: int, b: int) -> Option<Seq<char>> {
    let bs = encode_utf8(s);
    if 0 <= a <= b <= bs.len() && valid_utf8(bs.subrange(a, b)) {
        Some(decode_utf8(bs.subrange(a, b)))
    } else {
        None
    }
}

/// The first byte position of `s` holding `c`.
#[verifier::opaque]
pub open spec fn byte_find(s: Seq<char>, c: u8) -> Option<int> {
    let bs = encode_utf8(s);
    if exists|i: int| 0 <= i < bs.len() && bs[i] == c {
        Some(choose|i: int| 0 <= i < bs.len() && bs[i] == c && forall|j: int| 0 <= j < i ==> bs[j] != c)
    } else {
        None
    }
}

/// Whether the bytes `x`, `y` follow one another at position `i` of `bs`.
pub open spec fn pair_at(bs: Seq<u8>, x: u8, y: u8, i: int) -> bool {
    0 <= i && i + 1 < bs.len() && bs[i] == x && bs[i + 1] == y
}

/// The first byte position of `bs` where the two bytes `x`, `y` follow one another, from
/// `from` on.
#[verifier::opaque]
pub open spec fn pair_find(bs: Seq<u8>, x: u8, y: u8, from: int) -> Option<int> {
    if exists|i: int| from <= i && #[trigger] pair_at(bs, x, y, i) {
        Some(choose|i: int| from <= i && #[trigger] pair_at(bs, x, y, i) && forall|j: int| from <= j < i ==> !pair_at(bs, x, y, j))
    } else {
        None
    }
}

/// The text between byte positions `a` and `b`.
fn slice_of(s: &str, a: usize, b: usize) -> (r: Option<String>)
    ensures
        match byte_slice(s@, a as int, b as int) {
            Some(t) => r matches Some(x) && x@ == t,
            None => r is None,
        },
{
    let bs = s.as_bytes();
    if a > b || b > bs.len() {
        return None;
    }
    let piece = vstd::slice::slice_to_vec(vstd::slice::slice_subrange(bs, a, b));
    crate::utils::text::string_from_utf8(piece)
}

/// The first byte position of `s` holding `c`.
fn find_byte(s: &str, c: u8) -> (r: Option<usize>)
    ensures
        r matches Some(k) ==> byte_find(s@, c) == Some(k as int) && k < encode_utf8(s@).len(),
        r is None ==> byte_find(s@, c) is None,
{
    reveal(byte_find);
    let bs = s.as_bytes();
    let mut i: usize = 0;
    while i < bs.len()
        invariant
            i <= bs@.len(),
            bs@ == encode_utf8(s@),
            forall|j: int| 0 <= j < i ==> bs@[j] != c,
        decreases bs@.len() - i,
    {
        if bs[i] == c {
            reveal(byte_find);
            assert(0 <= i < bs@.len() && bs@[i as int] == c && forall|j: int| 0 <= j < i ==> bs@[j] != c);
            let ghost k = choose|k: int| 0 <= k < bs@.len() && bs@[k] == c && forall|j: int| 0 <= j < k ==> bs@[j] != c;
            assert(k == i) by {
                if k < i {
                } else if k > i {
                    assert(bs@[i as int] == c);
                }
            }
            return Some(i);
        }
        i += 1;
    }
    None
}

/// The first byte position from `from` on where `x` and `y` follow one another.
fn find_pair(bs: &[u8], x: u8, y: u8, from: usize) -> (r: Option<usize>)
    ensures
        r matches Some(k) ==> pair_find(bs@, x, y, from as int) == Some(k as int) && k + 1 < bs@.len(),
        r is None ==> pair_find(bs@, x, y, from as int) is None,
{
    reveal(pair_find);
    let mut i: usize = from;
    while i < bs.len()
        invariant
            from <= i,
            forall|j: int| from <= j < i ==> !pair_at(bs@, x, y, j),
        decreases bs@.len() - i,
    {
        if i + 1 < bs.len() && bs[i] == x && bs[i + 1] == y {
            reveal(pair_find);
            assert(pair_at(bs@, x, y, i as int));
            assert(from <= i && pair_at(bs@, x, y, i as int) && forall|j: int| from <= j < i ==> !pair_at(bs@, x, y, j));
            let ghost k = choose|k: int| from <= k && #[trigger] pair_at(bs@, x, y, k) && forall|j: int| from <= j < k ==> !pair_at(bs@, x, y, j);
            assert(k == i) by {
                if k > i {
                    assert(pair_at(bs@, x, y, i as int));
                }
            }
            return Some(i);
        }
        i += 1;
    }
    assert forall|k: int| from <= k implies !#[trigger] pair_at(bs@, x, y, k) by {
        if k < i {
        }
    }
    None
}

/// The file name of a `GLOBAL_ASM("...")` line: what lies between `("` and `")`.
pub open spec fn global_asm_file(t: Seq<char>) -> Option<Seq<char>> {
    match byte_find(t, 40) {
        None => None,
        Some(p) => byte_slice(t, p + 2, encode_utf8(t).len() - 2),
    }
}

/// The two pieces of an `INCLUDE_ASM("dir", name);` or `INCLUDE_RODATA(...)` line: what
/// follows the first `",` up to the next one (or the end), and what precedes it.
pub open spec fn include_pieces(t: Seq<char>) -> Option<(Seq<char>, Seq<char>)> {
    let bs = encode_utf8(t);
    match pair_find(bs, 34, 44, 0) {
        None => None,
        Some(i1) => {
            let e = match pair_find(bs, 34, 44, i1 + 2) {
                Some(i2) => i2,
                None => bs.len() as int,
            };
            match (byte_slice(t, i1 + 2, e), byte_slice(t, 0, i1)) {
                (Some(piece), Some(before)) => Some((piece, before)),
                _ => None,
            }
        },
    }
}

/// The file name made of the two pieces: the directory between `("` and the end of `before`,
/// then `/`, `piece` trimmed and without its last two bytes, and `.s`.
pub open spec fn include_name_from(piece: Seq<char>, before: Seq<char>) -> Option<Seq<char>> {
    let after_t = trimmed(piece);
    match (byte_slice(after_t, 0, encode_utf8(after_t).len() - 2), byte_find(before, 40)) {
        (Some(after), Some(p)) => match byte_slice(before, p + 2, encode_utf8(before).len() as int) {
            Some(path) => Some(path + "/"@ + after + ".s"@),
            None => None,
        },
        _ => None,
    }
}

/// The file name of an `INCLUDE_ASM("dir", name);` or `INCLUDE_RODATA(...)` line.
pub open spec fn include_asm_file(t: Seq<char>) -> Option<Seq<char>> {
    match include_pieces(t) {
        Some((piece, before)) => include_name_from(piece, before),
        None => None,
    }
}

/// The path of an `#include "..."` line: what lies between the quotes after the first space.
pub open spec fn include_path_of(t: Seq<char>) -> Option<Seq<char>> {
    match byte_find(t, 32) {
        None => None,
        Some(p) => byte_slice(t, p + 2, encode_utf8(t).len() - 1),
    }
}

/// Whether a line opens an inline block.
pub open spec fn is_block_start(t: Seq<char>) -> bool {
    t == "GLOBAL_ASM("@ || t == "#pragma GLOBAL_ASM("@
}

/// Whether a line names a block in a file of its own.
pub open spec fn is_file_block(t: Seq<char>) -> bool {
    ||| (has_prefix(t, "GLOBAL_ASM(\""@) || has_prefix(t, "#pragma GLOBAL_ASM(\""@)) && has_suffix(t, "\")"@)
    ||| (has_prefix(t, "INCLUDE_ASM(\""@) || has_prefix(t, "INCLUDE_RODATA(\""@)) && contains_sub(t, "\","@)
        && has_suffix(t, ");"@)
}

/// The file of a block in a file of its own.
pub open spec fn block_file(t: Seq<char>) -> Option<Seq<char>> {
    if has_prefix(t, "INCLUDE_"@) {
        include_asm_file(t)
    } else {
        global_asm_file(t)
    }
}

/// The file of a block in a file of its own.
fn block_file_of(t: &str) -> (r: Option<String>)
    ensures
        match block_file(t@) {
            Some(n) => r matches Some(x) && x@ == n,
            None => r is None,
        },
{
    let cs = chars_of(t);
    if starts_with(cs.as_slice(), "INCLUDE_") {
        include_file_of(t)
    } else {
        global_file_of(t)
    }
}

/// The file of a `GLOBAL_ASM("...")` line.
fn global_file_of(t: &str) -> (r: Option<String>)
    ensures
        match global_asm_file(t@) {
            Some(n) => r matches Some(x) && x@ == n,
            None => r is None,
        },
{
    let p = match find_byte(t, 40) {
        Some(p) => p,
        None => {
            return None;
        },
    };
    let n = t.as_bytes().len();
    if n < 2 || p > n - 2 || n - 2 - p < 2 {
        return None;
    }
    slice_of(t, p + 2, n - 2)
}

/// The file of an `INCLUDE_ASM` or `INCLUDE_RODATA` line.
fn include_file_of(t: &str) -> (r: Option<String>)
    ensures
        match include_asm_file(t@) {
            Some(n) => r matches Some(x) && x@ == n,
            None => r is None,
        },
{
    match include_pieces_of(t) {
        Some((piece, before)) => include_name_of(piece.as_str(), before.as_str()),
        None => None,
    }
}

/// The two pieces of an include line.
fn include_pieces_of(t: &str) -> (r: Option<(String, String)>)
    ensures
        match include_pieces(t@) {
            Some((piece, before)) => r matches Some((x, y)) && x@ == piece && y@ == before,
            None => r is None,
        },
{
    let bs = t.as_bytes();
    let len = bs.len();
    let i1 = match find_pair(bs, 34, 44, 0) {
        Some(i) => i,
        None => {
            return None;
        },
    };
    let e = match find_pair(bs, 34, 44, i1 + 2) {
        Some(i2) => i2,
        None => bs.len(),
    };
    let piece = match slice_of(t, i1 + 2, e) {
        Some(p) => p,
        None => {
            return None;
        },
    };
    let before = match slice_of(t, 0, i1) {
        Some(b) => b,
        None => {
            return None;
        },
    };
    Some((piece, before))
}

/// The file name made of the two pieces of an include line.
fn include_name_of(piece: &str, before: &str) -> (r: Option<String>)
    ensures
        match include_name_from(piece@, before@) {
            Some(n) => r matches Some(x) && x@ == n,
            None => r is None,
        },
{
    let pcs = chars_of(piece);
    let after_t = string_of(trim_chars(pcs.as_slice()).as_slice());
    let n = after_t.as_str().as_bytes().len();
    if n < 2 {
        return None;
    }
    let after = match slice_of(after_t.as_str(), 0, n - 2) {
        Some(a) => a,
        None => {
            return None;
        },
    };
    let p = match find_byte(before, 40) {
        Some(p) => p,
        None => {
            return None;
        },
    };
    let m = before.as_bytes().len();
    if p > m || m - p < 2 {
        return None;
    }
    let path = match slice_of(before, p + 2, m) {
        Some(x) => x,
        None => {
            return None;
        },
    };
    let mut name = path;
    name.append("/");
    name.append(after.as_str());
    name.append(".s");
    Some(name)
}

/// The path of an `#include "..."` line.
fn include_path(t: &str) -> (r: Option<String>)
    ensures
        match include_path_of(t@) {
            Some(n) => r matches Some(x) && x@ == n,
            None => r is None,
        },
{
    let p = match find_byte(t, 32) {
        Some(p) => p,
        None => {
            return None;
        },
    };
    let n = t.as_bytes().len();
    if n < 1 || p > n - 1 || n - 1 - p < 2 {
        return None;
    }
    slice_of(t, p + 2, n - 1)
}

/// What the caller does for the parser before the next line.
pub enum SourceAction {
    /// Nothing: go on with the next line.
    Continue,
    /// Read the assembly file: hand each of its lines to `asm_file_line`, then call
    /// `asm_file_end`; where the file does not exist, call `asm_file_missing` instead.
    ReadAsmFile(String),
    /// Parse the file that the `#include` names, relative to the directory of the source,
    /// and hand its path and the text that parsing it prints to `include_done`.
    Include(String),
    /// The line is cutscene data: encode its floats and hand it to `set_current_line`.
    EncodeFloats(String),
}

/// The pre-processing of a C source, line by line: the compiler's parameters, the inline
/// block being read, the block of a file being read, the blocks found, the lines to print,
/// the files read, and where the parsing stands.
pub struct SourceParser {
    pub state: GlobalState,
    pub inline_block: Option<GlobalAsmBlock>,
    pub file_block: Option<GlobalAsmBlock>,
    pub file_block_name: String,
    pub asm_functions: Vec<Function>,
    pub output_lines: Vec<String>,
    pub dependencies: Vec<String>,
    pub is_cutscene_data: bool,
    pub is_early_include: bool,
    pub line_no: usize,
    pub pending_line: usize,
    pub pending_line_no: usize,
    pub filename: String,
    pub output_enc: String,
    pub encode_floats: bool,
}

/// The minimum and skipped instruction counts and the prelude size for an optimization level
/// and flags, and whether jump tables go to `.rodata`: with `-O2`, or with `-g3` and neither a
/// frame pointer nor KPIC.
pub open spec fn parse_params(opt: Seq<char>, framepointer: bool, kpic: bool) -> (int, int, int, bool) {
    let (min, skip) = base_instr_counts(opt, framepointer);
    let hi = opt == "g3"@ || opt == "O2"@;
    let (min2, skip2, prelude) = if kpic {
        if hi {
            (min, skip, 3int)
        } else {
            (min + 3, skip + 3, 0int)
        }
    } else {
        (min, skip, 0int)
    };
    (min2, skip2, prelude, opt == "O2"@ || (opt == "g3"@ && !framepointer && !kpic))
}

/// The text of lines `out` with the lines `src` put in place, the last of them at `cur`.
pub open spec fn placed(out: Seq<Seq<char>>, src: Seq<Seq<char>>, cur: int) -> Seq<Seq<char>> {
    Seq::new(
        out.len(),
        |i: int|
            if cur - src.len() + 1 <= i <= cur {
                src[i - (cur - src.len() + 1)]
            } else {
                out[i]
            },
    )
}

/// Whether the line cannot be read: it names a block file or an include path whose quoted
/// text cannot be cut out of it at byte positions that are character boundaries.
pub open spec fn line_panics(o: SourceParser, line: Seq<char>) -> bool {
    let t = trim_start(trim_end(line));
    &&& o.inline_block is None
    &&& !is_block_start(t)
    &&& (is_file_block(t) && block_file(t) is None || !is_file_block(t) && t != "#pragma asmproc recurse"@
        && o.is_early_include && has_prefix(t, "#include "@) && include_path_of(t) is None)
}

/// The outcome of a block step without its action.
pub open spec fn unit_of(r: Result<SourceAction, Error>) -> Result<(), Error> {
    match r {
        Ok(_) => Ok(()),
        Err(e) => Err(e),
    }
}

/// What one source line does to the parser, as `parse_source` reads it: the line is trimmed;
/// inside an inline block a line starting with `)` ends the block, whose placeholder
/// declarations take the place of the block's last lines, and any other line goes to the
/// block; outside one, a line opens an inline block, names a block file, asks for a
/// recursive include (the next line must be that `#include`), is cutscene data to encode, or
/// is printed as it is.
pub open spec fn source_step(o: SourceParser, n: SourceParser, line: Seq<char>, r: Result<SourceAction, Error>) -> bool {
    let raw = trim_end(line);
    let t = trim_start(raw);
    let out0 = views(o.output_lines@).push(Seq::<char>::empty());
    let cur = out0.len() - 1;
    let next = (o.line_no + 1) as usize;
    match o.inline_block {
        Some(b) => if has_prefix(t, ")"@) {
            &&& r is Ok ==> {
                &&& r matches Ok(SourceAction::Continue)
                &&& n == SourceParser {
                    state: n.state,
                    inline_block: None,
                    asm_functions: n.asm_functions,
                    output_lines: n.output_lines,
                    line_no: next,
                    ..o
                }
                &&& exists|lines: Seq<String>, f: Function|
                    #[trigger] block_finished(b, o.state, n.state, lines, f) && n.asm_functions@ == o.asm_functions@.push(f)
                        && views(n.output_lines@) == placed(out0, views(lines), cur)
            }
            &&& (b.cur_section@ == ".text"@ && b.text_glabels@.len() == 0) ==> r is Err
            &&& (!(b.cur_section@ == ".text"@ && b.text_glabels@.len() == 0) && o.state.namectr + 3 <= usize::MAX
                && b.late_rodata_asm_conts@.len() <= usize::MAX / 4) ==> r is Ok
        } else {
            &&& b.num_lines < usize::MAX ==> (n.inline_block matches Some(b2) && line_processed(b, b2, raw, unit_of(r)))
            &&& b.num_lines == usize::MAX ==> r is Err
            &&& r is Ok ==> {
                &&& r matches Ok(SourceAction::Continue)
                &&& n == SourceParser { inline_block: n.inline_block, output_lines: n.output_lines, line_no: next, ..o }
                &&& views(n.output_lines@) == out0
            }
        },
        None => if is_block_start(t) {
            &&& r matches Ok(SourceAction::Continue)
            &&& n == SourceParser { inline_block: n.inline_block, output_lines: n.output_lines, line_no: next, ..o }
            &&& n.inline_block matches Some(b) && fresh_block(b, "GLOBAL_ASM block at line "@ + decimal(o.line_no as nat))
            &&& views(n.output_lines@) == out0
        } else if is_file_block(t) {
            let name = block_file(t)->Some_0;
            &&& r is Ok ==> {
                &&& r matches Ok(SourceAction::ReadAsmFile(x)) && x@ == name
                &&& n == SourceParser {
                    file_block: n.file_block,
                    file_block_name: n.file_block_name,
                    output_lines: n.output_lines,
                    pending_line: cur as usize,
                    line_no: next,
                    ..o
                }
                &&& n.file_block_name@ == name
                &&& views(n.output_lines@) == out0
                &&& n.file_block matches Some(b) && if has_prefix(t, "INCLUDE_RODATA"@) {
                    exists|b0: GlobalAsmBlock| #[trigger] fresh_block(b0, name) && line_processed(b0, b, ".section .rodata"@, Ok(()))
                } else {
                    fresh_block(b, name)
                }
            }
            &&& r is Ok
        } else if t == "#pragma asmproc recurse"@ {
            &&& r matches Ok(SourceAction::Continue)
            &&& n == SourceParser { output_lines: n.output_lines, is_early_include: true, line_no: next, ..o }
            &&& views(n.output_lines@) == out0
        } else if o.is_early_include {
            if !has_prefix(t, "#include "@) {
                r matches Err(Error::InvalidInput(_))
            } else {
                &&& r matches Ok(SourceAction::Include(x)) && x@ == include_path_of(t)->Some_0
                &&& n == SourceParser {
                    output_lines: n.output_lines,
                    is_early_include: false,
                    pending_line: cur as usize,
                    pending_line_no: next,
                    line_no: next,
                    ..o
                }
                &&& views(n.output_lines@) == out0
            }
        } else if o.encode_floats && (cutscene_start(t) || (!has_suffix(t, "};"@) && o.is_cutscene_data)) {
            &&& r matches Ok(SourceAction::EncodeFloats(x)) && x@ == raw
            &&& n == SourceParser {
                output_lines: n.output_lines,
                is_cutscene_data: true,
                pending_line: cur as usize,
                line_no: next,
                ..o
            }
            &&& views(n.output_lines@) == out0
        } else {
            &&& r matches Ok(SourceAction::Continue)
            &&& n == SourceParser {
                output_lines: n.output_lines,
                is_cutscene_data: if o.encode_floats {
                    false
                } else {
                    o.is_cutscene_data
                },
                line_no: next,
                ..o
            }
            &&& views(n.output_lines@) == out0.update(cur, raw)
        },
    }
}

/// Pre-processing keeps one output line per source line: a source line that is read without
/// an error adds exactly one output line and counts one more line.
pub proof fn lemma_one_output_line_per_source_line(
    o: SourceParser,
    n: SourceParser,
    line: Seq<char>,
    r: Result<SourceAction, Error>,
)
    requires
        source_step(o, n, line, r),
        r is Ok,
        o.line_no < usize::MAX,
    ensures
        n.output_lines@.len() == o.output_lines@.len() + 1,
        n.line_no == o.line_no + 1,
{
    assert(views(n.output_lines@).len() == n.output_lines@.len());
    assert(views(o.output_lines@).len() == o.output_lines@.len());
}

/// The text of a source line as `source_step` reads it: trimmed at both ends.
pub open spec fn source_text(line: Seq<char>) -> Seq<char> {
    trim_start(trim_end(line))
}

/// A source line that needs nothing from outside the parser: it names no block file and
/// asks for no recursive include.
pub open spec fn plain_source_line(line: Seq<char>) -> bool {
    let t = source_text(line);
    !is_file_block(t) && t != "#pragma asmproc recurse"@
}

/// Whether the line closes the inline block that the parser `p` is reading.
pub open spec fn closes_block(p: SourceParser, line: Seq<char>) -> bool {
    p.inline_block is Some && has_prefix(source_text(line), ")"@)
}

/// The number of the first `k` lines of a run that close an inline block, each read by the
/// parser at the same position.
pub open spec fn blocks_closed(ps: Seq<SourceParser>, lines: Seq<Seq<char>>, k: int) -> nat
    decreases k,
{
    if k <= 0 {
        0
    } else {
        blocks_closed(ps, lines, k - 1) + if closes_block(ps[k - 1], lines[k - 1]) {
            1nat
        } else {
            0nat
        }
    }
}

/// Whether the line opens an inline block: the parser `p` reads none and the line starts one.
pub open spec fn opens_block(p: SourceParser, line: Seq<char>) -> bool {
    p.inline_block is None && is_block_start(source_text(line))
}

/// The number of the first `k` lines of a run that open an inline block.
pub open spec fn blocks_opened(ps: Seq<SourceParser>, lines: Seq<Seq<char>>, k: int) -> nat
    decreases k,
{
    if k <= 0 {
        0
    } else {
        blocks_opened(ps, lines, k - 1) + if opens_block(ps[k - 1], lines[k - 1]) {
            1nat
        } else {
            0nat
        }
    }
}

/// One plain line read without an error, by a parser that waits for no include and
/// encodes no floats: it asks for nothing, adds one output line, leaves the files read
/// alone, and adds a block where it closes one.
proof fn lemma_plain_source_step(o: SourceParser, n: SourceParser, line: Seq<char>, r: Result<SourceAction, Error>)
    requires
        source_step(o, n, line, r),
        r is Ok,
        plain_source_line(line),
        !o.is_early_include,
        !o.encode_floats,
        o.line_no < usize::MAX,
    ensures
        r matches Ok(SourceAction::Continue),
        !n.is_early_include,
        !n.encode_floats,
        n.dependencies == o.dependencies,
        n.line_no == o.line_no + 1,
        n.output_lines@.len() == o.output_lines@.len() + 1,
        closes_block(o, line) ==> n.asm_functions@.len() == o.asm_functions@.len() + 1,
        !closes_block(o, line) ==> n.asm_functions@ == o.asm_functions@,
        o.asm_functions@.is_prefix_of(n.asm_functions@),
        (n.inline_block is Some) == (opens_block(o, line) || (o.inline_block is Some && !closes_block(o, line))),
{
    lemma_one_output_line_per_source_line(o, n, line, r);
    if closes_block(o, line) {
        let b = o.inline_block->Some_0;
        let (ls, f) = choose|ls: Seq<String>, f: Function|
            #[trigger] block_finished(b, o.state, n.state, ls, f) && n.asm_functions@ == o.asm_functions@.push(f)
                && views(n.output_lines@) == placed(
                views(o.output_lines@).push(Seq::<char>::empty()),
                views(ls),
                views(o.output_lines@).len() as int,
            );
        assert(o.asm_functions@ =~= n.asm_functions@.subrange(0, o.asm_functions@.len() as int));
    } else {
        assert(o.asm_functions@ =~= n.asm_functions@.subrange(0, o.asm_functions@.len() as int));
    }
}

/// Over a whole source: where each `ps[i + 1]` is the parser `ps[i]` after `lines[i]` read
/// without an error, no line names a block file or asks for a recursive include, and the
/// parser neither waits for an include nor encodes floats at the start, the run asks for
/// nothing outside the parser; it prints one line per source line, counts every line,
/// leaves the files read as they were, and adds one block, after those found before, for
/// each line that closes an inline block; every block opened is closed, or still open at
/// the end.
pub proof fn lemma_source_run(ps: Seq<SourceParser>, lines: Seq<Seq<char>>, rs: Seq<Result<SourceAction, Error>>)
    requires
        ps.len() == lines.len() + 1,
        rs.len() == lines.len(),
        forall|i: int| 0 <= i < lines.len() ==> source_step(ps[i], ps[i + 1], lines[i], #[trigger] rs[i]),
        forall|i: int| 0 <= i < rs.len() ==> (#[trigger] rs[i]) is Ok,
        forall|i: int| 0 <= i < lines.len() ==> plain_source_line(#[trigger] lines[i]),
        !ps[0].is_early_include,
        !ps[0].encode_floats,
        ps[0].line_no + lines.len() <= usize::MAX,
    ensures
        forall|i: int| 0 <= i < rs.len() ==> (#[trigger] rs[i]) matches Ok(SourceAction::Continue),
        ps.last().output_lines@.len() == ps[0].output_lines@.len() + lines.len(),
        ps.last().line_no == ps[0].line_no + lines.len(),
        ps.last().dependencies == ps[0].dependencies,
        ps.last().asm_functions@.len() == ps[0].asm_functions@.len() + blocks_closed(ps, lines, lines.len() as int),
        ps[0].asm_functions@.is_prefix_of(ps.last().asm_functions@),
        !ps.last().is_early_include,
        !ps.last().encode_floats,
        blocks_opened(ps, lines, lines.len() as int) + (if ps[0].inline_block is Some { 1int } else { 0int })
            == blocks_closed(ps, lines, lines.len() as int) + (if ps.last().inline_block is Some { 1int } else { 0int }),
    decreases lines.len(),
{
    if lines.len() > 0 {
        let m = lines.len() - 1;
        let ps0 = ps.drop_last();
        let lines0 = lines.drop_last();
        let rs0 = rs.drop_last();
        assert forall|i: int| 0 <= i < lines0.len() implies source_step(ps0[i], ps0[i + 1], lines0[i], #[trigger] rs0[i]) by {
            assert(source_step(ps[i], ps[i + 1], lines[i], rs[i]));
        }
        assert forall|i: int| 0 <= i < rs0.len() implies (#[trigger] rs0[i]) is Ok by {
            assert(rs[i] is Ok);
        }
        assert forall|i: int| 0 <= i < lines0.len() implies plain_source_line(#[trigger] lines0[i]) by {
            assert(plain_source_line(lines[i]));
        }
        lemma_source_run(ps0, lines0, rs0);
        assert(ps0.last() == ps[m]);
        assert(source_step(ps[m], ps[m + 1], lines[m], rs[m]));
        assert(plain_source_line(lines[m]));
        lemma_plain_source_step(ps[m], ps[m + 1], lines[m], rs[m]);
        assert(blocks_closed(ps0, lines0, m) == blocks_closed(ps, lines, m)
            && blocks_opened(ps0, lines0, m) == blocks_opened(ps, lines, m)) by {
            lemma_blocks_closed_prefix(ps, lines, ps0, lines0, m);
        }
        assert forall|i: int| 0 <= i < rs.len() implies (#[trigger] rs[i]) matches Ok(SourceAction::Continue) by {
            if i < m {
                assert(rs0[i] matches Ok(SourceAction::Continue));
            }
        }
        let a = ps[0].asm_functions@;
        let b = ps[m].asm_functions@;
        let c = ps[m + 1].asm_functions@;
        assert(a =~= c.subrange(0, a.len() as int)) by {
            assert(a =~= b.subrange(0, a.len() as int));
            assert(b =~= c.subrange(0, b.len() as int));
        }
    }
}

/// Counting the closing lines of a run looks only at the positions counted.
proof fn lemma_blocks_closed_prefix(
    ps: Seq<SourceParser>,
    lines: Seq<Seq<char>>,
    ps0: Seq<SourceParser>,
    lines0: Seq<Seq<char>>,
    k: int,
)
    requires
        0 <= k <= ps0.len(),
        k <= lines0.len(),
        ps0.len() <= ps.len(),
        lines0.len() <= lines.len(),
        forall|i: int| 0 <= i < ps0.len() ==> ps0[i] == ps[i],
        forall|i: int| 0 <= i < lines0.len() ==> lines0[i] == lines[i],
    ensures
        blocks_closed(ps0, lines0, k) == blocks_closed(ps, lines, k),
        blocks_opened(ps0, lines0, k) == blocks_opened(ps, lines, k),
    decreases k,
{
    if k > 0 {
        lemma_blocks_closed_prefix(ps, lines, ps0, lines0, k - 1);
    }
}

/// The number of the sections `.rodata`, `.data` and `.bss` that hold contents: one
/// placeholder declaration each when the block is finished.
pub open spec fn filled_sections(s: SectionSizes) -> int {
    (if s.rodata > 0 {
        1int
    } else {
        0int
    }) + (if s.data > 0 {
        1int
    } else {
        0int
    }) + (if s.bss > 0 {
        1int
    } else {
        0int
    })
}

/// A line printed as it is: read outside an inline block, and opening none.
pub open spec fn kept_source_line(p: SourceParser, line: Seq<char>) -> bool {
    p.inline_block is None && !is_block_start(source_text(line))
}

/// Where a run stands after its first `k` lines: the parser waits for no include and
/// encodes no floats, and has counted `k` more lines; each line printed as it is so far
/// stands, with its trailing whitespace removed, at the position at which it was printed,
/// before the opening line of any inline block still open; and that block has aligned
/// sizes and no more filled sections than lines.
pub open spec fn run_keeps(ps: Seq<SourceParser>, lines: Seq<Seq<char>>, k: int) -> bool {
    let p = ps[k];
    let len = p.output_lines@.len();
    &&& !p.is_early_include
    &&& !p.encode_floats
    &&& p.line_no == ps[0].line_no + k
    &&& forall|i: int|
        0 <= i < k && #[trigger] kept_source_line(ps[i], lines[i]) ==> {
            &&& ps[i].output_lines@.len() < len
            &&& views(p.output_lines@)[ps[i].output_lines@.len() as int] == trim_end(lines[i])
            &&& (p.inline_block matches Some(b) ==> ps[i].output_lines@.len() + 1 + b.num_lines < len)
        }
    &&& p.inline_block matches Some(b) ==> {
        &&& sizes_aligned(b.model())
        &&& filled_sections(b.fn_section_sizes) <= b.num_lines
    }
}

/// The placeholder declarations of a block are as many as its filled sections.
proof fn lemma_placeholders_len(sizes: SectionSizes, ctr: int)
    ensures
        placeholders(sizes, ctr).len() == filled_sections(sizes),
{
}

/// Lines put in place of the last lines leave the lines before them alone.
proof fn lemma_placed_before(out: Seq<Seq<char>>, src: Seq<Seq<char>>, cur: int, i: int)
    requires
        0 <= i < out.len(),
        i < cur - src.len() + 1,
    ensures
        placed(out, src, cur)[i] == out[i],
        placed(out, src, cur).len() == out.len(),
{
}

/// The lines printed before position `upto` are the same in `o` and `n`.
pub open spec fn same_lines_before(o: SourceParser, n: SourceParser, upto: int) -> bool {
    forall|j: int| 0 <= j < upto ==> #[trigger] views(n.output_lines@)[j] == views(o.output_lines@)[j]
}

/// A plain line closing an inline block: the block's placeholder declarations take the
/// place of its last lines only.
proof fn lemma_close_step(o: SourceParser, n: SourceParser, line: Seq<char>, r: Result<SourceAction, Error>)
    requires
        source_step(o, n, line, r),
        r is Ok,
        o.inline_block is Some,
        has_prefix(source_text(line), ")"@),
    ensures
        n.inline_block is None,
        n.output_lines@.len() == o.output_lines@.len() + 1,
        same_lines_before(o, n, o.output_lines@.len() - filled_sections(o.inline_block->Some_0.fn_section_sizes)),
{
    let b = o.inline_block->Some_0;
    let out0 = views(o.output_lines@).push(Seq::<char>::empty());
    let cur = out0.len() - 1;
    let (ls, f) = choose|ls: Seq<String>, f: Function|
        #[trigger] block_finished(b, o.state, n.state, ls, f) && n.asm_functions@ == o.asm_functions@.push(f)
            && views(n.output_lines@) == placed(out0, views(ls), cur);
    lemma_placeholders_len(b.fn_section_sizes, o.state.namectr as int);
    assert(views(ls).len() == filled_sections(b.fn_section_sizes));
    assert(views(n.output_lines@).len() == n.output_lines@.len());
    assert forall|j: int|
        0 <= j < o.output_lines@.len() - filled_sections(b.fn_section_sizes) implies #[trigger] views(
        n.output_lines@,
    )[j] == views(o.output_lines@)[j] by {
        lemma_placed_before(out0, views(ls), cur, j);
    }
}

/// A plain line inside an inline block: it goes to the block, and an empty line is printed.
proof fn lemma_block_line_step(o: SourceParser, n: SourceParser, line: Seq<char>, r: Result<SourceAction, Error>)
    requires
        source_step(o, n, line, r),
        r is Ok,
        o.inline_block is Some,
        sizes_aligned(o.inline_block->Some_0.model()),
        !has_prefix(source_text(line), ")"@),
    ensures
        n.inline_block is Some,
        n.inline_block->Some_0.num_lines == o.inline_block->Some_0.num_lines + 1,
        sizes_aligned(n.inline_block->Some_0.model()),
        filled_sections(n.inline_block->Some_0.fn_section_sizes) <= filled_sections(
            o.inline_block->Some_0.fn_section_sizes,
        ) + 1,
        n.output_lines@.len() == o.output_lines@.len() + 1,
        same_lines_before(o, n, o.output_lines@.len() as int),
{
    let b = o.inline_block->Some_0;
    let b2 = n.inline_block->Some_0;
    lemma_process_line_keeps_sizes(b, b2, trim_end(line), unit_of(r));
    let out0 = views(o.output_lines@).push(Seq::<char>::empty());
    assert(views(n.output_lines@).len() == n.output_lines@.len());
    assert forall|j: int| 0 <= j < o.output_lines@.len() implies #[trigger] views(n.output_lines@)[j] == views(
        o.output_lines@,
    )[j] by {
        assert(views(n.output_lines@)[j] == out0[j]);
    }
}

/// A line outside an inline block that opens one: a new block, and an empty line printed.
proof fn lemma_open_step(o: SourceParser, n: SourceParser, line: Seq<char>, r: Result<SourceAction, Error>)
    requires
        source_step(o, n, line, r),
        o.inline_block is None,
        is_block_start(source_text(line)),
    ensures
        n.inline_block is Some,
        n.inline_block->Some_0.num_lines == 0,
        sizes_aligned(n.inline_block->Some_0.model()),
        filled_sections(n.inline_block->Some_0.fn_section_sizes) == 0,
        n.output_lines@.len() == o.output_lines@.len() + 1,
        same_lines_before(o, n, o.output_lines@.len() as int),
{
    let out0 = views(o.output_lines@).push(Seq::<char>::empty());
    assert(views(n.output_lines@).len() == n.output_lines@.len());
    assert forall|j: int| 0 <= j < o.output_lines@.len() implies #[trigger] views(n.output_lines@)[j] == views(
        o.output_lines@,
    )[j] by {
        assert(views(n.output_lines@)[j] == out0[j]);
    }
}

/// A plain line outside an inline block that opens none, read by a parser that waits for
/// no include and encodes no floats: printed as it is, its trailing whitespace removed.
proof fn lemma_kept_step(o: SourceParser, n: SourceParser, line: Seq<char>, r: Result<SourceAction, Error>)
    requires
        source_step(o, n, line, r),
        r is Ok,
        kept_source_line(o, line),
        plain_source_line(line),
        !o.is_early_include,
        !o.encode_floats,
    ensures
        n.inline_block is None,
        n.output_lines@.len() == o.output_lines@.len() + 1,
        same_lines_before(o, n, o.output_lines@.len() as int),
        views(n.output_lines@)[o.output_lines@.len() as int] == trim_end(line),
{
    let out0 = views(o.output_lines@).push(Seq::<char>::empty());
    assert(views(n.output_lines@).len() == n.output_lines@.len());
    assert forall|j: int| 0 <= j < o.output_lines@.len() implies #[trigger] views(n.output_lines@)[j] == views(
        o.output_lines@,
    )[j] by {
        assert(views(n.output_lines@)[j] == out0[j]);
    }
}

/// One plain line keeps what `run_keeps` says.
#[verifier::spinoff_prover]
#[verifier::rlimit(100)]
proof fn lemma_run_keeps_step(
    ps: Seq<SourceParser>,
    lines: Seq<Seq<char>>,
    rs: Seq<Result<SourceAction, Error>>,
    k: int,
)
    requires
        0 <= k < lines.len(),
        ps.len() == lines.len() + 1,
        rs.len() == lines.len(),
        run_keeps(ps, lines, k),
        source_step(ps[k], ps[k + 1], lines[k], rs[k]),
        rs[k] is Ok,
        plain_source_line(lines[k]),
        ps[0].line_no + lines.len() <= usize::MAX,
    ensures
        run_keeps(ps, lines, k + 1),
{
    let o = ps[k];
    let n = ps[k + 1];
    let line = lines[k];
    let r = rs[k];
    lemma_plain_source_step(o, n, line, r);
    let olen = o.output_lines@.len() as int;
    if o.inline_block is Some {
        let b = o.inline_block->Some_0;
        if has_prefix(source_text(line), ")"@) {
            lemma_close_step(o, n, line, r);
            assert forall|i: int| 0 <= i < k + 1 && #[trigger] kept_source_line(ps[i], lines[i]) implies {
                &&& ps[i].output_lines@.len() < n.output_lines@.len()
                &&& views(n.output_lines@)[ps[i].output_lines@.len() as int] == trim_end(lines[i])
            } by {
                let j = ps[i].output_lines@.len() as int;
                assert(j + 1 + b.num_lines < olen);
                assert(views(n.output_lines@)[j] == views(o.output_lines@)[j]);
            }
        } else {
            lemma_block_line_step(o, n, line, r);
            let b2 = n.inline_block->Some_0;
            assert forall|i: int| 0 <= i < k + 1 && #[trigger] kept_source_line(ps[i], lines[i]) implies {
                &&& ps[i].output_lines@.len() < n.output_lines@.len()
                &&& views(n.output_lines@)[ps[i].output_lines@.len() as int] == trim_end(lines[i])
                &&& ps[i].output_lines@.len() + 1 + b2.num_lines < n.output_lines@.len()
            } by {
                let j = ps[i].output_lines@.len() as int;
                assert(views(n.output_lines@)[j] == views(o.output_lines@)[j]);
            }
        }
    } else if is_block_start(source_text(line)) {
        lemma_open_step(o, n, line, r);
        let b2 = n.inline_block->Some_0;
        assert forall|i: int| 0 <= i < k + 1 && #[trigger] kept_source_line(ps[i], lines[i]) implies {
            &&& ps[i].output_lines@.len() < n.output_lines@.len()
            &&& views(n.output_lines@)[ps[i].output_lines@.len() as int] == trim_end(lines[i])
            &&& ps[i].output_lines@.len() + 1 + b2.num_lines < n.output_lines@.len()
        } by {
            let j = ps[i].output_lines@.len() as int;
            assert(views(n.output_lines@)[j] == views(o.output_lines@)[j]);
        }
    } else {
        lemma_kept_step(o, n, line, r);
        assert forall|i: int| 0 <= i < k + 1 && #[trigger] kept_source_line(ps[i], lines[i]) implies {
            &&& ps[i].output_lines@.len() < n.output_lines@.len()
            &&& views(n.output_lines@)[ps[i].output_lines@.len() as int] == trim_end(lines[i])
        } by {
            if i < k {
                let j = ps[i].output_lines@.len() as int;
                assert(views(n.output_lines@)[j] == views(o.output_lines@)[j]);
            }
        }
    }
}

/// Every prefix of a run of plain lines keeps what `run_keeps` says.
proof fn lemma_run_keeps(
    ps: Seq<SourceParser>,
    lines: Seq<Seq<char>>,
    rs: Seq<Result<SourceAction, Error>>,
    k: int,
)
    requires
        0 <= k <= lines.len(),
        ps.len() == lines.len() + 1,
        rs.len() == lines.len(),
        forall|i: int| 0 <= i < lines.len() ==> source_step(ps[i], ps[i + 1], lines[i], #[trigger] rs[i]),
        forall|i: int| 0 <= i < rs.len() ==> (#[trigger] rs[i]) is Ok,
        forall|i: int| 0 <= i < lines.len() ==> plain_source_line(#[trigger] lines[i]),
        !ps[0].is_early_include,
        !ps[0].encode_floats,
        ps[0].inline_block is None,
        ps[0].line_no + lines.len() <= usize::MAX,
    ensures
        run_keeps(ps, lines, k),
    decreases k,
{
    if k > 0 {
        lemma_run_keeps(ps, lines, rs, k - 1);
        assert(source_step(ps[k - 1], ps[k], lines[k - 1], rs[k - 1]));
        assert(plain_source_line(lines[k - 1]));
        lemma_run_keeps_step(ps, lines, rs, k - 1);
    }
}

/// Over a whole source read outside any inline block at the start: each line read outside
/// an inline block that opens none is printed, its trailing whitespace removed, at the
/// position at which it was read, and stays there to the end of the run; no block's
/// placeholder declarations reach back over it.
pub proof fn lemma_source_run_keeps_lines(
    ps: Seq<SourceParser>,
    lines: Seq<Seq<char>>,
    rs: Seq<Result<SourceAction, Error>>,
)
    requires
        ps.len() == lines.len() + 1,
        rs.len() == lines.len(),
        forall|i: int| 0 <= i < lines.len() ==> source_step(ps[i], ps[i + 1], lines[i], #[trigger] rs[i]),
        forall|i: int| 0 <= i < rs.len() ==> (#[trigger] rs[i]) is Ok,
        forall|i: int| 0 <= i < lines.len() ==> plain_source_line(#[trigger] lines[i]),
        !ps[0].is_early_include,
        !ps[0].encode_floats,
        ps[0].inline_block is None,
        ps[0].line_no + lines.len() <= usize::MAX,
    ensures
        forall|i: int|
            0 <= i < lines.len() && #[trigger] kept_source_line(ps[i], lines[i]) ==> views(ps.last().output_lines@)[ps[i].output_lines@.len() as int]
                == trim_end(lines[i]),
{
    lemma_run_keeps(ps, lines, rs, lines.len() as int);
}

/// The line `.section .rodata` given to a new block succeeds: it enters `.rodata`.
proof fn lemma_rodata_line_ok(b0: GlobalAsmBlock, b: GlobalAsmBlock, r: Result<(), Error>, desc: Seq<char>)
    requires
        fresh_block(b0, desc),
        line_processed(b0, b, ".section .rodata"@, r),
    ensures
        r is Ok,
{
    lemma_rodata_section_line();
    lemma_section_names();
    let line = ".section .rodata"@;
    let written = b0.glued_line@ + line;
    assert(written =~= line);
    let m = b0.model();
    assert(m.cur_section == ".text"@);
    assert(line_kind(m.cur_section, line) == 3);
    reveal_strlit(".section .rodata");
    assert(line.len() == 16);
    assert(fits(m, line));
    assert(section_target(line) == Some(".rodata"@));
    assert(is_asm_section(".rodata"@));
    assert(line_step(m, line, written, b0.num_lines + 1).1 is None);
}

impl SourceParser {
    /// The parser keeps its lines in order: there is always the first line, an open inline
    /// block follows its opening line, and the line to fill in exists.
    pub open spec fn wf(&self) -> bool {
        &&& self.output_lines@.len() >= 1
        &&& self.inline_block matches Some(b) ==> b.wf() && self.output_lines@.len() >= 2
        &&& self.file_block matches Some(b) ==> b.wf()
        &&& self.pending_line < self.output_lines@.len()
    }
}

impl SourceParser {
    /// A parser for the source that `opts` describes: the compiler's parameters from the
    /// optimization level and flags (an unknown level fails), and the first line, which
    /// names the source.
    pub fn new(opts: &Opts) -> (r: Result<SourceParser, Error>)
        ensures
            !is_opt_level(opts.opt@) ==> (r matches Err(Error::InvalidInput(msg))
                && msg@ == "must pass one of -g, -O0, -O1, -O2, -O2 -g3"@),
            is_opt_level(opts.opt@) ==> (r matches Ok(p) && {
                let (min, skip, prelude, jtbl) = parse_params(opts.opt@, opts.framepointer, opts.kpic);
                &&& p.state == (GlobalState {
                    min_instr_count: min as usize,
                    skip_instr_count: skip as usize,
                    use_jtbl_for_rodata: jtbl,
                    prelude_if_late_rodata: prelude as usize,
                    mips1: opts.mips1,
                    pascal: opts.pascal,
                    namectr: 0,
                })
                &&& p.inline_block is None
                &&& p.file_block is None
                &&& p.asm_functions@.len() == 0
                &&& p.dependencies@.len() == 0
                &&& views(p.output_lines@) == seq!["#line 1 \""@ + opts.filename@ + "\""@]
                &&& !p.is_cutscene_data
                &&& !p.is_early_include
                &&& p.line_no == 1
                &&& p.pending_line == 0
                &&& p.filename == opts.filename
                &&& p.output_enc == opts.output_enc
                &&& p.encode_floats == opts.enable_cutscene_data_float_encoding
                &&& p.wf()
            }),
    {
        let opt = opts.opt.as_str();
        let known = str_eq(opt, "O0") || str_eq(opt, "O1") || str_eq(opt, "O2") || str_eq(opt, "g") || str_eq(opt, "g3");
        if !known {
            return Err(Error::InvalidInput("must pass one of -g, -O0, -O1, -O2, -O2 -g3".to_owned()));
        }
        let mut state = GlobalState::from_opts(opt, opts.framepointer, opts.mips1, opts.kpic, opts.pascal);
        state.use_jtbl_for_rodata = str_eq(opt, "O2") || (str_eq(opt, "g3") && !opts.framepointer && !opts.kpic);
        let mut first = "#line 1 \"".to_owned();
        first.append(opts.filename.as_str());
        first.append("\"");
        let mut output_lines: Vec<String> = Vec::new();
        output_lines.push(first);
        assert(views(output_lines@) =~= seq!["#line 1 \""@ + opts.filename@ + "\""@]);
        Ok(
            SourceParser {
                state,
                inline_block: None,
                file_block: None,
                file_block_name: String::new(),
                asm_functions: Vec::new(),
                output_lines,
                dependencies: Vec::new(),
                is_cutscene_data: false,
                is_early_include: false,
                line_no: 1,
                pending_line: 0,
                pending_line_no: 0,
                filename: opts.filename.clone(),
                output_enc: opts.output_enc.clone(),
                encode_floats: opts.enable_cutscene_data_float_encoding,
            },
        )
    }

    /// Whether `line` cannot be read, as `line_panics` says; such a line must not be handed to
    /// `process_source_line`, and reading the source stops on it.
    pub fn panics_on(&self, line: &str) -> (r: bool)
        ensures
            r == line_panics(*self, line@),
    {
        if self.inline_block.is_some() {
            return false;
        }
        let cs = chars_of(line);
        let raw_cs = crate::utils::text::trim_end_chars(cs.as_slice());
        let t_cs = crate::utils::text::trim_start_chars(raw_cs.as_slice());
        let t = string_of(t_cs.as_slice());
        if str_eq(t.as_str(), "GLOBAL_ASM(") || str_eq(t.as_str(), "#pragma GLOBAL_ASM(") {
            return false;
        }
        if is_file_block_line(t_cs.as_slice()) {
            return block_file_of(t.as_str()).is_none();
        }
        if str_eq(t.as_str(), "#pragma asmproc recurse") {
            return false;
        }
        self.is_early_include && starts_with(t_cs.as_slice(), "#include ") && include_path(t.as_str()).is_none()
    }
}

/// Whether a line names a block in a file of its own.
fn is_file_block_line(t: &[char]) -> (r: bool)
    ensures
        r == is_file_block(t@),
{
    ((starts_with(t, "GLOBAL_ASM(\"") || starts_with(t, "#pragma GLOBAL_ASM(\"")) && ends_with(t, "\")")) || ((
    starts_with(t, "INCLUDE_ASM(\"") || starts_with(t, "INCLUDE_RODATA(\"")) && contains_str(t, "\",") && ends_with(
        t,
        ");",
    ))
}

impl SourceParser {
    /// Reads one line of the source, as `source_step` says.
    pub fn process_source_line(&mut self, line: &str) -> (r: Result<SourceAction, Error>)
        requires
            old(self).wf(),
            old(self).file_block is None,
            old(self).line_no < usize::MAX,
            old(self).output_lines@.len() < usize::MAX,
            !line_panics(*old(self), line@),
        ensures
            source_step(*old(self), *final(self), line@, r),
            r is Ok ==> final(self).wf(),
    {
        let cs = chars_of(line);
        let raw_cs = crate::utils::text::trim_end_chars(cs.as_slice());
        let raw = string_of(raw_cs.as_slice());
        let t_cs = crate::utils::text::trim_start_chars(raw_cs.as_slice());
        let t = string_of(t_cs.as_slice());
        let ghost o = *self;
        let ghost out0 = views(self.output_lines@).push(Seq::<char>::empty());
        self.output_lines.push(String::new());
        assert(views(self.output_lines@) =~= out0);
        let cur = self.output_lines.len() - 1;
        let next = self.line_no + 1;
        if self.inline_block.is_some() {
            let mut taken: Option<GlobalAsmBlock> = None;
            core::mem::swap(&mut taken, &mut self.inline_block);
            let mut b = match taken {
                Some(b) => b,
                None => {
                    return Err(Error::InvalidInput("no open block".to_owned()));
                },
            };
            if starts_with(t_cs.as_slice(), ")") {
                if self.state.namectr > usize::MAX - 3 || b.late_rodata_asm_conts.len() > usize::MAX / 4 {
                    return Err(Error::InvalidInput("too many blocks".to_owned()));
                }
                let ghost st0 = self.state;
                let (src, f) = match b.finish(&mut self.state) {
                    Ok(x) => x,
                    Err(e) => {
                        return Err(e);
                    },
                };
                proof {
                    let ph = crate::assembly::block::placeholders(b.fn_section_sizes, st0.namectr as int);
                    assert(ph.len() <= 3);
                    assert(views(src@).len() == src@.len());
                }
                let start = cur + 1 - src.len();
                let mut lines: Vec<String> = Vec::new();
                core::mem::swap(&mut lines, &mut self.output_lines);
                let mut k: usize = 0;
                while k < src.len()
                    invariant
                        k <= src@.len(),
                        src@.len() <= 3,
                        cur == out0.len() - 1,
                        start + src@.len() == cur + 1,
                        lines@.len() == out0.len(),
                        forall|i: int|
                            0 <= i < out0.len() ==> #[trigger] lines@[i]@ == if start <= i < start + k {
                                src@[i - start]@
                            } else {
                                out0[i]
                            },
                    decreases src@.len() - k,
                {
                    lines.set(start + k, src[k].clone());
                    k += 1;
                }
                core::mem::swap(&mut lines, &mut self.output_lines);
                assert(views(self.output_lines@) =~= placed(out0, views(src@), cur as int));
                self.asm_functions.push(f);
                self.line_no = next;
                return Ok(SourceAction::Continue);
            }
            if b.num_lines == usize::MAX {
                self.inline_block = Some(b);
                return Err(Error::InvalidInput("too many lines in a block".to_owned()));
            }
            let res = b.process_line(raw.as_str(), self.output_enc.as_str());
            self.inline_block = Some(b);
            match res {
                Err(e) => Err(e),
                Ok(()) => {
                    self.line_no = next;
                    Ok(SourceAction::Continue)
                },
            }
        } else if str_eq(t.as_str(), "GLOBAL_ASM(") || str_eq(t.as_str(), "#pragma GLOBAL_ASM(") {
            let mut desc = "GLOBAL_ASM block at line ".to_owned();
            desc.append(usize_to_string(self.line_no).as_str());
            self.inline_block = Some(GlobalAsmBlock::new(desc.as_str()));
            self.line_no = next;
            Ok(SourceAction::Continue)
        } else if is_file_block_line(t_cs.as_slice()) {
            let name = match block_file_of(t.as_str()) {
                Some(n) => n,
                None => {
                    return Err(Error::InvalidInput("malformed block file line".to_owned()));
                },
            };
            let mut b = GlobalAsmBlock::new(name.as_str());
            if starts_with(t_cs.as_slice(), "INCLUDE_RODATA") {
                let ghost b0 = b;
                let done = b.process_line(".section .rodata", self.output_enc.as_str());
                proof {
                    lemma_rodata_line_ok(b0, b, done, name@);
                }
                match done {
                    Err(e) => {
                        return Err(e);
                    },
                    Ok(()) => {},
                }
            }
            self.file_block = Some(b);
            self.file_block_name = name.clone();
            self.pending_line = cur;
            self.line_no = next;
            Ok(SourceAction::ReadAsmFile(name))
        } else if str_eq(t.as_str(), "#pragma asmproc recurse") {
            self.is_early_include = true;
            self.line_no = next;
            Ok(SourceAction::Continue)
        } else if self.is_early_include {
            self.is_early_include = false;
            if !starts_with(t_cs.as_slice(), "#include ") {
                return Err(Error::InvalidInput("#pragma asmproc recurse must be followed by an #include".to_owned()));
            }
            let path = match include_path(t.as_str()) {
                Some(p) => p,
                None => {
                    return Err(Error::InvalidInput("malformed #include line".to_owned()));
                },
            };
            self.pending_line = cur;
            self.pending_line_no = next;
            self.line_no = next;
            Ok(SourceAction::Include(path))
        } else if self.encode_floats && (starts_cutscene_data(t.as_str()) || (!ends_with(t_cs.as_slice(), "};")
            && self.is_cutscene_data)) {
            self.is_cutscene_data = true;
            self.pending_line = cur;
            self.line_no = next;
            Ok(SourceAction::EncodeFloats(raw))
        } else {
            if self.encode_floats {
                self.is_cutscene_data = false;
            }
            let ghost before = views(self.output_lines@);
            self.output_lines.set(cur, raw);
            assert(views(self.output_lines@) =~= before.update(cur as int, raw_cs@));
            self.line_no = next;
            Ok(SourceAction::Continue)
        }
    }
}

/// The lines one after the other.
pub open spec fn joined_lines(lines: Seq<Seq<char>>) -> Seq<char>
    decreases lines.len(),
{
    if lines.len() == 0 {
        Seq::empty()
    } else {
        joined_lines(lines.drop_last()) + lines.last()
    }
}

/// Each line followed by a line feed, one after the other.
pub open spec fn printed_lines(lines: Seq<Seq<char>>) -> Seq<char>
    decreases lines.len(),
{
    if lines.len() == 0 {
        Seq::empty()
    } else {
        printed_lines(lines.drop_last()) + lines.last() + seq!['\n']
    }
}

/// The strings one after the other.
fn join_all(lines: &Vec<String>) -> (s: String)
    ensures
        s@ == joined_lines(views(lines@)),
{
    let mut s = String::new();
    let mut i: usize = 0;
    while i < lines.len()
        invariant
            i <= lines@.len(),
            s@ == joined_lines(views(lines@.take(i as int))),
        decreases lines@.len() - i,
    {
        assert(views(lines@.take(i + 1)) =~= views(lines@.take(i as int)).push(lines@[i as int]@));
        assert(views(lines@.take(i + 1)).drop_last() =~= views(lines@.take(i as int)));
        s.append(lines[i].as_str());
        i += 1;
    }
    assert(lines@.take(i as int) =~= lines@);
    s
}

impl SourceParser {
    /// Hands one line of the block file being read to its block.
    pub fn asm_file_line(&mut self, line: &str) -> (r: Result<(), Error>)
        requires
            old(self).wf(),
            old(self).file_block is Some,
        ensures
            ({
                let b = old(self).file_block->Some_0;
                &&& b.num_lines < usize::MAX ==> (final(self).file_block matches Some(b2) && line_processed(b, b2, line@, r))
                &&& b.num_lines == usize::MAX ==> r is Err
                &&& *final(self) == (SourceParser { file_block: final(self).file_block, ..*old(self) })
                &&& r is Ok ==> final(self).wf()
            }),
    {
        let mut taken: Option<GlobalAsmBlock> = None;
        core::mem::swap(&mut taken, &mut self.file_block);
        let mut b = match taken {
            Some(b) => b,
            None => {
                return Err(Error::InvalidInput("no block file being read".to_owned()));
            },
        };
        if b.num_lines == usize::MAX {
            self.file_block = Some(b);
            return Err(Error::InvalidInput("too many lines in a block".to_owned()));
        }
        let res = b.process_line(line, self.output_enc.as_str());
        self.file_block = Some(b);
        res
    }

    /// Ends the block file being read: its placeholder declarations, joined, take the place
    /// of the line that named it, its block joins the blocks found, and the file joins the
    /// files read.
    pub fn asm_file_end(&mut self) -> (r: Result<(), Error>)
        requires
            old(self).wf(),
            old(self).file_block is Some,
        ensures
            ({
                let b = old(self).file_block->Some_0;
                &&& (b.cur_section@ == ".text"@ && b.text_glabels@.len() == 0) ==> r is Err
                &&& (!(b.cur_section@ == ".text"@ && b.text_glabels@.len() == 0) && old(self).state.namectr + 3
                    <= usize::MAX && b.late_rodata_asm_conts@.len() <= usize::MAX / 4) ==> r is Ok
                &&& r is Ok ==> {
                    &&& *final(self) == (SourceParser {
                        state: final(self).state,
                        file_block: None,
                        asm_functions: final(self).asm_functions,
                        output_lines: final(self).output_lines,
                        dependencies: final(self).dependencies,
                        ..*old(self)
                    })
                    &&& final(self).dependencies@ == old(self).dependencies@.push(old(self).file_block_name)
                    &&& exists|lines: Seq<String>, f: Function|
                        #[trigger] block_finished(b, old(self).state, final(self).state, lines, f)
                            && final(self).asm_functions@ == old(self).asm_functions@.push(f) && views(
                            final(self).output_lines@,
                        ) == views(old(self).output_lines@).update(
                            old(self).pending_line as int,
                            joined_lines(views(lines)),
                        )
                    &&& final(self).wf()
                }
            }),
    {
        let mut taken: Option<GlobalAsmBlock> = None;
        core::mem::swap(&mut taken, &mut self.file_block);
        let b = match taken {
            Some(b) => b,
            None => {
                return Err(Error::InvalidInput("no block file being read".to_owned()));
            },
        };
        if self.state.namectr > usize::MAX - 3 || b.late_rodata_asm_conts.len() > usize::MAX / 4 {
            return Err(Error::InvalidInput("too many blocks".to_owned()));
        }
        let (src, f) = match b.finish(&mut self.state) {
            Ok(x) => x,
            Err(e) => {
                return Err(e);
            },
        };
        let text = join_all(&src);
        let ghost before = views(self.output_lines@);
        self.output_lines.set(self.pending_line, text);
        assert(views(self.output_lines@) =~= before.update(self.pending_line as int, joined_lines(views(src@))));
        self.asm_functions.push(f);
        self.dependencies.push(self.file_block_name.clone());
        Ok(())
    }

    /// The block file does not exist: the line that named it becomes an include of it.
    pub fn asm_file_missing(&mut self)
        requires
            old(self).wf(),
        ensures
            *final(self) == (SourceParser { file_block: None, output_lines: final(self).output_lines, ..*old(self) }),
            views(final(self).output_lines@) == views(old(self).output_lines@).update(
                old(self).pending_line as int,
                "#include \"GLOBAL_ASM:"@ + old(self).file_block_name@ + "\""@,
            ),
            final(self).wf(),
    {
        self.file_block = None;
        let mut text = "#include \"GLOBAL_ASM:".to_owned();
        text.append(self.file_block_name.as_str());
        text.append("\"");
        let ghost before = views(self.output_lines@);
        self.output_lines.set(self.pending_line, text);
        assert(views(self.output_lines@) =~= before.update(
            self.pending_line as int,
            "#include \"GLOBAL_ASM:"@ + self.file_block_name@ + "\""@,
        ));
    }

    /// The file that an `#include` named was parsed and printed `printed`: that text, then a
    /// line marker back to the source, take the place of the `#include`, and the file joins
    /// the files read.
    pub fn include_done(&mut self, fname: String, printed: &str)
        requires
            old(self).wf(),
        ensures
            *final(self) == (SourceParser {
                output_lines: final(self).output_lines,
                dependencies: final(self).dependencies,
                ..*old(self)
            }),
            final(self).dependencies@ == old(self).dependencies@.push(fname),
            views(final(self).output_lines@) == views(old(self).output_lines@).update(
                old(self).pending_line as int,
                printed@ + "#line "@ + decimal(old(self).pending_line_no as nat) + " \""@ + old(self).filename@
                    + "\"\n"@,
            ),
            final(self).wf(),
    {
        self.dependencies.push(fname);
        let mut text = printed.to_owned();
        text.append("#line ");
        text.append(usize_to_string(self.pending_line_no).as_str());
        text.append(" \"");
        text.append(self.filename.as_str());
        text.append("\"\n");
        let ghost before = views(self.output_lines@);
        self.output_lines.set(self.pending_line, text);
        assert(views(self.output_lines@) =~= before.update(
            self.pending_line as int,
            printed@ + "#line "@ + decimal(self.pending_line_no as nat) + " \""@ + self.filename@ + "\"\n"@,
        ));
    }

    /// The line waiting for its text gets `text`.
    pub fn set_current_line(&mut self, text: String)
        requires
            old(self).wf(),
        ensures
            *final(self) == (SourceParser { output_lines: final(self).output_lines, ..*old(self) }),
            views(final(self).output_lines@) == views(old(self).output_lines@).update(old(self).pending_line as int, text@),
            final(self).wf(),
    {
        let ghost before = views(self.output_lines@);
        let ghost tv = text@;
        self.output_lines.set(self.pending_line, text);
        assert(views(self.output_lines@) =~= before.update(self.pending_line as int, tv));
    }

    /// The text that pre-processing prints: each line followed by a line feed.
    pub fn output_text(&self) -> (s: String)
        ensures
            s@ == printed_lines(views(self.output_lines@)),
    {
        let mut s = String::new();
        let mut i: usize = 0;
        while i < self.output_lines.len()
            invariant
                i <= self.output_lines@.len(),
                s@ == printed_lines(views(self.output_lines@.take(i as int))),
            decreases self.output_lines@.len() - i,
        {
            assert(views(self.output_lines@.take(i + 1)) =~= views(self.output_lines@.take(i as int)).push(
                self.output_lines@[i as int]@,
            ));
            assert(views(self.output_lines@.take(i + 1)).drop_last() =~= views(self.output_lines@.take(i as int)));
            proof {
                reveal_strlit("\n");
            }
            s.append(self.output_lines[i].as_str());
            s.append("\n");
            assert("\n"@ =~= seq!['\n']);
            i += 1;
        }
        assert(self.output_lines@.take(i as int) =~= self.output_lines@);
        s
    }
}

} // verus!
