use crate::assembly::block::{
    GlobalAsmBlock,
    is_asm_section,
    views,
    round_up,
    lemma_section_names,
    lemma_quote_scan_bound,
};
use crate::assembly::model::{
    BlockModel,
    Failure,
    fails_with,
    stepped,
    fail_at,
    line_kind,
    is_section_line,
    usize_value,
    isize_value,
    second_word,
    arg_usize,
    arg_isize,
    incbin_size,
    arg_count,
    zero_terminated,
    cur_size,
    add_sized_step,
    post_step,
    then_post,
    section_target,
    section_step,
    alignment_step,
    double_step,
    align_step,
    line_step,
    fits,
};
use crate::utils::error::Error;
use crate::utils::text::{
    chars_of,
    string_of,
    str_eq,
    starts_with,
    ends_with,
    chars_eq,
    contains_char,
    split_count,
    before_first,
    after_last,
    trim_chars,
    words,
    words_of,
    parse_usize,
    parse_isize,
    count_char,
    lemma_count_char_len,
    has_prefix,
    has_suffix,
    trim_start,
    trimmed,
};
use vstd::prelude::*;
use vstd::string::StringExecFns;

verus! {

/// What replaces a match of the comment-or-string pattern: a comment becomes one space, a
/// string literal stays as it is.
pub fn re_comment_replacer(s: &str) -> (r: String)
    ensures
        r@ == if s@.len() > 0 && (s@[0] == '#' || s@[0] == '/') {
            " "@
        } else {
            s@
        },
{
    let cs = chars_of(s);
    if cs.len() > 0 && (cs[0] == '#' || cs[0] == '/') {
        " ".to_owned()
    } else {
        s.to_owned()
    }
}

/// The end of a `#` comment whose text starts at `i`: the next line feed, or the end of
/// the line (`.` matches any character but a line feed).
pub open spec fn line_end_from(s: Seq<char>, i: int) -> int
    decreases s.len() - i,
{
    if i >= s.len() || s[i] == '\n' {
        i
    } else {
        line_end_from(s, i + 1)
    }
}

/// The end of a `/* */` comment whose text starts at `j`: just after the first `*/`, where
/// one comes before any line feed.
pub open spec fn block_comment_end(s: Seq<char>, j: int) -> Option<int>
    decreases s.len() - j,
{
    if j < 0 || j + 1 >= s.len() {
        None
    } else if s[j] == '*' && s[j + 1] == '/' {
        Some(j + 2)
    } else if s[j] == '\n' {
        None
    } else {
        block_comment_end(s, j + 1)
    }
}

/// The end of a string literal whose text starts at `j`: just after the first `"` that no
/// backslash escapes, where every backslash before it escapes a character other than a
/// line feed.
pub open spec fn string_end(s: Seq<char>, j: int) -> Option<int>
    decreases s.len() - j,
{
    if j < 0 || j >= s.len() {
        None
    } else if s[j] == '"' {
        Some(j + 1)
    } else if s[j] == '\\' {
        if j + 1 < s.len() && s[j + 1] != '\n' {
            string_end(s, j + 2)
        } else {
            None
        }
    } else {
        string_end(s, j + 1)
    }
}

/// Where a `#` comment ends: at or after its start, within the line.
pub proof fn lemma_line_end_from(s: Seq<char>, i: int)
    requires
        0 <= i <= s.len(),
    ensures
        i <= line_end_from(s, i) <= s.len(),
    decreases s.len() - i,
{
    if i < s.len() && s[i] != '\n' {
        lemma_line_end_from(s, i + 1);
    }
}

/// Where a `/* */` comment ends: after its closing `*/`, within the line.
pub proof fn lemma_block_comment_end(s: Seq<char>, j: int)
    ensures
        block_comment_end(s, j) matches Some(e) ==> j + 2 <= e <= s.len(),
    decreases s.len() - j,
{
    if 0 <= j && j + 1 < s.len() && !(s[j] == '*' && s[j + 1] == '/') && s[j] != '\n' {
        lemma_block_comment_end(s, j + 1);
    }
}

/// Where a string literal ends: after its closing quote, within the line.
pub proof fn lemma_string_end(s: Seq<char>, j: int)
    ensures
        string_end(s, j) matches Some(e) ==> j + 1 <= e <= s.len(),
    decreases s.len() - j,
{
    if 0 <= j < s.len() && s[j] != '"' {
        if s[j] == '\\' {
            if j + 1 < s.len() && s[j + 1] != '\n' {
                lemma_string_end(s, j + 2);
            }
        } else {
            lemma_string_end(s, j + 1);
        }
    }
}

/// The line from position `i` on with its comments blanked: scanning from left to right,
/// at each position the first of a `#` comment (to the end of the line), a `/* */` comment
/// and a string literal that starts there is replaced, a comment by one space and a string
/// by itself, and the scan goes on after it; a position where none starts keeps its
/// character.
#[verifier::opaque]
pub open spec fn blanked_from(s: Seq<char>, i: int) -> Seq<char>
    decreases s.len() - i,
{
    if i < 0 || i >= s.len() {
        Seq::empty()
    } else if s[i] == '#' {
        proof {
            lemma_line_end_from(s, i + 1);
        }
        " "@ + blanked_from(s, line_end_from(s, i + 1))
    } else if s[i] == '/' && i + 1 < s.len() && s[i + 1] == '*' && block_comment_end(s, i + 2) is Some {
        proof {
            lemma_block_comment_end(s, i + 2);
        }
        " "@ + blanked_from(s, block_comment_end(s, i + 2)->Some_0)
    } else if s[i] == '"' && string_end(s, i + 1) is Some {
        proof {
            lemma_string_end(s, i + 1);
        }
        let e = string_end(s, i + 1)->Some_0;
        s.subrange(i, e) + blanked_from(s, e)
    } else {
        seq![s[i]] + blanked_from(s, i + 1)
    }
}

/// A line with its comments blanked.
pub open spec fn comments_blanked(line: Seq<char>) -> Seq<char> {
    blanked_from(line, 0)
}

/// Calls `regex::Regex::replace_all` with the pattern `#.*|/\*.*?\*/|"(?:\\.|[^\\"])*"`,
/// each match replaced by what `re_comment_replacer` makes of it. Trusted: the contract
/// states the result as the regex documentation defines it: matches found from left to
/// right without overlap, at the leftmost position where one starts, the first alternative
/// that matches there chosen, `.` matching any character but a line feed, `.*` as long and
/// `.*?` as short as possible.
#[verifier::external_body]
fn blank_comments(line: &str) -> (r: String)
    ensures
        r@ == comments_blanked(line@),
{
    let re = regex::Regex::new(r#"#.*|/\*.*?\*/|"(?:\\.|[^\\"])*""#).unwrap();
    re.replace_all(line, |caps: &regex::Captures| re_comment_replacer(&caps[0])).into_owned()
}

/// Whether `c` can be part of a label name: an ASCII letter or digit, or an underscore.
pub open spec fn is_label_char(c: char) -> bool {
    ('a' <= c && c <= 'z') || ('A' <= c && c <= 'Z') || ('0' <= c && c <= '9') || c == '_'
}

/// The length of the leading run of label characters.
pub open spec fn label_len(cs: Seq<char>) -> nat
    decreases cs.len(),
{
    if cs.len() > 0 && is_label_char(cs[0]) {
        1 + label_len(cs.drop_first())
    } else {
        0
    }
}

/// A line without a leading label definition: a non-empty run of label characters, a colon
/// and the whitespace after it.
pub open spec fn label_stripped(cs: Seq<char>) -> Seq<char> {
    let k = label_len(cs) as int;
    if 0 < k < cs.len() && cs[k] == ':' {
        trim_start(cs.skip(k + 1))
    } else {
        cs
    }
}

/// Calls `regex::Regex::replace` with the pattern `^[a-zA-Z0-9_]+:\s*` and an empty
/// replacement. Trusted: the contract states what the pattern matches at the start of the
/// line; the regex documentation defines `\s` as the Unicode `White_Space` property, which
/// is also what `char::is_whitespace` tests.
#[verifier::external_body]
fn strip_label(line: &str) -> (r: String)
    ensures
        r@ == label_stripped(line@),
{
    let re = regex::Regex::new(r"^[a-zA-Z0-9_]+:\s*").unwrap();
    re.replace(line, "").into_owned()
}

/// The characters of each string, after a push.
proof fn lemma_views_push(v: Seq<String>, s: String)
    ensures
        views(v.push(s)) == views(v).push(s@),
{
    assert(views(v.push(s)) =~= views(v).push(s@));
}

/// Whether a section name is one that a block can hold contents in.
fn is_known_section(name: &str) -> (r: bool)
    ensures
        r == is_asm_section(name@),
{
    str_eq(name, ".text") || str_eq(name, ".data") || str_eq(name, ".bss") || str_eq(name, ".rodata")
        || str_eq(name, ".late_rodata")
}

/// What a line is, as `line_kind` orders it.
fn line_kind_of(cur: &str, cs: &[char]) -> (k: u8)
    ensures
        k == line_kind(cur@, cs@),
{
    if cs.len() == 0 {
        0
    } else if (starts_with(cs, "glabel ") || starts_with(cs, "jlabel ")) && str_eq(cur, ".text") {
        1
    } else if starts_with(cs, "glabel ") || starts_with(cs, "dlabel ") || starts_with(cs, "jlabel ")
        || starts_with(cs, "endlabel ") || (!contains_char(cs, ' ') && ends_with(cs, ":")) {
        2
    } else if starts_with(cs, ".section") || chars_eq(cs, ".text") || chars_eq(cs, ".data") || chars_eq(
        cs,
        ".rdata",
    ) || chars_eq(cs, ".rodata") || chars_eq(cs, ".bss") || chars_eq(cs, ".late_rodata") {
        3
    } else if starts_with(cs, ".late_rodata_alignment") {
        4
    } else if starts_with(cs, ".incbin") {
        5
    } else if starts_with(cs, ".word") || starts_with(cs, ".gpword") || starts_with(cs, ".float") {
        6
    } else if starts_with(cs, ".double") {
        7
    } else if starts_with(cs, ".space") {
        8
    } else if starts_with(cs, ".balign") {
        9
    } else if starts_with(cs, ".align") {
        10
    } else if starts_with(cs, ".asci") {
        11
    } else {
        12
    }
}

/// The second word of a line read as a `usize`.
fn arg_usize_of(cs: &[char]) -> (r: Option<usize>)
    ensures
        match arg_usize(cs@) {
            Some(v) => r == Some(v as usize),
            None => r is None,
        },
{
    let ws = words_of(cs);
    assert(ws@.map_values(|w: Vec<char>| w@).len() == ws@.len());
    if ws.len() > 1 {
        assert(ws@[1]@ == words(cs@)[1]);
        parse_usize(ws[1].as_slice())
    } else {
        None
    }
}

/// The second word of a line read as an `isize`.
fn arg_isize_of(cs: &[char]) -> (r: Option<isize>)
    ensures
        match arg_isize(cs@) {
            Some(v) => r == Some(v as isize),
            None => r is None,
        },
{
    let ws = words_of(cs);
    assert(ws@.map_values(|w: Vec<char>| w@).len() == ws@.len());
    if ws.len() > 1 {
        assert(ws@[1]@ == words(cs@)[1]);
        parse_isize(ws[1].as_slice())
    } else {
        None
    }
}

/// The size that an `.incbin` line gives.
fn incbin_size_of(cs: &[char]) -> (r: Option<isize>)
    ensures
        match incbin_size(cs@) {
            Some(v) => r == Some(v as isize),
            None => r is None,
        },
{
    let piece = after_last(cs, ',');
    let t = trim_chars(piece.as_slice());
    parse_isize(t.as_slice())
}

impl GlobalAsmBlock {
    /// Places the line's text where `post_step` says.
    fn post(&mut self, text: String, changed: bool, double: bool)
        ensures
            final(self).model() == post_step(old(self).model(), text@, changed, double),
            final(self).fn_desc == old(self).fn_desc,
            final(self).glued_line == old(self).glued_line,
            final(self).num_lines == old(self).num_lines,
    {
        let ghost m = self.model();
        if str_eq(self.cur_section.as_str(), ".late_rodata") {
            if !changed {
                let ghost l0 = self.late_rodata_asm_conts@;
                if double {
                    let open = ".align 0".to_owned();
                    proof {
                        lemma_views_push(self.late_rodata_asm_conts@, open);
                    }
                    self.late_rodata_asm_conts.push(open);
                }
                let ghost l1 = self.late_rodata_asm_conts@;
                proof {
                    lemma_views_push(l1, text);
                }
                self.late_rodata_asm_conts.push(text);
                if double {
                    let ghost l2 = self.late_rodata_asm_conts@;
                    let close = ".align 2".to_owned();
                    proof {
                        lemma_views_push(l2, close);
                    }
                    self.late_rodata_asm_conts.push(close);
                }
            }
        } else {
            proof {
                lemma_views_push(self.asm_conts@, text);
            }
            self.asm_conts.push(text);
        }
    }

    /// Adds `size` bytes to the current section and, where that succeeds, places the line.
    fn add_then_post(&mut self, size: isize, text: String, double: bool) -> (r: Result<(), Error>)
        requires
            old(self).wf(),
            old(self).num_lines >= 1,
            size >= 0 ==> cur_size(old(self).model()) + size <= usize::MAX,
        ensures
            stepped(
                *old(self),
                *final(self),
                r,
                then_post(
                    add_sized_step(old(self).model(), size as int, text@, old(self).num_lines as int),
                    text@,
                    double,
                ),
            ),
    {
        match self.add_sized(size, text.as_str()) {
            Err(e) => Err(e),
            Ok(()) => {
                self.post(text, false, double);
                Ok(())
            },
        }
    }

    /// A section change.
    fn change_section(&mut self, cs: &[char], text: String) -> (r: Result<(), Error>)
        ensures
            stepped(*old(self), *final(self), r, section_step(old(self).model(), cs@, text@)),
    {
        let target = if chars_eq(cs, ".rdata") {
            ".rodata".to_owned()
        } else {
            let first = before_first(cs, ',');
            let ws = words_of(first.as_slice());
            assert(ws@.map_values(|w: Vec<char>| w@).len() == ws@.len());
            if ws.len() == 0 {
                return Err(self.fail("invalid section directive", Some(text.as_str())));
            }
            assert(ws@[ws@.len() - 1]@ == words(first@).last());
            string_of(ws[ws.len() - 1].as_slice())
        };
        assert(section_target(cs@) == Some(target@));
        let known = is_known_section(target.as_str());
        self.cur_section = target;
        if !known {
            return Err(self.fail("unrecognized .section directive", Some(text.as_str())));
        }
        self.post(text, true, false);
        Ok(())
    }

    /// `.late_rodata_alignment`.
    fn set_late_rodata_alignment(&mut self, cs: &[char], text: String) -> (r: Result<(), Error>)
        ensures
            stepped(*old(self), *final(self), r, alignment_step(old(self).model(), cs@, text@)),
    {
        if !str_eq(self.cur_section.as_str(), ".late_rodata") {
            return Err(
                self.fail(
                    ".late_rodata_alignment must occur within .late_rodata section",
                    Some(text.as_str()),
                ),
            );
        }
        match arg_usize_of(cs) {
            None => Err(self.fail("invalid .late_rodata_alignment value", Some(text.as_str()))),
            Some(v) => {
                if v != 4 && v != 8 {
                    Err(self.fail(".late_rodata_alignment argument must be 4 or 8", Some(text.as_str())))
                } else if self.late_rodata_alignment != 0 && self.late_rodata_alignment != v {
                    Err(
                        self.fail(
                            ".late_rodata_alignment alignment assumption conflicts with earlier .double directive. Make sure to provide explicit alignment padding.",
                            None,
                        ),
                    )
                } else {
                    self.late_rodata_alignment = v;
                    self.post(text, true, false);
                    Ok(())
                }
            },
        }
    }

    /// `.double`.
    fn add_doubles(&mut self, cs: &[char], text: String) -> (r: Result<(), Error>)
        requires
            old(self).wf(),
            old(self).num_lines >= 1,
            round_up(cur_size(old(self).model()), 4) + 8 * arg_count(cs@) <= usize::MAX,
            8 * arg_count(cs@) <= isize::MAX,
            cs@.len() <= usize::MAX / 8,
        ensures
            stepped(*old(self), *final(self), r, double_step(old(self).model(), cs@, text@, old(self).num_lines as int)),
    {
        proof {
            let s = cur_size(old(self).model());
            assert(round_up(s, 4) >= s);
        }
        self.align4();
        let count = split_count(cs, ',');
        let size = (8 * count) as isize;
        if str_eq(self.cur_section.as_str(), ".late_rodata") {
            let gap = 8 - self.fn_section_sizes.get(self.cur_section.as_str()) % 8;
            if self.late_rodata_alignment == 0 {
                self.late_rodata_alignment = gap;
                self.late_rodata_alignment_from_content = true;
                self.add_then_post(size, text, true)
            } else if self.late_rodata_alignment != gap {
                if self.late_rodata_alignment_from_content {
                    Err(
                        self.fail(
                            "found two .double directives with different start addresses mod 8. Make sure to provide explicit alignment padding.",
                            Some(text.as_str()),
                        ),
                    )
                } else {
                    Err(
                        self.fail(
                            ".double at address that is not 0 mod 8 (based on .late_rodata_alignment assumption). Make sure to provide explicit alignment padding.",
                            Some(text.as_str()),
                        ),
                    )
                }
            } else {
                self.add_then_post(size, text, true)
            }
        } else {
            self.add_then_post(size, text, true)
        }
    }

    /// `.balign` or `.align`, which must have the argument `expected`.
    fn align_directive(
        &mut self,
        cs: &[char],
        text: String,
        expected: usize,
        invalid: &str,
        unsupported: &str,
    ) -> (r: Result<(), Error>)
        requires
            old(self).wf(),
            cur_size(old(self).model()) + 3 <= usize::MAX,
        ensures
            stepped(
                *old(self),
                *final(self),
                r,
                align_step(old(self).model(), cs@, text@, expected as int, invalid@, unsupported@),
            ),
    {
        match arg_usize_of(cs) {
            None => Err(self.fail(invalid, Some(text.as_str()))),
            Some(v) => {
                if v != expected {
                    Err(self.fail(unsupported, Some(text.as_str())))
                } else {
                    self.align4();
                    self.post(text, false, false);
                    Ok(())
                }
            },
        }
    }

    /// Processes a line as it is read (comments and strings blanked, trimmed, any leading
    /// label removed); `real_line` is the line as written. The line changes the current
    /// section, sizes the contents it adds, records labels and instruction runs, and is kept
    /// for the block's assembly or its `.late_rodata`, as `line_step` says.
    pub fn process_stripped_line(&mut self, line: &str, real_line: String, output_enc: &str) -> (r: Result<(), Error>)
        requires
            old(self).wf(),
            old(self).num_lines >= 1,
            fits(old(self).model(), line@),
        ensures
            stepped(
                *old(self),
                *final(self),
                r,
                line_step(old(self).model(), line@, real_line@, old(self).num_lines as int),
            ),
    {
        let cs = chars_of(line);
        let kind = line_kind_of(self.cur_section.as_str(), cs.as_slice());
        proof {
            lemma_count_char_len(line@, ',');
        }
        if kind == 0 || kind == 2 {
            self.post(real_line, false, false);
            Ok(())
        } else if kind == 1 {
            let ws = words_of(cs.as_slice());
            assert(ws@.map_values(|w: Vec<char>| w@).len() == ws@.len());
            if ws.len() > 1 {
                assert(ws@[1]@ == words(cs@)[1]);
                let label = string_of(ws[1].as_slice());
                proof {
                    lemma_views_push(self.text_glabels@, label);
                }
                self.text_glabels.push(label);
            }
            self.post(real_line, false, false);
            Ok(())
        } else if kind == 3 {
            self.change_section(cs.as_slice(), real_line)
        } else if kind == 4 {
            self.set_late_rodata_alignment(cs.as_slice(), real_line)
        } else if kind == 5 {
            match incbin_size_of(cs.as_slice()) {
                None => Err(self.fail("invalid .incbin size", Some(real_line.as_str()))),
                Some(v) => self.add_then_post(v, real_line, false),
            }
        } else if kind == 6 {
            proof {
                let s = cur_size(old(self).model());
                assert(round_up(s, 4) >= s);
            }
            self.align4();
            let count = split_count(cs.as_slice(), ',');
            self.add_then_post((4 * count) as isize, real_line, false)
        } else if kind == 7 {
            self.add_doubles(cs.as_slice(), real_line)
        } else if kind == 8 {
            match arg_isize_of(cs.as_slice()) {
                None => Err(self.fail("invalid .space size", Some(real_line.as_str()))),
                Some(v) => self.add_then_post(v, real_line, false),
            }
        } else if kind == 9 {
            self.align_directive(
                cs.as_slice(),
                real_line,
                4,
                "invalid .balign value",
                "only .balign 4 is supported",
            )
        } else if kind == 10 {
            self.align_directive(cs.as_slice(), real_line, 2, "invalid .align value", "only .align 2 is supported")
        } else if kind == 11 {
            let z = starts_with(cs.as_slice(), ".asciz") || starts_with(cs.as_slice(), ".asciiz");
            proof {
                lemma_quote_scan_bound(line@, z, 0, 0, true, 0, 0);
            }
            match self.count_quoted_size(line, z, real_line.as_str(), output_enc) {
                Err(e) => Err(e),
                Ok(size) => self.add_then_post(size as isize, real_line, false),
            }
        } else if !str_eq(self.cur_section.as_str(), ".text") {
            Err(
                self.fail(
                    "instruction or macro call in non-.text section? not supported",
                    Some(real_line.as_str()),
                ),
            )
        } else {
            self.add_then_post(4, real_line, false)
        }
    }

    /// Whether a line as it is read can be processed without the current section's size
    /// passing `usize::MAX`.
    fn line_fits(&self, line: &str) -> (r: bool)
        requires
            self.wf(),
        ensures
            r == fits(self.model(), line@),
    {
        let cs = chars_of(line);
        if cs.len() > usize::MAX / 8 {
            return false;
        }
        proof {
            lemma_count_char_len(line@, ',');
        }
        let kind = line_kind_of(self.cur_section.as_str(), cs.as_slice());
        let s = self.fn_section_sizes.get(self.cur_section.as_str());
        if kind == 5 {
            match incbin_size_of(cs.as_slice()) {
                Some(v) => v < 0 || (v as usize) <= usize::MAX - s,
                None => true,
            }
        } else if kind == 6 || kind == 7 {
            let count = split_count(cs.as_slice(), ',');
            let unit: usize = if kind == 6 {
                4
            } else {
                8
            };
            match count.checked_mul(unit) {
                None => false,
                Some(bytes) => {
                    let up = if s % 4 == 0 {
                        Some(s)
                    } else {
                        s.checked_add(4 - s % 4)
                    };
                    match up {
                        None => false,
                        Some(u) => bytes <= isize::MAX as usize && bytes <= usize::MAX - u,
                    }
                },
            }
        } else if kind == 8 {
            match arg_isize_of(cs.as_slice()) {
                Some(v) => v < 0 || (v as usize) <= usize::MAX - s,
                None => true,
            }
        } else if kind == 9 || kind == 10 {
            s <= usize::MAX - 3
        } else if kind == 11 {
            let z = starts_with(cs.as_slice(), ".asciz") || starts_with(cs.as_slice(), ".asciiz");
            proof {
                lemma_quote_scan_bound(line@, z, 0, 0, true, 0, 0);
            }
            match self.count_quoted_size(line, z, line, "") {
                Ok(v) => v <= usize::MAX - s,
                Err(_) => true,
            }
        } else if kind == 12 {
            s <= usize::MAX - 4
        } else {
            true
        }
    }

    /// Processes a line whose comments and strings are blanked (`blanked`); `real_line` is
    /// the line as written. The line is trimmed and loses any leading label definition, then
    /// is processed as `process_stripped_line` says, unless the contents it adds would take
    /// the current section's size past `usize::MAX`: then it fails and changes nothing.
    pub fn process_blanked_line(&mut self, blanked: &str, real_line: String, output_enc: &str) -> (r: Result<(), Error>)
        requires
            old(self).wf(),
            old(self).num_lines >= 1,
        ensures
            ({
                let ln = label_stripped(trimmed(blanked@));
                if fits(old(self).model(), ln) {
                    stepped(
                        *old(self),
                        *final(self),
                        r,
                        line_step(old(self).model(), ln, real_line@, old(self).num_lines as int),
                    )
                } else {
                    stepped(
                        *old(self),
                        *final(self),
                        r,
                        (old(self).model(), fail_at("section size overflow"@, real_line@)),
                    )
                }
            }),
    {
        let cs = chars_of(blanked);
        let t = trim_chars(cs.as_slice());
        let trimmed_line = string_of(t.as_slice());
        let ln = strip_label(trimmed_line.as_str());
        if !self.line_fits(ln.as_str()) {
            return Err(self.fail("section size overflow", Some(real_line.as_str())));
        }
        self.process_stripped_line(ln.as_str(), real_line, output_enc)
    }

    /// Processes one line of the block. A line that ends with a backslash is continued by
    /// the next: its text, without the backslash, waits for it. Otherwise the waiting text
    /// and the line make up the line as written; its comments are blanked, and it is
    /// processed as `process_blanked_line` says. Every line counts towards the line numbers.
    pub fn process_line(&mut self, line: &str, output_enc: &str) -> (r: Result<(), Error>)
        requires
            old(self).wf(),
            old(self).num_lines < usize::MAX,
        ensures
            line_processed(*old(self), *final(self), line@, r),
            r is Ok ==> final(self).wf(),
    {
        self.num_lines = self.num_lines + 1;
        let cs = chars_of(line);
        if ends_with(cs.as_slice(), "\\") {
            proof {
                reveal_strlit("\\");
            }
            let body = vstd::slice::slice_subrange(cs.as_slice(), 0, cs.len() - 1);
            let head = string_of(body);
            assert(head@ =~= line@.drop_last());
            self.glued_line.append(head.as_str());
            return Ok(());
        }
        let mut written = self.glued_line.as_str().to_owned();
        written.append(line);
        self.glued_line = String::new();
        let blanked = blank_comments(written.as_str());
        self.process_blanked_line(blanked.as_str(), written, output_enc)
    }
}

/// `n` is the block `o` after the line `line`, with the outcome `r`: a line that ends with a
/// backslash waits for the next; otherwise the waiting text and the line make up the line as
/// written, whose comments are blanked, and it is processed as `process_blanked_line` says.
/// Every line counts towards the line numbers.
pub open spec fn line_processed(o: GlobalAsmBlock, n: GlobalAsmBlock, line: Seq<char>, r: Result<(), Error>) -> bool {
    &&& n.num_lines == o.num_lines + 1
    &&& n.fn_desc == o.fn_desc
    &&& has_suffix(line, "\\"@) ==> {
        &&& r is Ok
        &&& n.model() == o.model()
        &&& n.glued_line@ == o.glued_line@ + line.drop_last()
    }
    &&& !has_suffix(line, "\\"@) ==> {
        let written = o.glued_line@ + line;
        let ln = label_stripped(trimmed(comments_blanked(written)));
        let k = o.num_lines + 1;
        &&& n.glued_line@.len() == 0
        &&& fits(o.model(), ln) ==> {
            &&& n.model() == line_step(o.model(), ln, written, k).0
            &&& fails_with(r, line_step(o.model(), ln, written, k).1, o.fn_desc@)
        }
        &&& !fits(o.model(), ln) ==> {
            &&& n.model() == o.model()
            &&& fails_with(r, fail_at("section size overflow"@, written), o.fn_desc@)
        }
    }
}

} // verus!
