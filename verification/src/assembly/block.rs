use crate::assembly::function::Function;
use crate::assembly::model::{cur_size, align4_step, add_sized_step, stepped};
use crate::utils::error::Error;
use crate::utils::state::GlobalState;
use crate::utils::text::{
    chars_of,
    str_eq,
    is_digit,
    decimal,
    usize_to_string,
    contains_sub,
    contains_str,
    has_prefix,
    starts_with,
};
use vstd::prelude::*;
use vstd::string::StringExecFns;

verus! {

/// The sizes that a block's contents take in each section.
#[derive(Debug, Clone, Copy, Default)]
pub struct SectionSizes {
    pub text: usize,
    pub data: usize,
    pub bss: usize,
    pub rodata: usize,
    pub late_rodata: usize,
}

/// The sections that a block can put contents in.
pub open spec fn is_asm_section(name: Seq<char>) -> bool {
    name == ".text"@ || name == ".data"@ || name == ".bss"@ || name == ".rodata"@ || name == ".late_rodata"@
}

/// The section names differ from one another.
pub proof fn lemma_section_names()
    ensures
        ".text"@ != ".data"@,
        ".text"@ != ".bss"@,
        ".text"@ != ".rodata"@,
        ".text"@ != ".late_rodata"@,
        ".data"@ != ".bss"@,
        ".data"@ != ".rodata"@,
        ".data"@ != ".late_rodata"@,
        ".bss"@ != ".rodata"@,
        ".bss"@ != ".late_rodata"@,
        ".rodata"@ != ".late_rodata"@,
{
    reveal_strlit(".text");
    reveal_strlit(".data");
    reveal_strlit(".bss");
    reveal_strlit(".rodata");
    reveal_strlit(".late_rodata");
    assert(".text"@[1] != ".data"@[1]);
    assert(".text"@[1] != ".bss"@[1]);
    assert(".text"@[1] != ".rodata"@[1]);
    assert(".text"@[1] != ".late_rodata"@[1]);
    assert(".data"@[1] != ".bss"@[1]);
    assert(".data"@[1] != ".rodata"@[1]);
    assert(".data"@[1] != ".late_rodata"@[1]);
    assert(".bss"@[1] != ".rodata"@[1]);
    assert(".bss"@[1] != ".late_rodata"@[1]);
    assert(".rodata"@.len() != ".late_rodata"@.len());
}

impl SectionSizes {
    /// The size recorded for a section.
    pub open spec fn size_of(self, name: Seq<char>) -> int {
        if name == ".text"@ {
            self.text as int
        } else if name == ".data"@ {
            self.data as int
        } else if name == ".bss"@ {
            self.bss as int
        } else if name == ".rodata"@ {
            self.rodata as int
        } else if name == ".late_rodata"@ {
            self.late_rodata as int
        } else {
            0
        }
    }

    /// The sizes with the one of section `name` replaced by `v`.
    pub open spec fn with_size(self, name: Seq<char>, v: usize) -> SectionSizes {
        if name == ".text"@ {
            SectionSizes { text: v, ..self }
        } else if name == ".data"@ {
            SectionSizes { data: v, ..self }
        } else if name == ".bss"@ {
            SectionSizes { bss: v, ..self }
        } else if name == ".rodata"@ {
            SectionSizes { rodata: v, ..self }
        } else if name == ".late_rodata"@ {
            SectionSizes { late_rodata: v, ..self }
        } else {
            self
        }
    }

    /// The size recorded for section `name`.
    pub fn get(&self, name: &str) -> (v: usize)
        requires
            is_asm_section(name@),
        ensures
            v == self.size_of(name@),
    {
        if str_eq(name, ".text") {
            self.text
        } else if str_eq(name, ".data") {
            self.data
        } else if str_eq(name, ".bss") {
            self.bss
        } else if str_eq(name, ".rodata") {
            self.rodata
        } else {
            self.late_rodata
        }
    }

    /// Records `v` as the size of section `name`.
    pub fn set(&mut self, name: &str, v: usize)
        requires
            is_asm_section(name@),
        ensures
            *final(self) == old(self).with_size(name@, v),
    {
        if str_eq(name, ".text") {
            self.text = v;
        } else if str_eq(name, ".data") {
            self.data = v;
        } else if str_eq(name, ".bss") {
            self.bss = v;
        } else if str_eq(name, ".rodata") {
            self.rodata = v;
        } else {
            self.late_rodata = v;
        }
    }
}

/// The state of the processing of one `GLOBAL_ASM` block.
#[derive(Debug, Clone)]
pub struct GlobalAsmBlock {
    pub fn_desc: String,
    pub cur_section: String,
    pub asm_conts: Vec<String>,
    pub late_rodata_asm_conts: Vec<String>,
    pub late_rodata_alignment: usize,
    pub late_rodata_alignment_from_content: bool,
    pub text_glabels: Vec<String>,
    pub fn_section_sizes: SectionSizes,
    pub fn_ins_inds: Vec<(usize, usize)>,
    pub glued_line: String,
    pub num_lines: usize,
}

/// The characters of each string.
pub open spec fn views(v: Seq<String>) -> Seq<Seq<char>> {
    v.map_values(|s: String| s@)
}

/// The text of a failure: the message, then where it happened.
pub open spec fn failure_text(message: Seq<char>, desc: Seq<char>, line: Option<Seq<char>>) -> Seq<char> {
    let context = match line {
        Some(l) => desc + ", at line \""@ + l + "\""@,
        None => desc,
    };
    message + "\nwithin "@ + context
}

/// The characters of an optional string slice.
pub open spec fn opt_view(line: Option<&str>) -> Option<Seq<char>> {
    match line {
        Some(l) => Some(l@),
        None => None,
    }
}

/// `e` is the failure with message `message` of a block described by `desc`.
pub open spec fn is_failure(e: Error, message: Seq<char>, desc: Seq<char>, line: Option<Seq<char>>) -> bool {
    e matches Error::AssemblyProcessing(s) && s@ == failure_text(message, desc, line)
}

/// Whether `c` is a hexadecimal digit.
pub open spec fn is_hex_digit(c: char) -> bool {
    is_digit(c) || ('a' <= c && c <= 'f') || ('A' <= c && c <= 'F')
}

/// Scanning the directive arguments of an `.ascii` line: where the scan stands (outside a
/// string; inside one; right after a backslash; in the hexadecimal digits of an `\x` escape;
/// in the up to two further decimal digits of a numeric escape), whether a comma came since
/// the last string, the strings and the characters counted so far. The result is the byte
/// count, or the kind of failure: glued strings in `.asciiz` (0), a backslash at the end (1),
/// an unterminated string (2), no string at all (3).
pub open spec fn quote_scan(
    cs: Seq<char>,
    z: bool,
    i: int,
    mode: int,
    has_comma: bool,
    parts: int,
    ret: int,
) -> Result<int, int>
    decreases cs.len() - i,
{
    if i >= cs.len() {
        if mode == 0 {
            if parts == 0 {
                Err(3)
            } else if z {
                Ok(ret + parts)
            } else {
                Ok(ret)
            }
        } else if mode == 2 {
            Err(1)
        } else {
            Err(2)
        }
    } else {
        let c = cs[i];
        if mode == 0 {
            if c == '"' {
                if z && !has_comma {
                    Err(0)
                } else {
                    quote_scan(cs, z, i + 1, 1, has_comma, parts + 1, ret)
                }
            } else if c == ',' {
                quote_scan(cs, z, i + 1, 0, true, parts, ret)
            } else {
                quote_scan(cs, z, i + 1, 0, has_comma, parts, ret)
            }
        } else if mode == 2 {
            if c == 'x' {
                quote_scan(cs, z, i + 1, 3, has_comma, parts, ret)
            } else if is_digit(c) {
                quote_scan(cs, z, i + 1, 4, has_comma, parts, ret)
            } else {
                quote_scan(cs, z, i + 1, 1, has_comma, parts, ret)
            }
        } else if mode == 3 && is_hex_digit(c) {
            quote_scan(cs, z, i + 1, 3, has_comma, parts, ret)
        } else if mode == 4 && is_digit(c) {
            quote_scan(cs, z, i + 1, 5, has_comma, parts, ret)
        } else if mode == 5 && is_digit(c) {
            quote_scan(cs, z, i + 1, 1, has_comma, parts, ret)
        } else if c == '"' {
            quote_scan(cs, z, i + 1, 0, false, parts, ret)
        } else if c == '\\' {
            quote_scan(cs, z, i + 1, 2, has_comma, parts, ret + 1)
        } else {
            quote_scan(cs, z, i + 1, 1, has_comma, parts, ret + 1)
        }
    }
}

/// The message of each kind of failure of the scan of an `.ascii` line.
pub open spec fn quote_failure_message(code: int) -> Seq<char> {
    if code == 0 {
        ".asciiz with glued strings is not supported due to GNU as version diffs"@
    } else if code == 1 {
        "backslash at end of line not supported"@
    } else if code == 2 {
        "unterminated string literal"@
    } else {
        ".ascii with no string"@
    }
}

pub(crate) proof fn lemma_quote_scan_bound(
    cs: Seq<char>,
    z: bool,
    i: int,
    mode: int,
    has_comma: bool,
    parts: int,
    ret: int,
)
    requires
        0 <= i <= cs.len(),
        0 <= parts <= i,
        0 <= ret <= i,
    ensures
        quote_scan(cs, z, i, mode, has_comma, parts, ret) matches Ok(n) ==> 0 <= n <= 2 * cs.len(),
    decreases cs.len() - i,
{
    if i < cs.len() {
        lemma_quote_scan_bound(cs, z, i + 1, 0, has_comma, parts, ret);
        lemma_quote_scan_bound(cs, z, i + 1, 0, true, parts, ret);
        lemma_quote_scan_bound(cs, z, i + 1, 0, false, parts, ret);
        lemma_quote_scan_bound(cs, z, i + 1, 1, has_comma, parts + 1, ret);
        lemma_quote_scan_bound(cs, z, i + 1, 1, has_comma, parts, ret);
        lemma_quote_scan_bound(cs, z, i + 1, 3, has_comma, parts, ret);
        lemma_quote_scan_bound(cs, z, i + 1, 4, has_comma, parts, ret);
        lemma_quote_scan_bound(cs, z, i + 1, 5, has_comma, parts, ret);
        lemma_quote_scan_bound(cs, z, i + 1, 2, has_comma, parts, ret + 1);
        lemma_quote_scan_bound(cs, z, i + 1, 1, has_comma, parts, ret + 1);
    }
}

/// At position `p` of `cs` stands a numeric escape of three decimal digits: a backslash,
/// then three characters `0` to `9`.
pub open spec fn decimal_escape_at(cs: Seq<char>, p: int) -> bool {
    &&& 0 <= p && p + 4 <= cs.len()
    &&& cs[p] == '\\'
    &&& '0' <= cs[p + 1] && cs[p + 1] <= '9'
    &&& '0' <= cs[p + 2] && cs[p + 2] <= '9'
    &&& '0' <= cs[p + 3] && cs[p + 3] <= '9'
}

/// The `k`-th of a run of four-character escapes that starts at `i`.
pub open spec fn escape_in_run(cs: Seq<char>, i: int, k: int) -> bool {
    decimal_escape_at(cs, i + 4 * k)
}

/// Inside a string, a run of `n` numeric escapes of three digits counts `n` bytes and
/// leaves the scan inside the string.
proof fn lemma_scan_escape_run(cs: Seq<char>, z: bool, i: int, n: int, hc: bool, parts: int, ret: int)
    requires
        0 <= i,
        0 <= n,
        forall|k: int| 0 <= k < n ==> #[trigger] escape_in_run(cs, i, k),
    ensures
        quote_scan(cs, z, i, 1, hc, parts, ret) == quote_scan(cs, z, i + 4 * n, 1, hc, parts, ret + n),
    decreases n,
{
    if n > 0 {
        assert(escape_in_run(cs, i, 0));
        assert(quote_scan(cs, z, i + 3, 5, hc, parts, ret + 1) == quote_scan(cs, z, i + 4, 1, hc, parts, ret + 1));
        assert(quote_scan(cs, z, i + 2, 4, hc, parts, ret + 1) == quote_scan(cs, z, i + 3, 5, hc, parts, ret + 1));
        assert(quote_scan(cs, z, i + 1, 2, hc, parts, ret + 1) == quote_scan(cs, z, i + 2, 4, hc, parts, ret + 1));
        assert(quote_scan(cs, z, i, 1, hc, parts, ret) == quote_scan(cs, z, i + 1, 2, hc, parts, ret + 1));
        assert forall|k: int| 0 <= k < n - 1 implies #[trigger] escape_in_run(cs, i + 4, k) by {
            assert(escape_in_run(cs, i, k + 1));
            assert(i + 4 * (k + 1) == i + 4 + 4 * k);
        }
        lemma_scan_escape_run(cs, z, i + 4, n - 1, hc, parts, ret + 1);
        assert(i + 4 + 4 * (n - 1) == i + 4 * n);
    }
}

/// Outside a string, characters other than quotes leave the scan outside a string, with a
/// comma seen where there was one.
proof fn lemma_scan_outside(cs: Seq<char>, z: bool, i: int, j: int, parts: int, ret: int)
    requires
        0 <= i <= j <= cs.len(),
        forall|k: int| i <= k < j ==> cs[k] != '"',
    ensures
        quote_scan(cs, z, i, 0, true, parts, ret) == quote_scan(cs, z, j, 0, true, parts, ret),
    decreases j - i,
{
    if i < j {
        lemma_scan_outside(cs, z, i + 1, j, parts, ret);
    }
}

/// A string directive whose only string is `n` numeric escapes of three decimal digits each
/// (such as `.ascii "\101\102"`) takes `n` bytes, and one more for the terminating zero
/// where strings are zero-terminated: each escape is one byte, whatever its digits.
pub proof fn lemma_decimal_escapes_size(cs: Seq<char>, q: int, n: int, z: bool)
    requires
        0 <= q,
        0 <= n,
        cs.len() == q + 4 * n + 2,
        forall|k: int| 0 <= k < q ==> cs[k] != '"',
        cs[q] == '"',
        forall|k: int| 0 <= k < n ==> #[trigger] escape_in_run(cs, q + 1, k),
        cs[q + 4 * n + 1] == '"',
    ensures
        quote_scan(cs, z, 0, 0, true, 0, 0) == Ok::<int, int>(if z { n + 1 } else { n }),
{
    lemma_scan_outside(cs, z, 0, q, 0, 0);
    assert(quote_scan(cs, z, q, 0, true, 0, 0) == quote_scan(cs, z, q + 1, 1, true, 1, 0));
    lemma_scan_escape_run(cs, z, q + 1, n, true, 1, 0);
    let e = q + 4 * n + 1;
    assert(quote_scan(cs, z, e, 1, true, 1, n) == quote_scan(cs, z, e + 1, 0, false, 1, n));
}

/// Inside a string, characters other than a quote and a backslash count one byte each and
/// leave the scan inside the string.
proof fn lemma_scan_plain_run(cs: Seq<char>, z: bool, i: int, j: int, hc: bool, parts: int, ret: int)
    requires
        0 <= i <= j <= cs.len(),
        forall|k: int| i <= k < j ==> cs[k] != '"' && cs[k] != '\\',
    ensures
        quote_scan(cs, z, i, 1, hc, parts, ret) == quote_scan(cs, z, j, 1, hc, parts, ret + (j - i)),
    decreases j - i,
{
    if i < j {
        lemma_scan_plain_run(cs, z, i + 1, j, hc, parts, ret + 1);
    }
}

/// A string directive whose only string holds `n` characters, none a quote or a backslash,
/// takes `n` bytes, and one more for the terminating zero where strings are zero-terminated.
pub proof fn lemma_plain_string_size(cs: Seq<char>, q: int, n: int, z: bool)
    requires
        0 <= q,
        0 <= n,
        cs.len() == q + n + 2,
        forall|k: int| 0 <= k < q ==> cs[k] != '"',
        cs[q] == '"',
        forall|k: int| q < k <= q + n ==> cs[k] != '"' && cs[k] != '\\',
        cs[q + n + 1] == '"',
    ensures
        quote_scan(cs, z, 0, 0, true, 0, 0) == Ok::<int, int>(if z { n + 1 } else { n }),
{
    lemma_scan_outside(cs, z, 0, q, 0, 0);
    assert(quote_scan(cs, z, q, 0, true, 0, 0) == quote_scan(cs, z, q + 1, 1, true, 1, 0));
    lemma_scan_plain_run(cs, z, q + 1, q + n + 1, true, 1, 0);
    let e = q + n + 1;
    assert(quote_scan(cs, z, e, 1, true, 1, n) == quote_scan(cs, z, e + 1, 0, false, 1, n));
}

/// `b` is a new block described by `desc`: in `.text`, with nothing in it yet.
pub open spec fn fresh_block(b: GlobalAsmBlock, desc: Seq<char>) -> bool {
    &&& b.fn_desc@ == desc
    &&& b.cur_section@ == ".text"@
    &&& b.asm_conts@.len() == 0
    &&& b.late_rodata_asm_conts@.len() == 0
    &&& b.late_rodata_alignment == 0
    &&& !b.late_rodata_alignment_from_content
    &&& b.text_glabels@.len() == 0
    &&& b.fn_section_sizes == (SectionSizes { text: 0, data: 0, bss: 0, rodata: 0, late_rodata: 0 })
    &&& b.fn_ins_inds@.len() == 0
    &&& b.glued_line@.len() == 0
    &&& b.num_lines == 0
    &&& b.wf()
}

impl GlobalAsmBlock {
    /// The block is in one of the sections that it can hold contents in.
    pub open spec fn wf(&self) -> bool {
        is_asm_section(self.cur_section@)
    }

    pub fn new(fn_desc: &str) -> (b: Self)
        ensures
            fresh_block(b, fn_desc@),
    {
        Self {
            fn_desc: fn_desc.to_owned(),
            cur_section: ".text".to_owned(),
            asm_conts: Vec::new(),
            late_rodata_asm_conts: Vec::new(),
            late_rodata_alignment: 0,
            late_rodata_alignment_from_content: false,
            text_glabels: Vec::new(),
            fn_section_sizes: SectionSizes { text: 0, data: 0, bss: 0, rodata: 0, late_rodata: 0 },
            fn_ins_inds: Vec::new(),
            glued_line: String::new(),
            num_lines: 0,
        }
    }

    /// The error for a failure in this block, naming the block and, where given, the line.
    pub fn fail(&self, message: &str, line: Option<&str>) -> (e: Error)
        ensures
            is_failure(e, message@, self.fn_desc@, opt_view(line)),
    {
        let mut context = self.fn_desc.clone();
        match line {
            Some(l) => {
                context.append(", at line \"");
                context.append(l);
                context.append("\"");
            },
            None => {},
        }
        let mut text = message.to_owned();
        text.append("\nwithin ");
        text.append(context.as_str());
        Error::AssemblyProcessing(text)
    }

    /// The number of bytes that the string arguments of an `.ascii` or `.asciz` line take:
    /// each character inside quotes counts once, an escape sequence as one character, and
    /// with `z` each string takes a terminating zero as well.
    pub fn count_quoted_size(&self, line: &str, z: bool, real_line: &str, output_enc: &str) -> (r: Result<usize, Error>)
        requires
            line@.len() <= usize::MAX / 8,
        ensures
            quote_scan(line@, z, 0, 0, true, 0, 0) matches Ok(n) ==> r == Ok::<usize, Error>(n as usize),
            quote_scan(line@, z, 0, 0, true, 0, 0) matches Err(code) ==> (r matches Err(e) && is_failure(
                e,
                quote_failure_message(code),
                self.fn_desc@,
                Some(real_line@),
            )),
    {
        let cs = chars_of(line);
        let ghost s = cs@;
        let mut mode: u8 = 0;
        let mut has_comma = true;
        let mut num_parts: usize = 0;
        let mut ret: usize = 0;
        let mut i: usize = 0;
        proof {
            lemma_quote_scan_bound(s, z, 0, 0, true, 0, 0);
        }
        while i < cs.len()
            invariant
                s == cs@,
                s == line@,
                s.len() <= usize::MAX / 8,
                i <= s.len(),
                num_parts <= i,
                ret <= i,
                mode <= 5,
                quote_scan(s, z, i as int, mode as int, has_comma, num_parts as int, ret as int) == quote_scan(
                    s,
                    z,
                    0,
                    0,
                    true,
                    0,
                    0,
                ),
            decreases s.len() - i,
        {
            let c = cs[i];
            if mode == 0 {
                if c == '"' {
                    if z && !has_comma {
                        return Err(
                            self.fail(
                                ".asciiz with glued strings is not supported due to GNU as version diffs",
                                Some(real_line),
                            ),
                        );
                    }
                    mode = 1;
                    num_parts += 1;
                } else if c == ',' {
                    has_comma = true;
                }
            } else if mode == 2 {
                if c == 'x' {
                    mode = 3;
                } else if '0' <= c && c <= '9' {
                    mode = 4;
                } else {
                    mode = 1;
                }
            } else if mode == 3 && (('0' <= c && c <= '9') || ('a' <= c && c <= 'f') || ('A' <= c && c <= 'F')) {
                mode = 3;
            } else if mode == 4 && '0' <= c && c <= '9' {
                mode = 5;
            } else if mode == 5 && '0' <= c && c <= '9' {
                mode = 1;
            } else if c == '"' {
                mode = 0;
                has_comma = false;
            } else if c == '\\' {
                mode = 2;
                ret += 1;
            } else {
                mode = 1;
                ret += 1;
            }
            i += 1;
        }
        if mode == 2 {
            return Err(self.fail("backslash at end of line not supported", Some(real_line)));
        }
        if mode != 0 {
            return Err(self.fail("unterminated string literal", Some(real_line)));
        }
        if num_parts == 0 {
            return Err(self.fail(".ascii with no string", Some(real_line)));
        }
        Ok(if z { ret + num_parts } else { ret })
    }
}

/// `v` moved up to the next multiple of `m`.
pub open spec fn round_up(v: int, m: int) -> int {
    if v % m == 0 {
        v
    } else {
        v + (m - v % m)
    }
}

/// What a line of `.late_rodata` becomes when a block is finished: dropped (an alignment
/// directive, 0), a jump table entry (`.word`, 1), a placeholder data directive (2) or
/// assembly kept as it is (3).
pub open spec fn late_kind(line: Seq<char>) -> int {
    if contains_sub(line, ".late_rodata_alignment"@) || contains_sub(line, ".align"@) {
        0
    } else if has_prefix(line, ".word"@) {
        1
    } else if has_prefix(line, "."@) {
        2
    } else {
        3
    }
}

/// The lines of `lines` of the given kind, in order.
pub open spec fn lines_of_kind(lines: Seq<Seq<char>>, kind: int) -> Seq<Seq<char>>
    decreases lines.len(),
{
    if lines.len() == 0 {
        Seq::empty()
    } else {
        let rest = lines_of_kind(lines.drop_last(), kind);
        if late_kind(lines.last()) == kind {
            rest.push(lines.last())
        } else {
            rest
        }
    }
}

/// A line is among the lines of a kind exactly where it is among the lines and of that kind.
proof fn lemma_lines_of_kind_members(lines: Seq<Seq<char>>, kind: int)
    ensures
        forall|x: Seq<char>|
            #[trigger] lines_of_kind(lines, kind).contains(x) <==> lines.contains(x) && late_kind(x) == kind,
    decreases lines.len(),
{
    if lines.len() > 0 {
        let rest = lines.drop_last();
        lemma_lines_of_kind_members(rest, kind);
        let kr = lines_of_kind(rest, kind);
        let k = lines_of_kind(lines, kind);
        assert forall|x: Seq<char>| #[trigger] k.contains(x) <==> lines.contains(x) && late_kind(x) == kind by {
            if k.contains(x) {
                let j = choose|j: int| 0 <= j < k.len() && k[j] == x;
                if j < kr.len() {
                    assert(k[j] == kr[j]);
                    assert(kr.contains(x));
                    let w = choose|w: int| 0 <= w < rest.len() && rest[w] == x;
                    assert(lines[w] == x);
                } else {
                    assert(lines[lines.len() - 1] == x);
                }
            }
            if lines.contains(x) && late_kind(x) == kind {
                let w = choose|w: int| 0 <= w < lines.len() && lines[w] == x;
                if w < lines.len() - 1 {
                    assert(rest[w] == x);
                    assert(kr.contains(x));
                    let j = choose|j: int| 0 <= j < kr.len() && kr[j] == x;
                    if late_kind(lines.last()) == kind {
                        assert(k[j] == x);
                        assert(k.contains(x));
                    } else {
                        assert(k == kr);
                    }
                } else {
                    assert(k[k.len() - 1] == x);
                    assert(k.contains(x));
                }
            }
        }
    } else {
        assert forall|x: Seq<char>| #[trigger] lines_of_kind(lines, kind).contains(x) <==> lines.contains(x)
            && late_kind(x) == kind by {}
    }
}

/// Finishing a block sorts its `.late_rodata` lines: alignment directives (`.align`,
/// `.late_rodata_alignment`) are dropped and reach neither the dummy data nor the assembly;
/// the dummy data are exactly the block's `.late_rodata` lines that are directives other than
/// `.word` and the alignment directives; the assembly kept are exactly those that are no
/// directive.
pub proof fn lemma_finished_late_rodata(b: GlobalAsmBlock, st0: GlobalState, st1: GlobalState, lines: Seq<String>, f: Function)
    requires
        block_finished(b, st0, st1, lines, f),
    ensures
        ({
            let late = views(b.late_rodata_asm_conts@);
            let dummy = views(f.late_rodata_dummy_bytes@);
            let kept = views(f.late_rodata_asm_conts@);
            &&& forall|x: Seq<char>| #[trigger] dummy.contains(x) ==> !contains_sub(x, ".align"@)
            &&& forall|x: Seq<char>| #[trigger] kept.contains(x) ==> !contains_sub(x, ".align"@)
            &&& forall|x: Seq<char>|
                #[trigger] dummy.contains(x) <==> late.contains(x) && has_prefix(x, "."@) && !has_prefix(
                    x,
                    ".word"@,
                ) && !contains_sub(x, ".align"@) && !contains_sub(x, ".late_rodata_alignment"@)
            &&& forall|x: Seq<char>|
                #[trigger] kept.contains(x) <==> late.contains(x) && !has_prefix(x, "."@) && !contains_sub(
                    x,
                    ".align"@,
                ) && !contains_sub(x, ".late_rodata_alignment"@)
        }),
{
    let late = views(b.late_rodata_asm_conts@);
    lemma_lines_of_kind_members(late, 2);
    lemma_lines_of_kind_members(late, 3);
    reveal_strlit(".word");
    reveal_strlit(".");
    assert forall|x: Seq<char>| has_prefix(x, ".word"@) implies has_prefix(x, "."@) by {
        assert(x.take(1) =~= x.take(5).take(1));
        assert(".word"@.take(1) =~= "."@);
    }
}

/// The placeholder declarations that reserve a block's `.rodata`, `.data` and `.bss`: for
/// each of these sections, in that order, that the block puts contents in, the section, the
/// placeholder's name (numbered from `ctr` on), its size and its C declaration.
pub open spec fn placeholders(sizes: SectionSizes, ctr: int) -> Seq<(Seq<char>, Seq<char>, int, Seq<char>)> {
    let r = if sizes.rodata > 0 {
        let name = "_asmpp_rodata"@ + decimal((ctr + 1) as nat);
        seq![(".rodata"@, name, sizes.rodata as int, " const char "@ + name + "["@ + decimal(sizes.rodata as nat) + "] = {1};"@)]
    } else {
        Seq::empty()
    };
    let c1 = ctr + r.len();
    let d = if sizes.data > 0 {
        let name = "_asmpp_data"@ + decimal((c1 + 1) as nat);
        seq![(".data"@, name, sizes.data as int, " char "@ + name + "["@ + decimal(sizes.data as nat) + "] = {1};"@)]
    } else {
        Seq::empty()
    };
    let c2 = c1 + d.len();
    let b = if sizes.bss > 0 {
        let name = "_asmpp_bss"@ + decimal((c2 + 1) as nat);
        seq![(".bss"@, name, sizes.bss as int, " char "@ + name + "["@ + decimal(sizes.bss as nat) + "];"@)]
    } else {
        Seq::empty()
    };
    r + d + b
}

/// What finishing the block `b` gives: the placeholder declarations `lines`, numbered from
/// `st0`'s counter on (`st1` is the state after), and the block's `Function`, its
/// `.late_rodata` lines sorted into jump table entries, placeholder data and assembly.
pub open spec fn block_finished(b: GlobalAsmBlock, st0: GlobalState, st1: GlobalState, lines: Seq<String>, f: Function) -> bool {
    let ph = placeholders(b.fn_section_sizes, st0.namectr as int);
    let late = views(b.late_rodata_asm_conts@);
    &&& views(lines) == ph.map_values(|p: (Seq<char>, Seq<char>, int, Seq<char>)| p.3)
    &&& f.data@.len() == ph.len()
    &&& forall|k: int| 0 <= k < ph.len() ==> {
        &&& (#[trigger] f.data@[k]).0@ == ph[k].0
        &&& f.data@[k].1.0@ == ph[k].1
        &&& f.data@[k].1.1 == ph[k].2
    }
    &&& st1 == (GlobalState { namectr: (st0.namectr + ph.len()) as usize, ..st0 })
    &&& f.text_glabels == b.text_glabels
    &&& f.asm_conts == b.asm_conts
    &&& f.fn_desc == b.fn_desc
    &&& views(f.late_rodata_dummy_bytes@) == lines_of_kind(late, 2)
    &&& views(f.late_rodata_asm_conts@) == lines_of_kind(late, 3)
    &&& f.jtbl_rodata_size == 4 * lines_of_kind(late, 1).len()
}

impl GlobalAsmBlock {
    /// Pads the current section's size to a multiple of two.
    fn align2(&mut self)
        requires
            old(self).wf(),
            old(self).fn_section_sizes.size_of(old(self).cur_section@) + 1 <= usize::MAX,
        ensures
            *final(self) == (GlobalAsmBlock {
                fn_section_sizes: old(self).fn_section_sizes.with_size(
                    old(self).cur_section@,
                    round_up(old(self).fn_section_sizes.size_of(old(self).cur_section@), 2) as usize,
                ),
                ..*old(self)
            }),
    {
        let mut size = self.fn_section_sizes.get(self.cur_section.as_str());
        let ghost start = size;
        while size % 2 != 0
            invariant
                start <= size <= start + 1,
                start + 1 <= usize::MAX,
                size % 2 != 0 ==> size == start,
                size % 2 == 0 ==> size == round_up(start as int, 2),
            decreases start + 1 - size,
        {
            size += 1;
        }
        self.fn_section_sizes.set(self.cur_section.as_str(), size);
    }

    /// Pads the current section's size to a multiple of four.
    pub(crate) fn align4(&mut self)
        requires
            old(self).wf(),
            cur_size(old(self).model()) + 3 <= usize::MAX,
        ensures
            final(self).model() == align4_step(old(self).model()),
            final(self).wf(),
            final(self).fn_desc == old(self).fn_desc,
            final(self).glued_line == old(self).glued_line,
            final(self).num_lines == old(self).num_lines,
    {
        let mut size = self.fn_section_sizes.get(self.cur_section.as_str());
        let ghost start = size;
        while size % 4 != 0
            invariant
                start <= size <= round_up(start as int, 4),
                start + 3 <= usize::MAX,
                size % 4 == 0 ==> size == round_up(start as int, 4),
                round_up(start as int, 4) % 4 == 0,
                round_up(start as int, 4) - start < 4,
            decreases round_up(start as int, 4) - size,
        {
            size += 1;
        }
        self.fn_section_sizes.set(self.cur_section.as_str(), size);
    }

    /// Adds `size` bytes to the current section: a multiple of four in `.text` and
    /// `.late_rodata`, never negative. Each piece of `.text` needs an earlier label, and is
    /// recorded with its line and instruction count.
    pub(crate) fn add_sized(&mut self, size: isize, line: &str) -> (r: Result<(), Error>)
        requires
            old(self).wf(),
            old(self).num_lines >= 1,
            size >= 0 ==> cur_size(old(self).model()) + size <= usize::MAX,
        ensures
            stepped(
                *old(self),
                *final(self),
                r,
                add_sized_step(old(self).model(), size as int, line@, old(self).num_lines as int),
            ),
            final(self).wf(),
    {
        proof {
            lemma_section_names();
        }
        let is_text = str_eq(self.cur_section.as_str(), ".text");
        let is_late = str_eq(self.cur_section.as_str(), ".late_rodata");
        if is_text || is_late {
            if size % 4 != 0 {
                return Err(self.fail("size must be a multiple of 4", Some(line)));
            }
        }
        if size < 0 {
            return Err(self.fail("size cannot be negative", Some(line)));
        }
        let old_size = self.fn_section_sizes.get(self.cur_section.as_str());
        self.fn_section_sizes.set(self.cur_section.as_str(), old_size + size as usize);
        if is_text {
            if self.text_glabels.len() == 0 {
                return Err(self.fail(".text block without an initial glabel", Some(line)));
            }
            self.fn_ins_inds.push((self.num_lines - 1, size as usize / 4));
        }
        Ok(())
    }

    /// Ends the block: declares a placeholder for each of its `.rodata`, `.data` and `.bss`
    /// contents, numbered with the names that `state` hands out, and sorts its `.late_rodata`
    /// lines into jump table entries, placeholder data and assembly. A block that ends in
    /// `.text` without any label fails.
    pub fn finish(self, state: &mut GlobalState) -> (r: Result<(Vec<String>, Function), Error>)
        requires
            self.wf(),
            old(state).namectr + 3 <= usize::MAX,
            self.late_rodata_asm_conts@.len() <= usize::MAX / 4,
        ensures
            (self.cur_section@ == ".text"@ && self.text_glabels@.len() == 0) ==> (r matches Err(e) && is_failure(
                e,
                "no function labels found"@,
                self.fn_desc@,
                None,
            ) && *final(state) == *old(state)),
            !(self.cur_section@ == ".text"@ && self.text_glabels@.len() == 0) ==> (r matches Ok((lines, f))
                && block_finished(self, *old(state), *final(state), lines@, f)),
    {
        let is_text = str_eq(self.cur_section.as_str(), ".text");
        if is_text && self.text_glabels.len() == 0 {
            return Err(self.fail("no function labels found", None));
        }
        let ghost ctr0 = state.namectr as int;
        let mut output: Vec<String> = Vec::new();
        let mut data: Vec<(String, (String, usize))> = Vec::new();
        let ghost ph = placeholders(self.fn_section_sizes, ctr0);
        let ghost mut k: int = 0;
        let sizes = self.fn_section_sizes;
        if sizes.rodata > 0 {
            let mut name = "_asmpp_rodata".to_owned();
            let id = state.get_next_id();
            name.append(usize_to_string(id).as_str());
            let mut decl = " const char ".to_owned();
            decl.append(name.as_str());
            decl.append("[");
            decl.append(usize_to_string(sizes.rodata).as_str());
            decl.append("] = {1};");
            output.push(decl);
            data.push((".rodata".to_owned(), (name, sizes.rodata)));
        }
        if sizes.data > 0 {
            let mut name = "_asmpp_data".to_owned();
            let id = state.get_next_id();
            name.append(usize_to_string(id).as_str());
            let mut decl = " char ".to_owned();
            decl.append(name.as_str());
            decl.append("[");
            decl.append(usize_to_string(sizes.data).as_str());
            decl.append("] = {1};");
            output.push(decl);
            data.push((".data".to_owned(), (name, sizes.data)));
        }
        if sizes.bss > 0 {
            let mut name = "_asmpp_bss".to_owned();
            let id = state.get_next_id();
            name.append(usize_to_string(id).as_str());
            let mut decl = " char ".to_owned();
            decl.append(name.as_str());
            decl.append("[");
            decl.append(usize_to_string(sizes.bss).as_str());
            decl.append("];");
            output.push(decl);
            data.push((".bss".to_owned(), (name, sizes.bss)));
        }
        proof {
            assert(views(output@) =~= ph.map_values(|p: (Seq<char>, Seq<char>, int, Seq<char>)| p.3));
        }
        let mut late_rodata_dummy_bytes: Vec<String> = Vec::new();
        let mut late_rodata_asm_conts: Vec<String> = Vec::new();
        let mut jtbl_rodata_size: usize = 0;
        let ghost late = views(self.late_rodata_asm_conts@);
        let mut i: usize = 0;
        while i < self.late_rodata_asm_conts.len()
            invariant
                i <= late.len(),
                late == views(self.late_rodata_asm_conts@),
                late.len() <= usize::MAX / 4,
                views(late_rodata_dummy_bytes@) == lines_of_kind(late.take(i as int), 2),
                views(late_rodata_asm_conts@) == lines_of_kind(late.take(i as int), 3),
                jtbl_rodata_size == 4 * lines_of_kind(late.take(i as int), 1).len(),
                lines_of_kind(late.take(i as int), 1).len() <= i,
            decreases late.len() - i,
        {
            let cont = &self.late_rodata_asm_conts[i];
            let cs = chars_of(cont.as_str());
            assert(late.take(i + 1).drop_last() =~= late.take(i as int));
            assert(late.take(i + 1).last() == cs@);
            let ghost prev_dummy = views(late_rodata_dummy_bytes@);
            let ghost prev_asm = views(late_rodata_asm_conts@);
            if contains_str(cs.as_slice(), ".late_rodata_alignment") || contains_str(cs.as_slice(), ".align") {
            } else if starts_with(cs.as_slice(), ".word") {
                jtbl_rodata_size += 4;
            } else if starts_with(cs.as_slice(), ".") {
                late_rodata_dummy_bytes.push(cont.clone());
                assert(views(late_rodata_dummy_bytes@) =~= prev_dummy.push(cs@));
            } else {
                late_rodata_asm_conts.push(cont.clone());
                assert(views(late_rodata_asm_conts@) =~= prev_asm.push(cs@));
            }
            i += 1;
        }
        assert(late.take(i as int) =~= late);
        Ok(
            (
                output,
                Function {
                    text_glabels: self.text_glabels,
                    asm_conts: self.asm_conts,
                    late_rodata_dummy_bytes,
                    jtbl_rodata_size,
                    late_rodata_asm_conts,
                    fn_desc: self.fn_desc,
                    data,
                },
            ),
        )
    }
}

} // verus!
