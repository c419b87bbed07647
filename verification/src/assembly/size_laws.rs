use crate::assembly::block::{
    GlobalAsmBlock,
    SectionSizes,
    fresh_block,
    is_asm_section,
    round_up,
    quote_scan,
    lemma_section_names,
};
use crate::assembly::line::{line_processed, label_stripped, label_len, comments_blanked, blanked_from};
use crate::assembly::model::{
    section_target,
    BlockModel,
    cur_size,
    align4_step,
    add_sized_step,
    post_step,
    line_kind,
    second_word,
    incbin_size,
    arg_count,
    arg_isize,
    zero_terminated,
    line_step,
    fits,
};
use crate::utils::error::Error;
use crate::utils::text::{has_suffix, trimmed, char_is_whitespace, prefix_before, words, word_len};
use vstd::prelude::*;

verus! {

/// The block is in a section that it can hold contents in, and its `.text` and
/// `.late_rodata` sizes are multiples of four.
pub open spec fn sizes_aligned(m: BlockModel) -> bool {
    &&& is_asm_section(m.cur_section)
    &&& m.sizes.text % 4 == 0
    &&& m.sizes.late_rodata % 4 == 0
}

/// No size in `b` is below the one in `a`, and only the size of section `cur` differs.
pub open spec fn only_grows(a: SectionSizes, b: SectionSizes, cur: Seq<char>) -> bool {
    &&& a.text <= b.text
    &&& a.data <= b.data
    &&& a.bss <= b.bss
    &&& a.rodata <= b.rodata
    &&& a.late_rodata <= b.late_rodata
    &&& cur != ".text"@ ==> a.text == b.text
    &&& cur != ".data"@ ==> a.data == b.data
    &&& cur != ".bss"@ ==> a.bss == b.bss
    &&& cur != ".rodata"@ ==> a.rodata == b.rodata
    &&& cur != ".late_rodata"@ ==> a.late_rodata == b.late_rodata
}

/// What a line that succeeds keeps of a block going from `a` to `b`: aligned sizes, sizes
/// that only grow and only in the section that the block is in afterwards, and the `.text`
/// labels seen so far at the front of the list.
pub open spec fn line_kept(a: BlockModel, b: BlockModel) -> bool {
    &&& sizes_aligned(b)
    &&& only_grows(a.sizes, b.sizes, b.cur_section)
    &&& a.text_glabels.is_prefix_of(b.text_glabels)
}

proof fn lemma_round_up4(s: int)
    requires
        s >= 0,
    ensures
        s <= round_up(s, 4) <= s + 3,
        round_up(s, 4) % 4 == 0,
        s % 4 == 0 ==> round_up(s, 4) == s,
{
}

proof fn lemma_kept_same(m: BlockModel)
    requires
        sizes_aligned(m),
    ensures
        line_kept(m, m),
{
    assert(m.text_glabels =~= m.text_glabels.subrange(0, m.text_glabels.len() as int));
}

/// Setting the current section's size to `v`, no smaller than before and a multiple of four
/// in `.text` and `.late_rodata`, keeps what a line keeps.
proof fn lemma_resize(m: BlockModel, v: int)
    requires
        sizes_aligned(m),
        cur_size(m) <= v <= usize::MAX,
        (m.cur_section == ".text"@ || m.cur_section == ".late_rodata"@) ==> v % 4 == 0,
    ensures
        line_kept(m, BlockModel { sizes: m.sizes.with_size(m.cur_section, v as usize), ..m }),
        cur_size(BlockModel { sizes: m.sizes.with_size(m.cur_section, v as usize), ..m }) == v,
{
    lemma_section_names();
    lemma_kept_same(m);
}

proof fn lemma_align4(m: BlockModel)
    requires
        sizes_aligned(m),
        round_up(cur_size(m), 4) <= usize::MAX,
    ensures
        line_kept(m, align4_step(m)),
        align4_step(m).cur_section == m.cur_section,
        align4_step(m).text_glabels == m.text_glabels,
        cur_size(align4_step(m)) == round_up(cur_size(m), 4),
{
    lemma_section_names();
    lemma_round_up4(cur_size(m));
    lemma_resize(m, round_up(cur_size(m), 4));
}

proof fn lemma_add_sized(m: BlockModel, size: int, text: Seq<char>, n: int)
    requires
        sizes_aligned(m),
        add_sized_step(m, size, text, n).1 is None,
        cur_size(m) + size <= usize::MAX,
    ensures
        line_kept(m, add_sized_step(m, size, text, n).0),
        add_sized_step(m, size, text, n).0.cur_section == m.cur_section,
        add_sized_step(m, size, text, n).0.text_glabels == m.text_glabels,
{
    lemma_section_names();
    lemma_resize(m, cur_size(m) + size);
}

proof fn lemma_post(m: BlockModel, text: Seq<char>, changed: bool, double: bool)
    ensures
        post_step(m, text, changed, double).sizes == m.sizes,
        post_step(m, text, changed, double).cur_section == m.cur_section,
        post_step(m, text, changed, double).text_glabels == m.text_glabels,
{
}

proof fn lemma_kept_chain(a: BlockModel, b: BlockModel, c: BlockModel)
    requires
        line_kept(a, b),
        line_kept(b, c),
        b.cur_section == c.cur_section,
        b.text_glabels == c.text_glabels,
    ensures
        line_kept(a, c),
{
}

/// A line that succeeds on a block keeps what `line_kept` says, where the block's sizes
/// are aligned and the line fits.
proof fn lemma_line_step_kept(m: BlockModel, ln: Seq<char>, text: Seq<char>, n: int)
    requires
        sizes_aligned(m),
        fits(m, ln),
        line_step(m, ln, text, n).1 is None,
    ensures
        line_kept(m, line_step(m, ln, text, n).0),
{
    lemma_section_names();
    let k = line_kind(m.cur_section, ln);
    let s = cur_size(m);
    let out = line_step(m, ln, text, n).0;
    lemma_round_up4(s);
    lemma_kept_same(m);
    if k == 0 || k == 2 {
        lemma_post(m, text, false, false);
    } else if k == 1 {
        let m1 = match second_word(ln) {
            Some(w) => BlockModel { text_glabels: m.text_glabels.push(w), ..m },
            None => m,
        };
        lemma_post(m1, text, false, false);
        assert(m.text_glabels =~= m1.text_glabels.subrange(0, m.text_glabels.len() as int));
    } else if k == 3 || k == 4 {
    } else if k == 5 {
        let v = incbin_size(ln)->Some_0;
        lemma_add_sized(m, v, text, n);
        lemma_post(add_sized_step(m, v, text, n).0, text, false, false);
    } else if k == 6 {
        let m1 = align4_step(m);
        let size = 4 * arg_count(ln);
        lemma_align4(m);
        lemma_add_sized(m1, size, text, n);
        lemma_post(add_sized_step(m1, size, text, n).0, text, false, false);
        lemma_kept_chain(m, m1, out);
    } else if k == 7 {
        let m1 = align4_step(m);
        let size = 8 * arg_count(ln);
        lemma_align4(m);
        let gap = 8 - cur_size(m1) % 8;
        let m2 = if m1.cur_section == ".late_rodata"@ && m1.late_rodata_alignment == 0 {
            BlockModel { late_rodata_alignment: gap, late_rodata_alignment_from_content: true, ..m1 }
        } else {
            m1
        };
        assert(line_kept(m, m2));
        lemma_add_sized(m2, size, text, n);
        lemma_post(add_sized_step(m2, size, text, n).0, text, false, true);
        lemma_kept_chain(m, m2, out);
    } else if k == 8 {
        let v = arg_isize(ln)->Some_0;
        lemma_add_sized(m, v, text, n);
        lemma_post(add_sized_step(m, v, text, n).0, text, false, false);
    } else if k == 9 || k == 10 {
        lemma_align4(m);
        lemma_post(align4_step(m), text, false, false);
    } else if k == 11 {
        let size = quote_scan(ln, zero_terminated(ln), 0, 0, true, 0, 0)->Ok_0;
        lemma_add_sized(m, size, text, n);
        lemma_post(add_sized_step(m, size, text, n).0, text, false, false);
    } else {
        lemma_add_sized(m, 4, text, n);
        lemma_post(add_sized_step(m, 4, text, n).0, text, false, false);
    }
}

/// A new block starts with aligned sizes.
pub proof fn lemma_fresh_block_aligned(b: GlobalAsmBlock, desc: Seq<char>)
    requires
        fresh_block(b, desc),
    ensures
        sizes_aligned(b.model()),
{
}

/// Across a line: where a block is in a section that it can hold contents in and its
/// `.text` and `.late_rodata` sizes are multiples of four, a line that is processed without
/// error keeps that so; no section's size shrinks, only the size of the section that the
/// block is in afterwards may grow, and the `.text` labels seen before stay at the front of
/// the list.
pub proof fn lemma_process_line_keeps_sizes(
    o: GlobalAsmBlock,
    n: GlobalAsmBlock,
    line: Seq<char>,
    r: Result<(), Error>,
)
    requires
        sizes_aligned(o.model()),
        line_processed(o, n, line, r),
        r is Ok,
    ensures
        line_kept(o.model(), n.model()),
{
    lemma_kept_same(o.model());
    if !has_suffix(line, "\\"@) {
        let written = o.glued_line@ + line;
        let ln = label_stripped(trimmed(comments_blanked(written)));
        let k = o.num_lines + 1;
        if fits(o.model(), ln) {
            lemma_line_step_kept(o.model(), ln, written, k);
        }
    }
}

/// Over the lines of a block: where `bs[0]` is a new block and each `bs[i + 1]` is `bs[i]`
/// after `lines[i]` processed without error, every block of the run is in a section that it
/// can hold contents in, with `.text` and `.late_rodata` sizes that are multiples of four,
/// and each line keeps what `line_kept` says.
pub proof fn lemma_block_run_keeps_sizes(
    bs: Seq<GlobalAsmBlock>,
    lines: Seq<Seq<char>>,
    rs: Seq<Result<(), Error>>,
    desc: Seq<char>,
)
    requires
        bs.len() == lines.len() + 1,
        rs.len() == lines.len(),
        fresh_block(bs[0], desc),
        forall|i: int| 0 <= i < lines.len() ==> line_processed(bs[i], bs[i + 1], lines[i], #[trigger] rs[i]),
        forall|i: int| 0 <= i < rs.len() ==> (#[trigger] rs[i]) is Ok,
    ensures
        forall|i: int| 0 <= i < bs.len() ==> sizes_aligned(#[trigger] bs[i].model()),
        forall|i: int| 0 <= i < lines.len() ==> line_kept(bs[i].model(), #[trigger] bs[i + 1].model()),
    decreases lines.len(),
{
    if lines.len() == 0 {
        lemma_fresh_block_aligned(bs[0], desc);
    } else {
        let m = lines.len() - 1;
        lemma_block_run_keeps_sizes(bs.drop_last(), lines.drop_last(), rs.drop_last(), desc);
        assert(bs.drop_last()[m] == bs[m]);
        assert(sizes_aligned(bs[m].model()));
        assert(line_processed(bs[m], bs[m + 1], lines[m], rs[m]));
        lemma_process_line_keeps_sizes(bs[m], bs[m + 1], lines[m], rs[m]);
        assert forall|i: int| 0 <= i < bs.len() implies sizes_aligned(#[trigger] bs[i].model()) by {
            if i < m + 1 {
                assert(bs.drop_last()[i] == bs[i]);
            }
        }
        assert forall|i: int| 0 <= i < lines.len() implies line_kept(bs[i].model(), #[trigger] bs[i + 1].model()) by {
            if i < m {
                assert(bs.drop_last()[i] == bs[i]);
                assert(bs.drop_last()[i + 1] == bs[i + 1]);
            }
        }
    }
}

/// The line `.section .rodata` reads as itself: it holds no comment, no surrounding
/// whitespace and no label; it changes the section, to `.rodata`, and is not continued.
pub proof fn lemma_rodata_section_line()
    ensures
        label_stripped(trimmed(comments_blanked(".section .rodata"@))) == ".section .rodata"@,
        line_kind(".text"@, ".section .rodata"@) == 3,
        section_target(".section .rodata"@) == Some(".rodata"@),
        !has_suffix(".section .rodata"@, "\\"@),
{
    reveal_strlit(".section .rodata");
    reveal_strlit(".rodata");
    reveal_strlit(".text");
    reveal_strlit("\\");
    reveal_strlit("glabel ");
    reveal_strlit("jlabel ");
    reveal_strlit("dlabel ");
    reveal_strlit("endlabel ");
    reveal_strlit(":");
    reveal_strlit(".section");
    let s: Seq<char> = seq!['.', 's', 'e', 'c', 't', 'i', 'o', 'n', ' ', '.', 'r', 'o', 'd', 'a', 't', 'a'];
    assert(".section .rodata"@ =~= s);
    assert(comments_blanked(s) == s) by {
        assert forall|i: int| 0 <= i <= 16 implies #[trigger] blanked_from(s, i) == s.skip(i) by {
            lemma_blanked_plain(s, i);
        }
        assert(s.skip(0) =~= s);
    }
    assert(trimmed(s) == s) by {
        assert(!char_is_whitespace(s[0]));
        assert(!char_is_whitespace(s.last()));
    }
    assert(label_len(s) == 0);
    assert(label_stripped(s) == s);
    let w1 = s.take(8);
    let w2 = s.skip(9);
    assert(prefix_before(s, ',') == s) by {
        lemma_prefix_before_none(s, ',');
    }
    assert(words(s) == seq![w1, w2]) by {
        lemma_word_len_at(s, 8);
        lemma_word_len_at(s.skip(9), 7);
        assert(s.skip(8).drop_first() =~= w2);
        assert(w2.skip(7) =~= Seq::<char>::empty());
        assert(!char_is_whitespace(w2[0]));
        assert(w2.take(7) =~= w2);
        assert(words(w2) == seq![w2] + words(w2.skip(7)));
        assert(words(s.skip(8)) == words(w2));
    }
    assert(w2 =~= ".rodata"@);
    assert(s.take(7) != "glabel "@) by {
        assert(s.take(7)[0] != "glabel "@[0]);
    }
    assert(s.take(7) != "jlabel "@) by {
        assert(s.take(7)[0] != "jlabel "@[0]);
    }
    assert(s.take(7) != "dlabel "@) by {
        assert(s.take(7)[0] != "dlabel "@[0]);
    }
    assert(s.take(9) != "endlabel "@) by {
        assert(s.take(9)[0] != "endlabel "@[0]);
    }
    assert(s.contains(' ')) by {
        assert(s[8] == ' ');
    }
    assert(s.take(8) =~= ".section"@);
    assert(!has_suffix(s, "\\"@)) by {
        assert(s.skip(15)[0] != "\\"@[0]);
    }
}

/// Blanking the comments of a line from a position on, where no comment or string starts
/// from there, keeps the rest of the line.
proof fn lemma_blanked_plain(s: Seq<char>, i: int)
    requires
        0 <= i <= s.len(),
        forall|j: int| i <= j < s.len() ==> s[j] != '#' && s[j] != '/' && s[j] != '"',
    ensures
        blanked_from(s, i) == s.skip(i),
    decreases s.len() - i,
{
    reveal(blanked_from);
    if i < s.len() {
        lemma_blanked_plain(s, i + 1);
        assert(s.skip(i) =~= seq![s[i]] + s.skip(i + 1));
    } else {
        assert(s.skip(i) =~= Seq::<char>::empty());
    }
}

/// A line without the character `c` is its own part before `c`.
proof fn lemma_prefix_before_none(s: Seq<char>, c: char)
    requires
        forall|j: int| 0 <= j < s.len() ==> s[j] != c,
    ensures
        prefix_before(s, c) == s,
    decreases s.len(),
{
    if s.len() > 0 {
        lemma_prefix_before_none(s.drop_first(), c);
        assert(s =~= seq![s[0]] + s.drop_first());
    }
}

/// A line whose first `n` characters are no whitespace, followed by whitespace or the
/// end, starts with a word `n` long.
proof fn lemma_word_len_at(s: Seq<char>, n: int)
    requires
        0 <= n <= s.len(),
        forall|j: int| 0 <= j < n ==> !char_is_whitespace(#[trigger] s[j]),
        n < s.len() ==> char_is_whitespace(s[n]),
    ensures
        word_len(s) == n,
    decreases n,
{
    if n > 0 {
        lemma_word_len_at(s.drop_first(), n - 1);
    }
}

} // verus!
