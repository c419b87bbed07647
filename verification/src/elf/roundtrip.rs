use crate::elf::constants::{EI_CLASS, EI_DATA, SHT_REL, SHT_RELA, SHT_STRTAB, SHT_SYMTAB};
use crate::elf::file::{
    ElfFile,
    file_written,
    layout_fits_u32,
    section_moved,
    align_up,
    zeros,
    elf_big,
    sh_table_off,
    sh_entry_size,
    sh_entry_pos,
    sh_entry,
    sh_word,
    sh_declared,
    sh_count,
    sh_content,
    shstr_index,
    sh_name_of,
    sh_is_rel,
    elf_front_ok,
    elf_symtab_unique,
    elf_names_ok,
    elf_rel_links_ok,
    elf_parse_defined,
    elf_file_from,
    section_parsed_at,
    lemma_entry_words,
    is_placed,
    layout_end,
    new_offset,
    contents_bytes,
    headers_bytes,
    lemma_align_up,
    lemma_layout_mono,
    lemma_layout_same,
    lemma_layout_start,
};
use crate::elf::format::u32_at;
use crate::elf::header::{ElfHeader, elf_magic, header_accepted, header_bytes, header_from, lemma_header_roundtrip};
use crate::elf::section::{
    ElfSection,
    section_header_bytes,
    strtab_string_at,
    lemma_section_header_roundtrip,
};
use vstd::prelude::*;

verus! {

/// The written contents of the first `k` sections end where the layout says.
proof fn lemma_contents_len(secs: Seq<ElfSection>, k: int)
    requires
        0 <= k <= secs.len(),
    ensures
        contents_bytes(secs, k).len() == layout_end(secs, k) - 52,
    decreases k,
{
    if k > 0 {
        lemma_contents_len(secs, k - 1);
        lemma_layout_start(secs, k - 1);
        lemma_align_up(layout_end(secs, k - 1), secs[k - 1].sh_addralign as int);
    }
}

/// A written section's contents lie in the written contents at its new offset.
proof fn lemma_contents_at(secs: Seq<ElfSection>, k: int, i: int)
    requires
        0 <= i < k <= secs.len(),
        is_placed(secs[i]),
    ensures
        52 <= new_offset(secs, i),
        new_offset(secs, i) + secs[i].data@.len() <= layout_end(secs, k),
        contents_bytes(secs, k).subrange(
            new_offset(secs, i) - 52,
            new_offset(secs, i) - 52 + secs[i].data@.len(),
        ) == secs[i].data@,
    decreases k,
{
    lemma_contents_len(secs, k);
    lemma_contents_len(secs, k - 1);
    lemma_layout_mono(secs, i, k);
    lemma_layout_start(secs, i);
    lemma_align_up(layout_end(secs, i), secs[i].sh_addralign as int);
    let c = contents_bytes(secs, k);
    let start = new_offset(secs, i) - 52;
    let len = secs[i].data@.len() as int;
    if i == k - 1 {
        let p = layout_end(secs, k - 1);
        let pad = zeros(align_up(p, secs[i].sh_addralign as int) - p);
        assert(c == contents_bytes(secs, k - 1) + pad + secs[i].data@);
        assert(c.subrange(start, start + len) =~= secs[i].data@);
    } else {
        lemma_contents_at(secs, k - 1, i);
        lemma_layout_mono(secs, i, k - 1);
        let prev = contents_bytes(secs, k - 1);
        assert(c.subrange(0, prev.len() as int) =~= prev) by {
            let p = layout_end(secs, k - 1);
            let s = secs[k - 1];
            if is_placed(s) {
                let pad = zeros(align_up(p, s.sh_addralign as int) - p);
                assert(c == prev + pad + s.data@);
            }
        }
        assert(c.subrange(start, start + len) =~= prev.subrange(start, start + len));
    }
}

/// The section header table holds forty bytes per section, each section's header at its
/// place.
proof fn lemma_headers_at(secs: Seq<ElfSection>, k: int)
    requires
        0 <= k <= secs.len(),
    ensures
        headers_bytes(secs, k).len() == 40 * k,
        forall|i: int|
            0 <= i < k ==> headers_bytes(secs, k).subrange(40 * i, 40 * i + 40) == section_header_bytes(
                #[trigger] secs[i],
            ),
    decreases k,
{
    if k > 0 {
        lemma_headers_at(secs, k - 1);
        lemma_section_header_roundtrip(secs[k - 1]);
        let prev = headers_bytes(secs, k - 1);
        let all = headers_bytes(secs, k);
        assert(all == prev + section_header_bytes(secs[k - 1]));
        assert forall|i: int| 0 <= i < k implies all.subrange(40 * i, 40 * i + 40) == section_header_bytes(
            #[trigger] secs[i],
        ) by {
            if i == k - 1 {
                assert(all.subrange(40 * i, 40 * i + 40) =~= section_header_bytes(secs[i]));
            } else {
                assert(all.subrange(40 * i, 40 * i + 40) =~= prev.subrange(40 * i, 40 * i + 40));
            }
        }
    }
}

/// The header fields of two sections agree.
pub open spec fn same_header(a: ElfSection, b: ElfSection) -> bool {
    &&& a.sh_name == b.sh_name
    &&& a.sh_type == b.sh_type
    &&& a.sh_flags == b.sh_flags
    &&& a.sh_addr == b.sh_addr
    &&& a.sh_offset == b.sh_offset
    &&& a.sh_size == b.sh_size
    &&& a.sh_link == b.sh_link
    &&& a.sh_info == b.sh_info
    &&& a.sh_addralign == b.sh_addralign
    &&& a.sh_entsize == b.sh_entsize
}

/// What reading back the file that writing `o` gives needs of `o`: a header of the kind this
/// tool reads (ELF magic, a 32-bit or unstated class, the byte order that `o` uses declared, a relocatable MIPS file
/// without program headers, forty-byte section headers, a section name string table); one
/// to 65535 sections, the first of them empty, all in the file's byte order; exactly one
/// symbol table; a section name string table that names every section; relocation sections
/// that name existing sections; and sections whose contents are not written (`SHT_NOBITS`
/// or `SHT_NULL`) lying within the written contents.
pub open spec fn readable_when_written(o: ElfFile) -> bool {
    let secs = o.sections@;
    let len = secs.len() as int;
    let h = o.header;
    let k = h.e_shstrndx as int;
    &&& h.e_ident@[0] == 0x7f && h.e_ident@[1] == 0x45 && h.e_ident@[2] == 0x4c && h.e_ident@[3] == 0x46
    &&& (h.e_ident@[EI_CLASS as int] == 0 || h.e_ident@[EI_CLASS as int] == 1)
    &&& (h.e_ident@[EI_DATA as int] == 2) == o.fmt.is_big_endian
    &&& h.e_type == 1
    &&& h.e_machine == 8
    &&& h.e_phoff == 0
    &&& h.e_shentsize == 40
    &&& h.e_shstrndx != 0
    &&& 1 <= len <= 0xffff
    &&& secs[0].data@.len() == 0
    &&& forall|i: int| 0 <= i < len ==> (#[trigger] secs[i]).fmt == o.fmt
    &&& exists|s: int|
        0 <= s < len && secs[s].sh_type == SHT_SYMTAB && forall|j: int|
            0 <= j < len && j != s ==> (#[trigger] secs[j]).sh_type != SHT_SYMTAB
    &&& k < len
    &&& secs[k].sh_type == SHT_STRTAB
    &&& forall|i: int| 0 <= i < len ==> strtab_string_at(secs[k].data@, (#[trigger] secs[i]).sh_name as int) is Some
    &&& forall|i: int|
        0 <= i < len && ((#[trigger] secs[i]).sh_type == SHT_REL || secs[i].sh_type == SHT_RELA) ==> secs[i].sh_info
            < len
    &&& forall|i: int|
        1 <= i < len && !is_placed(#[trigger] secs[i]) ==> secs[i].sh_offset + secs[i].sh_size <= layout_end(
            secs,
            len,
        )
}

/// Writing keeps each section's type, alignment and content length, so the written file is
/// laid out as the file before writing was.
proof fn lemma_written_layout(o: ElfFile, n: ElfFile, bytes: Seq<u8>)
    requires
        file_written(o, n, bytes),
    ensures
        forall|i: int|
            #![trigger n.sections@[i]]
            0 <= i < o.sections@.len() ==> n.sections@[i].sh_type == o.sections@[i].sh_type
                && n.sections@[i].sh_addralign == o.sections@[i].sh_addralign && n.sections@[i].data@.len()
                == o.sections@[i].data@.len() && n.sections@[i].fmt == o.sections@[i].fmt,
        forall|k: int| 0 <= k <= o.sections@.len() ==> #[trigger] layout_end(n.sections@, k) == layout_end(o.sections@, k),
        forall|i: int|
            0 <= i < o.sections@.len() ==> #[trigger] new_offset(n.sections@, i) == new_offset(o.sections@, i),
{
    let secs = o.sections@;
    let ns = n.sections@;
    assert forall|i: int|
        #![trigger ns[i]]
        0 <= i < secs.len() implies ns[i].sh_type == secs[i].sh_type && ns[i].sh_addralign == secs[i].sh_addralign
        && ns[i].data@.len() == secs[i].data@.len() && ns[i].fmt == secs[i].fmt by {
        assert(section_moved(secs[i], ns[i], new_offset(secs, i)));
    }
    assert forall|k: int| 0 <= k <= secs.len() implies #[trigger] layout_end(ns, k) == layout_end(secs, k) by {
        lemma_layout_same(ns, secs, k);
    }
    assert forall|i: int| 0 <= i < secs.len() implies #[trigger] new_offset(ns, i) == new_offset(secs, i) by {
        assert(layout_end(ns, i) == layout_end(secs, i));
    }
}

/// The bytes of a written file: its header first, then the contents, then the section
/// header table with each section's header at its place.
#[verifier::rlimit(40)]
proof fn lemma_written_bytes(o: ElfFile, n: ElfFile, bytes: Seq<u8>)
    requires
        file_written(o, n, bytes),
        layout_fits_u32(o),
        readable_when_written(o),
    ensures
        elf_magic(bytes),
        bytes.len() >= 52,
        elf_big(bytes) == o.fmt.is_big_endian,
        header_from(n.header, o.fmt.is_big_endian, bytes),
        header_accepted(elf_big(bytes), bytes),
        sh_entry_size(bytes) == 40,
        sh_declared(bytes) == o.sections@.len(),
        sh_count(bytes) == o.sections@.len(),
        shstr_index(bytes) == o.header.e_shstrndx,
        layout_end(o.sections@, o.sections@.len() as int) <= sh_table_off(bytes),
        layout_end(o.sections@, o.sections@.len() as int) <= u32::MAX,
        sh_table_off(bytes) + 40 * o.sections@.len() == bytes.len(),
        bytes.subrange(52, layout_end(o.sections@, o.sections@.len() as int)) == contents_bytes(
            n.sections@,
            o.sections@.len() as int,
        ),
        forall|i: int|
            0 <= i < o.sections@.len() ==> sh_entry_pos(bytes, i) + 40 <= bytes.len() && #[trigger] sh_entry(bytes, i)
                == section_header_bytes(n.sections@[i]),
{
    let secs = o.sections@;
    let ns = n.sections@;
    let len = secs.len() as int;
    let big = o.fmt.is_big_endian;
    let end = layout_end(secs, len);
    let shoff = align_up(end, 4);
    lemma_layout_start(secs, len);
    lemma_align_up(end, 4);
    lemma_written_layout(o, n, bytes);
    lemma_contents_len(ns, len);
    lemma_headers_at(ns, len);
    lemma_header_roundtrip(big, n.header);
    let hb = header_bytes(big, n.header);
    let c = contents_bytes(ns, len);
    let z = zeros(shoff - end);
    let t = headers_bytes(ns, len);
    let front = hb + c + z;
    assert(bytes == front + t);
    assert(front.len() == shoff);
    assert(bytes.subrange(52, end) =~= c);
    assert forall|p: int| 0 <= p < 52 implies #[trigger] bytes[p] == hb[p] by {
        assert(front[p] == hb[p]);
    }
    assert(bytes.subrange(0, 16) =~= hb.subrange(0, 16));
    assert(header_from(n.header, big, bytes));
    assert(bytes[5] == n.header.e_ident@[5]) by {
        assert(hb.subrange(0, 16)[5] == hb[5]);
    }
    assert(elf_magic(bytes)) by {
        assert(hb.subrange(0, 16)[0] == hb[0]);
        assert(hb.subrange(0, 16)[1] == hb[1]);
        assert(hb.subrange(0, 16)[2] == hb[2]);
        assert(hb.subrange(0, 16)[3] == hb[3]);
    }
    assert(sh_table_off(bytes) == shoff);
    assert(sh_entry_size(bytes) == 40);
    assert forall|i: int|
        0 <= i < len implies sh_entry_pos(bytes, i) + 40 <= bytes.len() && #[trigger] sh_entry(bytes, i)
        == section_header_bytes(ns[i]) by {
        assert(sh_entry_pos(bytes, i) == shoff + 40 * i) by (nonlinear_arith)
            requires
                sh_entry_pos(bytes, i) == sh_table_off(bytes) + i * sh_entry_size(bytes),
                sh_table_off(bytes) == shoff,
                sh_entry_size(bytes) == 40,
        ;
        assert(t.subrange(40 * i, 40 * i + 40) == section_header_bytes(ns[i]));
        assert(sh_entry(bytes, i) =~= t.subrange(40 * i, 40 * i + 40));
    }
}

/// The words of each section header in a written file are the written section's fields.
proof fn lemma_written_words(o: ElfFile, n: ElfFile, bytes: Seq<u8>)
    requires
        file_written(o, n, bytes),
        layout_fits_u32(o),
        readable_when_written(o),
    ensures
        forall|i: int|
            0 <= i < o.sections@.len() ==> {
                &&& sh_word(bytes, i, 0) == (#[trigger] n.sections@[i]).sh_name
                &&& sh_word(bytes, i, 1) == n.sections@[i].sh_type
                &&& sh_word(bytes, i, 4) == n.sections@[i].sh_offset
                &&& sh_word(bytes, i, 5) == n.sections@[i].sh_size
                &&& sh_word(bytes, i, 7) == n.sections@[i].sh_info
            },
{
    lemma_written_bytes(o, n, bytes);
    lemma_written_layout(o, n, bytes);
    let ns = n.sections@;
    assert forall|i: int| 0 <= i < o.sections@.len() implies {
        &&& sh_word(bytes, i, 0) == (#[trigger] ns[i]).sh_name
        &&& sh_word(bytes, i, 1) == ns[i].sh_type
        &&& sh_word(bytes, i, 4) == ns[i].sh_offset
        &&& sh_word(bytes, i, 5) == ns[i].sh_size
        &&& sh_word(bytes, i, 7) == ns[i].sh_info
    } by {
        assert(sh_entry(bytes, i) == section_header_bytes(ns[i]));
        assert(o.sections@[i].fmt == o.fmt);
        lemma_entry_words(bytes, i);
        lemma_section_header_roundtrip(ns[i]);
        assert(sh_word(bytes, i, 0) == u32_at(elf_big(bytes), sh_entry(bytes, i), 4 * 0int));
        assert(sh_word(bytes, i, 1) == u32_at(elf_big(bytes), sh_entry(bytes, i), 4 * 1int));
        assert(sh_word(bytes, i, 4) == u32_at(elf_big(bytes), sh_entry(bytes, i), 4 * 4int));
        assert(sh_word(bytes, i, 5) == u32_at(elf_big(bytes), sh_entry(bytes, i), 4 * 5int));
        assert(sh_word(bytes, i, 7) == u32_at(elf_big(bytes), sh_entry(bytes, i), 4 * 7int));
    }
}

/// Where a written section's header says its contents lie, the written contents hold them.
proof fn lemma_content_of(bytes: Seq<u8>, ns: Seq<ElfSection>, i: int)
    requires
        1 <= i < ns.len(),
        is_placed(ns[i]),
        layout_end(ns, ns.len() as int) <= bytes.len(),
        bytes.subrange(52, layout_end(ns, ns.len() as int)) == contents_bytes(ns, ns.len() as int),
        sh_word(bytes, i, 4) == new_offset(ns, i),
        sh_word(bytes, i, 5) == ns[i].data@.len(),
    ensures
        sh_word(bytes, i, 4) + sh_word(bytes, i, 5) <= layout_end(ns, ns.len() as int),
        sh_content(bytes, i) == ns[i].data@,
{
    let len = ns.len() as int;
    let end = layout_end(ns, len);
    lemma_contents_at(ns, len, i);
    let off = new_offset(ns, i);
    let dl = ns[i].data@.len() as int;
    assert(sh_content(bytes, i) == bytes.subrange(off, off + dl));
    assert(bytes.subrange(off, off + dl) =~= bytes.subrange(52, end).subrange(off - 52, off - 52 + dl));
}

/// The contents that a written file holds for each written section, other than the first,
/// are that section's contents.
proof fn lemma_written_contents(o: ElfFile, n: ElfFile, bytes: Seq<u8>)
    requires
        file_written(o, n, bytes),
        layout_fits_u32(o),
        readable_when_written(o),
    ensures
        forall|i: int|
            1 <= i < o.sections@.len() ==> #[trigger] sh_word(bytes, i, 4) + sh_word(bytes, i, 5) <= layout_end(
                o.sections@,
                o.sections@.len() as int,
            ),
        forall|i: int|
            1 <= i < o.sections@.len() && is_placed(#[trigger] n.sections@[i]) ==> sh_content(bytes, i)
                == n.sections@[i].data@,
{
    lemma_written_bytes(o, n, bytes);
    lemma_written_layout(o, n, bytes);
    lemma_written_words(o, n, bytes);
    let secs = o.sections@;
    let ns = n.sections@;
    let len = secs.len() as int;
    assert forall|i: int| 1 <= i < len implies #[trigger] sh_word(bytes, i, 4) + sh_word(bytes, i, 5) <= layout_end(
        secs,
        len,
    ) && (is_placed(ns[i]) ==> sh_content(bytes, i) == ns[i].data@) by {
        assert(section_moved(secs[i], ns[i], new_offset(secs, i)));
        assert(sh_word(bytes, i, 4) == ns[i].sh_offset);
        assert(sh_word(bytes, i, 5) == ns[i].sh_size);
        if is_placed(secs[i]) {
            lemma_layout_mono(secs, i, len);
            lemma_content_of(bytes, ns, i);
        } else {
            assert(ns[i] == secs[i]);
        }
    }
}

/// A file as `write_bytes` writes it parses again, where the file before writing is one
/// that `readable_when_written` admits: `ElfFile::new` accepts the bytes, and what it reads
/// is the written file: its header, as many sections, each with its written header, the
/// written contents of each written section after the first, and the names that the section
/// name string table gives.
#[verifier::rlimit(100)]
pub proof fn lemma_written_file_parses(o: ElfFile, n: ElfFile, bytes: Seq<u8>)
    requires
        file_written(o, n, bytes),
        layout_fits_u32(o),
        readable_when_written(o),
    ensures
        elf_parse_defined(bytes),
        elf_front_ok(bytes),
        elf_symtab_unique(bytes),
        elf_names_ok(bytes),
        elf_rel_links_ok(bytes),
        elf_big(bytes) == n.fmt.is_big_endian,
        header_from(n.header, n.fmt.is_big_endian, bytes),
        sh_count(bytes) == n.sections@.len(),
        forall|i: int| 0 <= i < n.sections@.len() ==> sh_entry(bytes, i) == section_header_bytes(#[trigger] n.sections@[i]),
        forall|i: int|
            1 <= i < n.sections@.len() && is_placed(#[trigger] n.sections@[i]) ==> sh_content(bytes, i)
                == n.sections@[i].data@,
        forall|i: int|
            0 <= i < n.sections@.len() ==> sh_name_of(bytes, i) == strtab_string_at(
                n.sections@[n.header.e_shstrndx as int].data@,
                (#[trigger] n.sections@[i]).sh_name as int,
            ),
{
    lemma_written_bytes(o, n, bytes);
    lemma_written_layout(o, n, bytes);
    lemma_written_words(o, n, bytes);
    lemma_written_contents(o, n, bytes);
    let secs = o.sections@;
    let ns = n.sections@;
    let len = secs.len() as int;
    let end = layout_end(secs, len);
    let k = o.header.e_shstrndx as int;
    assert(n.header.e_shstrndx == o.header.e_shstrndx);
    // The section name string table is written with its contents.
    assert(section_moved(secs[k], ns[k], new_offset(secs, k)));
    assert(is_placed(ns[k]));
    assert(ns[k].data@ == secs[k].data@);
    assert(sh_content(bytes, k) == ns[k].data@);
    assert forall|i: int| 0 <= i < len implies sh_name_of(bytes, i) == strtab_string_at(
        ns[k].data@,
        (#[trigger] ns[i]).sh_name as int,
    ) by {
        assert(sh_word(bytes, k, 1) == ns[k].sh_type);
        assert(sh_word(bytes, i, 0) == ns[i].sh_name);
        assert(section_moved(secs[i], ns[i], new_offset(secs, i)));
        assert(ns[i].sh_name == secs[i].sh_name);
    }
    assert(elf_names_ok(bytes)) by {
        assert forall|i: int| 0 <= i < sh_count(bytes) implies (#[trigger] sh_name_of(bytes, i)) is Some by {
            assert(strtab_string_at(secs[k].data@, secs[i].sh_name as int) is Some);
            assert(section_moved(secs[i], ns[i], new_offset(secs, i)));
            assert(sh_name_of(bytes, i) == strtab_string_at(ns[k].data@, ns[i].sh_name as int));
        }
    }
    assert(elf_symtab_unique(bytes)) by {
        let s = choose|s: int|
            0 <= s < len && secs[s].sh_type == SHT_SYMTAB && forall|j: int|
                0 <= j < len && j != s ==> (#[trigger] secs[j]).sh_type != SHT_SYMTAB;
        assert(sh_word(bytes, s, 1) == ns[s].sh_type);
        assert forall|j: int| 0 <= j < sh_count(bytes) && j != s implies sh_word(bytes, j, 1) != SHT_SYMTAB by {
            assert(sh_word(bytes, j, 1) == ns[j].sh_type);
            assert(secs[j].sh_type != SHT_SYMTAB);
        }
    }
    assert(elf_rel_links_ok(bytes)) by {
        assert forall|i: int| 0 <= i < sh_count(bytes) && #[trigger] sh_is_rel(bytes, i) implies sh_word(bytes, i, 7)
            < sh_count(bytes) by {
            assert(sh_word(bytes, i, 1) == ns[i].sh_type);
            assert(sh_word(bytes, i, 7) == ns[i].sh_info);
            assert(section_moved(secs[i], ns[i], new_offset(secs, i)));
            assert(secs[i].sh_type == SHT_REL || secs[i].sh_type == SHT_RELA);
        }
    }
    assert(elf_parse_defined(bytes)) by {
        assert forall|i: int| 1 <= i < sh_count(bytes) implies {
            &&& sh_entry_pos(bytes, i) + sh_entry_size(bytes) <= bytes.len()
            &&& #[trigger] sh_word(bytes, i, 4) + sh_word(bytes, i, 5) <= bytes.len()
            &&& sh_word(bytes, i, 4) + sh_word(bytes, i, 5) <= u32::MAX
        } by {
            assert(sh_entry(bytes, i) == section_header_bytes(ns[i]));
        }
        assert(sh_entry(bytes, 0) == section_header_bytes(ns[0]));
    }
}

/// The fields of two file headers agree.
pub open spec fn same_file_header(a: ElfHeader, b: ElfHeader) -> bool {
    &&& a.e_ident@ == b.e_ident@
    &&& a.e_type == b.e_type
    &&& a.e_machine == b.e_machine
    &&& a.e_version == b.e_version
    &&& a.e_entry == b.e_entry
    &&& a.e_phoff == b.e_phoff
    &&& a.e_shoff == b.e_shoff
    &&& a.e_flags == b.e_flags
    &&& a.e_ehsize == b.e_ehsize
    &&& a.e_phentsize == b.e_phentsize
    &&& a.e_phnum == b.e_phnum
    &&& a.e_shentsize == b.e_shentsize
    &&& a.e_shnum == b.e_shnum
    &&& a.e_shstrndx == b.e_shstrndx
}

/// Reading back a written file gives the file as written: where `write_bytes` turned `o`
/// into `n` and `bytes`, and `o` is one that `readable_when_written` admits, `ElfFile::new`
/// accepts `bytes`, and the file `f` it reads has `n`'s byte order and header, as many
/// sections, each with `n`'s header fields and its position as index, the contents of each
/// written section after the first, and the name that `n`'s section name string table gives.
pub proof fn lemma_write_then_read(o: ElfFile, n: ElfFile, bytes: Seq<u8>, f: ElfFile)
    requires
        file_written(o, n, bytes),
        layout_fits_u32(o),
        readable_when_written(o),
        elf_file_from(f, bytes),
    ensures
        elf_parse_defined(bytes),
        elf_front_ok(bytes) && elf_symtab_unique(bytes) && elf_names_ok(bytes) && elf_rel_links_ok(bytes),
        f.fmt.is_big_endian == n.fmt.is_big_endian,
        same_file_header(f.header, n.header),
        f.sections@.len() == n.sections@.len(),
        forall|i: int|
            0 <= i < n.sections@.len() ==> same_header(#[trigger] f.sections@[i], n.sections@[i]) && f.sections@[i].index
                == i,
        forall|i: int|
            1 <= i < n.sections@.len() && is_placed(#[trigger] n.sections@[i]) ==> f.sections@[i].data@
                == n.sections@[i].data@,
        forall|i: int|
            0 <= i < n.sections@.len() ==> Some((#[trigger] f.sections@[i]).name@) == strtab_string_at(
                n.sections@[n.header.e_shstrndx as int].data@,
                n.sections@[i].sh_name as int,
            ),
{
    lemma_written_file_parses(o, n, bytes);
    lemma_written_layout(o, n, bytes);
    let big = n.fmt.is_big_endian;
    let ns = n.sections@;
    let fs = f.sections@;
    assert forall|i: int| 0 <= i < ns.len() implies same_header(#[trigger] fs[i], ns[i]) && fs[i].index == i by {
        assert(section_parsed_at(fs[i], bytes, i));
        assert(sh_entry(bytes, i) == section_header_bytes(ns[i]));
        assert(o.sections@[i].fmt == o.fmt);
        lemma_section_header_roundtrip(ns[i]);
    }
    assert forall|i: int| 1 <= i < ns.len() && is_placed(#[trigger] ns[i]) implies fs[i].data@ == ns[i].data@ by {
        assert(section_parsed_at(fs[i], bytes, i));
    }
    assert forall|i: int|
        0 <= i < ns.len() implies Some((#[trigger] fs[i]).name@) == strtab_string_at(
        ns[n.header.e_shstrndx as int].data@,
        ns[i].sh_name as int,
    ) by {
        assert(section_parsed_at(fs[i], bytes, i));
    }
}

} // verus!
