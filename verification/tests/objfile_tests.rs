use std::collections::HashSet;
use asm_processor::elf::constants::{SHT_MIPS_DEBUG, SHT_PROGBITS, SHT_REL, SHT_STRTAB, SHT_SYMTAB};
use asm_processor::objfile::mdebug::process_mdebug_symbols;
use asm_processor::utils::Error;
use asm_processor::elf::{ElfFile, ElfFormat, Relocation, Symbol};
use asm_processor::objfile::fixup::assembly_source;
use asm_processor::objfile::{
    find_bytes_in_section, is_temp_name, process_relocations, process_symbols, section_index, u32_to_usize,
    usize_to_u32, ObjFileError, PrevLocs,
};

fn put(data: &mut Vec<u8>, pos: usize, bytes: &[u8]) {
    data[pos..pos + bytes.len()].copy_from_slice(bytes);
}

fn section_header(fmt: &ElfFormat, words: [u32; 10]) -> Vec<u8> {
    let mut out = Vec::new();
    for w in words {
        out.extend_from_slice(&fmt.pack_u32(w));
    }
    out
}

/// A big-endian relocatable MIPS file with a null section, `.strtab` and `.symtab`.
fn small_elf() -> Vec<u8> {
    let fmt = ElfFormat::new(true);
    let mut data = vec![0u8; 0x400];
    put(&mut data, 0, b"\x7fELF");
    data[4] = 1;
    data[5] = 2;
    data[6] = 1;
    put(&mut data, 16, &fmt.pack_u16(1));
    put(&mut data, 18, &fmt.pack_u16(8));
    put(&mut data, 20, &fmt.pack_u32(1));
    put(&mut data, 32, &fmt.pack_u32(0x100));
    put(&mut data, 46, &fmt.pack_u16(40));
    put(&mut data, 48, &fmt.pack_u16(3));
    put(&mut data, 50, &fmt.pack_u16(1));

    let strtab = b"\0.strtab\0.symtab\0.test\0";
    put(&mut data, 0x200, strtab);
    put(&mut data, 0x100, &section_header(&fmt, [0; 10]));
    put(&mut data, 0x128, &section_header(&fmt, [1, SHT_STRTAB, 0, 0, 0x200, strtab.len() as u32, 0, 0, 1, 0]));
    put(&mut data, 0x150, &section_header(&fmt, [9, SHT_SYMTAB, 0, 0, 0x300, 16, 1, 1, 4, 16]));
    data
}

#[test]
fn test_elf_file_read_write() {
    let data = small_elf();
    let mut elf = ElfFile::new(&data).unwrap();
    assert_eq!(elf.sections.len(), 3);
    assert_eq!(elf.sections[1].name, ".strtab");
    assert_eq!(elf.sections[2].name, ".symtab");
    assert_eq!(elf.symtab, 2);
    assert!(elf.find_section(".symtab").is_some());
    assert!(elf.find_section(".nothing").is_none());

    let idx = elf.add_section(".test2", SHT_PROGBITS, 0, 0, 0, 4, 0, vec![1, 2, 3, 4]).unwrap();
    assert_eq!(idx, 3);
    assert_eq!(elf.sections[3].name, ".test2");
    assert_eq!(elf.find_section(".test2").unwrap().index, 3);
    assert_eq!(elf.sections[1].data, b"\0.strtab\0.symtab\0.test\0.test2\0".to_vec());

    assert!(elf.layout_fits());
    let bytes = elf.write_bytes().unwrap();
    let elf2 = ElfFile::new(&bytes).unwrap();
    assert_eq!(elf2.sections.len(), elf.sections.len());
    assert_eq!(elf2.sections[idx].data, vec![1, 2, 3, 4]);
    assert_eq!(elf2.sections[idx].name, ".test2");
    assert_eq!(elf2.sections[1].data, elf.sections[1].data);
    assert_eq!(elf2.header.e_shnum, 4);
}

#[test]
fn test_elf_rejects_bad_input() {
    assert!(ElfFile::new(b"not an elf file at all").is_err());
    let mut data = small_elf();
    data[19] = 3;
    assert!(ElfFile::new(&data).is_err());
}

#[test]
fn test_section_lookup() {
    let elf = ElfFile::new(&small_elf()).unwrap();
    assert_eq!(section_index(&elf, ".symtab"), Some(2));
    assert_eq!(section_index(&elf, ".text"), None);
}

#[test]
fn test_find_bytes() {
    let data = [1u8, 2, 3, 1, 2, 3];
    assert_eq!(find_bytes_in_section(&data, &[2, 3], 0), Some(1));
    assert_eq!(find_bytes_in_section(&data, &[2, 3], 2), Some(4));
    assert_eq!(find_bytes_in_section(&data, &[3, 2], 0), None);
    assert_eq!(find_bytes_in_section(&data, &[1, 2, 3, 1, 2, 3, 4], 0), None);
}

#[test]
fn test_temp_names_and_conversions() {
    assert!(is_temp_name("_asmpp_rodata1"));
    assert!(!is_temp_name("func"));
    assert_eq!(u32_to_usize(7).unwrap(), 7);
    assert_eq!(usize_to_u32(9).unwrap(), 9);
    if usize::MAX as u64 > u32::MAX as u64 {
        assert!(matches!(usize_to_u32(u32::MAX as usize + 1), Err(ObjFileError::ConversionError(_))));
    }
}

#[test]
fn test_prev_locs() {
    let mut locs = PrevLocs { text: 0, data: 0, rodata: 0, bss: 0 };
    locs.set(".text", 16);
    locs.set(".bss", 8);
    locs.set(".other", 99);
    assert_eq!(locs.get(".text"), 16);
    assert_eq!(locs.get(".bss"), 8);
    assert_eq!(locs.get(".data"), 0);
    assert_eq!(locs.get(".other"), 0);
}

#[test]
fn test_assembly_source() {
    let out = assembly_source(b".set noat\n", &["glabel f".to_string(), "nop".to_string()]);
    assert_eq!(out, b".set noat\nglabel f\nnop\n".to_vec());
    assert_eq!(assembly_source(b"", &[]), Vec::<u8>::new());
}

fn sym(fmt: ElfFormat, name: &str, info: u8) -> Symbol {
    Symbol {
        st_name: 0,
        st_value: 0,
        st_size: 0,
        st_info: info,
        st_other: 0,
        st_shndx: 0,
        name: name.to_string(),
        visibility: 0,
        fmt,
    }
}

#[test]
fn test_process_symbols_moves_gp_disp_last() {
    let mut elf = ElfFile::new(&small_elf()).unwrap();
    let fmt = elf.fmt;
    elf.sections[2].symbols = vec![
        sym(fmt, "", 0),
        sym(fmt, "global_a", 0x10),
        sym(fmt, "local_b", 0),
        sym(fmt, "_asmpp_data1", 0),
        sym(fmt, "_gp_disp", 0x11),
        sym(fmt, "global_c", 0x12),
    ];
    process_symbols(&mut elf);
    let s = &elf.sections[2];
    assert_eq!(s.sh_info, 2);
    assert_eq!(s.data.len(), 5 * 16);
    // "", global_a, local_b, global_c in their order, then _gp_disp; the placeholder is gone
    assert_eq!(s.data[12], 0);
    assert_eq!(s.data[16 + 12], 0x10);
    assert_eq!(s.data[32 + 12], 0);
    assert_eq!(s.data[48 + 12], 0x12);
    assert_eq!(s.data[64 + 12], 0x11);
}

#[test]
fn test_process_relocations_sorts_and_filters() {
    let mut elf = ElfFile::new(&small_elf()).unwrap();
    let fmt = elf.fmt;
    let text = elf.add_section(".text", SHT_PROGBITS, 0, 0, 0, 4, 0, vec![0; 16]).unwrap();
    elf.sections[text].name = ".text".to_string();
    let rel = elf.add_section(".rel.text", SHT_REL, 0, 2, 3, 4, 8, Vec::new()).unwrap();
    elf.sections[rel].relocations = vec![
        Relocation { r_offset: 8, r_info: 0x105, r_addend: None },
        Relocation { r_offset: 4, r_info: 0x205, r_addend: None },
        Relocation { r_offset: 12, r_info: 0x305, r_addend: None },
        Relocation { r_offset: 4, r_info: 0x405, r_addend: None },
    ];
    process_relocations(&mut elf, &HashSet::from([12]), &HashSet::new()).unwrap();
    let data = &elf.sections[rel].data;
    assert_eq!(data.len(), 3 * 8);
    let r0 = Relocation::new(&fmt, &data[0..8], SHT_REL).unwrap();
    let r1 = Relocation::new(&fmt, &data[8..16], SHT_REL).unwrap();
    let r2 = Relocation::new(&fmt, &data[16..24], SHT_REL).unwrap();
    assert_eq!((r0.r_offset, r0.r_info), (4, 0x205));
    assert_eq!((r1.r_offset, r1.r_info), (4, 0x405));
    assert_eq!((r2.r_offset, r2.r_info), (8, 0x105));
}

#[test]
fn test_process_relocations_bad_target() {
    let mut elf = ElfFile::new(&small_elf()).unwrap();
    let rel = elf.add_section(".rel.x", SHT_REL, 0, 2, 1, 4, 8, Vec::new()).unwrap();
    elf.sections[rel].sh_info = 40;
    assert!(matches!(process_relocations(&mut elf, &HashSet::new(), &HashSet::new()), Err(ObjFileError::SectionError(_))));
}

#[test]
fn test_init_symbols() {
    let fmt = ElfFormat::new(true);
    let strtab = asm_processor::elf::ElfSection::from_parts(fmt, 0, SHT_STRTAB, 0, 0, 0, 1, 0, b"\0alpha\0beta\0".to_vec(), 1);
    let a = sym(fmt, "alpha", 0x12);
    let mut a_bytes = a.to_bytes(&fmt).unwrap();
    a_bytes[0..4].copy_from_slice(&fmt.pack_u32(1));
    let mut b_bytes = sym(fmt, "beta", 0).to_bytes(&fmt).unwrap();
    b_bytes[0..4].copy_from_slice(&fmt.pack_u32(7));
    b_bytes[4..8].copy_from_slice(&fmt.pack_u32(0x80));
    let mut data = a_bytes;
    data.extend_from_slice(&b_bytes);
    let mut symtab = asm_processor::elf::ElfSection::from_parts(fmt, 0, SHT_SYMTAB, 0, 1, 1, 4, 16, data, 2);
    let sections = vec![strtab.clone(), strtab];
    symtab.init_symbols(&sections).unwrap();
    assert_eq!(symtab.symbols.len(), 2);
    assert_eq!(symtab.symbols[0].name, "alpha");
    assert_eq!(symtab.symbols[0].bind(), 1);
    assert_eq!(symtab.symbols[0].type_(), 2);
    assert_eq!(symtab.symbols[1].name, "beta");
    assert_eq!(symtab.symbols[1].st_value, 0x80);
}

#[test]
fn test_mdebug_symbols() {

    let mut elf = ElfFile::new(&small_elf()).unwrap();
    let found = process_mdebug_symbols(&mut elf, "local", "a.o").unwrap();
    assert!(found.is_empty());

    let md = elf.add_section(".mdebug", SHT_MIPS_DEBUG, 0, 0, 0, 4, 0, vec![0; 80]).unwrap();
    elf.sections[md].name = ".mdebug".to_string();
    let found = process_mdebug_symbols(&mut elf, "local", "a.o").unwrap();
    assert!(found.is_empty());

    elf.sections[md].data = vec![0; 40];
    assert!(process_mdebug_symbols(&mut elf, "local", "a.o").is_err());
}

#[test]
fn test_error_text() {
    assert_eq!(Error::InvalidInput("x".to_string()).to_string(), "Invalid input: x");
    assert_eq!(Error::SymbolNotFound("s".to_string()).to_string(), "Symbol not found: s");
    let io = Error::Io(std::io::Error::new(std::io::ErrorKind::Other, "disk"));
    assert_eq!(io.to_string(), "I/O error: disk");
    let e = asm_processor::objfile::ObjFileError::from_error(Error::InvalidFormat("f".to_string()));
    assert!(matches!(e, ObjFileError::ElfError(ref s) if s == "Invalid format: f"));
}

#[test]
fn test_elf_file_refuses_out_of_range_data() {
    let data = small_elf();
    assert!(ElfFile::new(&data).is_ok());
    assert!(matches!(ElfFile::new(b"no magic here"), Err(Error::InvalidFormat(_))));
    assert!(matches!(ElfFile::new(&data[..40]), Err(Error::InvalidFormat(_))));
    let mut short = data.clone();
    short.truncate(0x160);
    assert!(matches!(ElfFile::new(&short), Err(Error::InvalidFormat(_))));
    let mut table_far = data.clone();
    table_far[32..36].copy_from_slice(&[0, 0, 0x10, 0]);
    assert!(matches!(ElfFile::new(&table_far), Err(Error::InvalidFormat(_))));
    let mut far = data.clone();
    far[0x128 + 16..0x128 + 20].copy_from_slice(&[0, 0, 0x10, 0]);
    assert!(matches!(ElfFile::new(&far), Err(Error::InvalidFormat(_))));
    let mut bad_name = data.clone();
    bad_name[0x150..0x154].copy_from_slice(&[0, 0, 1, 0]);
    assert!(matches!(ElfFile::new(&bad_name), Err(Error::InvalidSection(_))));
    let mut bad_shstrndx = data.clone();
    bad_shstrndx[50..52].copy_from_slice(&[0, 9]);
    assert!(matches!(ElfFile::new(&bad_shstrndx), Err(Error::InvalidFormat(_))));
    let mut class64 = data.clone();
    class64[4] = 2;
    assert!(matches!(ElfFile::new(&class64), Err(Error::InvalidFormat(_))));
}

#[test]
fn test_position_set() {
    let s = asm_processor::objfile::position_set(&[3, 3, 5]);
    assert_eq!(s.len(), 2);
    assert!(s.contains(&3) && s.contains(&5) && !s.contains(&4));
}
