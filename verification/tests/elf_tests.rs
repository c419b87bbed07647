use asm_processor::elf::constants::{SHT_MIPS_DEBUG, SHT_PROGBITS, SHT_REL, SHT_RELA, SHT_STRTAB, SHT_SYMTAB};
use asm_processor::elf::{ElfFormat, ElfHeader, ElfSection, Relocation, Section, Symbol};

fn empty_section(fmt: ElfFormat, sh_type: u32, sh_info: u32, index: usize) -> ElfSection {
    ElfSection {
        fmt,
        sh_name: 0,
        sh_type,
        sh_flags: 0,
        sh_addr: 0,
        sh_offset: 0,
        sh_size: 0,
        sh_link: 0,
        sh_info,
        sh_addralign: 0,
        sh_entsize: 0,
        data: Vec::new(),
        index,
        name: String::new(),
        symbols: Vec::new(),
        relocations: Vec::new(),
        relocated_by: Vec::new(),
    }
}

#[test]
fn test_header_parse() {
    let fmt = ElfFormat::new(true);
    let mut data = vec![0; 52];

    data[0] = 0x7F;
    data[1] = b'E';
    data[2] = b'L';
    data[3] = b'F';

    data[16] = 0;
    data[17] = 1;

    data[18] = 0;
    data[19] = 8;

    data[20] = 0;
    data[21] = 0;
    data[22] = 0;
    data[23] = 1;

    data[32] = 0;
    data[33] = 0;
    data[34] = 0;
    data[35] = 1;

    data[50] = 0;
    data[51] = 1;

    let header = ElfHeader::new(&fmt, &data).unwrap();
    assert_eq!(header.e_type, 1);
    assert_eq!(header.e_machine, 8);
    assert_eq!(header.e_shoff, 1);
    assert_eq!(header.e_shstrndx, 1);
}

#[test]
fn test_relocation_parse() {
    let fmt = ElfFormat::new(true);
    let mut data = Vec::new();
    data.extend_from_slice(&fmt.pack_u32(0x12345678));
    data.extend_from_slice(&fmt.pack_u32(0x9ABCDEF0));

    let reloc = Relocation::new(&fmt, &data, 2).unwrap();
    assert_eq!(reloc.r_offset, 0x12345678);
    assert_eq!(reloc.r_info, 0x9ABCDEF0);
    assert_eq!(reloc.r_addend, None);
    assert_eq!(reloc.sym(), 0x9ABCDE);
    assert_eq!(reloc.type_(), 0xF0);
}

#[test]
fn test_relocation_with_addend() {
    let fmt = ElfFormat::new(true);
    let mut data = Vec::new();
    data.extend_from_slice(&fmt.pack_u32(0x12345678));
    data.extend_from_slice(&fmt.pack_u32(0x9ABCDEF0));
    data.extend_from_slice(&fmt.pack_u32(0x11223344));

    let reloc = Relocation::new(&fmt, &data, SHT_RELA).unwrap();
    assert_eq!(reloc.r_offset, 0x12345678);
    assert_eq!(reloc.r_info, 0x9ABCDEF0);
    assert_eq!(reloc.r_addend, Some(0x11223344));
}

#[test]
fn test_relocation_pack() {
    let fmt = ElfFormat::new(true);
    let reloc = Relocation { r_offset: 0x12345678, r_info: 0x9ABCDEF0, r_addend: Some(0x11223344) };

    let packed = reloc.to_bytes(&fmt);
    let unpacked = Relocation::new(&fmt, &packed, SHT_RELA).unwrap();

    assert_eq!(unpacked.r_offset, reloc.r_offset);
    assert_eq!(unpacked.r_info, reloc.r_info);
    assert_eq!(unpacked.r_addend, reloc.r_addend);
}

#[test]
fn test_relocation_too_short() {
    let fmt = ElfFormat::new(false);
    let data = fmt.pack_u32(7);
    assert!(Relocation::new(&fmt, &data, SHT_REL).is_err());
    let mut data8 = fmt.pack_u32(7);
    data8.extend_from_slice(&fmt.pack_u32(0x0105));
    assert!(Relocation::new(&fmt, &data8, SHT_RELA).is_err());
    let reloc = Relocation::new(&fmt, &data8, SHT_REL).unwrap();
    assert_eq!(reloc.r_offset, 7);
    assert_eq!(reloc.sym(), 1);
    assert_eq!(reloc.type_(), 5);
    assert_eq!(reloc.offset(), 7);
}

#[test]
fn test_section_header() {
    let fmt = ElfFormat::new(true);
    let mut data = Vec::new();
    for v in 1..=10u32 {
        data.extend_from_slice(&fmt.pack_u32(v));
    }

    let section = ElfSection::new(fmt, &data).unwrap();

    assert_eq!(section.sh_name, 1);
    assert_eq!(section.sh_type, 2);
    assert_eq!(section.sh_flags, 3);
    assert_eq!(section.sh_addr, 4);
    assert_eq!(section.sh_offset, 5);
    assert_eq!(section.sh_size, 6);
    assert_eq!(section.sh_link, 7);
    assert_eq!(section.sh_info, 8);
    assert_eq!(section.sh_addralign, 9);
    assert_eq!(section.sh_entsize, 10);

    let packed = section.header_to_bin();
    assert_eq!(data, packed);
}

#[test]
fn test_section_header_too_short() {
    let fmt = ElfFormat::new(true);
    assert!(ElfSection::new(fmt, &[0u8; 39]).is_err());
}

#[test]
fn test_section_data() {
    let fmt = ElfFormat::new(true);
    let mut section = ElfSection::new(fmt, &vec![0; 40]).unwrap();
    section.sh_offset = 10;
    section.sh_size = 5;

    let file_data = b"0123456789ABCDEF".to_vec();
    section.init_data(&file_data).unwrap();

    assert_eq!(section.data, b"56789");
}

#[test]
fn test_section_data_out_of_range() {
    let fmt = ElfFormat::new(true);
    let mut section = ElfSection::new(fmt, &vec![0; 40]).unwrap();
    section.data = b"kept".to_vec();
    section.sh_offset = 4;
    section.sh_size = 5;
    assert!(section.init_data(b"0123456789").is_err());
    section.sh_offset = 11;
    section.sh_size = 1;
    assert!(section.init_data(b"0123456789").is_err());
    assert_eq!(section.data, b"kept");
    section.sh_offset = 10;
    section.sh_size = 10;
    section.init_data(b"0123456789").unwrap();
    assert_eq!(section.data, b"0123456789");
}

#[test]
fn test_string_table() {
    let fmt = ElfFormat::new(true);
    let mut section = ElfSection::new(fmt, &vec![0; 40]).unwrap();
    section.sh_type = SHT_STRTAB;

    let string_data = b"test\0string\0".to_vec();
    section.data = string_data;

    assert_eq!(section.lookup_str(0).unwrap(), "test");
    assert_eq!(section.lookup_str(5).unwrap(), "string");
}

#[test]
fn test_string_table_errors() {
    let fmt = ElfFormat::new(true);
    let mut section = ElfSection::new(fmt, &vec![0; 40]).unwrap();
    section.data = b"abc\0".to_vec();
    assert!(section.lookup_str(0).is_err());
    section.sh_type = SHT_STRTAB;
    section.data = b"abc".to_vec();
    assert!(section.lookup_str(0).is_err());
    section.data = vec![0xff, 0xfe, 0];
    assert!(section.lookup_str(0).is_err());
    section.data = b"ab\0".to_vec();
    assert_eq!(section.lookup_str(3).is_err(), true);
    assert!(section.lookup_str(4).is_err());
    assert!(section.lookup_str(usize::MAX).is_err());
    assert_eq!(section.lookup_str(1).unwrap(), "b");
}

#[test]
fn test_from_parts() {
    let fmt = ElfFormat::new(true);
    let data = b"test data".to_vec();
    let section = ElfSection::from_parts(fmt, 1, SHT_PROGBITS, 0, 0, 0, 4, 0, data.clone(), 5);

    assert_eq!(section.sh_name, 1);
    assert_eq!(section.sh_type, SHT_PROGBITS);
    assert_eq!(section.sh_size, data.len() as u32);
    assert_eq!(section.index, 5);
    assert_eq!(section.data, data);
}

#[test]
fn test_add_str() {
    let fmt = ElfFormat::new(true);
    let mut section = ElfSection::from_parts(fmt, 0, SHT_STRTAB, 0, 0, 0, 1, 0, vec![], 1);

    let pos1 = section.add_str("test1").unwrap();
    let pos2 = section.add_str("test2").unwrap();

    assert_eq!(pos1, 0);
    assert_eq!(pos2, 6);
    assert_eq!(section.lookup_str(0).unwrap(), "test1");
    assert_eq!(section.lookup_str(6).unwrap(), "test2");
}

#[test]
fn test_add_str_not_strtab() {
    let fmt = ElfFormat::new(true);
    let mut section = ElfSection::from_parts(fmt, 0, SHT_PROGBITS, 0, 0, 0, 1, 0, vec![], 1);
    assert!(section.add_str("x").is_err());
    assert!(section.data.is_empty());
}

#[test]
fn test_symbol_operations() {
    let fmt = ElfFormat::new(true);
    let mut section = ElfSection::from_parts(
        fmt,
        0,
        SHT_SYMTAB,
        0,
        0,
        0,
        1,
        2, // First 2 symbols are local
        vec![],
        1,
    );

    // Add some test symbols
    let mut sym1 = Symbol::default();
    sym1.st_name = 0;
    sym1.st_value = 100;
    sym1.st_shndx = 1;
    sym1.name = "local1".to_string();

    let mut sym2 = Symbol::default();
    sym2.st_name = 6;
    sym2.st_value = 200;
    sym2.st_shndx = 1;
    sym2.name = "local2".to_string();

    let mut sym3 = Symbol::default();
    sym3.st_name = 12;
    sym3.st_value = 300;
    sym3.st_shndx = 2;
    sym3.name = "global1".to_string();

    section.symbols = vec![sym1.clone(), sym2.clone(), sym3.clone()];

    // Test symbol lookup
    let found = section.find_symbol("local1", &[]).unwrap();
    assert_eq!(found, 100);

    // Test local/global symbol separation
    let locals = section.local_symbols().unwrap();
    let globals = section.global_symbols().unwrap();
    assert_eq!(locals.len(), 2);
    assert_eq!(globals.len(), 1);
    assert_eq!(locals[0].name, "local1");
    assert_eq!(globals[0].name, "global1");

    // Test find_symbol_in_section
    let dummy_section = ElfSection::from_parts(
        fmt,
        0,
        SHT_PROGBITS,
        0,
        0,
        0,
        0,
        0,
        vec![],
        1,
    );
    let value = section.find_symbol_in_section("local1", &dummy_section).unwrap();
    assert_eq!(value, 100);
}

fn symbol(name: &str, value: u32, shndx: u16) -> Symbol {
    let mut s = Symbol::default();
    s.st_value = value;
    s.st_shndx = shndx;
    s.name = name.to_string();
    s
}

#[test]
fn test_symbol_lookup_errors() {
    let fmt = ElfFormat::new(true);
    let mut section = ElfSection::from_parts(fmt, 0, SHT_SYMTAB, 0, 0, 16, 1, 4, vec![], 1);
    section.symbols = vec![symbol("local1", 100, 1), symbol("global1", 300, 2)];

    assert_eq!(section.find_symbol("global1", &[]).unwrap(), 300);
    assert!(section.find_symbol("missing", &[]).is_err());
    assert!(section.local_symbols().is_err());
    assert!(section.global_symbols().is_err());
    section.sh_info = 1;
    assert_eq!(section.local_symbols().unwrap().len(), 1);
    assert_eq!(section.global_symbols().unwrap()[0].name, "global1");

    let text = ElfSection::from_parts(fmt, 0, SHT_PROGBITS, 0, 0, 0, 0, 0, vec![], 1);
    assert!(section.find_symbol_in_section("global1", &text).is_err());

    let not_symtab = ElfSection::from_parts(fmt, 0, SHT_PROGBITS, 0, 0, 0, 0, 0, vec![], 1);
    assert!(not_symtab.find_symbol("local1", &[]).is_err());
    assert!(not_symtab.local_symbols().is_err());
    assert!(not_symtab.global_symbols().is_err());
}

#[test]
fn test_from_parts_field_order() {
    let fmt = ElfFormat::new(false);
    let section = ElfSection::from_parts(fmt, 1, SHT_REL, 2, 3, 8, 4, 5, vec![0; 16], 6);
    assert_eq!(section.sh_flags, 2);
    assert_eq!(section.sh_link, 3);
    assert_eq!(section.sh_entsize, 8);
    assert_eq!(section.sh_addralign, 4);
    assert_eq!(section.sh_info, 5);
    assert_eq!(section.sh_size, 16);
    assert_eq!(section.index, 6);
}

#[test]
fn test_symbol_pack_unpack() {
    let fmt = ElfFormat::new(true);
    let original = Symbol {
        st_name: 1,
        st_value: 2,
        st_size: 3,
        st_info: 0x23,
        st_other: 0x45,
        st_shndx: 0x6789,
        name: String::new(),
        visibility: 0,
        fmt: fmt.clone(),
    };

    let strtab = ElfSection::from_parts(fmt, 0, SHT_STRTAB, 0, 0, 0, 1, 0, vec![0, 0], 1);
    let bytes = original.to_bytes(&fmt).unwrap();
    let symbol = Symbol::new(&fmt, &bytes, &strtab).unwrap();
    assert_eq!(symbol.st_name, original.st_name);
    assert_eq!(symbol.st_value, original.st_value);
    assert_eq!(symbol.st_size, original.st_size);
    assert_eq!(symbol.st_info, original.st_info);
    assert_eq!(symbol.st_other, original.st_other);
    assert_eq!(symbol.st_shndx, original.st_shndx);
}

#[test]
fn test_symbol_roundtrip() {
    let fmt = ElfFormat::new(true);
    let strtab = ElfSection::from_parts(fmt, 0, SHT_STRTAB, 0, 0, 0, 1, 0, b"\0sym\0".to_vec(), 1);
    let written = Symbol {
        st_name: 1,
        st_value: 2,
        st_size: 3,
        st_info: 0x23,
        st_other: 0x45,
        st_shndx: 0x6789,
        name: String::new(),
        visibility: 0,
        fmt,
    };

    let bytes = written.to_bytes(&fmt).unwrap();
    assert_eq!(bytes.len(), 16);
    let parsed = Symbol::new(&fmt, &bytes, &strtab).unwrap();
    assert_eq!(parsed.st_name, written.st_name);
    assert_eq!(parsed.st_value, written.st_value);
    assert_eq!(parsed.st_size, written.st_size);
    assert_eq!(parsed.st_info, written.st_info);
    assert_eq!(parsed.st_other, written.st_other);
    assert_eq!(parsed.st_shndx, written.st_shndx);
    assert_eq!(parsed.name, "sym");
    assert_eq!(parsed.visibility, 1);
    assert!(Symbol::new(&fmt, &bytes[..15], &strtab).is_err());
    let mut extended = bytes.clone();
    extended[14] = 0xff;
    extended[15] = 0xff;
    assert!(Symbol::new(&fmt, &extended, &strtab).is_err());
}

#[test]
fn test_init_symbols_links_and_names() {
    let fmt = ElfFormat::new(true);
    let strtab = ElfSection::from_parts(fmt, 0, SHT_STRTAB, 0, 0, 0, 1, 0, b"\0sym\0".to_vec(), 0);
    let mut entry = vec![0u8; 16];
    entry[3] = 1;
    entry[7] = 9;
    let mut symtab = ElfSection::from_parts(fmt, 0, SHT_SYMTAB, 0, 0, 16, 4, 0, entry.clone(), 1);
    let sections = vec![strtab.clone()];
    symtab.init_symbols(&sections).unwrap();
    assert_eq!(symtab.symbols.len(), 1);
    assert_eq!(symtab.symbols[0].name, "sym");
    assert_eq!(symtab.symbols[0].st_value, 9);

    let mut bad_link = ElfSection::from_parts(fmt, 0, SHT_SYMTAB, 0, 3, 16, 4, 0, entry.clone(), 1);
    assert!(bad_link.init_symbols(&sections).is_err());
    assert!(bad_link.symbols.is_empty());
    let mut ragged = ElfSection::from_parts(fmt, 0, SHT_SYMTAB, 0, 0, 16, 4, 0, vec![0u8; 17], 1);
    assert!(ragged.init_symbols(&sections).is_err());
    let mut far_name = entry.clone();
    far_name[3] = 40;
    let mut bad_name = ElfSection::from_parts(fmt, 0, SHT_SYMTAB, 0, 0, 16, 4, 0, far_name, 1);
    assert!(bad_name.init_symbols(&sections).is_err());
}

#[test]
fn test_late_init() {
    let fmt = ElfFormat { is_big_endian: false };
    let mut sections = vec![empty_section(fmt, SHT_PROGBITS, 0, 0), empty_section(fmt, SHT_REL, 0, 1)];

    let (target, rest) = sections.split_at_mut(1);
    rest[0].late_init(target).unwrap();

    assert!(sections[0].relocated_by.contains(&1));
}

#[test]
fn test_late_init_bad_target() {
    let fmt = ElfFormat { is_big_endian: false };
    let mut rel = empty_section(fmt, SHT_REL, 3, 1);
    let mut others = vec![empty_section(fmt, SHT_PROGBITS, 0, 0)];
    assert!(rel.late_init(&mut others).is_err());
}

#[test]
fn test_mdebug_relocation() {
    let fmt = ElfFormat::new(true);
    let mut section = ElfSection::from_parts(fmt, 0, SHT_MIPS_DEBUG, 0, 0, 0, 1, 0, vec![0; 0x60], 1);

    let mut hdrr_data = vec![];
    hdrr_data.extend_from_slice(&fmt.pack_u16(0x7009));
    hdrr_data.extend_from_slice(&fmt.pack_u16(0));
    for _ in 0..23 {
        hdrr_data.extend_from_slice(&fmt.pack_u32(100));
    }
    section.data = hdrr_data;

    section.sh_offset = 1000;
    section.relocate_mdebug(500).unwrap();

    let new_hdrr = section.fmt.unpack_tuple_u32_25(&section.data[4..]).unwrap();
    assert_eq!(new_hdrr.0, 600);
}

#[test]
fn test_mdebug_relocation_bad_magic() {
    let fmt = ElfFormat::new(true);
    let mut section = ElfSection::from_parts(fmt, 0, SHT_MIPS_DEBUG, 0, 0, 0, 1, 0, vec![0; 0x60], 1);
    assert!(section.relocate_mdebug(0).is_err());
    section.data = vec![0; 4];
    assert!(section.relocate_mdebug(0).is_err());
}

#[test]
fn test_symbol_bind_type() {
    let mut symbol = Symbol {
        st_name: 0,
        st_value: 0,
        st_size: 0,
        st_info: 0x23,
        st_other: 0,
        st_shndx: 0,
        name: String::new(),
        visibility: 0,
        fmt: ElfFormat::new(true),
    };

    assert_eq!(symbol.bind(), 2);
    assert_eq!(symbol.type_(), 3);

    symbol.set_bind(4);
    symbol.set_type(5);
    assert_eq!(symbol.bind(), 4);
    assert_eq!(symbol.type_(), 5);
}

#[test]
fn test_format_endianness() {
    let big = ElfFormat::new(true);
    let little = ElfFormat::new(false);
    assert_eq!(big.pack_u32(0x01020304), vec![1, 2, 3, 4]);
    assert_eq!(little.pack_u32(0x01020304), vec![4, 3, 2, 1]);
    assert_eq!(big.pack_u16(0x0102), vec![1, 2]);
    assert_eq!(little.pack_u16(0x0102), vec![2, 1]);
    assert_eq!(big.unpack_u32(&[1, 2, 3, 4]).unwrap(), 0x01020304);
    assert_eq!(little.unpack_u16(&[1, 2]).unwrap(), 0x0201);
    assert!(big.unpack_u32(&[1, 2, 3]).is_err());
    let words = big.unpack_tuple_u32_25(&[0, 0, 0, 7, 0, 0]).unwrap();
    assert_eq!((words.0, words.1, words.24), (7, 0, 0));
}

#[test]
fn test_header_roundtrip() {
    let fmt = ElfFormat::new(false);
    let mut data = vec![0u8; 52];
    data[0..4].copy_from_slice(b"\x7fELF");
    data[5] = 1;
    data[16] = 1;
    data[18] = 8;
    data[32] = 0x40;
    data[46] = 40;
    data[48] = 5;
    data[50] = 4;
    let header = ElfHeader::new(&fmt, &data).unwrap();
    assert_eq!(header.e_shoff, 0x40);
    assert_eq!(header.e_shnum, 5);
    assert_eq!(header.to_bytes(&fmt), data);
    let mut bad = data.clone();
    bad[18] = 3;
    assert!(ElfHeader::new(&fmt, &bad).is_err());
    assert!(ElfHeader::new(&fmt, &data[..10]).is_err());
    assert!(ElfHeader::new(&fmt, &data[..20]).is_err());
    assert!(ElfHeader::new(&fmt, &data[..51]).is_err());
    let mut class32 = data.clone();
    class32[4] = 1;
    assert!(ElfHeader::new(&fmt, &class32).is_ok());
    let mut class64 = data.clone();
    class64[4] = 2;
    assert!(ElfHeader::new(&fmt, &class64).is_err());
}
