use vproc::elf::{
    dyn_value, dynamic_entries, find_phdr, interpreter_bytes, interpreter_path, load_segments,
    load_span, parse_header, program_headers, read_sym, rela_entries_from_dynamic, rela_sym,
    rela_type, validate_pie, Dyn, Phdr, Rela, DT_RELA, DT_RELASZ, EM_AARCH64, ET_DYN, PT_DYNAMIC,
    PT_INTERP, PT_LOAD, R_AARCH64_RELATIVE,
};

fn put(data: &mut [u8], offset: usize, bytes: &[u8]) {
    data[offset..offset + bytes.len()].copy_from_slice(bytes);
}

fn header(len: usize, phnum: u16) -> Vec<u8> {
    let mut d = vec![0u8; len];
    put(&mut d, 0, &[0x7f, b'E', b'L', b'F', 2, 1, 1]);
    put(&mut d, 16, &3u16.to_le_bytes());
    put(&mut d, 18, &183u16.to_le_bytes());
    put(&mut d, 20, &1u32.to_le_bytes());
    put(&mut d, 24, &0x1234u64.to_le_bytes());
    put(&mut d, 32, &64u64.to_le_bytes());
    put(&mut d, 52, &64u16.to_le_bytes());
    put(&mut d, 54, &56u16.to_le_bytes());
    put(&mut d, 56, &phnum.to_le_bytes());
    d
}

fn phdr(p_type: u32, p_flags: u32, offset: u64, vaddr: u64, filesz: u64, memsz: u64) -> Phdr {
    Phdr {
        p_type,
        p_flags,
        p_offset: offset,
        p_vaddr: vaddr,
        p_paddr: vaddr,
        p_filesz: filesz,
        p_memsz: memsz,
        p_align: 4096,
    }
}

fn put_phdr(data: &mut [u8], index: usize, p: &Phdr) {
    let o = 64 + index * 56;
    put(data, o, &p.p_type.to_le_bytes());
    put(data, o + 4, &p.p_flags.to_le_bytes());
    put(data, o + 8, &p.p_offset.to_le_bytes());
    put(data, o + 16, &p.p_vaddr.to_le_bytes());
    put(data, o + 24, &p.p_paddr.to_le_bytes());
    put(data, o + 32, &p.p_filesz.to_le_bytes());
    put(data, o + 40, &p.p_memsz.to_le_bytes());
    put(data, o + 48, &p.p_align.to_le_bytes());
}

#[test]
fn test_reject_bad_magic() {
    let data = vec![0u8; 128];
    assert!(parse_header(&data).is_err());
}

#[test]
fn header_fields_are_little_endian() {
    let d = header(64, 0);
    let h = parse_header(&d).unwrap();
    assert_eq!(&h.e_ident[0..4], &vproc::elf::ELFMAG);
    assert_eq!(h.e_type, ET_DYN);
    assert_eq!(h.e_machine, EM_AARCH64);
    assert_eq!(h.e_version, 1);
    assert_eq!(h.e_entry, 0x1234);
    assert_eq!(h.e_phoff, 64);
    assert_eq!(h.e_phentsize, 56);
    assert_eq!(h.e_phnum, 0);
}

#[test]
fn header_errors_in_order() {
    assert_eq!(parse_header(&[0u8; 63]).unwrap_err(), "data too small for ELF header");
    assert_eq!(parse_header(&[0u8; 64]).unwrap_err(), "not an ELF file (bad magic)");
    let mut d = header(64, 0);
    d[18] = 62;
    d[19] = 0;
    assert_eq!(parse_header(&d).unwrap_err(), "not aarch64 (machine=62)");
    d[5] = 2;
    assert_eq!(parse_header(&d).unwrap_err(), "not little-endian");
    d[4] = 1;
    assert_eq!(parse_header(&d).unwrap_err(), "not a 64-bit ELF");
    d[3] = b'G';
    assert_eq!(parse_header(&d).unwrap_err(), "not an ELF file (bad magic)");
}

#[test]
fn only_position_independent_programs() {
    let mut d = header(64, 0);
    assert!(validate_pie(&parse_header(&d).unwrap()).is_ok());
    d[16] = 2;
    let e = validate_pie(&parse_header(&d).unwrap()).unwrap_err();
    assert_eq!(e, "not PIE (type=2, expected DYN=3)");
}

#[test]
fn program_headers_are_read_in_order() {
    let mut d = header(64 + 2 * 56, 2);
    let a = phdr(PT_LOAD, 5, 0, 0, 0x100, 0x100);
    let b = phdr(PT_INTERP, 4, 0x80, 0x80, 0x10, 0x10);
    put_phdr(&mut d, 0, &a);
    put_phdr(&mut d, 1, &b);
    let h = parse_header(&d).unwrap();
    let phdrs = program_headers(&d, &h).unwrap();
    assert_eq!(phdrs, vec![a, b]);
    assert_eq!(find_phdr(&phdrs, PT_INTERP), Some(b));
    assert_eq!(find_phdr(&phdrs, PT_DYNAMIC), None);
    let none = program_headers(&header(64, 0), &parse_header(&header(64, 0)).unwrap()).unwrap();
    assert!(none.is_empty());
}

#[test]
fn program_header_beyond_the_file() {
    let d = header(100, 1);
    let h = parse_header(&d).unwrap();
    assert_eq!(program_headers(&d, &h).unwrap_err(), "read at 64+56 exceeds data len 100");
    let mut far = header(64, 1);
    put(&mut far, 32, &u64::MAX.to_le_bytes());
    let h = parse_header(&far).unwrap();
    assert_eq!(program_headers(&far, &h).unwrap_err(), "offset overflow");
}

#[test]
fn interpreter_ends_at_zero_byte() {
    let mut d = vec![0u8; 64];
    put(&mut d, 10, b"/system/bin/linker64\0garbage");
    let p = [phdr(PT_INTERP, 4, 10, 0, 28, 28)];
    assert_eq!(
        interpreter_path(&d, &p).unwrap(),
        Some("/system/bin/linker64".to_string())
    );
    assert_eq!(interpreter_bytes(&d, &p).unwrap().unwrap(), b"/system/bin/linker64".to_vec());
    assert_eq!(interpreter_path(&d, &[]).unwrap(), None);
    let short = [phdr(PT_INTERP, 4, 10, 0, 3, 3)];
    assert_eq!(interpreter_path(&d, &short).unwrap(), Some("/sy".to_string()));
    let beyond = [phdr(PT_INTERP, 4, 60, 0, 5, 5)];
    assert_eq!(interpreter_path(&d, &beyond).unwrap_err(), "PT_INTERP extends beyond file");
    let huge = [phdr(PT_INTERP, 4, u64::MAX, 0, u64::MAX, 5)];
    assert_eq!(interpreter_path(&d, &huge).unwrap_err(), "PT_INTERP extends beyond file");
}

#[test]
fn interpreter_with_invalid_text_gets_replacement_characters() {
    let d = [b'a', 0xff, b'b', 0];
    let p = [phdr(PT_INTERP, 4, 0, 0, 4, 4)];
    assert_eq!(interpreter_path(&d, &p).unwrap(), Some("a\u{fffd}b".to_string()));
    let utf = "/bin/\u{e9}".as_bytes().to_vec();
    let p = [phdr(PT_INTERP, 4, 0, 0, utf.len() as u64, 0)];
    assert_eq!(interpreter_path(&utf, &p).unwrap(), Some("/bin/\u{e9}".to_string()));
}

#[test]
fn load_segments_are_filtered() {
    let a = phdr(PT_LOAD, 5, 0, 0, 1, 1);
    let b = phdr(PT_DYNAMIC, 6, 0, 0, 1, 1);
    let c = phdr(PT_LOAD, 6, 0, 0x2000, 1, 0x100);
    let phdrs = [a, b, c];
    let loads = load_segments(&phdrs);
    assert_eq!(loads, vec![&a, &c]);
}

#[test]
fn span_of_load_segments() {
    assert_eq!(load_span(&[]), (0, 0));
    let phdrs = [
        phdr(PT_LOAD, 5, 0, 0x3000, 1, 0x10),
        phdr(PT_LOAD, 5, 0, 0x1000, 1, 0x1),
        phdr(PT_DYNAMIC, 5, 0, 0, 1, 0xffffff),
        phdr(PT_LOAD, 5, 0, 0x2000, 1, 0x5000),
    ];
    assert_eq!(load_span(&phdrs), (0x1000, 0x6000));
}

#[test]
fn dynamic_section_stops_at_null() {
    let mut d = vec![0u8; 80];
    for (i, (tag, val)) in [(7i64, 0x10u64), (8, 48), (0, 0), (7, 99)].iter().enumerate() {
        put(&mut d, 8 + i * 16, &tag.to_le_bytes());
        put(&mut d, 16 + i * 16, &val.to_le_bytes());
    }
    let p = [phdr(PT_DYNAMIC, 6, 8, 0, 64, 64)];
    let dyns = dynamic_entries(&d, &p).unwrap();
    assert_eq!(dyns, vec![Dyn { d_tag: 7, d_val: 0x10 }, Dyn { d_tag: 8, d_val: 48 }]);
    assert_eq!(dyn_value(&dyns, 8), 48);
    assert_eq!(dyn_value(&dyns, 6), 0);
    assert!(dynamic_entries(&d, &[]).unwrap().is_empty());
    let beyond = [phdr(PT_DYNAMIC, 6, 8, 0, 73, 73)];
    assert_eq!(dynamic_entries(&d, &beyond).unwrap_err(), "PT_DYNAMIC extends beyond file");
}

#[test]
fn negative_tags_are_signed() {
    let mut d = vec![0u8; 16];
    put(&mut d, 0, &(-5i64).to_le_bytes());
    let p = [phdr(PT_DYNAMIC, 6, 0, 0, 16, 16)];
    assert_eq!(dynamic_entries(&d, &p).unwrap()[0].d_tag, -5);
}

#[test]
fn relocations_from_dynamic_section() {
    let mut d = vec![0u8; 100];
    put(&mut d, 20, &0x3000u64.to_le_bytes());
    put(&mut d, 28, &0x403u64.to_le_bytes());
    put(&mut d, 36, &(-8i64).to_le_bytes());
    let dyns = [
        Dyn { d_tag: DT_RELA, d_val: 1 },
        Dyn { d_tag: DT_RELASZ, d_val: 47 },
        Dyn { d_tag: DT_RELA, d_val: 20 },
    ];
    let relas = rela_entries_from_dynamic(&d, &dyns).unwrap();
    assert_eq!(relas, vec![Rela { r_offset: 0x3000, r_info: 0x403, r_addend: -8 }]);
    assert!(rela_entries_from_dynamic(&d, &[]).unwrap().is_empty());
    let beyond = [
        Dyn { d_tag: DT_RELA, d_val: 70 },
        Dyn { d_tag: DT_RELASZ, d_val: 48 },
    ];
    assert_eq!(
        rela_entries_from_dynamic(&d, &beyond).unwrap_err(),
        "read at 94+24 exceeds data len 100"
    );
}

#[test]
fn info_field_parts() {
    let info = 0x0000_0012_0000_0403u64;
    assert_eq!(rela_type(info), R_AARCH64_RELATIVE);
    assert_eq!(rela_sym(info), 0x12);
    assert_eq!(((rela_sym(info) as u64) << 32) | rela_type(info) as u64, info);
}

#[test]
fn symbols_are_read_with_bounds() {
    let mut d = vec![0u8; 30];
    put(&mut d, 6, &77u32.to_le_bytes());
    put(&mut d, 14, &0x55u64.to_le_bytes());
    let sym = read_sym(&d, 6).unwrap();
    assert_eq!(sym.st_name, 77);
    assert_eq!(sym.st_value, 0x55);
    assert!(read_sym(&d, 7).is_none());
    assert!(read_sym(&d[..10], 0).is_none());
}
