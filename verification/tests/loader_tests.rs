use vproc::elf::{Phdr, Rela, PF_R, PF_W, PF_X, PT_INTERP, PT_LOAD};
use vproc::loader::{
    apply_relative_relocations, build_auxv, load_pie, map_load_segment, page_align_down,
    page_align_up, prot_from_flags, read_hwcap, AddressSpace, LoadedImage, SegmentPlan, FIRST_BASE,
    PAGE_SIZE, PROT_EXEC, PROT_NONE, PROT_READ, PROT_WRITE,
};

fn put(data: &mut [u8], offset: usize, bytes: &[u8]) {
    data[offset..offset + bytes.len()].copy_from_slice(bytes);
}

fn phdr_bytes(p_type: u32, flags: u32, offset: u64, vaddr: u64, filesz: u64, memsz: u64) -> Vec<u8> {
    let mut v = Vec::new();
    v.extend_from_slice(&p_type.to_le_bytes());
    v.extend_from_slice(&flags.to_le_bytes());
    for n in [offset, vaddr, vaddr, filesz, memsz, 4096] {
        v.extend_from_slice(&n.to_le_bytes());
    }
    v
}

fn program(phdrs: &[Vec<u8>], len: usize) -> Vec<u8> {
    let mut d = vec![0u8; len];
    put(&mut d, 0, &[0x7f, b'E', b'L', b'F', 2, 1, 1]);
    put(&mut d, 16, &3u16.to_le_bytes());
    put(&mut d, 18, &183u16.to_le_bytes());
    put(&mut d, 24, &0x150u64.to_le_bytes());
    put(&mut d, 32, &64u64.to_le_bytes());
    put(&mut d, 54, &56u16.to_le_bytes());
    put(&mut d, 56, &(phdrs.len() as u16).to_le_bytes());
    for (i, p) in phdrs.iter().enumerate() {
        put(&mut d, 64 + i * 56, p);
    }
    d
}

#[test]
fn permissions_are_those_of_the_system() {
    assert_eq!(PROT_NONE, libc::PROT_NONE);
    assert_eq!(PROT_READ, libc::PROT_READ);
    assert_eq!(PROT_WRITE, libc::PROT_WRITE);
    assert_eq!(PROT_EXEC, libc::PROT_EXEC);
    assert_eq!(prot_from_flags(PF_R | PF_X), libc::PROT_READ | libc::PROT_EXEC);
    assert_eq!(prot_from_flags(PF_W), libc::PROT_WRITE);
    assert_eq!(prot_from_flags(0), 0);
    assert_eq!(prot_from_flags(8), 0);
}

#[test]
fn rounding_to_pages() {
    assert_eq!(page_align_down(0x1fff), 0x1000);
    assert_eq!(page_align_down(0x2000), 0x2000);
    assert_eq!(page_align_up(0x2001), 0x3000);
    assert_eq!(page_align_up(0x2000), 0x2000);
    assert_eq!(page_align_up(0), 0);
}

#[test]
fn slots_do_not_overlap() {
    let mut space = AddressSpace::new();
    assert_eq!(space.alloc_slot(1), FIRST_BASE);
    assert_eq!(space.alloc_slot(65536), FIRST_BASE + 65536 + 4096);
    assert_eq!(space.alloc_slot(65537), FIRST_BASE + 2 * (65536 + 4096));
    assert_eq!(space.next_base, FIRST_BASE + 2 * (65536 + 4096) + 131072 + 4096);
}

#[test]
fn segment_plan_covers_whole_pages() {
    let data = vec![0u8; 0x400];
    let phdr = Phdr {
        p_type: PT_LOAD,
        p_flags: PF_R | PF_W,
        p_offset: 0x100,
        p_vaddr: 0x1f00,
        p_paddr: 0,
        p_filesz: 0x200,
        p_memsz: 0x300,
        p_align: 4096,
    };
    assert_eq!(
        map_load_segment(&data, 0x10000, &phdr),
        Ok(SegmentPlan {
            map_addr: 0x11000,
            map_size: 0x2000,
            page_offset: 0xf00,
            file_offset: 0x100,
            file_size: 0x200,
            prot: PROT_READ | PROT_WRITE,
        })
    );
    let beyond = Phdr { p_offset: 0x300, ..phdr };
    assert_eq!(
        map_load_segment(&data, 0x10000, &beyond).unwrap_err(),
        "LOAD segment extends beyond file"
    );
    let empty = Phdr { p_offset: 0x9999, p_filesz: 0, ..phdr };
    assert!(map_load_segment(&data, 0x10000, &empty).is_ok());
    let wraps = Phdr { p_vaddr: u64::MAX - 0x10, ..phdr };
    assert_eq!(map_load_segment(&data, 0, &wraps).unwrap_err(), "offset overflow");
}

#[test]
fn relative_relocations_only() {
    let relas = [
        Rela { r_offset: 0x10, r_info: 0x403, r_addend: 0x20 },
        Rela { r_offset: 0x18, r_info: 0x402, r_addend: 0x20 },
        Rela { r_offset: 0x20, r_info: 0x403, r_addend: -1 },
    ];
    assert_eq!(
        apply_relative_relocations(0x1000, &relas),
        Ok(vec![(0x1010, 0x1020), (0x1020, 0xfff)])
    );
    let far = [Rela { r_offset: u64::MAX, r_info: 0x403, r_addend: 0 }];
    assert_eq!(apply_relative_relocations(1, &far).unwrap_err(), "offset overflow");
}

#[test]
fn load_plan_of_a_small_program() {
    let mut d = program(
        &[
            phdr_bytes(PT_LOAD, 5, 0, 0, 0x200, 0x200),
            phdr_bytes(PT_LOAD, 6, 0x100, 0x2100, 0x80, 0x1000),
            phdr_bytes(2, 6, 0x180, 0x180, 48, 48),
            phdr_bytes(PT_INTERP, 4, 0x1f0, 0x1f0, 8, 8),
        ],
        0x260,
    );
    for (i, n) in [7u64, 0x1c0, 8, 24].iter().enumerate() {
        put(&mut d, 0x180 + i * 8, &n.to_le_bytes());
    }
    put(&mut d, 0x1c0, &0x2108u64.to_le_bytes());
    put(&mut d, 0x1c8, &0x403u64.to_le_bytes());
    put(&mut d, 0x1d0, &0x150i64.to_le_bytes());
    put(&mut d, 0x1f0, b"/ld.so\0");
    let mut space = AddressSpace::new();
    let plan = match load_pie(&d, &mut space) {
        Ok(plan) => plan,
        Err(e) => panic!("{}", e),
    };
    assert_eq!(plan.image.base, FIRST_BASE);
    assert_eq!(plan.image.total_size, 0x4000);
    assert_eq!(plan.image.entry, FIRST_BASE + 0x150);
    assert_eq!(plan.image.phdr_addr, FIRST_BASE + 64);
    assert_eq!(plan.image.phnum, 4);
    assert_eq!(plan.image.phentsize, 56);
    assert_eq!(plan.image.interp_path, Some("/ld.so".to_string()));
    assert!(plan.image.is_dynamic());
    assert_eq!(plan.segments.len(), 2);
    assert_eq!(plan.segments[1].map_addr, FIRST_BASE + 0x2000);
    assert_eq!(plan.segments[1].map_size, 0x2000);
    assert_eq!(plan.segments[1].page_offset, 0x100);
    assert_eq!(plan.relocations, vec![(FIRST_BASE + 0x2108, FIRST_BASE + 0x150)]);
    assert_eq!(space.next_base, FIRST_BASE + 65536 + 4096);
}

#[test]
fn load_errors() {
    let mut space = AddressSpace::new();
    let none = program(&[phdr_bytes(PT_INTERP, 4, 0, 0, 1, 1)], 0x100);
    assert_eq!(load_pie(&none, &mut space).err().unwrap(), "no LOAD segments");
    let mut exec = none.clone();
    exec[16] = 2;
    assert_eq!(
        load_pie(&exec, &mut space).err().unwrap(),
        "not PIE (type=2, expected DYN=3)"
    );
    assert_eq!(load_pie(&[], &mut space).err().unwrap(), "data too small for ELF header");
    assert_eq!(space.next_base, FIRST_BASE);
    let beyond = program(&[phdr_bytes(PT_LOAD, 5, 0, 0, 0x1000, 0x1000)], 0x100);
    assert_eq!(
        load_pie(&beyond, &mut space).err().unwrap(),
        "LOAD segment extends beyond file"
    );
    assert!(space.next_base > FIRST_BASE);
    let huge = program(&[phdr_bytes(PT_LOAD, 5, 0, 0, 1, u64::MAX)], 0x100);
    assert_eq!(load_pie(&huge, &mut space).err().unwrap(), "offset overflow");
    let interp = program(
        &[
            phdr_bytes(PT_LOAD, 5, 0, 0, 1, 1),
            phdr_bytes(PT_INTERP, 5, 0xf0, 0, 0x100, 1),
        ],
        0x100,
    );
    assert_eq!(load_pie(&interp, &mut space).err().unwrap(), "PT_INTERP extends beyond file");
}

#[test]
fn auxiliary_vector() {
    let image = LoadedImage {
        base: 0x1000,
        total_size: 0x2000,
        entry: 0x1100,
        phdr_addr: 0x1040,
        phnum: 3,
        phentsize: 56,
        interp_path: None,
    };
    assert!(!image.is_dynamic());
    let auxv = build_auxv(&image, 7, Some(9), 0x77);
    assert_eq!(
        auxv,
        vec![
            [3, 0x1040],
            [4, 56],
            [5, 3],
            [6, PAGE_SIZE],
            [9, 0x1100],
            [7, 7],
            [16, 9],
            [25, 0x77],
            [0, 0],
        ]
    );
    let without = build_auxv(&image, 0, None, 1);
    assert_eq!(without.len(), 8);
    assert_eq!(without[6], [25, 1]);
}

#[test]
fn processor_capabilities() {
    let entry = |kind: u64, value: u64| {
        let mut v = kind.to_le_bytes().to_vec();
        v.extend_from_slice(&value.to_le_bytes());
        v
    };
    let mut d = entry(6, 4096);
    d.extend(entry(16, 0xabc));
    assert_eq!(read_hwcap(&d), Some(0xabc));
    let mut ended = entry(0, 0);
    ended.extend(entry(16, 1));
    assert_eq!(read_hwcap(&ended), None);
    assert_eq!(read_hwcap(&d[..31]), None);
    assert_eq!(read_hwcap(&[]), None);
}
