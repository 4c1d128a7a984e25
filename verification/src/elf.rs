//! ELF64 parser for aarch64 position-independent executables.
//!
//! Works on byte slices, with bounds checking. The little-endian layout of each
//! structure is given by a spec function that reads it at an offset.

use crate::text::{decimal_text, from_utf8_lossy, is_decoded, push_decimal};
use vstd::prelude::*;
use vstd::string::*;

verus! {

// Identification.
pub const ELFMAG: [u8; 4] = [0x7f, 0x45, 0x4c, 0x46];
pub const ELFCLASS64: u8 = 2;
pub const ELFDATA2LSB: u8 = 1;

// Object file types.
pub const ET_DYN: u16 = 3;

// Machine types.
pub const EM_AARCH64: u16 = 183;

// Program header types.
pub const PT_NULL: u32 = 0;
pub const PT_LOAD: u32 = 1;
pub const PT_DYNAMIC: u32 = 2;
pub const PT_INTERP: u32 = 3;
pub const PT_NOTE: u32 = 4;
pub const PT_PHDR: u32 = 6;
pub const PT_GNU_STACK: u32 = 0x6474e551;
pub const PT_GNU_RELRO: u32 = 0x6474e552;

// Program header flags.
pub const PF_X: u32 = 1;
pub const PF_W: u32 = 2;
pub const PF_R: u32 = 4;

// Dynamic section tags.
pub const DT_NULL: i64 = 0;
pub const DT_NEEDED: i64 = 1;
pub const DT_PLTRELSZ: i64 = 2;
pub const DT_PLTGOT: i64 = 3;
pub const DT_STRTAB: i64 = 5;
pub const DT_SYMTAB: i64 = 6;
pub const DT_RELA: i64 = 7;
pub const DT_RELASZ: i64 = 8;
pub const DT_RELAENT: i64 = 9;
pub const DT_STRSZ: i64 = 10;
pub const DT_SYMENT: i64 = 11;
pub const DT_INIT: i64 = 12;
pub const DT_FINI: i64 = 13;
pub const DT_PLTREL: i64 = 20;
pub const DT_JMPREL: i64 = 23;
pub const DT_INIT_ARRAY: i64 = 25;
pub const DT_FINI_ARRAY: i64 = 26;
pub const DT_INIT_ARRAYSZ: i64 = 27;
pub const DT_FINI_ARRAYSZ: i64 = 28;
pub const DT_RELACOUNT: i64 = 0x6ffffff9;
pub const DT_FLAGS_1: i64 = 0x6ffffffb;

// Relocation types.
pub const R_AARCH64_GLOB_DAT: u32 = 0x401;
pub const R_AARCH64_JUMP_SLOT: u32 = 0x402;
pub const R_AARCH64_RELATIVE: u32 = 0x403;

// Auxiliary vector types.
pub const AT_NULL: u64 = 0;
pub const AT_PHDR: u64 = 3;
pub const AT_PHENT: u64 = 4;
pub const AT_PHNUM: u64 = 5;
pub const AT_PAGESZ: u64 = 6;
pub const AT_BASE: u64 = 7;
pub const AT_ENTRY: u64 = 9;
pub const AT_HWCAP: u64 = 16;
pub const AT_RANDOM: u64 = 25;

/// File header.
#[derive(Debug, Clone, Copy)]
pub struct Ehdr {
    pub e_ident: [u8; 16],
    pub e_type: u16,
    pub e_machine: u16,
    pub e_version: u32,
    pub e_entry: u64,
    pub e_phoff: u64,
    pub e_shoff: u64,
    pub e_flags: u32,
    pub e_ehsize: u16,
    pub e_phentsize: u16,
    pub e_phnum: u16,
    pub e_shentsize: u16,
    pub e_shnum: u16,
    pub e_shstrndx: u16,
}

/// Program header.
#[derive(Debug, Clone, Copy, PartialEq, Eq, Structural)]
pub struct Phdr {
    pub p_type: u32,
    pub p_flags: u32,
    pub p_offset: u64,
    pub p_vaddr: u64,
    pub p_paddr: u64,
    pub p_filesz: u64,
    pub p_memsz: u64,
    pub p_align: u64,
}

/// Entry of the dynamic section.
#[derive(Debug, Clone, Copy, PartialEq, Eq, Structural)]
pub struct Dyn {
    pub d_tag: i64,
    pub d_val: u64,
}

/// Relocation with addend.
#[derive(Debug, Clone, Copy, PartialEq, Eq, Structural)]
pub struct Rela {
    pub r_offset: u64,
    pub r_info: u64,
    pub r_addend: i64,
}

/// Symbol.
#[derive(Debug, Clone, Copy, PartialEq, Eq, Structural)]
pub struct Sym {
    pub st_name: u32,
    pub st_info: u8,
    pub st_other: u8,
    pub st_shndx: u16,
    pub st_value: u64,
    pub st_size: u64,
}

/// Size of a file header in a file.
pub const EHDR_SIZE: u64 = 64;

/// Size of a program header in a file.
pub const PHDR_SIZE: u64 = 56;

/// Size of an entry of the dynamic section in a file.
pub const DYN_SIZE: u64 = 16;

/// Size of a relocation in a file.
pub const RELA_SIZE: u64 = 24;

/// Size of a symbol in a file.
pub const SYM_SIZE: u64 = 24;

/// The 16-bit number at offset `o`.
pub open spec fn u16_at(s: Seq<u8>, o: int) -> u16 {
    (s[o] + 0x100 * s[o + 1]) as u16
}

/// The 32-bit number at offset `o`.
pub open spec fn u32_at(s: Seq<u8>, o: int) -> u32 {
    (u16_at(s, o) + 0x1_0000 * u16_at(s, o + 2)) as u32
}

/// The 64-bit number at offset `o`.
pub open spec fn u64_at(s: Seq<u8>, o: int) -> u64 {
    (u32_at(s, o) + 0x1_0000_0000 * u32_at(s, o + 4)) as u64
}

/// `h` is the file header at the start of `s`.
pub open spec fn is_ehdr_of(h: Ehdr, s: Seq<u8>) -> bool {
    &&& h.e_ident@ == s.take(16)
    &&& h.e_type == u16_at(s, 16)
    &&& h.e_machine == u16_at(s, 18)
    &&& h.e_version == u32_at(s, 20)
    &&& h.e_entry == u64_at(s, 24)
    &&& h.e_phoff == u64_at(s, 32)
    &&& h.e_shoff == u64_at(s, 40)
    &&& h.e_flags == u32_at(s, 48)
    &&& h.e_ehsize == u16_at(s, 52)
    &&& h.e_phentsize == u16_at(s, 54)
    &&& h.e_phnum == u16_at(s, 56)
    &&& h.e_shentsize == u16_at(s, 58)
    &&& h.e_shnum == u16_at(s, 60)
    &&& h.e_shstrndx == u16_at(s, 62)
}

/// The program header at offset `o`.
pub open spec fn phdr_at(s: Seq<u8>, o: int) -> Phdr {
    Phdr {
        p_type: u32_at(s, o),
        p_flags: u32_at(s, o + 4),
        p_offset: u64_at(s, o + 8),
        p_vaddr: u64_at(s, o + 16),
        p_paddr: u64_at(s, o + 24),
        p_filesz: u64_at(s, o + 32),
        p_memsz: u64_at(s, o + 40),
        p_align: u64_at(s, o + 48),
    }
}

/// The dynamic entry at offset `o`.
pub open spec fn dyn_at(s: Seq<u8>, o: int) -> Dyn {
    Dyn { d_tag: u64_at(s, o) as i64, d_val: u64_at(s, o + 8) }
}

/// The relocation at offset `o`.
pub open spec fn rela_at(s: Seq<u8>, o: int) -> Rela {
    Rela {
        r_offset: u64_at(s, o),
        r_info: u64_at(s, o + 8),
        r_addend: u64_at(s, o + 16) as i64,
    }
}

/// The symbol at offset `o`.
pub open spec fn sym_at(s: Seq<u8>, o: int) -> Sym {
    Sym {
        st_name: u32_at(s, o),
        st_info: s[o + 4],
        st_other: s[o + 5],
        st_shndx: u16_at(s, o + 6),
        st_value: u64_at(s, o + 8),
        st_size: u64_at(s, o + 16),
    }
}

fn read_u16(data: &[u8], o: usize) -> (n: u16)
    requires
        o + 2 <= data@.len(),
    ensures
        n == u16_at(data@, o as int),
{
    assert(data.len() == data@.len());
    data[o] as u16 + 0x100 * data[o + 1] as u16
}

pub(crate) fn read_u32(data: &[u8], o: usize) -> (n: u32)
    requires
        o + 4 <= data@.len(),
    ensures
        n == u32_at(data@, o as int),
{
    assert(data.len() == data@.len());
    read_u16(data, o) as u32 + 0x1_0000 * read_u16(data, o + 2) as u32
}

/// Reads a 64-bit number.
pub(crate) fn read_u64(data: &[u8], o: usize) -> (n: u64)
    requires
        o + 8 <= data@.len(),
    ensures
        n == u64_at(data@, o as int),
{
    assert(data.len() == data@.len());
    read_u32(data, o) as u64 + 0x1_0000_0000 * read_u32(data, o + 4) as u64
}

fn read_phdr(data: &[u8], o: usize) -> (phdr: Phdr)
    requires
        o + PHDR_SIZE <= data@.len(),
    ensures
        phdr == phdr_at(data@, o as int),
{
    assert(data.len() == data@.len());
    Phdr {
        p_type: read_u32(data, o),
        p_flags: read_u32(data, o + 4),
        p_offset: read_u64(data, o + 8),
        p_vaddr: read_u64(data, o + 16),
        p_paddr: read_u64(data, o + 24),
        p_filesz: read_u64(data, o + 32),
        p_memsz: read_u64(data, o + 40),
        p_align: read_u64(data, o + 48),
    }
}

/// Reads a dynamic entry.
pub(crate) fn read_dyn(data: &[u8], o: usize) -> (entry: Dyn)
    requires
        o + DYN_SIZE <= data@.len(),
    ensures
        entry == dyn_at(data@, o as int),
{
    assert(data.len() == data@.len());
    Dyn { d_tag: read_u64(data, o) as i64, d_val: read_u64(data, o + 8) }
}

/// Reads a relocation.
pub(crate) fn read_rela(data: &[u8], o: usize) -> (rela: Rela)
    requires
        o + RELA_SIZE <= data@.len(),
    ensures
        rela == rela_at(data@, o as int),
{
    assert(data.len() == data@.len());
    Rela {
        r_offset: read_u64(data, o),
        r_info: read_u64(data, o + 8),
        r_addend: read_u64(data, o + 16) as i64,
    }
}

/// Reads a symbol, where it lies inside `data`.
pub fn read_sym(data: &[u8], o: usize) -> (sym: Option<Sym>)
    ensures
        sym == (if o + SYM_SIZE <= data@.len() {
            Some(sym_at(data@, o as int))
        } else {
            None
        }),
{
    if data.len() < 24 || o > data.len() - 24 {
        return None;
    }
    Some(
        Sym {
            st_name: read_u32(data, o),
            st_info: data[o + 4],
            st_other: data[o + 5],
            st_shndx: read_u16(data, o + 6),
            st_value: read_u64(data, o + 8),
            st_size: read_u64(data, o + 16),
        },
    )
}

/// Why `size` bytes cannot be read at `offset` of a file of `len` bytes.
pub open spec fn range_error(len: nat, offset: int, size: int) -> Option<Seq<char>> {
    if offset + size > u64::MAX {
        Some("offset overflow"@)
    } else if offset + size > len {
        Some(
            "read at "@ + decimal_text(offset as nat) + "+"@ + decimal_text(size as nat)
                + " exceeds data len "@ + decimal_text(len),
        )
    } else {
        None
    }
}

/// Checks that `size` bytes can be read at `base + index * step`.
fn check_entry(len: usize, base: u64, index: u64, step: u64, size: u64) -> (result: Result<
    usize,
    String,
>)
    ensures
        match result {
            Ok(o) => o == base + index * step && range_error(len as nat, base + index * step, size as int)
                is None && o + size <= len,
            Err(e) => range_error(len as nat, base + index * step, size as int) == Some(e@),
        },
{
    proof {
        vstd::arithmetic::mul::lemma_mul_nonnegative(index as int, step as int);
    }
    let offset: u64 = match index.checked_mul(step) {
        Some(distance) => match base.checked_add(distance) {
            Some(offset) => offset,
            None => {
                return Err(String::from_str("offset overflow"));
            },
        },
        None => {
            return Err(String::from_str("offset overflow"));
        },
    };
    match offset.checked_add(size) {
        None => Err(String::from_str("offset overflow")),
        Some(end) => if end > len as u64 {
            let mut e = String::from_str("read at ");
            push_decimal(&mut e, offset);
            e.append("+");
            push_decimal(&mut e, size);
            e.append(" exceeds data len ");
            push_decimal(&mut e, len as u64);
            Err(e)
        } else {
            Ok(offset as usize)
        },
    }
}

/// Why `s` does not start with the header of an executable for this machine.
pub open spec fn header_error(s: Seq<u8>) -> Option<Seq<char>> {
    if s.len() < EHDR_SIZE {
        Some("data too small for ELF header"@)
    } else if s.take(4) != ELFMAG@ {
        Some("not an ELF file (bad magic)"@)
    } else if s[4] != ELFCLASS64 {
        Some("not a 64-bit ELF"@)
    } else if s[5] != ELFDATA2LSB {
        Some("not little-endian"@)
    } else if u16_at(s, 18) != EM_AARCH64 {
        Some("not aarch64 (machine="@ + decimal_text(u16_at(s, 18) as nat) + ")"@)
    } else {
        None
    }
}

fn read_ehdr(data: &[u8]) -> (h: Ehdr)
    requires
        data@.len() >= EHDR_SIZE,
    ensures
        is_ehdr_of(h, data@),
{
    let h = Ehdr {
        e_ident: [
            data[0],
            data[1],
            data[2],
            data[3],
            data[4],
            data[5],
            data[6],
            data[7],
            data[8],
            data[9],
            data[10],
            data[11],
            data[12],
            data[13],
            data[14],
            data[15],
        ],
        e_type: read_u16(data, 16),
        e_machine: read_u16(data, 18),
        e_version: read_u32(data, 20),
        e_entry: read_u64(data, 24),
        e_phoff: read_u64(data, 32),
        e_shoff: read_u64(data, 40),
        e_flags: read_u32(data, 48),
        e_ehsize: read_u16(data, 52),
        e_phentsize: read_u16(data, 54),
        e_phnum: read_u16(data, 56),
        e_shentsize: read_u16(data, 58),
        e_shnum: read_u16(data, 60),
        e_shstrndx: read_u16(data, 62),
    };
    assert(h.e_ident@ =~= data@.take(16));
    h
}

/// Parses and validates the file header.
pub fn parse_header(data: &[u8]) -> (result: Result<Ehdr, String>)
    ensures
        match result {
            Ok(h) => header_error(data@) is None && is_ehdr_of(h, data@),
            Err(e) => header_error(data@) == Some(e@),
        },
{
    if data.len() < 64 {
        return Err(String::from_str("data too small for ELF header"));
    }
    let h = read_ehdr(data);
    proof {
        let magic = data@.take(4);
        assert(ELFMAG@ =~= seq![0x7fu8, 0x45u8, 0x4cu8, 0x46u8]);
        if data@[0] == 0x7f && data@[1] == 0x45 && data@[2] == 0x4c && data@[3] == 0x46 {
            assert(magic =~= ELFMAG@);
        } else {
            assert(magic[0] == data@[0] && magic[1] == data@[1] && magic[2] == data@[2] && magic[3]
                == data@[3]);
        }
    }
    if data[0] != 0x7f || data[1] != 0x45 || data[2] != 0x4c || data[3] != 0x46 {
        return Err(String::from_str("not an ELF file (bad magic)"));
    }
    if data[4] != ELFCLASS64 {
        return Err(String::from_str("not a 64-bit ELF"));
    }
    if data[5] != ELFDATA2LSB {
        return Err(String::from_str("not little-endian"));
    }
    if h.e_machine != EM_AARCH64 {
        let mut e = String::from_str("not aarch64 (machine=");
        push_decimal(&mut e, h.e_machine as u64);
        e.append(")");
        return Err(e);
    }
    Ok(h)
}

/// Why the file type `e_type` is not that of a position-independent executable.
pub open spec fn pie_error(e_type: u16) -> Option<Seq<char>> {
    if e_type != ET_DYN {
        Some("not PIE (type="@ + decimal_text(e_type as nat) + ", expected DYN=3)"@)
    } else {
        None
    }
}

/// Checks that the file is a position-independent executable.
pub fn validate_pie(hdr: &Ehdr) -> (result: Result<(), String>)
    ensures
        match result {
            Ok(()) => pie_error(hdr.e_type) is None,
            Err(e) => pie_error(hdr.e_type) == Some(e@),
        },
{
    if hdr.e_type != ET_DYN {
        let mut e = String::from_str("not PIE (type=");
        push_decimal(&mut e, hdr.e_type as u64);
        e.append(", expected DYN=3)");
        return Err(e);
    }
    Ok(())
}

/// Why one of the first `n` entries of a table cannot be read: the reason for
/// the first such entry. Entry `i` has `size` bytes at `base + i * step`.
pub open spec fn entries_error(len: nat, base: int, step: int, size: int, n: nat) -> Option<Seq<char>>
    decreases n,
{
    if n == 0 {
        None
    } else {
        match entries_error(len, base, step, size, (n - 1) as nat) {
            Some(e) => Some(e),
            None => range_error(len, base + (n - 1) * step, size),
        }
    }
}

proof fn lemma_entries_error_stays(len: nat, base: int, step: int, size: int, n: nat, m: nat)
    requires
        n <= m,
        entries_error(len, base, step, size, n) is Some,
    ensures
        entries_error(len, base, step, size, m) == entries_error(len, base, step, size, n),
    decreases m,
{
    if n < m {
        lemma_entries_error_stays(len, base, step, size, n, (m - 1) as nat);
    }
}

/// Reads the program headers.
pub fn program_headers(data: &[u8], hdr: &Ehdr) -> (result: Result<Vec<Phdr>, String>)
    ensures
        match result {
            Ok(phdrs) => {
                &&& headers_error(data@, *hdr) is None
                &&& phdrs@ == headers_of(data@, *hdr)
            },
            Err(e) => headers_error(data@, *hdr) == Some(e@),
        },
{
    let mut phdrs: Vec<Phdr> = Vec::new();
    let mut i: u16 = 0;
    while i < hdr.e_phnum
        invariant
            i <= hdr.e_phnum,
            phdrs@.len() == i,
            entries_error(
                data@.len(),
                hdr.e_phoff as int,
                hdr.e_phentsize as int,
                PHDR_SIZE as int,
                i as nat,
            ) is None,
            forall|k: int|
                0 <= k < i ==> #[trigger] phdrs@[k] == phdr_at(
                    data@,
                    hdr.e_phoff + k * hdr.e_phentsize,
                ),
        decreases hdr.e_phnum - i,
    {
        match check_entry(data.len(), hdr.e_phoff, i as u64, hdr.e_phentsize as u64, PHDR_SIZE) {
            Err(e) => {
                proof {
                    lemma_entries_error_stays(
                        data@.len(),
                        hdr.e_phoff as int,
                        hdr.e_phentsize as int,
                        PHDR_SIZE as int,
                        (i + 1) as nat,
                        hdr.e_phnum as nat,
                    );
                }
                return Err(e);
            },
            Ok(offset) => {
                phdrs.push(read_phdr(data, offset));
            },
        }
        i = i + 1;
    }
    assert(phdrs@ =~= headers_of(data@, *hdr));
    Ok(phdrs)
}

/// Why the program headers cannot be read.
pub open spec fn headers_error(s: Seq<u8>, hdr: Ehdr) -> Option<Seq<char>> {
    entries_error(
        s.len(),
        hdr.e_phoff as int,
        hdr.e_phentsize as int,
        PHDR_SIZE as int,
        hdr.e_phnum as nat,
    )
}

/// The program headers.
pub open spec fn headers_of(s: Seq<u8>, hdr: Ehdr) -> Seq<Phdr> {
    Seq::new(hdr.e_phnum as nat, |i: int| phdr_at(s, hdr.e_phoff + i * hdr.e_phentsize))
}

/// The first program header of type `p_type`.
pub open spec fn first_of(phdrs: Seq<Phdr>, p_type: u32) -> Option<Phdr>
    decreases phdrs.len(),
{
    if phdrs.len() == 0 {
        None
    } else if phdrs[0].p_type == p_type {
        Some(phdrs[0])
    } else {
        first_of(phdrs.drop_first(), p_type)
    }
}

/// Finds the first program header of type `p_type`.
pub fn find_phdr(phdrs: &[Phdr], p_type: u32) -> (phdr: Option<Phdr>)
    ensures
        phdr == first_of(phdrs@, p_type),
{
    let mut i: usize = 0;
    assert(phdrs@.skip(0) =~= phdrs@);
    while i < phdrs.len()
        invariant
            i <= phdrs@.len(),
            first_of(phdrs@, p_type) == first_of(phdrs@.skip(i as int), p_type),
        decreases phdrs.len() - i,
    {
        assert(phdrs@.skip(i as int).drop_first() =~= phdrs@.skip(i + 1));
        if phdrs[i].p_type == p_type {
            return Some(phdrs[i]);
        }
        i = i + 1;
    }
    None
}

/// The bytes of `s` up to the first zero.
pub open spec fn until_nul(s: Seq<u8>) -> Seq<u8>
    decreases s.len(),
{
    if s.len() == 0 || s[0] == 0 {
        Seq::empty()
    } else {
        seq![s[0]] + until_nul(s.drop_first())
    }
}

/// Copies the bytes of `data` from `start` up to the first zero, or up to `end`.
pub(crate) fn read_until_nul(data: &[u8], start: usize, end: usize) -> (bytes: Vec<u8>)
    requires
        start <= end <= data@.len(),
    ensures
        bytes@ == until_nul(data@.subrange(start as int, end as int)),
{
    let mut bytes: Vec<u8> = Vec::new();
    let ghost all = data@.subrange(start as int, end as int);
    let mut i: usize = start;
    while i < end
        invariant
            start <= i <= end <= data@.len(),
            all == data@.subrange(start as int, end as int),
            until_nul(all) == bytes@ + until_nul(data@.subrange(i as int, end as int)),
        decreases end - i,
    {
        let ghost rest = data@.subrange(i as int, end as int);
        let ghost before = bytes@;
        if data[i] == 0 {
            assert(rest[0] == 0);
            assert(before + Seq::<u8>::empty() =~= before);
            return bytes;
        }
        bytes.push(data[i]);
        i = i + 1;
        proof {
            assert(rest.drop_first() =~= data@.subrange(i as int, end as int));
            assert(before + (seq![rest[0]] + until_nul(rest.drop_first())) =~= bytes@ + until_nul(
                rest.drop_first(),
            ));
        }
    }
    assert(bytes@ + until_nul(data@.subrange(end as int, end as int)) =~= bytes@);
    bytes
}

/// Why the interpreter cannot be read.
pub open spec fn interp_error(s: Seq<u8>, phdrs: Seq<Phdr>) -> Option<Seq<char>> {
    match first_of(phdrs, PT_INTERP) {
        Some(phdr) => if phdr.p_offset + phdr.p_filesz > s.len() {
            Some("PT_INTERP extends beyond file"@)
        } else {
            None
        },
        None => None,
    }
}

/// The bytes of the path of the interpreter.
pub open spec fn interp_bytes(s: Seq<u8>, phdrs: Seq<Phdr>) -> Option<Seq<u8>> {
    match first_of(phdrs, PT_INTERP) {
        Some(phdr) => Some(
            until_nul(s.subrange(phdr.p_offset as int, phdr.p_offset + phdr.p_filesz)),
        ),
        None => None,
    }
}

/// Finds the interpreter and returns the bytes of its path, which end before
/// the first zero byte.
pub fn interpreter_bytes(data: &[u8], phdrs: &[Phdr]) -> (result: Result<Option<Vec<u8>>, String>)
    ensures
        match result {
            Ok(Some(bytes)) => interp_error(data@, phdrs@) is None && interp_bytes(data@, phdrs@)
                == Some(bytes@),
            Ok(None) => interp_error(data@, phdrs@) is None && interp_bytes(data@, phdrs@) is None,
            Err(e) => interp_error(data@, phdrs@) == Some(e@),
        },
{
    match find_phdr(phdrs, PT_INTERP) {
        None => Ok(None),
        Some(phdr) => {
            let len: u64 = data.len() as u64;
            if phdr.p_offset > len || phdr.p_filesz > len - phdr.p_offset {
                return Err(String::from_str("PT_INTERP extends beyond file"));
            }
            let start: usize = phdr.p_offset as usize;
            let end: usize = start + phdr.p_filesz as usize;
            Ok(Some(read_until_nul(data, start, end)))
        },
    }
}

/// Finds the interpreter and returns its path.
pub fn interpreter_path(data: &[u8], phdrs: &[Phdr]) -> (result: Result<Option<String>, String>)
    ensures
        match result {
            Ok(Some(path)) => {
                &&& interp_error(data@, phdrs@) is None
                &&& interp_bytes(data@, phdrs@) matches Some(bytes) && is_decoded(path@, bytes)
            },
            Ok(None) => interp_error(data@, phdrs@) is None && interp_bytes(data@, phdrs@) is None,
            Err(e) => interp_error(data@, phdrs@) == Some(e@),
        },
{
    match interpreter_bytes(data, phdrs) {
        Err(e) => Err(e),
        Ok(None) => Ok(None),
        Ok(Some(bytes)) => Ok(Some(from_utf8_lossy(bytes.as_slice()))),
    }
}

/// The LOAD segments, in order.
pub open spec fn loads_of(phdrs: Seq<Phdr>) -> Seq<Phdr>
    decreases phdrs.len(),
{
    if phdrs.len() == 0 {
        Seq::empty()
    } else if phdrs.last().p_type == PT_LOAD {
        loads_of(phdrs.drop_last()).push(phdrs.last())
    } else {
        loads_of(phdrs.drop_last())
    }
}

/// Collects the LOAD segments.
pub fn load_segments(phdrs: &[Phdr]) -> (loads: Vec<&Phdr>)
    ensures
        loads@.unref() == loads_of(phdrs@),
{
    let mut loads: Vec<&Phdr> = Vec::new();
    let mut i: usize = 0;
    while i < phdrs.len()
        invariant
            i <= phdrs@.len(),
            loads@.unref() =~= loads_of(phdrs@.take(i as int)),
        decreases phdrs.len() - i,
    {
        assert(phdrs@.take(i + 1).drop_last() =~= phdrs@.take(i as int));
        if phdrs[i].p_type == PT_LOAD {
            loads.push(&phdrs[i]);
        }
        i = i + 1;
    }
    assert(phdrs@.take(i as int) =~= phdrs@);
    loads
}

/// The dynamic entries from number `i` on, of `n` at `start`, up to the first
/// null entry.
pub open spec fn dyns_from(s: Seq<u8>, start: int, i: nat, n: nat) -> Seq<Dyn>
    decreases n - i,
{
    if i >= n {
        Seq::empty()
    } else if dyn_at(s, start + i * 16).d_tag == DT_NULL {
        Seq::empty()
    } else {
        seq![dyn_at(s, start + i * 16)] + dyns_from(s, start, i + 1, n)
    }
}

/// Why the dynamic section cannot be read.
pub open spec fn dynamic_error(s: Seq<u8>, phdrs: Seq<Phdr>) -> Option<Seq<char>> {
    match first_of(phdrs, PT_DYNAMIC) {
        Some(phdr) => if phdr.p_offset + phdr.p_filesz > s.len() {
            Some("PT_DYNAMIC extends beyond file"@)
        } else {
            None
        },
        None => None,
    }
}

/// The dynamic entries before the first null entry.
pub open spec fn dynamic_of(s: Seq<u8>, phdrs: Seq<Phdr>) -> Seq<Dyn> {
    match first_of(phdrs, PT_DYNAMIC) {
        Some(phdr) => dyns_from(s, phdr.p_offset as int, 0, (phdr.p_filesz / 16) as nat),
        None => Seq::empty(),
    }
}

/// Reads the `n` dynamic entries at `start`, up to the first null entry.
pub(crate) fn read_dyns(data: &[u8], start: usize, n: usize) -> (dyns: Vec<Dyn>)
    requires
        start + n * 16 <= data@.len(),
    ensures
        dyns@ == dyns_from(data@, start as int, 0, n as nat),
{
    let mut dyns: Vec<Dyn> = Vec::new();
    let mut i: usize = 0;
    while i < n
        invariant
            i <= n,
            start + n * 16 <= data@.len(),
            dyns_from(data@, start as int, 0, n as nat) =~= dyns@ + dyns_from(
                data@,
                start as int,
                i as nat,
                n as nat,
            ),
        decreases n - i,
    {
        assert(data.len() == data@.len());
        let entry = read_dyn(data, start + i * 16);
        if entry.d_tag == DT_NULL {
            assert(dyns@ + Seq::<Dyn>::empty() =~= dyns@);
            return dyns;
        }
        dyns.push(entry);
        i = i + 1;
    }
    dyns
}

/// Reads the dynamic section.
pub fn dynamic_entries(data: &[u8], phdrs: &[Phdr]) -> (result: Result<Vec<Dyn>, String>)
    ensures
        match result {
            Ok(dyns) => dynamic_error(data@, phdrs@) is None && dyns@ == dynamic_of(data@, phdrs@),
            Err(e) => dynamic_error(data@, phdrs@) == Some(e@),
        },
{
    match find_phdr(phdrs, PT_DYNAMIC) {
        None => Ok(Vec::new()),
        Some(phdr) => {
            let len: u64 = data.len() as u64;
            if phdr.p_offset > len || phdr.p_filesz > len - phdr.p_offset {
                return Err(String::from_str("PT_DYNAMIC extends beyond file"));
            }
            Ok(read_dyns(data, phdr.p_offset as usize, (phdr.p_filesz / 16) as usize))
        },
    }
}

/// The value of the last entry with `tag`; 0 where there is none.
pub open spec fn last_value(dyns: Seq<Dyn>, tag: i64) -> u64
    decreases dyns.len(),
{
    if dyns.len() == 0 {
        0
    } else if dyns.last().d_tag == tag {
        dyns.last().d_val
    } else {
        last_value(dyns.drop_last(), tag)
    }
}

/// Finds the value of the last entry with `tag`; 0 where there is none.
pub fn dyn_value(dyns: &[Dyn], tag: i64) -> (value: u64)
    ensures
        value == last_value(dyns@, tag),
{
    let mut value: u64 = 0;
    let mut i: usize = 0;
    while i < dyns.len()
        invariant
            i <= dyns@.len(),
            value == last_value(dyns@.take(i as int), tag),
        decreases dyns.len() - i,
    {
        assert(dyns@.take(i + 1).drop_last() =~= dyns@.take(i as int));
        if dyns[i].d_tag == tag {
            value = dyns[i].d_val;
        }
        i = i + 1;
    }
    assert(dyns@.take(i as int) =~= dyns@);
    value
}

/// Why the relocations cannot be read.
pub open spec fn relas_error(s: Seq<u8>, dyns: Seq<Dyn>) -> Option<Seq<char>> {
    entries_error(
        s.len(),
        last_value(dyns, DT_RELA) as int,
        RELA_SIZE as int,
        RELA_SIZE as int,
        (last_value(dyns, DT_RELASZ) / RELA_SIZE) as nat,
    )
}

/// The relocations.
pub open spec fn relas_of(s: Seq<u8>, dyns: Seq<Dyn>) -> Seq<Rela> {
    Seq::new(
        (last_value(dyns, DT_RELASZ) / RELA_SIZE) as nat,
        |i: int| rela_at(s, last_value(dyns, DT_RELA) + i * RELA_SIZE),
    )
}

/// Reads the relocations that the dynamic section names. The address of the
/// table is taken as an offset into the file.
pub fn rela_entries_from_dynamic(data: &[u8], dyns: &[Dyn]) -> (result: Result<Vec<Rela>, String>)
    ensures
        match result {
            Ok(relas) => relas_error(data@, dyns@) is None && relas@ == relas_of(data@, dyns@),
            Err(e) => relas_error(data@, dyns@) == Some(e@),
        },
{
    let start: u64 = dyn_value(dyns, DT_RELA);
    let count: u64 = dyn_value(dyns, DT_RELASZ) / RELA_SIZE;
    let mut relas: Vec<Rela> = Vec::new();
    let mut i: u64 = 0;
    while i < count
        invariant
            i <= count,
            relas@.len() == i,
            entries_error(
                data@.len(),
                start as int,
                RELA_SIZE as int,
                RELA_SIZE as int,
                i as nat,
            ) is None,
            forall|k: int|
                0 <= k < i ==> #[trigger] relas@[k] == rela_at(data@, start + k * RELA_SIZE),
            start == last_value(dyns@, DT_RELA),
            count == last_value(dyns@, DT_RELASZ) / RELA_SIZE,
        decreases count - i,
    {
        match check_entry(data.len(), start, i, RELA_SIZE, RELA_SIZE) {
            Err(e) => {
                proof {
                    lemma_entries_error_stays(
                        data@.len(),
                        start as int,
                        RELA_SIZE as int,
                        RELA_SIZE as int,
                        (i + 1) as nat,
                        count as nat,
                    );
                }
                return Err(e);
            },
            Ok(offset) => {
                relas.push(read_rela(data, offset));
            },
        }
        i = i + 1;
    }
    assert(relas@ =~= relas_of(data@, dyns@));
    Ok(relas)
}

/// The relocation type in an info field: its low half.
pub fn rela_type(info: u64) -> (rtype: u32)
    ensures
        rtype == info % 0x1_0000_0000,
{
    assert((info & 0xffffffff) as u32 == info % 0x1_0000_0000) by (bit_vector);
    (info & 0xffffffff) as u32
}

/// The symbol index in an info field: its high half.
pub fn rela_sym(info: u64) -> (sym: u32)
    ensures
        sym == info / 0x1_0000_0000,
{
    assert((info >> 32) as u32 == info / 0x1_0000_0000) by (bit_vector);
    (info >> 32) as u32
}

/// The lowest address of the segments.
pub open spec fn lowest(loads: Seq<Phdr>) -> int
    decreases loads.len(),
{
    if loads.len() <= 1 {
        loads[0].p_vaddr as int
    } else if loads.last().p_vaddr < lowest(loads.drop_last()) {
        loads.last().p_vaddr as int
    } else {
        lowest(loads.drop_last())
    }
}

/// The highest end address of the segments.
pub open spec fn highest(loads: Seq<Phdr>) -> int
    decreases loads.len(),
{
    if loads.len() <= 1 {
        loads[0].p_vaddr + loads[0].p_memsz
    } else if loads.last().p_vaddr + loads.last().p_memsz > highest(loads.drop_last()) {
        loads.last().p_vaddr + loads.last().p_memsz
    } else {
        highest(loads.drop_last())
    }
}

/// No LOAD segment wraps around the end of the address space.
pub open spec fn loads_fit(phdrs: Seq<Phdr>) -> bool {
    forall|i: int|
        0 <= i < loads_of(phdrs).len() ==> (#[trigger] loads_of(phdrs)[i]).p_vaddr + loads_of(
            phdrs,
        )[i].p_memsz <= u64::MAX
}

/// The lowest address of the LOAD segments and the number of bytes from there to
/// the highest end address; zeros where there is none.
pub fn load_span(phdrs: &[Phdr]) -> (span: (u64, u64))
    requires
        loads_fit(phdrs@),
    ensures
        loads_of(phdrs@).len() == 0 ==> span == (0u64, 0u64),
        loads_of(phdrs@).len() > 0 ==> {
            &&& span.0 == lowest(loads_of(phdrs@))
            &&& span.1 == highest(loads_of(phdrs@)) - lowest(loads_of(phdrs@))
        },
{
    let loads: Vec<&Phdr> = load_segments(phdrs);
    let ghost all = loads_of(phdrs@);
    assert(loads@.len() == all.len());
    if loads.len() == 0 {
        return (0, 0);
    }
    assert(*loads@[0] == all[0]);
    let mut min: u64 = loads[0].p_vaddr;
    let mut max: u64 = loads[0].p_vaddr + loads[0].p_memsz;
    let mut i: usize = 1;
    while i < loads.len()
        invariant
            1 <= i <= loads@.len(),
            loads@.unref() == all,
            all == loads_of(phdrs@),
            loads_fit(phdrs@),
            min == lowest(all.take(i as int)),
            max == highest(all.take(i as int)),
            min <= max,
        decreases loads.len() - i,
    {
        assert(all.take(i + 1).drop_last() =~= all.take(i as int));
        assert(*loads@[i as int] == loads@.unref()[i as int]);
        let vaddr: u64 = loads[i].p_vaddr;
        let end: u64 = loads[i].p_vaddr + loads[i].p_memsz;
        if vaddr < min {
            min = vaddr;
        }
        if end > max {
            max = end;
        }
        i = i + 1;
    }
    assert(all.take(i as int) =~= all);
    (min, max - min)
}

/// An info field is made of its two parts.
pub proof fn law_rela_info(info: u64)
    ensures
        info == (info / 0x1_0000_0000) * 0x1_0000_0000 + info % 0x1_0000_0000,
        info / 0x1_0000_0000 <= u32::MAX,
        info % 0x1_0000_0000 <= u32::MAX,
{
}

/// Every LOAD segment lies inside the span.
pub proof fn law_span_covers(loads: Seq<Phdr>, i: int)
    requires
        0 <= i < loads.len(),
    ensures
        lowest(loads) <= loads[i].p_vaddr,
        loads[i].p_vaddr + loads[i].p_memsz <= highest(loads),
    decreases loads.len(),
{
    if loads.len() > 1 && i < loads.len() - 1 {
        law_span_covers(loads.drop_last(), i);
        assert(loads.drop_last()[i] == loads[i]);
    }
}

/// Numbers are stored with the lowest byte first, without gaps.
pub proof fn law_numbers_little_endian(s: Seq<u8>, o: int)
    ensures
        u16_at(s, o) == s[o] + 0x100 * s[o + 1],
        u32_at(s, o) == s[o] + 0x100 * s[o + 1] + 0x1_0000 * s[o + 2] + 0x100_0000 * s[o + 3],
        u64_at(s, o) == s[o] + 0x100 * s[o + 1] + 0x1_0000 * s[o + 2] + 0x100_0000 * s[o + 3]
            + 0x1_0000_0000 * s[o + 4] + 0x100_0000_0000 * s[o + 5] + 0x1_0000_0000_0000 * s[o + 6]
            + 0x100_0000_0000_0000 * s[o + 7],
{
}

/// The value of a tag is that of the last entry with it, and 0 without one.
pub proof fn law_last_entry_counts(dyns: Seq<Dyn>, tag: i64, k: int)
    ensures
        0 <= k < dyns.len() && dyns[k].d_tag == tag && (forall|j: int|
            k < j < dyns.len() ==> (#[trigger] dyns[j]).d_tag != tag) ==> last_value(dyns, tag)
            == dyns[k].d_val,
        (forall|j: int| 0 <= j < dyns.len() ==> (#[trigger] dyns[j]).d_tag != tag) ==> last_value(
            dyns,
            tag,
        ) == 0,
    decreases dyns.len(),
{
    if dyns.len() > 0 {
        let before = dyns.drop_last();
        assert(dyns.last() == dyns[dyns.len() - 1]);
        assert forall|j: int| 0 <= j < before.len() implies #[trigger] before[j] == dyns[j] by {}
        law_last_entry_counts(before, tag, k);
    }
}

/// The table of relocations is read entry by entry: where the last `DT_RELA` entry
/// names `start` and the last `DT_RELASZ` entry `size` bytes, there are `size / 24`
/// relocations, and number `i` has its three fields from the three little-endian
/// words at byte `start + 24 * i`.
#[verifier::spinoff_prover]
pub proof fn law_relocations_read(s: Seq<u8>, dyns: Seq<Dyn>, a: int, b: int, i: int)
    requires
        0 <= a < dyns.len(),
        dyns[a].d_tag == 7,
        forall|j: int| a < j < dyns.len() ==> (#[trigger] dyns[j]).d_tag != 7,
        0 <= b < dyns.len(),
        dyns[b].d_tag == 8,
        forall|j: int| b < j < dyns.len() ==> (#[trigger] dyns[j]).d_tag != 8,
        0 <= i < dyns[b].d_val / 24,
        relas_error(s, dyns) is None,
    ensures
        ({
            let word = |at: int|
                s[at] + 0x100 * s[at + 1] + 0x1_0000 * s[at + 2] + 0x100_0000 * s[at + 3]
                    + 0x1_0000_0000 * s[at + 4] + 0x100_0000_0000 * s[at + 5]
                    + 0x1_0000_0000_0000 * s[at + 6] + 0x100_0000_0000_0000 * s[at + 7];
            let at = dyns[a].d_val + 24 * i;
            let relas = relas_of(s, dyns);
            &&& relas.len() == dyns[b].d_val / 24
            &&& at + 24 <= s.len()
            &&& relas[i].r_offset == word(at)
            &&& relas[i].r_info == word(at + 8)
            &&& word(at + 16) < 0x8000_0000_0000_0000 ==> relas[i].r_addend == word(at + 16)
            &&& word(at + 16) >= 0x8000_0000_0000_0000 ==> relas[i].r_addend == word(at + 16)
                - 0x1_0000_0000_0000_0000
        }),
{
    law_last_entry_counts(dyns, DT_RELA, a);
    law_last_entry_counts(dyns, DT_RELASZ, b);
    let at = dyns[a].d_val + 24 * i;
    let n = (dyns[b].d_val / 24) as nat;
    law_entries_readable(s.len(), dyns[a].d_val as int, 24, 24, n, i);
    law_numbers_little_endian(s, at);
    law_numbers_little_endian(s, at + 8);
    law_numbers_little_endian(s, at + 16);
    lemma_signed(u64_at(s, at + 16));
}

/// A 64-bit number read as a signed one.
pub(crate) proof fn lemma_signed(n: u64)
    ensures
        n < 0x8000_0000_0000_0000 ==> n as i64 == n,
        n >= 0x8000_0000_0000_0000 ==> n as i64 == n - 0x1_0000_0000_0000_0000,
{
    assert(n < 0x8000_0000_0000_0000 ==> n as i64 == n) by (bit_vector);
    assert(n >= 0x8000_0000_0000_0000 ==> n as i64 == n - 0x1_0000_0000_0000_0000) by (bit_vector);
}

/// Each relocation depends on its own 24 bytes and on no others: two files of the
/// same length that differ only there have the same relocations but for that one,
/// and that one is the same only where the bytes are.
#[verifier::spinoff_prover]
pub proof fn law_relocations_apart(s: Seq<u8>, t: Seq<u8>, dyns: Seq<Dyn>, i: int, j: int)
    requires
        s.len() == t.len(),
        relas_error(s, dyns) is None,
        0 <= i < relas_of(s, dyns).len(),
        0 <= j < relas_of(s, dyns).len(),
        forall|k: int|
            0 <= k < s.len() && !(last_value(dyns, DT_RELA) + 24 * i <= k < last_value(
                dyns,
                DT_RELA,
            ) + 24 * i + 24) ==> #[trigger] s[k] == t[k],
    ensures
        relas_of(t, dyns).len() == relas_of(s, dyns).len(),
        j != i ==> relas_of(t, dyns)[j] == relas_of(s, dyns)[j],
        relas_of(t, dyns)[i] == relas_of(s, dyns)[i] <==> s == t,
{
    let start = last_value(dyns, DT_RELA) as int;
    let n = relas_of(s, dyns).len();
    law_entries_readable(s.len(), start, 24, 24, n, i);
    law_entries_readable(s.len(), start, 24, 24, n, j);
    let at = start + 24 * j;
    if j != i {
        assert forall|k: int| at <= k < at + 24 implies #[trigger] s[k] == t[k] by {}
        assert(relas_of(t, dyns)[j] == relas_of(s, dyns)[j]);
    }
    if relas_of(t, dyns)[i] == relas_of(s, dyns)[i] {
        let here = start + 24 * i;
        lemma_signed(u64_at(s, here + 16));
        lemma_signed(u64_at(t, here + 16));
        lemma_word_bytes(s, t, here);
        lemma_word_bytes(s, t, here + 8);
        lemma_word_bytes(s, t, here + 16);
        assert(s =~= t);
    }
}

#[verifier::spinoff_prover]
proof fn lemma_half_bytes(s: Seq<u8>, t: Seq<u8>, o: int)
    requires
        u32_at(s, o) == u32_at(t, o),
    ensures
        s[o] == t[o],
        s[o + 1] == t[o + 1],
        s[o + 2] == t[o + 2],
        s[o + 3] == t[o + 3],
{
    lemma_two_digits(
        0x1_0000,
        u16_at(s, o) as int,
        u16_at(s, o + 2) as int,
        u16_at(t, o) as int,
        u16_at(t, o + 2) as int,
    );
    lemma_two_digits(0x100, s[o] as int, s[o + 1] as int, t[o] as int, t[o + 1] as int);
    lemma_two_digits(0x100, s[o + 2] as int, s[o + 3] as int, t[o + 2] as int, t[o + 3] as int);
}

/// A number has its two digits in one way only.
proof fn lemma_two_digits(unit: int, a: int, b: int, c: int, d: int)
    by (nonlinear_arith)
    requires
        0 <= a < unit,
        0 <= c < unit,
        a + unit * b == c + unit * d,
    ensures
        a == c,
        b == d,
{
}

/// Equal numbers have equal bytes.
#[verifier::spinoff_prover]
proof fn lemma_word_bytes(s: Seq<u8>, t: Seq<u8>, o: int)
    requires
        u64_at(s, o) == u64_at(t, o),
    ensures
        forall|k: int| o <= k < o + 8 ==> #[trigger] s[k] == t[k],
{
    lemma_two_digits(
        0x1_0000_0000,
        u32_at(s, o) as int,
        u32_at(s, o + 4) as int,
        u32_at(t, o) as int,
        u32_at(t, o + 4) as int,
    );
    lemma_half_bytes(s, t, o);
    lemma_half_bytes(s, t, o + 4);
    assert forall|k: int| o <= k < o + 8 implies #[trigger] s[k] == t[k] by {
        assert(k == o || k == o + 1 || k == o + 2 || k == o + 3 || k == o + 4 || k == o + 5 || k == o
            + 6 || k == o + 7);
    }
}

/// A table can be read exactly when each of its entries lies inside the file.
pub proof fn law_entries_readable(len: nat, base: int, step: int, size: int, n: nat, i: int)
    ensures
        entries_error(len, base, step, size, n) is None && 0 <= i < n ==> base + i * step + size
            <= len && base + i * step + size <= u64::MAX,
        (forall|k: int|
            0 <= k < n ==> base + #[trigger] (k * step) + size <= len && base + k * step + size
                <= u64::MAX) ==> entries_error(len, base, step, size, n) is None,
    decreases n,
{
    if n > 0 {
        law_entries_readable(len, base, step, size, (n - 1) as nat, i);
        if i == n - 1 {
            assert(i * step == (n - 1) * step);
        }
        if forall|k: int|
            0 <= k < n ==> base + #[trigger] (k * step) + size <= len && base + k * step + size
                <= u64::MAX {
            assert(base + (n - 1) * step + size <= len);
        }
    }
}

/// A string ends before its first zero byte, and without one where the bytes end.
pub proof fn law_string_ends_at_nul(s: Seq<u8>, n: int)
    requires
        0 <= n <= s.len(),
        forall|i: int| 0 <= i < n ==> #[trigger] s[i] != 0,
        n == s.len() || s[n] == 0,
    ensures
        until_nul(s) == s.take(n),
    decreases n,
{
    if n > 0 {
        assert(s[0] != 0);
        assert forall|i: int| 0 <= i < n - 1 implies #[trigger] s.drop_first()[i] != 0 by {
            assert(s[i + 1] != 0);
        }
        law_string_ends_at_nul(s.drop_first(), n - 1);
        assert(seq![s[0]] + s.drop_first().take(n - 1) =~= s.take(n));
    } else {
        assert(s.take(n) =~= Seq::empty());
    }
}

/// The program header that is found is the first one of its type, and none is found
/// exactly where there is none.
pub proof fn law_first_header_found(phdrs: Seq<Phdr>, p_type: u32, k: int)
    ensures
        0 <= k < phdrs.len() && phdrs[k].p_type == p_type && (forall|j: int|
            0 <= j < k ==> (#[trigger] phdrs[j]).p_type != p_type) ==> first_of(phdrs, p_type)
            == Some(phdrs[k]),
        (forall|j: int| 0 <= j < phdrs.len() ==> (#[trigger] phdrs[j]).p_type != p_type)
            <==> first_of(phdrs, p_type) is None,
        first_of(phdrs, p_type) matches Some(phdr) ==> phdr.p_type == p_type,
    decreases phdrs.len(),
{
    if phdrs.len() > 0 {
        let rest = phdrs.drop_first();
        assert forall|j: int| 0 <= j < rest.len() implies #[trigger] rest[j] == phdrs[j + 1] by {}
        law_first_header_found(rest, p_type, k - 1);
        if forall|j: int| 0 <= j < phdrs.len() ==> (#[trigger] phdrs[j]).p_type != p_type {
            assert forall|j: int| 0 <= j < rest.len() implies (#[trigger] rest[j]).p_type
                != p_type by {
                assert(phdrs[j + 1].p_type != p_type);
            }
        }
        if first_of(phdrs, p_type) is None {
            assert forall|j: int| 0 <= j < phdrs.len() implies (#[trigger] phdrs[j]).p_type
                != p_type by {
                if j > 0 {
                    assert(rest[j - 1].p_type != p_type);
                }
            }
        }
        if 0 < k < phdrs.len() && phdrs[k].p_type == p_type && (forall|j: int|
            0 <= j < k ==> (#[trigger] phdrs[j]).p_type != p_type) {
            assert(phdrs[0].p_type != p_type);
            assert(rest[k - 1].p_type == p_type);
            assert forall|j: int| 0 <= j < k - 1 implies (#[trigger] rest[j]).p_type != p_type by {
                assert(phdrs[j + 1].p_type != p_type);
            }
        }
    }
}

/// A file is accepted exactly when it is long enough for a header, begins with the
/// four magic bytes, and is of 64 bits, little-endian and for this machine; and it
/// is position-independent exactly when its type says so.
pub proof fn law_header_accepted(s: Seq<u8>, e_type: u16)
    ensures
        header_error(s) is None <==> {
            &&& s.len() >= 64
            &&& s[0] == 0x7f && s[1] == 0x45 && s[2] == 0x4c && s[3] == 0x46
            &&& s[4] == 2
            &&& s[5] == 1
            &&& s[18] + 0x100 * s[19] == 183
        },
        pie_error(e_type) is None <==> e_type == 3,
{
    let magic = s.take(4);
    assert(ELFMAG@ =~= seq![0x7fu8, 0x45u8, 0x4cu8, 0x46u8]);
    if s.len() >= 64 {
        assert(magic[0] == s[0] && magic[1] == s[1] && magic[2] == s[2] && magic[3] == s[3]);
        if s[0] == 0x7f && s[1] == 0x45 && s[2] == 0x4c && s[3] == 0x46 {
            assert(magic =~= ELFMAG@);
        }
    }
}

/// The fields of the file header come from their places in the file.
#[verifier::spinoff_prover]
pub proof fn law_header_fields(h: Ehdr, s: Seq<u8>)
    requires
        s.len() >= 64,
        is_ehdr_of(h, s),
    ensures
        ({
            let word = |at: int|
                s[at] + 0x100 * s[at + 1] + 0x1_0000 * s[at + 2] + 0x100_0000 * s[at + 3]
                    + 0x1_0000_0000 * s[at + 4] + 0x100_0000_0000 * s[at + 5]
                    + 0x1_0000_0000_0000 * s[at + 6] + 0x100_0000_0000_0000 * s[at + 7];
            let half = |at: int|
                s[at] + 0x100 * s[at + 1] + 0x1_0000 * s[at + 2] + 0x100_0000 * s[at + 3];
            let quarter = |at: int| s[at] + 0x100 * s[at + 1];
            &&& forall|i: int| 0 <= i < 16 ==> #[trigger] h.e_ident@[i] == s[i]
            &&& h.e_type == quarter(16)
            &&& h.e_machine == quarter(18)
            &&& h.e_version == half(20)
            &&& h.e_entry == word(24)
            &&& h.e_phoff == word(32)
            &&& h.e_shoff == word(40)
            &&& h.e_flags == half(48)
            &&& h.e_ehsize == quarter(52)
            &&& h.e_phentsize == quarter(54)
            &&& h.e_phnum == quarter(56)
            &&& h.e_shentsize == quarter(58)
            &&& h.e_shnum == quarter(60)
            &&& h.e_shstrndx == quarter(62)
        }),
{
    law_numbers_little_endian(s, 20);
    law_numbers_little_endian(s, 24);
    law_numbers_little_endian(s, 32);
    law_numbers_little_endian(s, 40);
    law_numbers_little_endian(s, 48);
}

/// The program headers are read one by one: there are as many as the file header
/// says, number `i` begins `e_phentsize * i` bytes behind the first, and its fields
/// come from their places there.
#[verifier::spinoff_prover]
pub proof fn law_program_headers_read(s: Seq<u8>, hdr: Ehdr, i: int)
    requires
        0 <= i < hdr.e_phnum,
    ensures
        ({
            let word = |at: int|
                s[at] + 0x100 * s[at + 1] + 0x1_0000 * s[at + 2] + 0x100_0000 * s[at + 3]
                    + 0x1_0000_0000 * s[at + 4] + 0x100_0000_0000 * s[at + 5]
                    + 0x1_0000_0000_0000 * s[at + 6] + 0x100_0000_0000_0000 * s[at + 7];
            let half = |at: int|
                s[at] + 0x100 * s[at + 1] + 0x1_0000 * s[at + 2] + 0x100_0000 * s[at + 3];
            let at = hdr.e_phoff + hdr.e_phentsize * i;
            let phdrs = headers_of(s, hdr);
            &&& phdrs.len() == hdr.e_phnum
            &&& headers_error(s, hdr) is None ==> at + 56 <= s.len()
            &&& phdrs[i].p_type == half(at)
            &&& phdrs[i].p_flags == half(at + 4)
            &&& phdrs[i].p_offset == word(at + 8)
            &&& phdrs[i].p_vaddr == word(at + 16)
            &&& phdrs[i].p_paddr == word(at + 24)
            &&& phdrs[i].p_filesz == word(at + 32)
            &&& phdrs[i].p_memsz == word(at + 40)
            &&& phdrs[i].p_align == word(at + 48)
        }),
{
    let at = hdr.e_phoff + hdr.e_phentsize * i;
    assert(hdr.e_phentsize * i == i * hdr.e_phentsize) by (nonlinear_arith);
    law_entries_readable(
        s.len(),
        hdr.e_phoff as int,
        hdr.e_phentsize as int,
        56,
        hdr.e_phnum as nat,
        i,
    );
    law_numbers_little_endian(s, at);
    law_numbers_little_endian(s, at + 4);
    law_numbers_little_endian(s, at + 8);
    law_numbers_little_endian(s, at + 16);
    law_numbers_little_endian(s, at + 24);
    law_numbers_little_endian(s, at + 32);
    law_numbers_little_endian(s, at + 40);
    law_numbers_little_endian(s, at + 48);
}

/// A symbol has its fields from their places in the table.
pub proof fn law_symbol_read(s: Seq<u8>, o: int)
    ensures
        sym_at(s, o).st_name == s[o] + 0x100 * s[o + 1] + 0x1_0000 * s[o + 2] + 0x100_0000 * s[o
            + 3],
        sym_at(s, o).st_info == s[o + 4],
        sym_at(s, o).st_other == s[o + 5],
        sym_at(s, o).st_shndx == s[o + 6] + 0x100 * s[o + 7],
        sym_at(s, o).st_value == u64_at(s, o + 8),
        sym_at(s, o).st_size == u64_at(s, o + 16),
{
    law_numbers_little_endian(s, o);
}

/// The dynamic section of a file is read from where its program header says it is
/// in the file, up to the first null entry and no further: entry `k` has its tag and
/// its value from the two little-endian words at `p_offset + 16 * k`.
#[verifier::spinoff_prover]
pub proof fn law_dynamic_read(s: Seq<u8>, phdrs: Seq<Phdr>, h: int, k: int)
    requires
        0 <= h < phdrs.len(),
        phdrs[h].p_type == 2,
        forall|j: int| 0 <= j < h ==> (#[trigger] phdrs[j]).p_type != 2,
        0 <= k < phdrs[h].p_filesz / 16,
    ensures
        ({
            let word = |at: int|
                s[at] + 0x100 * s[at + 1] + 0x1_0000 * s[at + 2] + 0x100_0000 * s[at + 3]
                    + 0x1_0000_0000 * s[at + 4] + 0x100_0000_0000 * s[at + 5]
                    + 0x1_0000_0000_0000 * s[at + 6] + 0x100_0000_0000_0000 * s[at + 7];
            let at = phdrs[h].p_offset + 16 * k;
            let dyns = dynamic_of(s, phdrs);
            &&& dyns.len() <= phdrs[h].p_filesz / 16
            &&& k < dyns.len() ==> word(at) != 0 && dyns[k].d_val == word(at + 8)
            &&& k < dyns.len() && word(at) < 0x8000_0000_0000_0000 ==> dyns[k].d_tag == word(at)
            &&& k < dyns.len() && word(at) >= 0x8000_0000_0000_0000 ==> dyns[k].d_tag == word(at)
                - 0x1_0000_0000_0000_0000
            &&& k == dyns.len() ==> word(at) == 0
            &&& dynamic_error(s, phdrs) is None <==> phdrs[h].p_offset + phdrs[h].p_filesz
                <= s.len()
        }),
{
    law_first_header_found(phdrs, PT_DYNAMIC, h);
    let start = phdrs[h].p_offset as int;
    let at = start + 16 * k;
    lemma_dyns_from(s, start, 0, (phdrs[h].p_filesz / 16) as nat, k);
    law_numbers_little_endian(s, at);
    law_numbers_little_endian(s, at + 8);
    lemma_signed(u64_at(s, at));
}

proof fn lemma_dyns_from(s: Seq<u8>, start: int, i: nat, n: nat, k: int)
    requires
        i <= k < n,
    ensures
        ({
            let dyns = dyns_from(s, start, i, n);
            &&& dyns.len() <= n - i
            &&& k - i < dyns.len() ==> dyns[k - i] == dyn_at(s, start + 16 * k) && dyn_at(
                s,
                start + 16 * k,
            ).d_tag != 0
            &&& k - i == dyns.len() ==> dyn_at(s, start + 16 * k).d_tag == 0
        }),
    decreases n - i,
{
    if dyn_at(s, start + i * 16).d_tag != DT_NULL {
        if i < k {
            lemma_dyns_from(s, start, i + 1, n, k);
        } else if i + 1 < n {
            lemma_dyns_from(s, start, i + 1, n, (i + 1) as int);
        } else {
            assert(dyns_from(s, start, i + 1, n) =~= Seq::empty());
        }
    }
}

/// The LOAD segments are the program headers of that type, all of them and in their
/// order.
pub proof fn law_loads_are_the_load_headers(phdrs: Seq<Phdr>)
    ensures
        loads_of(phdrs) == phdrs.filter(|p: Phdr| p.p_type == 1),
    decreases phdrs.len(),
{
    reveal(Seq::filter);
    if phdrs.len() > 0 {
        law_loads_are_the_load_headers(phdrs.drop_last());
    }
    assert(loads_of(phdrs) =~= phdrs.filter(|p: Phdr| p.p_type == 1));
}

/// The span is no larger than it has to be: it begins where some segment begins, and
/// ends where some segment ends.
pub proof fn law_span_is_tight(loads: Seq<Phdr>)
    requires
        loads.len() > 0,
    ensures
        exists|i: int| 0 <= i < loads.len() && lowest(loads) == (#[trigger] loads[i]).p_vaddr,
        exists|i: int|
            0 <= i < loads.len() && highest(loads) == (#[trigger] loads[i]).p_vaddr
                + loads[i].p_memsz,
    decreases loads.len(),
{
    assert(loads[loads.len() - 1] == loads.last());
    if loads.len() > 1 {
        let some = loads.drop_last();
        law_span_is_tight(some);
        let i = choose|i: int| 0 <= i < some.len() && lowest(some) == (#[trigger] some[i]).p_vaddr;
        let j = choose|j: int|
            0 <= j < some.len() && highest(some) == (#[trigger] some[j]).p_vaddr + some[j].p_memsz;
        assert(loads[i] == some[i]);
        assert(loads[j] == some[j]);
    }
}

/// The path of the interpreter is the text of the first header of its type, up to
/// the first zero; there is none exactly where no header is of that type.
pub proof fn law_interpreter_found(s: Seq<u8>, phdrs: Seq<Phdr>, h: int, n: int)
    ensures
        (forall|j: int| 0 <= j < phdrs.len() ==> (#[trigger] phdrs[j]).p_type != 3) <==> interp_bytes(
            s,
            phdrs,
        ) is None,
        0 <= h < phdrs.len() && phdrs[h].p_type == 3 && (forall|j: int|
            0 <= j < h ==> (#[trigger] phdrs[j]).p_type != 3) ==> {
            &&& interp_error(s, phdrs) is None <==> phdrs[h].p_offset + phdrs[h].p_filesz <= s.len()
            &&& interp_error(s, phdrs) is None && 0 <= n <= phdrs[h].p_filesz && (forall|i: int|
                phdrs[h].p_offset <= i < phdrs[h].p_offset + n ==> #[trigger] s[i] != 0) && (n
                == phdrs[h].p_filesz || s[phdrs[h].p_offset + n] == 0) ==> interp_bytes(s, phdrs)
                == Some(s.subrange(phdrs[h].p_offset as int, phdrs[h].p_offset + n))
        },
{
    law_first_header_found(phdrs, PT_INTERP, h);
    if 0 <= h < phdrs.len() && phdrs[h].p_type == 3 && (forall|j: int|
        0 <= j < h ==> (#[trigger] phdrs[j]).p_type != 3) && interp_error(s, phdrs) is None && 0 <= n
        <= phdrs[h].p_filesz && (forall|i: int|
        phdrs[h].p_offset <= i < phdrs[h].p_offset + n ==> #[trigger] s[i] != 0) && (n
        == phdrs[h].p_filesz || s[phdrs[h].p_offset + n] == 0) {
        let start = phdrs[h].p_offset as int;
        let text = s.subrange(start, start + phdrs[h].p_filesz);
        assert forall|i: int| 0 <= i < n implies #[trigger] text[i] != 0 by {
            assert(s[start + i] != 0);
        }
        law_string_ends_at_nul(text, n);
        assert(text.take(n) =~= s.subrange(start, start + n));
    }
}

/// The numbers of the file format.
pub proof fn law_format_numbers()
    ensures
        ET_DYN == 3,
        EM_AARCH64 == 183,
        PT_NULL == 0,
        PT_LOAD == 1,
        PT_DYNAMIC == 2,
        PT_INTERP == 3,
        PT_NOTE == 4,
        PT_PHDR == 6,
        PF_X == 1,
        PF_W == 2,
        PF_R == 4,
        DT_NULL == 0,
        DT_NEEDED == 1,
        DT_PLTRELSZ == 2,
        DT_STRTAB == 5,
        DT_SYMTAB == 6,
        DT_RELA == 7,
        DT_RELASZ == 8,
        DT_RELAENT == 9,
        DT_INIT == 12,
        DT_JMPREL == 23,
        DT_INIT_ARRAY == 25,
        R_AARCH64_GLOB_DAT == 0x401,
        R_AARCH64_JUMP_SLOT == 0x402,
        R_AARCH64_RELATIVE == 0x403,
        EHDR_SIZE == 64,
        PHDR_SIZE == 56,
        DYN_SIZE == 16,
        RELA_SIZE == 24,
        SYM_SIZE == 24,
{
}

} // verus!
