//! Loader of position-independent executables.
//!
//! Mapping memory is done outside. The loader works out a plan: where each
//! segment goes, which bytes of the file it holds, with which permissions, and
//! which words are relocated to what.

use crate::elf::{
    dynamic_entries, dynamic_error, dynamic_of, header_error, headers_error, headers_of, highest,
    interp_bytes, interp_error, interpreter_path, is_ehdr_of, law_relocations_read, law_span_covers,
    load_segments, load_span, loads_fit,
    loads_of, lowest, parse_header, pie_error, program_headers, read_u64, rela_entries_from_dynamic,
    rela_type, relas_error, relas_of, u64_at, validate_pie, Dyn, Ehdr, Phdr, Rela, AT_BASE, AT_ENTRY,
    AT_HWCAP, AT_NULL, AT_PAGESZ, AT_PHDR, AT_PHENT, AT_PHNUM, AT_RANDOM, PF_R, PF_W, PF_X,
    R_AARCH64_RELATIVE,
};
use crate::text::is_decoded;
use vstd::prelude::*;
use vstd::string::*;

verus! {

/// Size of a page.
pub const PAGE_SIZE: u64 = 4096;

/// Granularity of load addresses.
pub const SLOT_ALIGN: u64 = 65536;

/// Address at which the first program is loaded.
pub const FIRST_BASE: u64 = 0x20_0000_0000;

// Permissions of a mapping.
pub const PROT_NONE: i32 = 0;
pub const PROT_READ: i32 = 1;
pub const PROT_WRITE: i32 = 2;
pub const PROT_EXEC: i32 = 4;

/// A program in memory.
pub struct LoadedImage {
    /// Address at which the program is mapped.
    pub base: u64,
    /// Number of bytes that the segments span.
    pub total_size: u64,
    /// Address of the entry point.
    pub entry: u64,
    /// Address of the program headers.
    pub phdr_addr: u64,
    /// Number of program headers.
    pub phnum: u16,
    /// Size of a program header.
    pub phentsize: u16,
    /// Path of the interpreter of a dynamic program.
    pub interp_path: Option<String>,
}

impl LoadedImage {
    /// Whether the program needs an interpreter.
    pub fn is_dynamic(&self) -> (yes: bool)
        ensures
            yes == (self.interp_path is Some),
    {
        self.interp_path.is_some()
    }
}

/// How one LOAD segment is mapped.
#[derive(Debug, Clone, Copy, PartialEq, Eq, Structural)]
pub struct SegmentPlan {
    /// Address and size of the mapping, in whole pages.
    pub map_addr: u64,
    pub map_size: u64,
    /// Where in the mapping the bytes of the file go.
    pub page_offset: u64,
    /// The bytes of the file.
    pub file_offset: u64,
    pub file_size: u64,
    /// Permissions once the bytes are there.
    pub prot: i32,
}

/// How a program is put into memory.
pub struct LoadPlan {
    pub image: LoadedImage,
    pub segments: Vec<SegmentPlan>,
    /// Words to be written: address and value.
    pub relocations: Vec<(u64, u64)>,
}

/// `addr` rounded down to a page.
pub open spec fn page_down(addr: int) -> int {
    addr / 4096 * 4096
}

/// `addr` rounded up to a page.
pub open spec fn page_up(addr: int) -> int {
    (addr + 4095) / 4096 * 4096
}

/// Rounds down to a page.
pub fn page_align_down(addr: u64) -> (aligned: u64)
    ensures
        aligned == page_down(addr as int),
{
    assert(addr & !0xfffu64 == addr / 4096 * 4096) by (bit_vector);
    addr & !0xfffu64
}

/// Rounds up to a page.
pub fn page_align_up(addr: u64) -> (aligned: u64)
    requires
        addr + PAGE_SIZE - 1 <= u64::MAX,
    ensures
        aligned == page_up(addr as int),
{
    page_align_down(addr + (PAGE_SIZE - 1))
}

/// Rounding to pages: the result is a multiple of the page size, on the right
/// side of the address and less than a page away, and an address that is such a
/// multiple is not changed.
pub proof fn law_page_align(addr: int)
    ensures
        page_down(addr) % 4096 == 0,
        page_up(addr) % 4096 == 0,
        page_down(addr) <= addr < page_down(addr) + 4096,
        addr <= page_up(addr) < addr + 4096,
        addr % 4096 == 0 ==> page_down(addr) == addr && page_up(addr) == addr,
{
}

/// Hands out load addresses, upwards from `FIRST_BASE`.
pub struct AddressSpace {
    pub next_base: u64,
}

/// The size of the slot for a program of `size` bytes: whole units, and a page
/// that separates it from the next.
pub open spec fn slot_size(size: int) -> int {
    (size + 65535) / 65536 * 65536 + 4096
}

impl AddressSpace {
    /// Nothing was handed out yet.
    pub fn new() -> (space: AddressSpace)
        ensures
            space.next_base == FIRST_BASE,
    {
        AddressSpace { next_base: FIRST_BASE }
    }

    /// Hands out a slot for `size` bytes.
    pub fn alloc_slot(&mut self, size: u64) -> (base: u64)
        requires
            old(self).next_base + slot_size(size as int) <= u64::MAX,
        ensures
            base == old(self).next_base,
            final(self).next_base == base + slot_size(size as int),
    {
        let base: u64 = self.next_base;
        let padded: u64 = size + (SLOT_ALIGN - 1);
        assert(padded & !0xffffu64 == padded / 65536 * 65536) by (bit_vector);
        let aligned: u64 = padded & !0xffffu64;
        self.next_base = base + (aligned + PAGE_SIZE);
        base
    }
}

/// Slots do not overlap: the next one starts at least a page behind the end of
/// the program in this one. Bases stay multiples of the page size.
pub proof fn law_slots_disjoint(base: int, size: int)
    requires
        size >= 0,
    ensures
        base + size + 4096 <= base + slot_size(size),
        base % 4096 == 0 ==> (base + slot_size(size)) % 4096 == 0,
{
}

/// Whether bit `flag`, a power of two, is set in `flags`.
pub open spec fn has_flag(flags: u32, flag: u32) -> bool {
    flags & flag != 0
}

/// The permissions that segment flags ask for.
pub open spec fn prot_of(flags: u32) -> i32 {
    ((if has_flag(flags, PF_R) {
        PROT_READ as int
    } else {
        0
    }) + (if has_flag(flags, PF_W) {
        PROT_WRITE as int
    } else {
        0
    }) + (if has_flag(flags, PF_X) {
        PROT_EXEC as int
    } else {
        0
    })) as i32
}

/// Converts segment flags to permissions.
pub fn prot_from_flags(flags: u32) -> (prot: i32)
    ensures
        prot == prot_of(flags),
{
    let mut prot: i32 = 0;
    if flags & PF_R != 0 {
        prot = prot + PROT_READ;
    }
    if flags & PF_W != 0 {
        prot = prot + PROT_WRITE;
    }
    if flags & PF_X != 0 {
        prot = prot + PROT_EXEC;
    }
    prot
}

/// The addresses of a segment of a program at `base` are 64-bit numbers.
pub open spec fn segment_fits(base: u64, phdr: Phdr) -> bool {
    &&& phdr.p_vaddr + phdr.p_memsz + 4095 <= u64::MAX
    &&& base + page_up(phdr.p_vaddr + phdr.p_memsz) <= u64::MAX
}

/// Why a LOAD segment cannot be mapped.
pub open spec fn segment_error(len: nat, base: u64, phdr: Phdr) -> Option<Seq<char>> {
    if !segment_fits(base, phdr) {
        Some("offset overflow"@)
    } else if phdr.p_filesz > 0 && phdr.p_offset + phdr.p_filesz > len {
        Some("LOAD segment extends beyond file"@)
    } else {
        None
    }
}

/// How a LOAD segment is mapped: whole pages, with the bytes of the file at the
/// place of the segment in them; what follows them is zero.
pub open spec fn segment_plan(base: u64, phdr: Phdr) -> SegmentPlan {
    let page_start = page_down(phdr.p_vaddr as int);
    SegmentPlan {
        map_addr: (base + page_start) as u64,
        map_size: (page_up(phdr.p_vaddr + phdr.p_memsz) - page_start) as u64,
        page_offset: (phdr.p_vaddr - page_start) as u64,
        file_offset: phdr.p_offset,
        file_size: phdr.p_filesz,
        prot: prot_of(phdr.p_flags),
    }
}

/// Plans the mapping of one LOAD segment.
pub fn map_load_segment(data: &[u8], base: u64, phdr: &Phdr) -> (result: Result<
    SegmentPlan,
    String,
>)
    ensures
        match result {
            Ok(plan) => segment_error(data@.len(), base, *phdr) is None && plan == segment_plan(
                base,
                *phdr,
            ),
            Err(e) => segment_error(data@.len(), base, *phdr) == Some(e@),
        },
{
    let vaddr: u64 = phdr.p_vaddr;
    if phdr.p_memsz > u64::MAX - vaddr || vaddr + phdr.p_memsz > u64::MAX - 4095 {
        return Err(String::from_str("offset overflow"));
    }
    let page_start: u64 = page_align_down(vaddr);
    let page_end: u64 = page_align_up(vaddr + phdr.p_memsz);
    if page_end > u64::MAX - base {
        return Err(String::from_str("offset overflow"));
    }
    let len: u64 = data.len() as u64;
    if phdr.p_filesz > 0 && (phdr.p_offset > len || phdr.p_filesz > len - phdr.p_offset) {
        return Err(String::from_str("LOAD segment extends beyond file"));
    }
    Ok(
        SegmentPlan {
            map_addr: base + page_start,
            map_size: page_end - page_start,
            page_offset: vaddr - page_start,
            file_offset: phdr.p_offset,
            file_size: phdr.p_filesz,
            prot: prot_from_flags(phdr.p_flags),
        },
    )
}

/// A mapping consists of whole pages and covers the segment: where the base is a
/// multiple of the page size, and the file holds no more bytes than the segment
/// has, these bytes fit.
pub proof fn law_segment_covered(base: u64, phdr: Phdr)
    requires
        segment_fits(base, phdr),
        base % 4096 == 0,
    ensures
        segment_plan(base, phdr).map_addr % 4096 == 0,
        segment_plan(base, phdr).map_size % 4096 == 0,
        segment_plan(base, phdr).map_addr + segment_plan(base, phdr).page_offset == base
            + phdr.p_vaddr,
        segment_plan(base, phdr).page_offset + phdr.p_memsz <= segment_plan(base, phdr).map_size,
        phdr.p_filesz <= phdr.p_memsz ==> segment_plan(base, phdr).page_offset + phdr.p_filesz
            <= segment_plan(base, phdr).map_size,
{
}

/// Why one of the segments cannot be mapped: the reason for the first such one.
pub open spec fn segments_error(len: nat, base: u64, loads: Seq<Phdr>) -> Option<Seq<char>>
    decreases loads.len(),
{
    if loads.len() == 0 {
        None
    } else {
        match segments_error(len, base, loads.drop_last()) {
            Some(e) => Some(e),
            None => segment_error(len, base, loads.last()),
        }
    }
}

proof fn lemma_segments_error_stays(len: nat, base: u64, loads: Seq<Phdr>, n: int)
    requires
        0 <= n <= loads.len(),
        segments_error(len, base, loads.take(n)) is Some,
    ensures
        segments_error(len, base, loads) == segments_error(len, base, loads.take(n)),
    decreases loads.len() - n,
{
    if n < loads.len() {
        assert(loads.take(n + 1).drop_last() =~= loads.take(n));
        lemma_segments_error_stays(len, base, loads, n + 1);
    } else {
        assert(loads.take(n) =~= loads);
    }
}

/// The word that a relocation writes: an address relative to the load address.
pub open spec fn relocation_of(base: u64, rela: Rela) -> (u64, u64) {
    ((base + rela.r_offset) as u64, base.wrapping_add(rela.r_addend as u64))
}

/// Whether a relocation is of the relative type.
pub open spec fn is_relative(rela: Rela) -> bool {
    rela.r_info % 0x1_0000_0000 == R_AARCH64_RELATIVE
}

/// The words that the relative relocations write, in order.
pub open spec fn relocations_of(base: u64, relas: Seq<Rela>) -> Seq<(u64, u64)>
    decreases relas.len(),
{
    if relas.len() == 0 {
        Seq::empty()
    } else if is_relative(relas.last()) {
        relocations_of(base, relas.drop_last()).push(relocation_of(base, relas.last()))
    } else {
        relocations_of(base, relas.drop_last())
    }
}

/// Some relative relocation is to write beyond the end of the address space.
pub open spec fn relocation_overflows(base: u64, relas: Seq<Rela>) -> bool {
    exists|i: int|
        0 <= i < relas.len() && is_relative(#[trigger] relas[i]) && base + relas[i].r_offset
            > u64::MAX
}

/// Works out what the relative relocations write.
pub fn apply_relative_relocations(base: u64, relas: &[Rela]) -> (result: Result<
    Vec<(u64, u64)>,
    String,
>)
    ensures
        match result {
            Ok(words) => !relocation_overflows(base, relas@) && words@ == relocations_of(
                base,
                relas@,
            ),
            Err(e) => relocation_overflows(base, relas@) && e@ == "offset overflow"@,
        },
{
    let mut words: Vec<(u64, u64)> = Vec::new();
    let mut i: usize = 0;
    while i < relas.len()
        invariant
            i <= relas@.len(),
            words@ == relocations_of(base, relas@.take(i as int)),
            forall|k: int|
                0 <= k < i && is_relative(#[trigger] relas@[k]) ==> base + relas@[k].r_offset
                    <= u64::MAX,
        decreases relas.len() - i,
    {
        assert(relas@.take(i + 1).drop_last() =~= relas@.take(i as int));
        let rela = &relas[i];
        if rela_type(rela.r_info) == R_AARCH64_RELATIVE {
            if rela.r_offset > u64::MAX - base {
                assert(is_relative(relas@[i as int]));
                return Err(String::from_str("offset overflow"));
            }
            words.push((base + rela.r_offset, base.wrapping_add(rela.r_addend as u64)));
        }
        i = i + 1;
    }
    assert(relas@.take(i as int) =~= relas@);
    Ok(words)
}

/// Why the program headers `phdrs` cannot be placed before a load address is
/// chosen.
pub open spec fn span_error(phdrs: Seq<Phdr>, next_base: u64) -> Option<Seq<char>> {
    if loads_of(phdrs).len() == 0 {
        Some("no LOAD segments"@)
    } else if !loads_fit(phdrs) || span_of(phdrs) + 4095 > u64::MAX || next_base + slot_size(
        page_up(span_of(phdrs)),
    ) > u64::MAX {
        Some("offset overflow"@)
    } else {
        None
    }
}

/// The number of bytes that the LOAD segments span.
pub open spec fn span_of(phdrs: Seq<Phdr>) -> int {
    highest(loads_of(phdrs)) - lowest(loads_of(phdrs))
}

/// Why a program cannot be put at `base`.
pub open spec fn placing_error(s: Seq<u8>, hdr: Ehdr, base: u64) -> Option<Seq<char>> {
    let phdrs = headers_of(s, hdr);
    let dyns = dynamic_of(s, phdrs);
    match segments_error(s.len(), base, loads_of(phdrs)) {
        Some(e) => Some(e),
        None => match dynamic_error(s, phdrs) {
            Some(e) => Some(e),
            None => match relas_error(s, dyns) {
                Some(e) => Some(e),
                None => if relocation_overflows(base, relas_of(s, dyns)) {
                    Some("offset overflow"@)
                } else {
                    match interp_error(s, phdrs) {
                        Some(e) => Some(e),
                        None => if base + hdr.e_entry > u64::MAX || base + hdr.e_phoff > u64::MAX {
                            Some("offset overflow"@)
                        } else {
                            None
                        },
                    }
                },
            },
        },
    }
}

/// `image` is the program with header `hdr` in `s`, put at `base`.
pub open spec fn is_image(image: LoadedImage, s: Seq<u8>, hdr: Ehdr, base: u64) -> bool {
    let phdrs = headers_of(s, hdr);
    &&& image.base == base
    &&& image.total_size == page_up(span_of(phdrs))
    &&& image.entry == base + hdr.e_entry
    &&& image.phdr_addr == base + hdr.e_phoff
    &&& image.phnum == hdr.e_phnum
    &&& image.phentsize == hdr.e_phentsize
    &&& match (image.interp_path, interp_bytes(s, phdrs)) {
        (Some(path), Some(bytes)) => is_decoded(path@, bytes),
        (None, None) => true,
        _ => false,
    }
}

/// Why no load address is chosen for the program in `s`.
pub open spec fn choosing_error(s: Seq<u8>, hdr: Ehdr, next_base: u64) -> Option<Seq<char>> {
    match pie_error(hdr.e_type) {
        Some(e) => Some(e),
        None => match headers_error(s, hdr) {
            Some(e) => Some(e),
            None => span_error(headers_of(s, hdr), next_base),
        },
    }
}

/// Plans how the program in `data` is put into memory. The load address is taken
/// from `space` once the segments are known, also where a later step fails.
pub fn load_pie(data: &[u8], space: &mut AddressSpace) -> (result: Result<LoadPlan, String>)
    ensures
        match header_error(data@) {
            Some(reason) => {
                &&& result matches Err(e) && e@ == reason
                &&& *final(space) == *old(space)
            },
            None => exists|hdr: Ehdr| #[trigger]
                is_ehdr_of(hdr, data@) && planned(data@, hdr, *old(space), *final(space), result),
        },
{
    let hdr: Ehdr = match parse_header(data) {
        Ok(hdr) => hdr,
        Err(e) => {
            return Err(e);
        },
    };
    let result = plan_pie(data, &hdr, space);
    assert(is_ehdr_of(hdr, data@));
    result
}

/// What planning the program with header `hdr` in `s` leads to.
pub open spec fn planned(
    s: Seq<u8>,
    hdr: Ehdr,
    before: AddressSpace,
    after: AddressSpace,
    result: Result<LoadPlan, String>,
) -> bool {
    let phdrs = headers_of(s, hdr);
    let base = before.next_base;
    match choosing_error(s, hdr, base) {
        Some(reason) => {
            &&& result matches Err(e) && e@ == reason
            &&& after == before
        },
        None => {
            &&& after.next_base == base + slot_size(page_up(span_of(phdrs)))
            &&& match result {
                Err(e) => placing_error(s, hdr, base) == Some(e@),
                Ok(plan) => {
                    &&& placing_error(s, hdr, base) is None
                    &&& is_image(plan.image, s, hdr, base)
                    &&& plan.segments@ == loads_of(phdrs).map_values(
                        |phdr: Phdr| segment_plan(base, phdr),
                    )
                    &&& plan.relocations@ == relocations_of(base, relas_of(s, dynamic_of(s, phdrs)))
                },
            }
        },
    }
}

/// Whether no LOAD segment wraps around the end of the address space.
fn check_loads_fit(loads: &Vec<&Phdr>) -> (fit: bool)
    ensures
        fit == (forall|i: int|
            0 <= i < loads@.len() ==> (#[trigger] loads@[i]).p_vaddr + loads@[i].p_memsz
                <= u64::MAX),
{
    let mut i: usize = 0;
    while i < loads.len()
        invariant
            i <= loads@.len(),
            forall|k: int|
                0 <= k < i ==> (#[trigger] loads@[k]).p_vaddr + loads@[k].p_memsz <= u64::MAX,
        decreases loads.len() - i,
    {
        if loads[i].p_memsz > u64::MAX - loads[i].p_vaddr {
            return false;
        }
        i = i + 1;
    }
    true
}

/// Plans the mappings of all segments.
fn map_segments(data: &[u8], base: u64, loads: &Vec<&Phdr>) -> (result: Result<
    Vec<SegmentPlan>,
    String,
>)
    ensures
        match result {
            Ok(plans) => {
                &&& segments_error(data@.len(), base, loads@.unref()) is None
                &&& plans@ == loads@.unref().map_values(|phdr: Phdr| segment_plan(base, phdr))
            },
            Err(e) => segments_error(data@.len(), base, loads@.unref()) == Some(e@),
        },
{
    let mut plans: Vec<SegmentPlan> = Vec::new();
    let ghost all = loads@.unref();
    let mut i: usize = 0;
    while i < loads.len()
        invariant
            i <= loads@.len(),
            all == loads@.unref(),
            segments_error(data@.len(), base, all.take(i as int)) is None,
            plans@.len() == i,
            forall|k: int| 0 <= k < i ==> #[trigger] plans@[k] == segment_plan(base, all[k]),
        decreases loads.len() - i,
    {
        assert(all.take(i + 1).drop_last() =~= all.take(i as int));
        match map_load_segment(data, base, loads[i]) {
            Ok(plan) => {
                plans.push(plan);
            },
            Err(e) => {
                proof {
                    lemma_segments_error_stays(data@.len(), base, all, i + 1);
                }
                return Err(e);
            },
        }
        i = i + 1;
    }
    assert(all.take(i as int) =~= all);
    assert(plans@ =~= all.map_values(|phdr: Phdr| segment_plan(base, phdr)));
    Ok(plans)
}

/// Plans how the program with header `hdr` is put into memory.
#[verifier::spinoff_prover]
pub fn plan_pie(data: &[u8], hdr: &Ehdr, space: &mut AddressSpace) -> (result: Result<
    LoadPlan,
    String,
>)
    ensures
        planned(data@, *hdr, *old(space), *final(space), result),
{
    if let Err(e) = validate_pie(hdr) {
        return Err(e);
    }
    let phdrs: Vec<Phdr> = match program_headers(data, hdr) {
        Ok(phdrs) => phdrs,
        Err(e) => {
            return Err(e);
        },
    };
    let loads: Vec<&Phdr> = load_segments(phdrs.as_slice());
    assert(loads@.len() == loads@.unref().len());
    if loads.len() == 0 {
        return Err(String::from_str("no LOAD segments"));
    }
    let fit = check_loads_fit(&loads);
    proof {
        assert forall|i: int| 0 <= i < loads@.len() implies *(#[trigger] loads@[i]) == loads_of(
            phdrs@,
        )[i] by {
            assert(loads@.unref()[i] == *loads@[i]);
        }
        if !fit {
            let i = choose|i: int|
                0 <= i < loads@.len() && !((#[trigger] loads@[i]).p_vaddr + loads@[i].p_memsz
                    <= u64::MAX);
            assert(loads_of(phdrs@)[i] == *loads@[i]);
            assert(!loads_fit(phdrs@));
        }
    }
    if !fit {
        return Err(String::from_str("offset overflow"));
    }
    let (_, span) = load_span(phdrs.as_slice());
    if span > u64::MAX - 4095 {
        return Err(String::from_str("offset overflow"));
    }
    let total: u64 = page_align_up(span);
    if total > u64::MAX - 65535 || space.next_base > u64::MAX - ((total + 65535) / 65536 * 65536)
        || space.next_base + (total + 65535) / 65536 * 65536 > u64::MAX - 4096 {
        return Err(String::from_str("offset overflow"));
    }
    let base: u64 = space.alloc_slot(total);
    let segments: Vec<SegmentPlan> = match map_segments(data, base, &loads) {
        Ok(segments) => segments,
        Err(e) => {
            return Err(e);
        },
    };
    let dyns: Vec<Dyn> = match dynamic_entries(data, phdrs.as_slice()) {
        Ok(dyns) => dyns,
        Err(e) => {
            return Err(e);
        },
    };
    let relas: Vec<Rela> = match rela_entries_from_dynamic(data, dyns.as_slice()) {
        Ok(relas) => relas,
        Err(e) => {
            return Err(e);
        },
    };
    let relocations: Vec<(u64, u64)> = match apply_relative_relocations(base, relas.as_slice()) {
        Ok(relocations) => relocations,
        Err(e) => {
            return Err(e);
        },
    };
    let interp_path: Option<String> = match interpreter_path(data, phdrs.as_slice()) {
        Ok(path) => path,
        Err(e) => {
            return Err(e);
        },
    };
    if hdr.e_entry > u64::MAX - base || hdr.e_phoff > u64::MAX - base {
        return Err(String::from_str("offset overflow"));
    }
    let image = LoadedImage {
        base,
        total_size: total,
        entry: base + hdr.e_entry,
        phdr_addr: base + hdr.e_phoff,
        phnum: hdr.e_phnum,
        phentsize: hdr.e_phentsize,
        interp_path,
    };
    Ok(LoadPlan { image, segments, relocations })
}

/// The auxiliary vector of a program.
pub open spec fn auxv_of(
    image: LoadedImage,
    interp_base: u64,
    hwcap: Option<u64>,
    random: u64,
) -> Seq<[u64; 2]> {
    seq![
        [AT_PHDR, image.phdr_addr],
        [AT_PHENT, image.phentsize as u64],
        [AT_PHNUM, image.phnum as u64],
        [AT_PAGESZ, PAGE_SIZE],
        [AT_ENTRY, image.entry],
        [AT_BASE, interp_base],
    ] + (match hwcap {
        Some(value) => seq![[AT_HWCAP, value]],
        None => Seq::empty(),
    }) + seq![[AT_RANDOM, random], [AT_NULL, 0]]
}

/// Builds the auxiliary vector of a program. `hwcap` is what the kernel reports
/// of the processor, `random` the address of 16 random bytes.
pub fn build_auxv(image: &LoadedImage, interp_base: u64, hwcap: Option<u64>, random: u64) -> (auxv:
    Vec<[u64; 2]>)
    ensures
        auxv@ == auxv_of(*image, interp_base, hwcap, random),
{
    let mut auxv: Vec<[u64; 2]> = Vec::new();
    auxv.push([AT_PHDR, image.phdr_addr]);
    auxv.push([AT_PHENT, image.phentsize as u64]);
    auxv.push([AT_PHNUM, image.phnum as u64]);
    auxv.push([AT_PAGESZ, PAGE_SIZE]);
    auxv.push([AT_ENTRY, image.entry]);
    auxv.push([AT_BASE, interp_base]);
    if let Some(value) = hwcap {
        auxv.push([AT_HWCAP, value]);
    }
    auxv.push([AT_RANDOM, random]);
    auxv.push([AT_NULL, 0]);
    assert(auxv@ =~= auxv_of(*image, interp_base, hwcap, random));
    auxv
}

/// The auxiliary vector ends with its only null entry.
pub proof fn law_auxv_terminated(
    image: LoadedImage,
    interp_base: u64,
    hwcap: Option<u64>,
    random: u64,
    i: int,
)
    requires
        0 <= i < auxv_of(image, interp_base, hwcap, random).len(),
    ensures
        (auxv_of(image, interp_base, hwcap, random)[i][0] == AT_NULL) == (i == auxv_of(
            image,
            interp_base,
            hwcap,
            random,
        ).len() - 1),
{
}

/// The processor capabilities in an auxiliary vector, from offset `i` on.
pub open spec fn hwcap_from(s: Seq<u8>, i: int) -> Option<u64>
    decreases s.len() - i,
{
    if i + 16 > s.len() {
        None
    } else if u64_at(s, i) == AT_HWCAP {
        Some(u64_at(s, i + 8))
    } else if u64_at(s, i) == AT_NULL {
        None
    } else {
        hwcap_from(s, i + 16)
    }
}

/// Finds the processor capabilities in the bytes of an auxiliary vector.
pub fn read_hwcap(data: &[u8]) -> (hwcap: Option<u64>)
    ensures
        hwcap == hwcap_from(data@, 0),
{
    let mut i: usize = 0;
    while data.len() >= 16 && i <= data.len() - 16
        invariant
            i <= data@.len(),
            hwcap_from(data@, 0) == hwcap_from(data@, i as int),
        decreases data@.len() - i,
    {
        let kind: u64 = read_u64(data, i);
        if kind == AT_HWCAP {
            return Some(read_u64(data, i + 8));
        }
        if kind == AT_NULL {
            return None;
        }
        i = i + 16;
    }
    None
}

/// The words that are written are those of the relative relocations, all of them and
/// in their order: at the load address plus the offset goes the load address plus
/// the addend, counted around the end of the address space.
pub proof fn law_relocations_written(base: u64, relas: Seq<Rela>)
    requires
        !relocation_overflows(base, relas),
    ensures
        relocations_of(base, relas) == relas.filter(
            |r: Rela| r.r_info % 0x1_0000_0000 == 0x403,
        ).map_values(
            |r: Rela|
                (
                    (base + r.r_offset) as u64,
                    ((base + r.r_addend) % 0x1_0000_0000_0000_0000) as u64,
                ),
        ),
        forall|i: int|
            0 <= i < relas.len() && (#[trigger] relas[i]).r_info % 0x1_0000_0000 == 0x403 ==> base
                + relas[i].r_offset <= u64::MAX && relocations_of(base, relas).contains(
                (
                    (base + relas[i].r_offset) as u64,
                    ((base + relas[i].r_addend) % 0x1_0000_0000_0000_0000) as u64,
                ),
            ),
    decreases relas.len(),
{
    reveal(Seq::filter);
    let pred = |r: Rela| r.r_info % 0x1_0000_0000 == 0x403;
    let write = |r: Rela|
        ((base + r.r_offset) as u64, ((base + r.r_addend) % 0x1_0000_0000_0000_0000) as u64);
    let all = relocations_of(base, relas);
    if relas.len() > 0 {
        let some = relas.drop_last();
        let last = relas.last();
        assert forall|i: int| 0 <= i < some.len() implies #[trigger] some[i] == relas[i] by {}
        assert(!relocation_overflows(base, some));
        law_relocations_written(base, some);
        assert(relas[relas.len() - 1] == last);
        let kept = some.filter(pred);
        lemma_addend(base, last.r_addend);
        if pred(last) {
            assert(kept.push(last).map_values(write) =~= kept.map_values(write).push(write(last)));
            assert(all == relocations_of(base, some).push(write(last)));
        }
        assert(all =~= relas.filter(pred).map_values(write));
        assert forall|i: int|
            0 <= i < relas.len() && (#[trigger] relas[i]).r_info % 0x1_0000_0000
                == 0x403 implies base + relas[i].r_offset <= u64::MAX && all.contains(
            write(relas[i]),
        ) by {
            assert(is_relative(relas[i]));
            if i < some.len() {
                let before = relocations_of(base, some);
                assert(some[i] == relas[i]);
                assert(before.contains(write(some[i])));
                let k = choose|k: int| 0 <= k < before.len() && before[k] == write(some[i]);
                assert(all[k] == write(relas[i]));
            } else {
                assert(all.last() == write(relas[i]));
            }
        }
    } else {
        assert(all =~= relas.filter(pred).map_values(write));
    }
}

proof fn lemma_addend(base: u64, addend: i64)
    ensures
        base.wrapping_add(addend as u64) == (base + addend) % 0x1_0000_0000_0000_0000,
{
    assert(addend >= 0 ==> addend as u64 == addend) by (bit_vector);
    assert(addend < 0 ==> addend as u64 == addend + 0x1_0000_0000_0000_0000) by (bit_vector);
}

/// A relative relocation in the file is carried out: where number `i` of the table
/// that the dynamic section names has the type for it, the plan writes the sum of
/// the load address and its third word at the sum of the load address and its first.
#[verifier::spinoff_prover]
pub proof fn law_file_is_relocated(
    s: Seq<u8>,
    dyns: Seq<Dyn>,
    base: u64,
    a: int,
    b: int,
    i: int,
    offset: int,
    addend: int,
)
    requires
        0 <= a < dyns.len(),
        dyns[a].d_tag == 7,
        forall|j: int| a < j < dyns.len() ==> (#[trigger] dyns[j]).d_tag != 7,
        0 <= b < dyns.len(),
        dyns[b].d_tag == 8,
        forall|j: int| b < j < dyns.len() ==> (#[trigger] dyns[j]).d_tag != 8,
        0 <= i < dyns[b].d_val / 24,
        relas_error(s, dyns) is None,
        !relocation_overflows(base, relas_of(s, dyns)),
        ({
            let word = |at: int|
                s[at] + 0x100 * s[at + 1] + 0x1_0000 * s[at + 2] + 0x100_0000 * s[at + 3]
                    + 0x1_0000_0000 * s[at + 4] + 0x100_0000_0000 * s[at + 5]
                    + 0x1_0000_0000_0000 * s[at + 6] + 0x100_0000_0000_0000 * s[at + 7];
            let at = dyns[a].d_val + 24 * i;
            &&& offset == word(at)
            &&& addend == word(at + 16)
            &&& s[at + 8] == 3 && s[at + 9] == 4 && s[at + 10] == 0 && s[at + 11] == 0
        }),
    ensures
        relocations_of(base, relas_of(s, dyns)).contains(
            ((base + offset) as u64, ((base + addend) % 0x1_0000_0000_0000_0000) as u64),
        ),
{
    law_relocations_read(s, dyns, a, b, i);
    let relas = relas_of(s, dyns);
    law_relocations_written(base, relas);
    let at = dyns[a].d_val + 24 * i;
    let high = s[at + 12] + 0x100 * s[at + 13] + 0x1_0000 * s[at + 14] + 0x100_0000 * s[at + 15];
    lemma_around(relas[i].r_info as int, high, base + addend);
    let value = ((base + relas[i].r_addend) % 0x1_0000_0000_0000_0000) as u64;
    assert(value == ((base + addend) % 0x1_0000_0000_0000_0000) as u64);
    assert(relocations_of(base, relas).contains(((base + relas[i].r_offset) as u64, value)));
}

proof fn lemma_around(info: int, high: int, sum: int)
    ensures
        info == 0x403 + 0x1_0000_0000 * high ==> info % 0x1_0000_0000 == 0x403,
        (sum - 0x1_0000_0000_0000_0000) % 0x1_0000_0000_0000_0000 == sum
            % 0x1_0000_0000_0000_0000,
{
}

/// A mapping can be read, written or executed exactly as the flags of its segment
/// say; the bits stand in another order.
pub proof fn law_permissions_kept(flags: u32)
    ensures
        prot_of(flags) % 2 == 1 <==> (flags / 4) % 2 == 1,
        (prot_of(flags) / 2) % 2 == 1 <==> (flags / 2) % 2 == 1,
        (prot_of(flags) / 4) % 2 == 1 <==> flags % 2 == 1,
        0 <= prot_of(flags) < 8,
{
    assert((flags & 4 != 0) <==> (flags / 4) % 2 == 1) by (bit_vector);
    assert((flags & 2 != 0) <==> (flags / 2) % 2 == 1) by (bit_vector);
    assert((flags & 1 != 0) <==> flags % 2 == 1) by (bit_vector);
}

/// A segment gets the bytes of the file that its header names, at the address that
/// its header names, and is refused exactly when they are not all in the file or the
/// addresses do not exist.
pub proof fn law_segment_filled(len: nat, base: u64, phdr: Phdr)
    ensures
        segment_plan(base, phdr).file_offset == phdr.p_offset,
        segment_plan(base, phdr).file_size == phdr.p_filesz,
        segment_plan(base, phdr).prot == prot_of(phdr.p_flags),
        segment_plan(base, phdr).page_offset < 4096,
        segment_error(len, base, phdr) is None <==> {
            &&& phdr.p_vaddr + phdr.p_memsz + 4095 <= u64::MAX
            &&& base + (phdr.p_vaddr + phdr.p_memsz + 4095) / 4096 * 4096 <= u64::MAX
            &&& phdr.p_filesz > 0 ==> phdr.p_offset + phdr.p_filesz <= len
        },
{
}

/// All segments can be mapped exactly when each of them can.
pub proof fn law_segments_refused(len: nat, base: u64, loads: Seq<Phdr>)
    ensures
        segments_error(len, base, loads) is None <==> forall|i: int|
            0 <= i < loads.len() ==> segment_error(len, base, #[trigger] loads[i]) is None,
    decreases loads.len(),
{
    if loads.len() > 0 {
        let some = loads.drop_last();
        law_segments_refused(len, base, some);
        assert(loads[loads.len() - 1] == loads.last());
        if segments_error(len, base, loads) is None {
            assert forall|i: int| 0 <= i < loads.len() implies segment_error(
                len,
                base,
                #[trigger] loads[i],
            ) is None by {
                if i < some.len() {
                    assert(some[i] == loads[i]);
                    assert(segment_error(len, base, some[i]) is None);
                }
            }
        }
        if forall|i: int|
            0 <= i < loads.len() ==> segment_error(len, base, #[trigger] loads[i]) is None {
            assert forall|i: int| 0 <= i < some.len() implies segment_error(
                len,
                base,
                #[trigger] some[i],
            ) is None by {
                assert(some[i] == loads[i]);
                assert(segment_error(len, base, loads[i]) is None);
            }
        }
    }
}

/// A program that is loaded is put at the next free address, as a whole: each of its
/// LOAD segments lies where its header says, relative to the load address, the entry
/// point and the program headers too, and the next program goes behind all of it.
pub proof fn law_program_is_placed(
    s: Seq<u8>,
    hdr: Ehdr,
    before: AddressSpace,
    after: AddressSpace,
    plan: LoadPlan,
    k: int,
)
    requires
        planned(s, hdr, before, after, Ok(plan)),
    ensures
        hdr.e_type == 3,
        plan.image.base == before.next_base,
        plan.image.entry == before.next_base + hdr.e_entry,
        plan.image.phdr_addr == before.next_base + hdr.e_phoff,
        plan.image.phnum == hdr.e_phnum,
        plan.image.phentsize == hdr.e_phentsize,
        plan.image.total_size % 4096 == 0,
        plan.image.interp_path is None <==> forall|j: int|
            0 <= j < headers_of(s, hdr).len() ==> (#[trigger] headers_of(s, hdr)[j]).p_type != 3,
        after.next_base >= before.next_base + plan.image.total_size + 4096,
        after.next_base < before.next_base + plan.image.total_size + 65536 + 4096,
        plan.segments@.len() == loads_of(headers_of(s, hdr)).len(),
        plan.segments@.len() > 0,
        0 <= k < plan.segments@.len() ==> ({
            let phdr = loads_of(headers_of(s, hdr))[k];
            let segment = plan.segments@[k];
            &&& segment.map_addr + segment.page_offset == before.next_base + phdr.p_vaddr
            &&& segment.page_offset + phdr.p_memsz <= segment.map_size
            &&& segment.file_offset == phdr.p_offset
            &&& segment.file_size == phdr.p_filesz
            &&& segment.file_size > 0 ==> segment.file_offset + segment.file_size <= s.len()
            &&& segment.prot == prot_of(phdr.p_flags)
            &&& phdr.p_memsz <= plan.image.total_size
        }),
{
    let phdrs = headers_of(s, hdr);
    let loads = loads_of(phdrs);
    let base = before.next_base;
    law_segments_refused(s.len(), base, loads);
    crate::elf::law_interpreter_found(s, phdrs, 0, 0);
    if 0 <= k < loads.len() {
        assert(segment_error(s.len(), base, loads[k]) is None);
        law_span_covers(loads, k);
        law_page_align(span_of(phdrs));
        law_page_align(loads[k].p_vaddr as int);
        law_page_align(loads[k].p_vaddr + loads[k].p_memsz);
    }
}

/// Each value that a program asks for is in its auxiliary vector, under the number
/// that stands for it, and no number occurs twice.
pub proof fn law_auxv_values(
    image: LoadedImage,
    interp_base: u64,
    hwcap: Option<u64>,
    random: u64,
    i: int,
    j: int,
)
    ensures
        ({
            let auxv = auxv_of(image, interp_base, hwcap, random);
            let has = |kind: u64, value: u64|
                exists|k: int|
                    0 <= k < auxv.len() && (#[trigger] auxv[k])[0] == kind && auxv[k][1] == value;
            &&& has(3, image.phdr_addr)
            &&& has(4, image.phentsize as u64)
            &&& has(5, image.phnum as u64)
            &&& has(6, 4096)
            &&& has(7, interp_base)
            &&& has(9, image.entry)
            &&& hwcap matches Some(value) ==> has(16, value)
            &&& has(25, random)
            &&& hwcap is None ==> forall|k: int|
                0 <= k < auxv.len() ==> (#[trigger] auxv[k])[0] != 16
            &&& 0 <= i < j < auxv.len() ==> auxv[i][0] != auxv[j][0]
            &&& auxv.last()[0] == 0 && auxv.last()[1] == 0
        }),
{
    let auxv = auxv_of(image, interp_base, hwcap, random);
    assert(auxv[0][0] == 3 && auxv[0][1] == image.phdr_addr);
    assert(auxv[1][0] == 4 && auxv[1][1] == image.phentsize);
    assert(auxv[2][0] == 5 && auxv[2][1] == image.phnum);
    assert(auxv[3][0] == 6 && auxv[3][1] == 4096);
    assert(auxv[4][0] == 9 && auxv[4][1] == image.entry);
    assert(auxv[5][0] == 7 && auxv[5][1] == interp_base);
    let n = auxv.len() - 2;
    assert(auxv[n][0] == 25 && auxv[n][1] == random);
    if hwcap is Some {
        assert(auxv[6][0] == 16 && auxv[6][1] == hwcap->0);
    }
}

/// The capabilities of the processor are the value of the first entry for them in
/// the auxiliary vector of the whole process; entries behind the null entry do not
/// count, nor an entry that is cut off.
pub proof fn law_capabilities_found(s: Seq<u8>, n: int)
    requires
        n >= 0,
        forall|k: int|
            0 <= k < n ==> #[trigger] u64_at(s, 16 * k) != 16 && u64_at(s, 16 * k) != 0,
        16 * n <= s.len(),
    ensures
        16 * n + 16 <= s.len() && u64_at(s, 16 * n) == 16 ==> hwcap_from(s, 0) == Some(
            u64_at(s, 16 * n + 8),
        ),
        16 * n + 16 <= s.len() && u64_at(s, 16 * n) == 0 ==> hwcap_from(s, 0) is None,
        16 * n + 16 > s.len() ==> hwcap_from(s, 0) is None,
{
    lemma_hwcap(s, 0, n);
}

proof fn lemma_hwcap(s: Seq<u8>, i: int, n: int)
    requires
        0 <= i <= n,
        forall|k: int|
            0 <= k < n ==> #[trigger] u64_at(s, 16 * k) != 16 && u64_at(s, 16 * k) != 0,
        16 * n <= s.len(),
    ensures
        hwcap_from(s, 16 * i) == hwcap_from(s, 16 * n),
    decreases n - i,
{
    if i < n {
        lemma_hwcap(s, i + 1, n);
        assert(u64_at(s, 16 * i) != 16);
    }
}

/// A program that is loaded is relocated as a whole: the plan writes one word for each
/// relative relocation that its dynamic section names, all of them and in their order.
pub proof fn law_program_is_relocated(
    s: Seq<u8>,
    hdr: Ehdr,
    before: AddressSpace,
    after: AddressSpace,
    plan: LoadPlan,
)
    requires
        planned(s, hdr, before, after, Ok(plan)),
    ensures
        relas_error(s, dynamic_of(s, headers_of(s, hdr))) is None,
        plan.relocations@ == relas_of(s, dynamic_of(s, headers_of(s, hdr))).filter(
            |r: Rela| r.r_info % 0x1_0000_0000 == 0x403,
        ).map_values(
            |r: Rela|
                (
                    (before.next_base + r.r_offset) as u64,
                    ((before.next_base + r.r_addend) % 0x1_0000_0000_0000_0000) as u64,
                ),
        ),
{
    law_relocations_written(before.next_base, relas_of(s, dynamic_of(s, headers_of(s, hdr))));
}

/// Why a program is not loaded, in the order in which it is looked at: it is not
/// position-independent, its headers cannot be read, it has nothing to load, or it
/// does not fit into the address space. Only then an address is used up.
pub proof fn law_program_is_refused(
    s: Seq<u8>,
    hdr: Ehdr,
    before: AddressSpace,
    after: AddressSpace,
    result: Result<LoadPlan, String>,
)
    requires
        planned(s, hdr, before, after, result),
    ensures
        hdr.e_type != 3 ==> result is Err && after == before && result->Err_0@ == "not PIE (type="@
            + crate::text::decimal_text(hdr.e_type as nat) + ", expected DYN=3)"@,
        hdr.e_type == 3 && headers_error(s, hdr) is Some ==> result is Err && after == before
            && Some(result->Err_0@) == headers_error(s, hdr),
        hdr.e_type == 3 && headers_error(s, hdr) is None && loads_of(headers_of(s, hdr)).len() == 0
            ==> result is Err && after == before && result->Err_0@ == "no LOAD segments"@,
        after == before ==> result is Err,
        result is Ok ==> after.next_base > before.next_base,
{
}

/// A program is loaded unless something is wrong with it: it is position-independent,
/// its headers, segments, dynamic section, relocations and interpreter are all in the
/// file, and all its addresses are in the address space.
pub proof fn law_good_program_is_loaded(
    s: Seq<u8>,
    hdr: Ehdr,
    before: AddressSpace,
    after: AddressSpace,
    result: Result<LoadPlan, String>,
)
    requires
        planned(s, hdr, before, after, result),
    ensures
        ({
            let phdrs = headers_of(s, hdr);
            let loads = loads_of(phdrs);
            let dyns = dynamic_of(s, phdrs);
            let base = before.next_base;
            let span = highest(loads) - lowest(loads);
            let size = (span + 4095) / 4096 * 4096;
            let fits = {
                &&& forall|i: int|
                    0 <= i < loads.len() ==> (#[trigger] loads[i]).p_vaddr + loads[i].p_memsz
                        <= u64::MAX
                &&& span + 4095 <= u64::MAX
                &&& base + (size + 65535) / 65536 * 65536 + 4096 <= u64::MAX
                &&& base + hdr.e_entry <= u64::MAX
                &&& base + hdr.e_phoff <= u64::MAX
                &&& !relocation_overflows(base, relas_of(s, dyns))
            };
            result is Ok <==> {
                &&& hdr.e_type == 3
                &&& headers_error(s, hdr) is None
                &&& loads.len() > 0
                &&& fits
                &&& forall|i: int|
                    0 <= i < loads.len() ==> segment_error(s.len(), base, #[trigger] loads[i])
                        is None
                &&& dynamic_error(s, phdrs) is None
                &&& relas_error(s, dyns) is None
                &&& interp_error(s, phdrs) is None
            }
        }),
{
    law_segments_refused(s.len(), before.next_base, loads_of(headers_of(s, hdr)));
}

/// A relocation is out of bounds exactly when a relative one writes beyond the end of
/// the address space.
pub proof fn law_relocation_bounds(base: u64, relas: Seq<Rela>)
    ensures
        relocation_overflows(base, relas) <==> !(forall|i: int|
            0 <= i < relas.len() && (#[trigger] relas[i]).r_info % 0x1_0000_0000 == 0x403 ==> base
                + relas[i].r_offset <= u64::MAX),
{
    if relocation_overflows(base, relas) {
        let i = choose|i: int|
            0 <= i < relas.len() && is_relative(#[trigger] relas[i]) && base + relas[i].r_offset
                > u64::MAX;
        assert(relas[i].r_info % 0x1_0000_0000 == 0x403);
    }
    if !relocation_overflows(base, relas) {
        assert forall|i: int|
            0 <= i < relas.len() && (#[trigger] relas[i]).r_info % 0x1_0000_0000
                == 0x403 implies base + relas[i].r_offset <= u64::MAX by {
            assert(is_relative(relas[i]));
        }
    }
}

/// Pages are of 4096 bytes, load addresses begin at 2^37 and are handed out in units
/// of 65536 bytes, and the permissions are those of the kernel.
pub proof fn law_loader_numbers()
    ensures
        PAGE_SIZE == 4096,
        SLOT_ALIGN == 65536,
        FIRST_BASE == 0x20_0000_0000,
        PROT_NONE == 0,
        PROT_READ == 1,
        PROT_WRITE == 2,
        PROT_EXEC == 4,
{
}

} // verus!
