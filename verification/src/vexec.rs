//! Starting programs inside of virtual processes.
//!
//! Reading files, the dynamic linker and memory mappings are used from outside;
//! the functions here decide what is done with what they return. A program that
//! is in memory is looked at through the bytes of its image: `mem` holds the
//! bytes from the load address `base` on.

pub use crate::cache::{
    cached_binary_count, release_binaries, track_binary_user, unload_all_binaries, unload_binary,
    BinaryCache, BinaryCacheEntry, EntryView, WritableSegment,
};
use crate::cache::{snapshots_fit, user_added};
use crate::coroutine::{stack_bytes, stack_word_count, stack_words, CoroView, ElfStack, VPid};
use crate::elf::{
    first_of, header_error, headers_error, headers_of, interp_bytes, interp_error,
    interpreter_path, is_ehdr_of, parse_header, program_headers, read_u64, u32_at, u64_at, Ehdr,
    Phdr, PF_W, PT_DYNAMIC, PT_LOAD,
};
use crate::executor::{Executor, ExecutorView};
use crate::hooks::{are_pages_of, got_patches, image_dyns, init_offsets};
pub use crate::hooks::{clear_init_arrays, patch_got_for_loaded_binary, GotPlan, Hook};
use crate::loader::{
    has_flag, load_pie, page_align_down, page_align_up, page_down, page_up, planned,
    prot_from_flags, prot_of, AddressSpace, LoadPlan, LoadedImage, PROT_WRITE,
};
use crate::pipe::PipeStore;
use crate::tables::{
    close_cloexec, fork_fd_table, hands_out, lemma_hands_out_chain, FdTables, FdTablesView,
};
use crate::vfd::FileRef;
use vstd::prelude::*;
use vstd::string::*;

verus! {

/// Size of the stack of a loaded program.
pub const ELF_STACK_SIZE: usize = 8388608;

/// How many instructions of the entry code are looked at.
pub const ENTRY_INSNS: usize = 48;

/// A process that was started.
#[derive(Debug, Clone, Copy, PartialEq, Eq, Structural)]
pub struct VirtualExec {
    pub vpid: VPid,
}

/// The 21-bit page distance in an `adrp` instruction, with its sign.
pub open spec fn adrp_distance(insn: u32) -> int {
    let imm = (insn / 32) % 0x8_0000 * 4 + (insn / 0x2000_0000) % 4;
    if imm >= 0x10_0000 {
        imm - 0x20_0000
    } else {
        imm
    }
}

/// The page that an `adrp` instruction at `pc` refers to.
pub open spec fn adrp_page(pc: u64, insn: u32) -> u64 {
    ((page_down(pc as int) + adrp_distance(insn) * 4096) % 0x1_0000_0000_0000_0000) as u64
}

/// Decodes the page that an `adrp` instruction at `pc` refers to.
pub fn decode_adrp(pc: u64, insn: u32) -> (page: u64)
    ensures
        page == adrp_page(pc, insn),
{
    let immlo: u32 = (insn >> 29) & 0x3;
    let immhi: u32 = (insn >> 5) & 0x7ffff;
    assert((insn >> 29) & 0x3 == (insn / 0x2000_0000) % 4) by (bit_vector);
    assert((insn >> 5) & 0x7ffff == (insn / 32) % 0x8_0000) by (bit_vector);
    let imm: u64 = immhi as u64 * 4 + immlo as u64;
    let pc_page: u64 = page_align_down(pc);
    if imm >= 0x10_0000 {
        pc_page.wrapping_sub((0x20_0000 - imm) * 4096)
    } else {
        pc_page.wrapping_add(imm * 4096)
    }
}

/// The instruction loads register x2 from memory.
pub open spec fn loads_x2(insn: u32) -> bool {
    insn & 0xFFC0001F == 0xF9400002
}

/// The base register of a load.
pub open spec fn base_register(insn: u32) -> u32 {
    (insn >> 5) & 0x1F
}

/// The 12-bit immediate of a load or an addition.
pub open spec fn imm12(insn: u32) -> u32 {
    (insn >> 10) & 0xFFF
}

/// The instruction is an `adrp` into `register`.
pub open spec fn is_adrp(insn: u32, register: u32) -> bool {
    insn & 0x9F000000 == 0x90000000 && insn & 0x1F == register
}

/// The instruction adds an immediate to `register`.
pub open spec fn is_add(insn: u32, register: u32) -> bool {
    insn & 0xFFC00000 == 0x91000000 && insn & 0x1F == register && (insn >> 5) & 0x1F == register
}

/// The immediate of the last addition to `register` among the instructions from
/// `from` up to `to`; 0 where there is none.
pub open spec fn last_addend(code: Seq<u32>, register: u32, from: int, to: int) -> u32
    decreases to - from,
{
    if to <= from {
        0
    } else if is_add(code[to - 1], register) {
        imm12(code[to - 1])
    } else {
        last_addend(code, register, from, to - 1)
    }
}

/// The address that the load at `i` reads from, when the `adrp` at `j` set up its
/// base register.
pub open spec fn load_address(entry: u64, code: Seq<u32>, i: int, j: int) -> u64 {
    let register = base_register(code[i]);
    adrp_page(entry.wrapping_add((j * 4) as u64), code[j]).wrapping_add(
        last_addend(code, register, j + 1, i) as u64,
    ).wrapping_add((imm12(code[i]) * 8) as u64)
}

/// The addresses that the load at `i` may read from: one for each matching `adrp`
/// before `j`, nearest first.
pub open spec fn addresses_for(entry: u64, code: Seq<u32>, i: int, j: int) -> Seq<u64>
    decreases j,
{
    if j <= 0 {
        Seq::empty()
    } else if is_adrp(code[j - 1], base_register(code[i])) {
        seq![load_address(entry, code, i, j - 1)] + addresses_for(entry, code, i, j - 1)
    } else {
        addresses_for(entry, code, i, j - 1)
    }
}

/// The addresses at which the entry code may have loaded the address of `main`:
/// those of the loads into x2 among its first `n` instructions, in order.
pub open spec fn main_slots(entry: u64, code: Seq<u32>, n: int) -> Seq<u64>
    decreases n,
{
    if n <= 0 {
        Seq::empty()
    } else if loads_x2(code[n - 1]) {
        main_slots(entry, code, n - 1) + addresses_for(entry, code, n - 1, n - 1)
    } else {
        main_slots(entry, code, n - 1)
    }
}

fn find_last_addend(code: &Vec<u32>, register: u32, from: usize, to: usize) -> (addend: u32)
    requires
        from <= to <= code@.len(),
    ensures
        addend == last_addend(code@, register, from as int, to as int),
{
    let mut addend: u32 = 0;
    let mut k: usize = from;
    while k < to
        invariant
            from <= k <= to <= code@.len(),
            addend == last_addend(code@, register, from as int, k as int),
        decreases to - k,
    {
        let insn: u32 = code[k];
        if insn & 0xFFC00000 == 0x91000000 && insn & 0x1F == register && (insn >> 5) & 0x1F
            == register {
            addend = (insn >> 10) & 0xFFF;
        }
        k = k + 1;
    }
    addend
}

/// Finds the addresses at which the entry code may have loaded the address of
/// `main`.
pub fn find_main_slots(entry: u64, code: &Vec<u32>) -> (slots: Vec<u64>)
    requires
        code@.len() <= ENTRY_INSNS,
    ensures
        slots@ == main_slots(entry, code@, code@.len() as int),
{
    let mut slots: Vec<u64> = Vec::new();
    let mut i: usize = 0;
    while i < code.len()
        invariant
            i <= code@.len() <= ENTRY_INSNS,
            slots@ == main_slots(entry, code@, i as int),
        decreases code.len() - i,
    {
        let insn: u32 = code[i];
        if insn & 0xFFC0001F == 0xF9400002 {
            let register: u32 = (insn >> 5) & 0x1F;
            let offset: u32 = (insn >> 10) & 0xFFF;
            assert((insn >> 10) & 0xFFF <= 0xFFF) by (bit_vector);
            let ghost before = slots@;
            let ghost all = addresses_for(entry, code@, i as int, i as int);
            let mut j: usize = i;
            while j > 0
                invariant
                    j <= i < code@.len() <= ENTRY_INSNS,
                    insn == code@[i as int],
                    register == base_register(insn),
                    offset == imm12(insn),
                    offset <= 0xFFF,
                    before + all =~= slots@ + addresses_for(entry, code@, i as int, j as int),
                decreases j,
            {
                j = j - 1;
                let ghost now = slots@;
                let candidate: u32 = code[j];
                if candidate & 0x9F000000 == 0x90000000 && candidate & 0x1F == register {
                    let page: u64 = decode_adrp(entry.wrapping_add(j as u64 * 4), candidate);
                    let addend: u32 = find_last_addend(code, register, j + 1, i);
                    slots.push(
                        page.wrapping_add(addend as u64).wrapping_add((offset * 8) as u64),
                    );
                    assert(slots@ + addresses_for(entry, code@, i as int, j as int) =~= now + (seq![
                        load_address(entry, code@, i as int, j as int),
                    ] + addresses_for(entry, code@, i as int, j as int)));
                }
            }
            assert(slots@ =~= before + all);
        }
        i = i + 1;
    }
    slots
}

/// `value` may be the address of a function: not null, and aligned.
pub open spec fn is_code_address(value: u64) -> bool {
    value != 0 && value % 4 == 0
}

/// The word of the image at address `addr`.
pub open spec fn word_at(mem: Seq<u8>, base: u64, addr: u64) -> Option<u64> {
    if base <= addr && addr + 8 <= base + mem.len() {
        Some(u64_at(mem, addr - base))
    } else {
        None
    }
}

/// The first word at one of `slots` that may be the address of a function.
pub open spec fn first_code_address(mem: Seq<u8>, base: u64, slots: Seq<u64>) -> Option<u64>
    decreases slots.len(),
{
    if slots.len() == 0 {
        None
    } else {
        match word_at(mem, base, slots[0]) {
            Some(value) if is_code_address(value) => Some(value),
            _ => first_code_address(mem, base, slots.drop_first()),
        }
    }
}

/// The first instructions of the entry code, as far as they are in the image.
pub open spec fn entry_code(mem: Seq<u8>, base: u64, entry: u64) -> Seq<u32> {
    let start = entry - base;
    let n = if start < 0 || start > mem.len() {
        0
    } else if (mem.len() - start) / 4 < 48 {
        (mem.len() - start) / 4
    } else {
        48
    };
    Seq::new(n as nat, |i: int| u32_at(mem, start + i * 4))
}

fn read_entry_code(mem: &[u8], base: u64, entry: u64) -> (code: Vec<u32>)
    ensures
        code@ == entry_code(mem@, base, entry),
        code@.len() <= 48,
{
    let mut code: Vec<u32> = Vec::new();
    let len: u64 = mem.len() as u64;
    if entry < base || entry - base > len {
        assert(code@ =~= entry_code(mem@, base, entry));
        return code;
    }
    let start: usize = (entry - base) as usize;
    let room: usize = (mem.len() - start) / 4;
    let n: usize = if room < 48 {
        room
    } else {
        48
    };
    let mut i: usize = 0;
    while i < n
        invariant
            i <= n <= 48,
            start + n * 4 <= mem@.len(),
            start == entry - base,
            code@.len() == i,
            forall|k: int| 0 <= k < i ==> #[trigger] code@[k] == u32_at(mem@, start + k * 4),
        decreases n - i,
    {
        assert(mem.len() == mem@.len());
        code.push(crate::elf::read_u32(mem, start + i * 4));
        i = i + 1;
    }
    assert(code@ =~= entry_code(mem@, base, entry));
    code
}

/// Finds the address of the main function of a loaded program. The entry code
/// loads it into x2, through a register that an `adrp` set up, before it calls
/// into the C library.
pub fn extract_main_addr(mem: &[u8], base: u64, entry: u64) -> (main_addr: Option<u64>)
    ensures
        main_addr == first_code_address(
            mem@,
            base,
            main_slots(
                entry,
                entry_code(mem@, base, entry),
                entry_code(mem@, base, entry).len() as int,
            ),
        ),
{
    let code: Vec<u32> = read_entry_code(mem, base, entry);
    let slots: Vec<u64> = find_main_slots(entry, &code);
    let mut i: usize = 0;
    assert(slots@.skip(0) =~= slots@);
    while i < slots.len()
        invariant
            i <= slots@.len(),
            slots@ == main_slots(entry, code@, code@.len() as int),
            code@ == entry_code(mem@, base, entry),
            first_code_address(mem@, base, slots@) == first_code_address(
                mem@,
                base,
                slots@.skip(i as int),
            ),
        decreases slots.len() - i,
    {
        assert(slots@.skip(i as int).drop_first() =~= slots@.skip(i + 1));
        let slot: u64 = slots[i];
        let len: u64 = mem.len() as u64;
        if slot >= base && len >= 8 && slot - base <= len - 8 {
            let value: u64 = read_u64(mem, (slot - base) as usize);
            if value != 0 && value % 4 == 0 {
                return Some(value);
            }
        }
        i = i + 1;
    }
    None
}

/// Whether a segment is a writable LOAD segment with contents in the image.
pub open spec fn is_saved(mem: Seq<u8>, phdr: Phdr) -> bool {
    &&& phdr.p_type == PT_LOAD
    &&& has_flag(phdr.p_flags, PF_W)
    &&& phdr.p_memsz > 0
    &&& phdr.p_vaddr + phdr.p_memsz <= mem.len()
}

/// Address, contents and flags of each writable segment, in order.
pub open spec fn saved_segments(mem: Seq<u8>, base: u64, phdrs: Seq<Phdr>) -> Seq<
    (u64, Seq<u8>, u32),
>
    decreases phdrs.len(),
{
    if phdrs.len() == 0 {
        Seq::empty()
    } else {
        let before = saved_segments(mem, base, phdrs.drop_last());
        let phdr = phdrs.last();
        if is_saved(mem, phdr) {
            before.push(
                (
                    (base + phdr.p_vaddr) as u64,
                    mem.subrange(phdr.p_vaddr as int, phdr.p_vaddr + phdr.p_memsz),
                    phdr.p_flags,
                ),
            )
        } else {
            before
        }
    }
}

/// Address, contents and flags of snapshots.
pub open spec fn snapshot_views(segments: Seq<WritableSegment>) -> Seq<(u64, Seq<u8>, u32)> {
    segments.map_values(|s: WritableSegment| (s.addr, s.data@, s.orig_flags))
}

/// Copies the contents of the writable segments of a loaded program.
pub fn save_writable_segments(mem: &[u8], base: u64, phdrs: &[Phdr]) -> (segments: Vec<
    WritableSegment,
>)
    requires
        base + mem@.len() <= u64::MAX,
    ensures
        snapshot_views(segments@) == saved_segments(mem@, base, phdrs@),
{
    let mut segments: Vec<WritableSegment> = Vec::new();
    let mut i: usize = 0;
    assert(snapshot_views(segments@) =~= Seq::<(u64, Seq<u8>, u32)>::empty());
    while i < phdrs.len()
        invariant
            i <= phdrs@.len(),
            base + mem@.len() <= u64::MAX,
            snapshot_views(segments@) =~= saved_segments(mem@, base, phdrs@.take(i as int)),
        decreases phdrs.len() - i,
    {
        assert(phdrs@.take(i + 1).drop_last() =~= phdrs@.take(i as int));
        let phdr: Phdr = phdrs[i];
        let len: u64 = mem.len() as u64;
        if phdr.p_type == PT_LOAD && phdr.p_flags & PF_W != 0 && phdr.p_memsz > 0 && phdr.p_vaddr
            <= len && phdr.p_memsz <= len - phdr.p_vaddr {
            let start: usize = phdr.p_vaddr as usize;
            let end: usize = start + phdr.p_memsz as usize;
            let ghost before = segments@;
            let data: Vec<u8> = vstd::slice::slice_to_vec(
                vstd::slice::slice_subrange(mem, start, end),
            );
            let ghost saved = data@;
            segments.push(
                WritableSegment { addr: base + phdr.p_vaddr, data, orig_flags: phdr.p_flags },
            );
            assert(snapshot_views(segments@) =~= snapshot_views(before).push(
                ((base + phdr.p_vaddr) as u64, saved, phdr.p_flags),
            ));
        }
        i = i + 1;
    }
    assert(phdrs@.take(i as int) =~= phdrs@);
    segments
}

/// How a snapshot is written back: the pages to be made writable, and their
/// permissions afterwards.
#[derive(Debug, Clone, Copy, PartialEq, Eq, Structural)]
pub struct RestoreStep {
    pub page_start: u64,
    pub page_size: u64,
    /// Address of the contents.
    pub addr: u64,
    /// Which snapshot to write there.
    pub index: usize,
    pub prot: i32,
}

/// The permissions of a segment after it was written back: those its flags ask
/// for, and always write access.
pub open spec fn restored_prot(flags: u32) -> i32 {
    if has_flag(flags, PF_W) {
        prot_of(flags)
    } else {
        (prot_of(flags) + PROT_WRITE) as i32
    }
}

/// The steps that write back the first `n` of `segments`; empty ones are skipped.
pub open spec fn restore_steps(segments: Seq<WritableSegment>, n: int) -> Seq<RestoreStep>
    decreases n,
{
    if n <= 0 {
        Seq::empty()
    } else {
        let before = restore_steps(segments, n - 1);
        let s = segments[n - 1];
        if s.data@.len() == 0 {
            before
        } else {
            before.push(
                RestoreStep {
                    page_start: page_down(s.addr as int) as u64,
                    page_size: (page_up(s.addr + s.data@.len()) - page_down(s.addr as int)) as u64,
                    addr: s.addr,
                    index: (n - 1) as usize,
                    prot: restored_prot(s.orig_flags),
                },
            )
        }
    }
}

/// Plans how snapshots are written back.
pub fn restore_writable_segments(segments: &Vec<WritableSegment>) -> (steps: Vec<RestoreStep>)
    requires
        forall|i: int|
            0 <= i < segments@.len() ==> (#[trigger] segments@[i]).addr + segments@[i].data@.len()
                + 4095 <= u64::MAX,
    ensures
        steps@ == restore_steps(segments@, segments@.len() as int),
{
    let mut steps: Vec<RestoreStep> = Vec::new();
    let mut i: usize = 0;
    while i < segments.len()
        invariant
            i <= segments@.len(),
            forall|k: int|
                0 <= k < segments@.len() ==> (#[trigger] segments@[k]).addr + segments@[k].data@.len()
                    + 4095 <= u64::MAX,
            steps@ == restore_steps(segments@, i as int),
        decreases segments.len() - i,
    {
        let segment = &segments[i];
        assert(segments@[i as int].addr + segments@[i as int].data@.len() + 4095 <= u64::MAX);
        if segment.data.len() != 0 {
            let page_start: u64 = page_align_down(segment.addr);
            let page_end: u64 = page_align_up(segment.addr + segment.data.len() as u64);
            let mut prot: i32 = prot_from_flags(segment.orig_flags);
            if segment.orig_flags & PF_W == 0 {
                prot = prot + PROT_WRITE;
            }
            steps.push(
                RestoreStep {
                    page_start,
                    page_size: page_end - page_start,
                    addr: segment.addr,
                    index: i,
                    prot,
                },
            );
        }
        i = i + 1;
    }
    steps
}

/// The pages of a restore step cover the contents.
pub proof fn law_restore_covers(addr: int, len: int)
    requires
        addr >= 0,
        len >= 0,
    ensures
        page_down(addr) <= addr,
        addr + len <= page_up(addr + len),
{
}

/// The image `image` after `data` was written from offset `at` on.
pub open spec fn written_at(image: Seq<u8>, at: int, data: Seq<u8>) -> Seq<u8> {
    Seq::new(
        image.len(),
        |i: int|
            if at <= i < at + data.len() {
                data[i - at]
            } else {
                image[i]
            },
    )
}

/// The image `image`, which begins at address `base`, after `steps` wrote back
/// their snapshots, in order.
pub open spec fn restored(
    image: Seq<u8>,
    base: u64,
    segments: Seq<WritableSegment>,
    steps: Seq<RestoreStep>,
) -> Seq<u8>
    decreases steps.len(),
{
    if steps.len() == 0 {
        image
    } else {
        let before = restored(image, base, segments, steps.drop_last());
        let step = steps.last();
        written_at(before, step.addr - base, segments[step.index as int].data@)
    }
}

/// Byte `i` of the image belongs to a segment that is saved.
pub open spec fn in_saved(mem: Seq<u8>, phdrs: Seq<Phdr>, i: int) -> bool {
    exists|k: int|
        0 <= k < phdrs.len() && is_saved(mem, #[trigger] phdrs[k]) && phdrs[k].p_vaddr <= i
            < phdrs[k].p_vaddr + phdrs[k].p_memsz
}

/// Writing back what was saved of an image gives every byte of its writable
/// segments the value it had, whatever became of it meanwhile, and changes no
/// other byte.
pub proof fn law_restore_gives_back(
    mem: Seq<u8>,
    now: Seq<u8>,
    base: u64,
    phdrs: Seq<Phdr>,
    segments: Seq<WritableSegment>,
)
    requires
        now.len() == mem.len(),
        base + mem.len() <= u64::MAX,
        segments.len() <= usize::MAX,
        snapshot_views(segments) == saved_segments(mem, base, phdrs),
    ensures
        ({
            let after = restored(
                now,
                base,
                segments,
                restore_steps(segments, segments.len() as int),
            );
            &&& after.len() == now.len()
            &&& forall|i: int|
                0 <= i < now.len() ==> #[trigger] after[i] == (if in_saved(mem, phdrs, i) {
                    mem[i]
                } else {
                    now[i]
                })
        }),
{
    let n = segments.len() as int;
    assert(saved_segments(mem, base, phdrs).len() == n);
    assert forall|j: int| 0 <= j < n implies is_copy(mem, base, #[trigger] segments[j]) by {
        lemma_snapshot_view(segments, j);
        let k = lemma_view_from(mem, base, phdrs, j);
        lemma_view_copied(mem, base, phdrs[k]);
    }
    lemma_restored(mem, now, base, segments, n);
    let after = restored(now, base, segments, restore_steps(segments, n));
    assert forall|i: int| 0 <= i < now.len() implies covered(base, segments, n, i) == in_saved(
        mem,
        phdrs,
        i,
    ) by {
        if in_saved(mem, phdrs, i) {
            let k = choose|k: int|
                0 <= k < phdrs.len() && is_saved(mem, #[trigger] phdrs[k]) && phdrs[k].p_vaddr <= i
                    < phdrs[k].p_vaddr + phdrs[k].p_memsz;
            let j = lemma_view_of(mem, base, phdrs, k);
            lemma_snapshot_view(segments, j);
            assert(covers(base, segments[j], i));
        }
        if covered(base, segments, n, i) {
            let j = choose|j: int| 0 <= j < n && covers(base, #[trigger] segments[j], i);
            lemma_snapshot_view(segments, j);
            let k = lemma_view_from(mem, base, phdrs, j);
            assert(is_saved(mem, phdrs[k]));
        }
    }
    assert forall|i: int| 0 <= i < now.len() implies #[trigger] after[i] == (if in_saved(
        mem,
        phdrs,
        i,
    ) {
        mem[i]
    } else {
        now[i]
    }) by {
        assert(covered(base, segments, n, i) == in_saved(mem, phdrs, i));
    }
}

proof fn lemma_snapshot_view(segments: Seq<WritableSegment>, j: int)
    requires
        0 <= j < segments.len(),
    ensures
        snapshot_views(segments)[j] == (
            segments[j].addr,
            segments[j].data@,
            segments[j].orig_flags,
        ),
{
}

/// What is saved of a segment.
spec fn saved_view(mem: Seq<u8>, base: u64, phdr: Phdr) -> (u64, Seq<u8>, u32) {
    (
        (base + phdr.p_vaddr) as u64,
        mem.subrange(phdr.p_vaddr as int, phdr.p_vaddr + phdr.p_memsz),
        phdr.p_flags,
    )
}

/// A snapshot holds the bytes of the image at its place.
spec fn copied_view(mem: Seq<u8>, base: u64, view: (u64, Seq<u8>, u32)) -> bool {
    &&& base <= view.0
    &&& view.0 + view.1.len() <= base + mem.len()
    &&& forall|x: int|
        0 <= x < view.1.len() ==> #[trigger] view.1[x] == mem[view.0 - base + x]
}

spec fn is_copy(mem: Seq<u8>, base: u64, segment: WritableSegment) -> bool {
    copied_view(mem, base, (segment.addr, segment.data@, segment.orig_flags))
}

/// Byte `i` of the image lies in the snapshot `segment`.
spec fn covers(base: u64, segment: WritableSegment, i: int) -> bool {
    segment.addr - base <= i < segment.addr - base + segment.data@.len()
}

/// Byte `i` of the image lies in one of the first `n` snapshots.
spec fn covered(base: u64, segments: Seq<WritableSegment>, n: int, i: int) -> bool {
    exists|j: int| 0 <= j < n && covers(base, #[trigger] segments[j], i)
}

/// A snapshot of a saved segment is a copy.
proof fn lemma_view_copied(mem: Seq<u8>, base: u64, phdr: Phdr)
    requires
        base + mem.len() <= u64::MAX,
        is_saved(mem, phdr),
    ensures
        copied_view(mem, base, saved_view(mem, base, phdr)),
{
}

/// Each snapshot is that of a saved segment.
proof fn lemma_view_from(mem: Seq<u8>, base: u64, phdrs: Seq<Phdr>, j: int) -> (k: int)
    requires
        0 <= j < saved_segments(mem, base, phdrs).len(),
    ensures
        0 <= k < phdrs.len(),
        is_saved(mem, phdrs[k]),
        saved_segments(mem, base, phdrs)[j] == saved_view(mem, base, phdrs[k]),
    decreases phdrs.len(),
{
    let some = phdrs.drop_last();
    let before = saved_segments(mem, base, some);
    if j < before.len() {
        let k = lemma_view_from(mem, base, some, j);
        assert(phdrs[k] == some[k]);
        assert(saved_segments(mem, base, phdrs)[j] == before[j]);
        k
    } else {
        phdrs.len() - 1
    }
}

/// Each saved segment has its snapshot.
proof fn lemma_view_of(mem: Seq<u8>, base: u64, phdrs: Seq<Phdr>, k: int) -> (j: int)
    requires
        0 <= k < phdrs.len(),
        is_saved(mem, phdrs[k]),
    ensures
        0 <= j < saved_segments(mem, base, phdrs).len(),
        saved_segments(mem, base, phdrs)[j] == saved_view(mem, base, phdrs[k]),
    decreases phdrs.len(),
{
    let some = phdrs.drop_last();
    if k < some.len() {
        assert(some[k] == phdrs[k]);
        let j = lemma_view_of(mem, base, some, k);
        assert(saved_segments(mem, base, phdrs)[j] == saved_segments(mem, base, some)[j]);
        j
    } else {
        saved_segments(mem, base, phdrs).len() - 1
    }
}

proof fn lemma_restored(
    mem: Seq<u8>,
    now: Seq<u8>,
    base: u64,
    segments: Seq<WritableSegment>,
    n: int,
)
    requires
        0 <= n <= segments.len() <= usize::MAX,
        now.len() == mem.len(),
        forall|j: int|
            0 <= j < segments.len() ==> is_copy(mem, base, #[trigger] segments[j]),
    ensures
        restored(now, base, segments, restore_steps(segments, n)).len() == now.len(),
        forall|i: int|
            0 <= i < now.len() ==> #[trigger] restored(
                now,
                base,
                segments,
                restore_steps(segments, n),
            )[i] == (if covered(base, segments, n, i) {
                mem[i]
            } else {
                now[i]
            }),
    decreases n,
{
    if n > 0 {
        lemma_restored(mem, now, base, segments, n - 1);
        let steps = restore_steps(segments, n);
        let before = restore_steps(segments, n - 1);
        let s = segments[n - 1];
        assert(is_copy(mem, base, s));
        if s.data@.len() > 0 {
            assert(steps.drop_last() =~= before);
        }
        let after = restored(now, base, segments, steps);
        assert forall|i: int| 0 <= i < now.len() implies #[trigger] after[i] == (if covered(
            base,
            segments,
            n,
            i,
        ) {
            mem[i]
        } else {
            now[i]
        }) by {
            assert(restored(now, base, segments, before)[i] == (if covered(
                base,
                segments,
                n - 1,
                i,
            ) {
                mem[i]
            } else {
                now[i]
            }));
            if covers(base, s, i) {
                assert(covered(base, segments, n, i));
                assert(s.data@[i - (s.addr - base)] == mem[i]);
            }
            if covered(base, segments, n - 1, i) {
                let j = choose|j: int| 0 <= j < n - 1 && covers(base, #[trigger] segments[j], i);
                assert(covers(base, segments[j], i));
                assert(covered(base, segments, n, i));
            }
            if covered(base, segments, n, i) && !covers(base, s, i) {
                let j = choose|j: int| 0 <= j < n && covers(base, #[trigger] segments[j], i);
                assert(j < n - 1);
                assert(covered(base, segments, n - 1, i));
            }
        }
    }
}

/// The four words that, put over the start of a function, redirect it to
/// `target`: load the address behind them, jump there, the address.
pub fn inline_hook(target: u64) -> (words: [u32; 4])
    ensures
        words[0] == 0x58000050,
        words[1] == 0xD61F0200,
        words[2] + words[3] * 0x1_0000_0000 == target,
{
    [0x58000050, 0xD61F0200, (target % 0x1_0000_0000) as u32, (target / 0x1_0000_0000) as u32]
}

/// How a program is started.
#[derive(Debug, Clone, Copy, PartialEq, Eq, Structural)]
pub enum ExecRoute {
    /// Load it here and jump to its entry.
    Static,
    /// Let the dynamic linker load it and jump to its entry; where that fails,
    /// call its main function.
    Dynamic,
}

/// Why the program headers or the interpreter in `s` cannot be read.
pub open spec fn route_error(s: Seq<u8>, hdr: Ehdr) -> Option<Seq<char>> {
    match headers_error(s, hdr) {
        Some(e) => Some(e),
        None => interp_error(s, headers_of(s, hdr)),
    }
}

/// What deciding how to start the program with header `hdr` leads to.
pub open spec fn routed(s: Seq<u8>, hdr: Ehdr, result: Result<ExecRoute, String>) -> bool {
    match result {
        Err(e) => route_error(s, hdr) == Some(e@),
        Ok(route) => {
            &&& route_error(s, hdr) is None
            &&& route == (if interp_bytes(s, headers_of(s, hdr)) is Some {
                ExecRoute::Dynamic
            } else {
                ExecRoute::Static
            })
        },
    }
}

/// Decides how the program in `data` is started: one that names an interpreter
/// is dynamic.
pub fn virtual_execve(data: &[u8]) -> (result: Result<ExecRoute, String>)
    ensures
        match header_error(data@) {
            Some(reason) => result matches Err(e) && e@ == reason,
            None => exists|hdr: Ehdr| #[trigger]
                is_ehdr_of(hdr, data@) && routed(data@, hdr, result),
        },
{
    let hdr: Ehdr = match parse_header(data) {
        Ok(hdr) => hdr,
        Err(e) => {
            return Err(e);
        },
    };
    assert(is_ehdr_of(hdr, data@));
    let phdrs: Vec<Phdr> = match program_headers(data, &hdr) {
        Ok(phdrs) => phdrs,
        Err(e) => {
            return Err(e);
        },
    };
    match interpreter_path(data, phdrs.as_slice()) {
        Err(e) => Err(e),
        Ok(Some(_)) => Ok(ExecRoute::Dynamic),
        Ok(None) => Ok(ExecRoute::Static),
    }
}

/// What starting the program with header `hdr` as a static one leads to.
pub open spec fn static_planned(
    s: Seq<u8>,
    hdr: Ehdr,
    before: AddressSpace,
    after: AddressSpace,
    result: Result<LoadPlan, String>,
) -> bool {
    match route_error(s, hdr) {
        Some(reason) => after == before && (result matches Err(e) && e@ == reason),
        None => if interp_bytes(s, headers_of(s, hdr)) is Some {
            &&& after == before
            &&& result matches Err(e) && e@
                == "binary is dynamically linked \u{2014} use virtual_execve_dynamic()"@
        } else {
            exists|h: Ehdr| #[trigger] is_ehdr_of(h, s) && planned(s, h, before, after, result)
        },
    }
}

/// Plans how the static program in `data` is put into memory. A dynamic program
/// is refused.
pub fn virtual_execve_static(data: &[u8], space: &mut AddressSpace) -> (result: Result<
    LoadPlan,
    String,
>)
    ensures
        match header_error(data@) {
            Some(reason) => *final(space) == *old(space) && (result matches Err(e) && e@ == reason),
            None => exists|hdr: Ehdr| #[trigger]
                is_ehdr_of(hdr, data@) && static_planned(
                    data@,
                    hdr,
                    *old(space),
                    *final(space),
                    result,
                ),
        },
{
    let hdr: Ehdr = match parse_header(data) {
        Ok(hdr) => hdr,
        Err(e) => {
            return Err(e);
        },
    };
    assert(is_ehdr_of(hdr, data@));
    let phdrs: Vec<Phdr> = match program_headers(data, &hdr) {
        Ok(phdrs) => phdrs,
        Err(e) => {
            return Err(e);
        },
    };
    match interpreter_path(data, phdrs.as_slice()) {
        Err(e) => Err(e),
        Ok(Some(_)) => Err(
            String::from_str(
                "binary is dynamically linked \u{2014} use virtual_execve_dynamic()",
            ),
        ),
        Ok(None) => load_pie(data, space),
    }
}

/// What a look into the cache says about starting a program.
pub enum CacheAnswer {
    /// The program was not loaded before.
    Miss,
    /// The program was loaded before, and its main function is not known: it
    /// cannot be started. It has left the cache; the handle is to be closed.
    Unusable(u64),
    /// The program was loaded before. Its writable segments are to be restored
    /// as planned, and its main function is to be called.
    Hit(u64, Vec<RestoreStep>),
}

/// What a look into the cache `before` for `path` says, and what is left in it.
pub open spec fn is_cache_answer(
    before: Map<Seq<char>, EntryView>,
    path: Seq<char>,
    answer: CacheAnswer,
    after: Map<Seq<char>, EntryView>,
) -> bool {
    if !before.contains_key(path) {
        answer is Miss && after == before
    } else if before[path].main_addr == 0 {
        answer == CacheAnswer::Unusable(before[path].handle) && after == before.remove(path)
    } else {
        &&& answer matches CacheAnswer::Hit(main_addr, steps) && main_addr == before[path].main_addr
            && steps@ == restore_steps(
            before[path].saved_writable,
            before[path].saved_writable.len() as int,
        )
        &&& after == before
    }
}

/// The cache `after` is `before` with a new program at `path`.
pub open spec fn is_newly_cached(
    before: Map<Seq<char>, EntryView>,
    path: Seq<char>,
    handle: u64,
    main_addr: Option<u64>,
    saved: Seq<(u64, Seq<u8>, u32)>,
    after: Map<Seq<char>, EntryView>,
) -> bool {
    &&& after.contains_key(path)
    &&& after == before.insert(path, after[path])
    &&& after[path].handle == handle
    &&& after[path].main_addr == (match main_addr {
        Some(addr) => addr,
        None => 0,
    })
    &&& after[path].active_users == 0
    &&& snapshot_views(after[path].saved_writable) == saved
}

/// Looks into the cache for the program at `path`.
pub fn look_up_binary(cache: &mut BinaryCache, path: &String) -> (answer: CacheAnswer)
    requires
        old(cache).wf(),
        snapshots_fit(old(cache)@),
    ensures
        final(cache).wf(),
        snapshots_fit(final(cache)@),
        is_cache_answer(old(cache)@, path@, answer, final(cache)@),
        if !old(cache)@.contains_key(path@) {
            answer is Miss && final(cache)@ == old(cache)@
        } else if old(cache)@[path@].main_addr == 0 {
            &&& answer == CacheAnswer::Unusable(old(cache)@[path@].handle)
            &&& final(cache)@ == old(cache)@.remove(path@)
        } else {
            &&& answer matches CacheAnswer::Hit(main_addr, steps) && main_addr == old(
                cache,
            )@[path@].main_addr && steps@ == restore_steps(
                old(cache)@[path@].saved_writable,
                old(cache)@[path@].saved_writable.len() as int,
            )
            &&& final(cache)@ == old(cache)@
        },
{
    let unusable = match cache.get(path) {
        None => {
            return CacheAnswer::Miss;
        },
        Some(entry) => entry.main_addr == 0,
    };
    if unusable {
        return match unload_binary(cache, path) {
            Some(handle) => CacheAnswer::Unusable(handle),
            None => CacheAnswer::Miss,
        };
    }
    match cache.get(path) {
        None => CacheAnswer::Miss,
        Some(entry) => {
            assert forall|i: int| 0 <= i < entry.saved_writable@.len() implies (
            #[trigger] entry.saved_writable@[i]).addr + entry.saved_writable@[i].data@.len() + 4095
                <= u64::MAX by {
                assert(cache@[path@].saved_writable[i] == entry.saved_writable@[i]);
            }
            let steps = restore_writable_segments(&entry.saved_writable);
            CacheAnswer::Hit(entry.main_addr, steps)
        },
    }
}

/// Puts a program that the dynamic linker loaded into the cache: its snapshot is
/// taken from the image, and nobody runs it yet. An entry that was there is
/// returned.
pub fn cache_binary(
    cache: &mut BinaryCache,
    path: &String,
    handle: u64,
    main_addr: Option<u64>,
    mem: &[u8],
    base: u64,
    phdrs: &[Phdr],
) -> (replaced: Option<BinaryCacheEntry>)
    requires
        old(cache).wf(),
        snapshots_fit(old(cache)@),
        base + mem@.len() + 4095 <= u64::MAX,
    ensures
        final(cache).wf(),
        snapshots_fit(final(cache)@),
        is_newly_cached(
            old(cache)@,
            path@,
            handle,
            main_addr,
            saved_segments(mem@, base, phdrs@),
            final(cache)@,
        ),
        final(cache)@.contains_key(path@),
        final(cache)@ == old(cache)@.insert(path@, final(cache)@[path@]),
        final(cache)@[path@].handle == handle,
        final(cache)@[path@].main_addr == (match main_addr {
            Some(addr) => addr,
            None => 0,
        }),
        final(cache)@[path@].active_users == 0,
        snapshot_views(final(cache)@[path@].saved_writable) == saved_segments(mem@, base, phdrs@),
        match replaced {
            Some(e) => old(cache)@.contains_key(path@) && old(cache)@[path@] == e@,
            None => !old(cache)@.contains_key(path@),
        },
{
    let saved_writable = save_writable_segments(mem, base, phdrs);
    proof {
        lemma_saved_inside(mem@, base, phdrs@);
        assert forall|i: int| 0 <= i < saved_writable@.len() implies (
        #[trigger] saved_writable@[i]).addr + saved_writable@[i].data@.len() + 4095 <= u64::MAX by {
            assert(snapshot_views(saved_writable@)[i] == (
                saved_writable@[i].addr,
                saved_writable@[i].data@,
                saved_writable@[i].orig_flags,
            ));
        }
    }
    let entry = BinaryCacheEntry {
        path: path.clone(),
        main_addr: match main_addr {
            Some(addr) => addr,
            None => 0,
        },
        handle,
        saved_writable,
        active_users: 0,
    };
    let ghost added = entry@;
    let replaced = cache.insert(entry);
    proof {
        assert(cache@[path@] == added);
        assert forall|p: Seq<char>, i: int|
            #![trigger cache@[p].saved_writable[i]]
            cache@.contains_key(p) && 0 <= i < cache@[p].saved_writable.len() implies cache@[p].saved_writable[i].addr
                + cache@[p].saved_writable[i].data@.len() + 4095 <= u64::MAX by {
            if p == path@ {
                assert(cache@[p].saved_writable[i] == saved_writable@[i]);
            } else {
                assert(cache@[p].saved_writable[i] == old(cache)@[p].saved_writable[i]);
            }
        }
    }
    replaced
}

proof fn lemma_saved_inside(mem: Seq<u8>, base: u64, phdrs: Seq<Phdr>)
    requires
        base + mem.len() <= u64::MAX,
    ensures
        forall|i: int|
            0 <= i < saved_segments(mem, base, phdrs).len() ==> (#[trigger] saved_segments(
                mem,
                base,
                phdrs,
            )[i]).0 + saved_segments(mem, base, phdrs)[i].1.len() <= base + mem.len(),
    decreases phdrs.len(),
{
    if phdrs.len() > 0 {
        let before = saved_segments(mem, base, phdrs.drop_last());
        let all = saved_segments(mem, base, phdrs);
        lemma_saved_inside(mem, base, phdrs.drop_last());
        assert forall|i: int| 0 <= i < all.len() implies (#[trigger] all[i]).0 + all[i].1.len()
            <= base + mem.len() by {
            if i < before.len() {
                assert(all[i] == before[i]);
            }
        }
    }
}

/// The end of the last LOAD segment, as an offset into the image.
pub open spec fn extent_of(phdrs: Seq<Phdr>) -> int
    decreases phdrs.len(),
{
    if phdrs.len() == 0 {
        0
    } else {
        let before = extent_of(phdrs.drop_last());
        let phdr = phdrs.last();
        if phdr.p_type == PT_LOAD && before < phdr.p_vaddr + phdr.p_memsz {
            phdr.p_vaddr + phdr.p_memsz
        } else {
            before
        }
    }
}

proof fn lemma_extent_grows(phdrs: Seq<Phdr>, i: int)
    requires
        0 <= i <= phdrs.len(),
    ensures
        0 <= extent_of(phdrs.take(i)) <= extent_of(phdrs),
    decreases phdrs.len(),
{
    if i < phdrs.len() {
        lemma_extent_grows(phdrs.drop_last(), i);
        assert(phdrs.drop_last().take(i) =~= phdrs.take(i));
    } else {
        assert(phdrs.take(i) =~= phdrs);
        if phdrs.len() > 0 {
            lemma_extent_grows(phdrs.drop_last(), 0);
        }
    }
}

/// How many bytes of memory the image of a program at `base` takes up; `None`
/// where it, rounded up to a page, is beyond the end of the address space.
pub fn image_extent(base: u64, phdrs: &[Phdr]) -> (extent: Option<u64>)
    ensures
        match extent {
            Some(n) => n == extent_of(phdrs@) && base + n + 4095 <= u64::MAX,
            None => base + extent_of(phdrs@) + 4095 > u64::MAX,
        },
{
    let mut end: u64 = 0;
    let mut i: usize = 0;
    while i < phdrs.len()
        invariant
            i <= phdrs@.len(),
            end == extent_of(phdrs@.take(i as int)),
        decreases phdrs.len() - i,
    {
        assert(phdrs@.take(i + 1).drop_last() =~= phdrs@.take(i as int));
        let phdr: Phdr = phdrs[i];
        if phdr.p_type == PT_LOAD {
            if phdr.p_memsz > u64::MAX - phdr.p_vaddr {
                proof {
                    lemma_extent_grows(phdrs@, i + 1);
                }
                return None;
            }
            if end < phdr.p_vaddr + phdr.p_memsz {
                end = phdr.p_vaddr + phdr.p_memsz;
            }
        }
        i = i + 1;
    }
    assert(phdrs@.take(i as int) =~= phdrs@);
    if end > u64::MAX - 4095 || base > u64::MAX - 4095 - end {
        return None;
    }
    Some(end)
}

/// The image of a program that the dynamic linker loaded at `base`; `None` where
/// its addresses are beyond the end of the address space.
pub fn linked_image(hdr: &Ehdr, base: u64) -> (image: Option<LoadedImage>)
    ensures
        match image {
            Some(i) => {
                &&& i.base == base
                &&& i.total_size == 0
                &&& i.entry == base + hdr.e_entry
                &&& i.phdr_addr == base + hdr.e_phoff
                &&& i.phnum == hdr.e_phnum
                &&& i.phentsize == hdr.e_phentsize
                &&& i.interp_path is None
            },
            None => base + hdr.e_entry > u64::MAX || base + hdr.e_phoff > u64::MAX,
        },
{
    if hdr.e_entry > u64::MAX - base || hdr.e_phoff > u64::MAX - base {
        return None;
    }
    Some(
        LoadedImage {
            base,
            total_size: 0,
            entry: base + hdr.e_entry,
            phdr_addr: base + hdr.e_phoff,
            phnum: hdr.e_phnum,
            phentsize: hdr.e_phentsize,
            interp_path: None,
        },
    )
}

/// The tables after process `vpid` took over the descriptors of the process that
/// started it: all but those marked close-on-exec.
pub open spec fn tables_inherited(
    all: FdTablesView,
    current: Option<VPid>,
    vpid: VPid,
) -> FdTablesView {
    let forked = match current {
        Some(pid) => all.with(vpid, all.table_or_new(pid)),
        None => all,
    };
    if forked.tables.contains_key(vpid) {
        forked.with(vpid, forked.tables[vpid].after_exec())
    } else {
        forked
    }
}

/// Process `vpid` takes over the descriptors of the process `current` that
/// started it, without those marked close-on-exec. Returns the files that no
/// process refers to any more: their kernel descriptors are to be closed.
pub fn inherit_descriptors(
    tables: &mut FdTables,
    pipes: &mut PipeStore,
    current: Option<VPid>,
    vpid: VPid,
) -> (files: Vec<FileRef>)
    requires
        old(pipes).wf(),
        old(tables)@.wf(),
    ensures
        final(pipes).wf(),
        final(pipes).ids_left() == old(pipes).ids_left(),
        final(tables)@.wf(),
        final(tables)@ == tables_inherited(old(tables)@, current, vpid),
        final(pipes)@ == (match current {
            Some(pid) => old(tables)@.pipes_after_fork(pid, vpid, old(pipes)@),
            None => old(pipes)@,
        }),
        hands_out(old(tables)@, final(tables)@, files@),
{
    let mut files: Vec<FileRef> = match current {
        Some(pid) => fork_fd_table(tables, pipes, pid, vpid),
        None => Vec::new(),
    };
    let ghost forked = tables@;
    let ghost files0 = files@;
    let mut closed: Vec<FileRef> = close_cloexec(tables, vpid);
    let ghost closed0 = closed@;
    files.append(&mut closed);
    proof {
        assert forall|file: FileRef| #[trigger] forked.mentions_file(file) implies old(
            tables,
        )@.mentions_file(file) by {
            lemma_fork_mentions(old(tables)@, current, vpid, file);
        }
        assert forall|file: FileRef| #[trigger] tables@.mentions_file(file) implies forked.mentions_file(
            file,
        ) by {
            let p = choose|p: u32| #[trigger]
                tables@.tables.contains_key(p) && tables@.tables[p].mentions_file(file);
            let fd = choose|fd: u32| #[trigger]
                tables@.tables[p].fds.contains_key(fd) && tables@.tables[p].fds[fd]
                    == crate::vfd::Vfd::File(file);
            assert(forked.tables[p].fds.contains_key(fd));
            assert(forked.tables.contains_key(p));
        }
        lemma_hands_out_chain(old(tables)@, forked, tables@, files0, closed0);
    }
    files
}

proof fn lemma_fork_mentions(all: FdTablesView, current: Option<VPid>, vpid: VPid, file: FileRef)
    ensures
        ({
            let forked = match current {
                Some(pid) => all.with(vpid, all.table_or_new(pid)),
                None => all,
            };
            forked.mentions_file(file) ==> all.mentions_file(file)
        }),
{
    if let Some(pid) = current {
        let forked = all.with(vpid, all.table_or_new(pid));
        if forked.mentions_file(file) {
            let p = choose|p: u32| #[trigger]
                forked.tables.contains_key(p) && forked.tables[p].mentions_file(file);
            if p == vpid && !all.tables.contains_key(pid) {
                let fd = choose|fd: u32| #[trigger]
                    forked.tables[p].fds.contains_key(fd) && forked.tables[p].fds[fd]
                        == crate::vfd::Vfd::File(file);
                assert(false);
            } else if p == vpid {
                assert(all.tables.contains_key(pid));
            } else {
                assert(all.tables.contains_key(p));
            }
        }
    }
}

/// What starting a process leaves to be done.
pub struct Started {
    pub vpid: VPid,
    /// Files whose kernel descriptors are to be closed.
    pub files: Vec<FileRef>,
}

/// The scheduler after a process `co` was started at the end of the queue, with
/// C strings `c_strings` and program `path`.
pub open spec fn ex_started(
    ex: ExecutorView,
    co: CoroView,
    c_strings: Seq<usize>,
    path: Seq<char>,
) -> ExecutorView {
    let pid = ex.next_pid;
    ex.registered(CoroView { c_strings, binary_path: Some(path), ..co }).queued(pid)
}

/// What has to be done with a program that the dynamic linker has just loaded,
/// before it runs.
pub struct FirstLoad {
    pub image: LoadedImage,
    /// Address of its main function, where it was found.
    pub main_addr: Option<u64>,
    /// Words of the image to be zeroed.
    pub init_offsets: Vec<u64>,
    pub got: GotPlan,
    /// All that is to be done to the image, in order.
    pub steps: Vec<ImageStep>,
}

/// One thing to be done to a program that was just loaded.
#[derive(Debug, Clone, Copy, PartialEq, Eq, Structural)]
pub enum ImageStep {
    /// Zero the word at this offset into the image.
    Zero(u64),
    /// Redirect this function of the C library.
    Redirect(Hook),
    /// Make the pages at this address writable.
    Unlock(u64),
    /// Let the word at this address point to an interceptor.
    Patch(u64, Hook),
    /// Make the pages at this address read-only again.
    Lock(u64),
    /// Take the snapshot of the writable segments, and put the program into the
    /// cache.
    Snapshot,
}

/// What is done to a program that was just loaded, in order: its initialisers are
/// disarmed, `exit` and `execve` of the C library are redirected, its own calls
/// are redirected, and only then the snapshot is taken.
pub open spec fn first_load_steps(
    init_offsets: Seq<u64>,
    pages: Seq<u64>,
    patches: Seq<(u64, Hook)>,
) -> Seq<ImageStep> {
    init_offsets.map_values(|offset: u64| ImageStep::Zero(offset))
        + seq![ImageStep::Redirect(Hook::Exit), ImageStep::Redirect(Hook::Execve)]
        + pages.map_values(|page: u64| ImageStep::Unlock(page)) + patches.map_values(
        |patch: (u64, Hook)| ImageStep::Patch(patch.0, patch.1),
    ) + pages.map_values(|page: u64| ImageStep::Lock(page)) + seq![ImageStep::Snapshot]
}

/// The steps for a program that was just loaded.
fn order_first_load(init_offsets: &Vec<u64>, got: &GotPlan) -> (steps: Vec<ImageStep>)
    ensures
        steps@ == first_load_steps(init_offsets@, got.pages@, got.patches@),
{
    let mut steps: Vec<ImageStep> = Vec::new();
    let ghost zeros = init_offsets@.map_values(|offset: u64| ImageStep::Zero(offset));
    let ghost unlocks = got.pages@.map_values(|page: u64| ImageStep::Unlock(page));
    let ghost locks = got.pages@.map_values(|page: u64| ImageStep::Lock(page));
    let ghost patches = got.patches@.map_values(
        |patch: (u64, Hook)| ImageStep::Patch(patch.0, patch.1),
    );
    let mut i: usize = 0;
    while i < init_offsets.len()
        invariant
            i <= init_offsets@.len(),
            zeros == init_offsets@.map_values(|offset: u64| ImageStep::Zero(offset)),
            steps@ =~= zeros.take(i as int),
        decreases init_offsets.len() - i,
    {
        steps.push(ImageStep::Zero(init_offsets[i]));
        i = i + 1;
    }
    steps.push(ImageStep::Redirect(Hook::Exit));
    steps.push(ImageStep::Redirect(Hook::Execve));
    let ghost start = zeros + seq![
        ImageStep::Redirect(Hook::Exit),
        ImageStep::Redirect(Hook::Execve),
    ];
    assert(steps@ =~= start);
    i = 0;
    while i < got.pages.len()
        invariant
            i <= got.pages@.len(),
            unlocks == got.pages@.map_values(|page: u64| ImageStep::Unlock(page)),
            steps@ =~= start + unlocks.take(i as int),
        decreases got.pages.len() - i,
    {
        steps.push(ImageStep::Unlock(got.pages[i]));
        i = i + 1;
    }
    assert(steps@ =~= start + unlocks);
    i = 0;
    while i < got.patches.len()
        invariant
            i <= got.patches@.len(),
            patches == got.patches@.map_values(
                |patch: (u64, Hook)| ImageStep::Patch(patch.0, patch.1),
            ),
            steps@ =~= start + unlocks + patches.take(i as int),
        decreases got.patches.len() - i,
    {
        let patch: (u64, Hook) = got.patches[i];
        steps.push(ImageStep::Patch(patch.0, patch.1));
        i = i + 1;
    }
    assert(steps@ =~= start + unlocks + patches);
    i = 0;
    while i < got.pages.len()
        invariant
            i <= got.pages@.len(),
            locks == got.pages@.map_values(|page: u64| ImageStep::Lock(page)),
            steps@ =~= start + unlocks + patches + locks.take(i as int),
        decreases got.pages.len() - i,
    {
        steps.push(ImageStep::Lock(got.pages[i]));
        i = i + 1;
    }
    steps.push(ImageStep::Snapshot);
    assert(steps@ =~= first_load_steps(init_offsets@, got.pages@, got.patches@));
    steps
}

/// The snapshot is taken once, and after every change to the image: what is
/// written back later is disarmed and redirected too.
pub proof fn law_snapshot_comes_last(
    init_offsets: Seq<u64>,
    pages: Seq<u64>,
    patches: Seq<(u64, Hook)>,
    i: int,
)
    requires
        0 <= i < first_load_steps(init_offsets, pages, patches).len(),
    ensures
        first_load_steps(init_offsets, pages, patches)[i] == ImageStep::Snapshot <==> i
            == first_load_steps(init_offsets, pages, patches).len() - 1,
{
}

/// Prepares a program that the dynamic linker has just loaded at `base`: finds
/// its main function, and decides on all that is done to its image, in order, up
/// to the snapshot with which it enters the cache. Fails where its addresses are
/// beyond the end of the address space.
pub fn virtual_execve_via_entry(hdr: &Ehdr, phdrs: &[Phdr], mem: &[u8], base: u64) -> (result:
    Result<FirstLoad, String>)
    requires
        base + mem@.len() <= u64::MAX,
    ensures
        match result {
            Err(e) => {
                &&& base + hdr.e_entry > u64::MAX || base + hdr.e_phoff > u64::MAX
                &&& e@ == "offset overflow"@
            },
            Ok(first) => {
                let entry = (base + hdr.e_entry) as u64;
                let code = entry_code(mem@, base, entry);
                &&& base + hdr.e_entry <= u64::MAX
                &&& base + hdr.e_phoff <= u64::MAX
                &&& first.image.base == base
                &&& first.image.total_size == 0
                &&& first.image.entry == base + hdr.e_entry
                &&& first.image.phdr_addr == base + hdr.e_phoff
                &&& first.image.phnum == hdr.e_phnum
                &&& first.image.phentsize == hdr.e_phentsize
                &&& first.image.interp_path is None
                &&& first.main_addr == first_code_address(
                    mem@,
                    base,
                    main_slots(entry, code, code.len() as int),
                )
                &&& match first_of(phdrs@, PT_DYNAMIC) {
                    None => first.init_offsets@.len() == 0,
                    Some(phdr) => first.init_offsets@ == init_offsets(
                        image_dyns(mem@, phdrs@),
                        phdr.p_vaddr as int,
                        image_dyns(mem@, phdrs@).len() as int,
                    ),
                }
                &&& first.got.patches@ == got_patches(mem@, base, phdrs@)
                &&& are_pages_of(first.got.pages@, first.got.patches@)
                &&& first.steps@ == first_load_steps(
                    first.init_offsets@,
                    first.got.pages@,
                    first.got.patches@,
                )
            },
        },
{
    match linked_image(hdr, base) {
        None => Err(String::from_str("offset overflow")),
        Some(image) => {
            let main_addr: Option<u64> = extract_main_addr(mem, base, image.entry);
            let init_offsets: Vec<u64> = clear_init_arrays(mem, phdrs);
            let got = patch_got_for_loaded_binary(mem, base, phdrs);
            let steps = order_first_load(&init_offsets, &got);
            Ok(FirstLoad { image, main_addr, init_offsets, got, steps })
        },
    }
}

/// Starts a process that calls a function of a program that the dynamic linker
/// loaded; it has C strings of its own.
pub fn virtual_execve_dynamic(ex: &mut Executor, c_strings: Vec<usize>) -> (exec: VirtualExec)
    requires
        old(ex)@.wf(),
        old(ex)@.next_pid < u32::MAX,
    ensures
        final(ex)@.wf(),
        exec.vpid == old(ex)@.next_pid,
        final(ex)@ == old(ex)@.registered(
            (CoroView { c_strings: c_strings@, ..CoroView::fresh(exec.vpid) }),
        ).queued(exec.vpid),
{
    let vpid: VPid = ex.spawn();
    ex.register_c_strings(vpid, c_strings);
    assert(ex@ =~= old(ex)@.registered(
        (CoroView { c_strings: c_strings@, ..CoroView::fresh(vpid) }),
    ).queued(vpid));
    VirtualExec { vpid }
}

/// Starts a process that calls the main function of a cached program.
pub fn start_cached(
    ex: &mut Executor,
    tables: &mut FdTables,
    pipes: &mut PipeStore,
    cache: &mut BinaryCache,
    path: &String,
    c_strings: Vec<usize>,
) -> (started: Started)
    requires
        old(ex)@.wf(),
        old(ex)@.next_pid < u32::MAX,
        old(tables)@.wf(),
        old(pipes).wf(),
        old(cache).wf(),
    ensures
        final(ex)@.wf(),
        final(tables)@.wf(),
        final(pipes).wf(),
        final(pipes).ids_left() == old(pipes).ids_left(),
        final(cache).wf(),
        started.vpid == old(ex)@.next_pid,
        final(ex)@ == ex_started(old(ex)@, CoroView::fresh(started.vpid), c_strings@, path@),
        final(cache)@ == user_added(old(cache)@, path@),
        snapshots_fit(old(cache)@) ==> snapshots_fit(final(cache)@),
        final(tables)@ == tables_inherited(old(tables)@, old(ex)@.current, started.vpid),
        final(pipes)@ == (match old(ex)@.current {
            Some(pid) => old(tables)@.pipes_after_fork(pid, started.vpid, old(pipes)@),
            None => old(pipes)@,
        }),
        hands_out(old(tables)@, final(tables)@, started.files@),
{
    let current: Option<VPid> = ex.current_pid();
    let vpid: VPid = ex.spawn();
    ex.register_c_strings(vpid, c_strings);
    track_binary_user(ex, cache, vpid, path);
    assert(ex@ =~= ex_started(old(ex)@, CoroView::fresh(vpid), c_strings@, path@));
    let files = inherit_descriptors(tables, pipes, current, vpid);
    Started { vpid, files }
}

/// Starts a process that jumps to the entry of a program that the dynamic linker
/// has just loaded. Also returns what its stack has to hold.
pub fn start_loaded(
    ex: &mut Executor,
    tables: &mut FdTables,
    pipes: &mut PipeStore,
    cache: &mut BinaryCache,
    path: &String,
    c_strings: Vec<usize>,
    stack_base: usize,
    stack_size: usize,
    argv: &[u64],
    envp: &[u64],
    auxv: &[[u64; 2]],
) -> (result: (Started, ElfStack))
    requires
        old(ex)@.wf(),
        old(ex)@.next_pid < u32::MAX,
        old(tables)@.wf(),
        old(pipes).wf(),
        old(cache).wf(),
        stack_base + stack_size <= usize::MAX,
        stack_bytes(stack_word_count(argv@.len(), envp@.len(), auxv@.len())) <= stack_size,
    ensures
        final(ex)@.wf(),
        final(tables)@.wf(),
        final(pipes).wf(),
        final(pipes).ids_left() == old(pipes).ids_left(),
        final(cache).wf(),
        result.0.vpid == old(ex)@.next_pid,
        result.1.words@ == stack_words(argv@.len() as u64, argv@, envp@, auxv@),
        result.1.sp == stack_base + stack_size - stack_bytes(result.1.words@.len() as int),
        final(ex)@ == ex_started(
            old(ex)@,
            (CoroView {
                stack_alloc: Some((stack_base, stack_size)),
                ..CoroView::fresh(result.0.vpid)
            }),
            c_strings@,
            path@,
        ),
        final(cache)@ == user_added(old(cache)@, path@),
        snapshots_fit(old(cache)@) ==> snapshots_fit(final(cache)@),
        final(tables)@ == tables_inherited(old(tables)@, old(ex)@.current, result.0.vpid),
        final(pipes)@ == (match old(ex)@.current {
            Some(pid) => old(tables)@.pipes_after_fork(pid, result.0.vpid, old(pipes)@),
            None => old(pipes)@,
        }),
        hands_out(old(tables)@, final(tables)@, result.0.files@),
{
    let current: Option<VPid> = ex.current_pid();
    let (vpid, stack) = ex.spawn_elf(
        stack_base,
        stack_size,
        argv.len() as u64,
        argv,
        envp,
        auxv,
    );
    ex.register_c_strings(vpid, c_strings);
    track_binary_user(ex, cache, vpid, path);
    assert(ex@ =~= ex_started(
        old(ex)@,
        (CoroView { stack_alloc: Some((stack_base, stack_size)), ..CoroView::fresh(vpid) }),
        c_strings@,
        path@,
    ));
    let files = inherit_descriptors(tables, pipes, current, vpid);
    (Started { vpid, files }, stack)
}

/// Starts a process that jumps to the entry of a static program at `image`. Also
/// returns what its stack has to hold.
pub fn start_static(
    ex: &mut Executor,
    image_base: usize,
    image_size: usize,
    c_strings: Vec<usize>,
    stack_base: usize,
    stack_size: usize,
    argv: &[u64],
    envp: &[u64],
    auxv: &[[u64; 2]],
) -> (result: (VirtualExec, ElfStack))
    requires
        old(ex)@.wf(),
        old(ex)@.next_pid < u32::MAX,
        stack_base + stack_size <= usize::MAX,
        stack_bytes(stack_word_count(argv@.len(), envp@.len(), auxv@.len())) <= stack_size,
    ensures
        final(ex)@.wf(),
        result.0.vpid == old(ex)@.next_pid,
        result.1.words@ == stack_words(argv@.len() as u64, argv@, envp@, auxv@),
        result.1.sp == stack_base + stack_size - stack_bytes(result.1.words@.len() as int),
        final(ex)@ == old(ex)@.registered(
            (CoroView {
                stack_alloc: Some((stack_base, stack_size)),
                c_strings: c_strings@,
                mapped_regions: seq![(image_base, image_size)],
                ..CoroView::fresh(result.0.vpid)
            }),
        ).queued(result.0.vpid),
{
    let (vpid, stack) = ex.spawn_elf(
        stack_base,
        stack_size,
        argv.len() as u64,
        argv,
        envp,
        auxv,
    );
    ex.register_c_strings(vpid, c_strings);
    ex.register_mapped_region(vpid, image_base, image_size);
    assert(ex@ =~= old(ex)@.registered(
        (CoroView {
            stack_alloc: Some((stack_base, stack_size)),
            c_strings: c_strings@,
            mapped_regions: seq![(image_base, image_size)],
            ..CoroView::fresh(vpid)
        }),
    ).queued(vpid));
    (VirtualExec { vpid }, stack)
}

/// A process that was started with a new program keeps the descriptors of the
/// process that started it, except those of files marked close-on-exec.
pub proof fn law_exec_keeps_descriptors(all: FdTablesView, pid: VPid, vpid: VPid, fd: u32)
    requires
        all.tables.contains_key(pid),
        pid != vpid,
    ensures
        ({
            let after = tables_inherited(all, Some(pid), vpid);
            let before = crate::tables::lookup_vfd(all, pid, fd);
            &&& crate::tables::lookup_vfd(after, pid, fd) == before
            &&& crate::tables::lookup_vfd(after, vpid, fd) == (match before {
                Some(crate::vfd::Vfd::File(file)) if file.cloexec => None,
                other => other,
            })
        }),
{
}

/// An `adrp` into register `rd` with the page distance `hi * 4 + lo`, a signed
/// number of 21 bits, is recognised as one into that register and no other, and
/// refers to the page that many pages from its own.
pub proof fn law_adrp_decoded(pc: u64, insn: u32, lo: u32, hi: u32, rd: u32, other: u32)
    requires
        lo < 4,
        hi < 0x8_0000,
        rd < 32,
        insn == 0x9000_0000 + 0x2000_0000 * lo + 32 * hi + rd,
    ensures
        is_adrp(insn, other) <==> other == rd,
        ({
            let distance = if hi * 4 + lo < 0x10_0000 {
                hi * 4 + lo
            } else {
                hi * 4 + lo - 0x20_0000
            };
            adrp_page(pc, insn) == (pc - pc % 4096 + 4096 * distance) % 0x1_0000_0000_0000_0000
        }),
{
    assert((insn / 32) % 0x8_0000 == hi && (insn / 0x2000_0000) % 4 == lo && insn & 0x9F000000
        == 0x90000000 && insn & 0x1F == rd) by (bit_vector)
        requires
            lo < 4,
            hi < 0x8_0000,
            rd < 32,
            insn == 0x9000_0000 + 0x2000_0000 * lo + 32 * hi + rd,
    ;
    assert(page_down(pc as int) == pc - pc % 4096);
}

/// Nothing else is taken for an `adrp`.
pub proof fn law_only_adrp_decoded(insn: u32, rd: u32)
    requires
        is_adrp(insn, rd),
    ensures
        rd < 32,
        insn == 0x9000_0000 + 0x2000_0000 * ((insn / 0x2000_0000) % 4) + 32 * ((insn / 32)
            % 0x8_0000) + rd,
{
    assert(insn & 0x1F < 32) by (bit_vector);
    assert(insn & 0x9F000000 == 0x90000000 ==> insn == 0x9000_0000 + 0x2000_0000 * ((insn
        / 0x2000_0000) % 4) + 32 * ((insn / 32) % 0x8_0000) + (insn & 0x1F)) by (bit_vector);
}

/// A load of x2 from register `rn` at distance `8 * imm` is recognised, with its
/// register and its distance, and nothing else is taken for one.
pub proof fn law_load_decoded(insn: u32, imm: u32, rn: u32)
    requires
        imm < 4096,
        rn < 32,
    ensures
        loads_x2(insn) && base_register(insn) == rn && imm12(insn) == imm <==> insn
            == 0xF940_0002 + 0x400 * imm + 0x20 * rn,
{
    assert((insn & 0xFFC0001F == 0xF9400002 && (insn >> 5) & 0x1F == rn && (insn >> 10) & 0xFFF
        == imm) <==> insn == 0xF940_0002 + 0x400 * imm + 0x20 * rn) by (bit_vector)
        requires
            imm < 4096,
            rn < 32,
    ;
}

/// An addition of `imm` to register `rd` is recognised, and nothing else is taken
/// for one.
pub proof fn law_add_decoded(insn: u32, imm: u32, rd: u32)
    requires
        imm < 4096,
        rd < 32,
    ensures
        is_add(insn, rd) && imm12(insn) == imm <==> insn == 0x9100_0000 + 0x400 * imm + 0x20 * rd
            + rd,
{
    assert((insn & 0xFFC00000 == 0x91000000 && insn & 0x1F == rd && (insn >> 5) & 0x1F == rd && (
    insn >> 10) & 0xFFF == imm) <==> insn == 0x9100_0000 + 0x400 * imm + 0x20 * rd + rd) by (
    bit_vector)
        requires
            imm < 4096,
            rd < 32,
    ;
}

/// The last addition before the load counts, and 0 where there is none.
pub proof fn law_last_addition_counts(code: Seq<u32>, register: u32, from: int, to: int, k: int)
    requires
        0 <= from <= to <= code.len(),
    ensures
        from <= k < to && is_add(code[k], register) && (forall|j: int|
            k < j < to ==> !is_add(#[trigger] code[j], register)) ==> last_addend(
            code,
            register,
            from,
            to,
        ) == imm12(code[k]),
        (forall|j: int| from <= j < to ==> !is_add(#[trigger] code[j], register)) ==> last_addend(
            code,
            register,
            from,
            to,
        ) == 0,
    decreases to - from,
{
    if from < to && !is_add(code[to - 1], register) {
        law_last_addition_counts(code, register, from, to - 1, k);
    }
}

/// The place that `main` is loaded from is found: where instruction `i` loads x2, and
/// instruction `j` before it is an `adrp` into the base register of that load, the
/// page of the `adrp`, the immediate of the last addition to the register in between
/// and the distance of the load make up one of the addresses; and each address is
/// found that way.
pub proof fn law_main_slots(entry: u64, code: Seq<u32>, n: int, slot: u64)
    requires
        0 <= n <= code.len(),
        code.len() <= 48,
    ensures
        main_slots(entry, code, n).contains(slot) <==> exists|i: int, j: int|
            0 <= j < i < n && loads_x2(#[trigger] code[i]) && is_adrp(
                #[trigger] code[j],
                (code[i] >> 5) & 0x1F,
            ) && slot == (adrp_page(
                ((entry + 4 * j) % 0x1_0000_0000_0000_0000) as u64,
                code[j],
            ) + last_addend(code, (code[i] >> 5) & 0x1F, j + 1, i) + 8 * ((code[i] >> 10) & 0xFFF))
                % 0x1_0000_0000_0000_0000,
    decreases n,
{
    if n > 0 {
        law_main_slots(entry, code, n - 1, slot);
        let before = main_slots(entry, code, n - 1);
        let all = main_slots(entry, code, n);
        if loads_x2(code[n - 1]) {
            let here = addresses_for(entry, code, n - 1, n - 1);
            lemma_addresses_for(entry, code, n - 1, n - 1, slot);
            assert(all.contains(slot) <==> before.contains(slot) || here.contains(slot)) by {
                if before.contains(slot) {
                    let k = choose|k: int| 0 <= k < before.len() && before[k] == slot;
                    assert(all[k] == slot);
                }
                if here.contains(slot) {
                    let k = choose|k: int| 0 <= k < here.len() && here[k] == slot;
                    assert(all[before.len() + k] == slot);
                }
            }
            assert forall|j: int| 0 <= j < n - 1 implies #[trigger] load_address(
                entry,
                code,
                n - 1,
                j,
            ) == (adrp_page(((entry + 4 * j) % 0x1_0000_0000_0000_0000) as u64, code[j])
                + last_addend(code, (code[n - 1] >> 5) & 0x1F, j + 1, n - 1) + 8 * ((code[n - 1]
                >> 10) & 0xFFF)) % 0x1_0000_0000_0000_0000 by {
                lemma_load_address(entry, code, n - 1, j);
            }
            if here.contains(slot) {
                let j = choose|j: int|
                    0 <= j < n - 1 && is_adrp(#[trigger] code[j], base_register(code[n - 1]))
                        && slot == load_address(entry, code, n - 1, j);
                assert(loads_x2(code[n - 1]) && is_adrp(code[j], (code[n - 1] >> 5) & 0x1F));
            }
        }
    }
}

proof fn lemma_load_address(entry: u64, code: Seq<u32>, i: int, j: int)
    requires
        0 <= j < i < code.len(),
        code.len() <= 48,
    ensures
        load_address(entry, code, i, j) == (adrp_page(
            ((entry + 4 * j) % 0x1_0000_0000_0000_0000) as u64,
            code[j],
        ) + last_addend(code, (code[i] >> 5) & 0x1F, j + 1, i) + 8 * ((code[i] >> 10) & 0xFFF))
            % 0x1_0000_0000_0000_0000,
{
    let insn = code[i];
    assert((insn >> 10) & 0xFFF <= 0xFFF) by (bit_vector);
    let register = base_register(insn);
    let pc = entry.wrapping_add((j * 4) as u64);
    assert(pc == (entry + 4 * j) % 0x1_0000_0000_0000_0000);
    let page = adrp_page(pc, code[j]);
    let addend = last_addend(code, register, j + 1, i);
    let first = page.wrapping_add(addend as u64);
    assert(first == page + addend || first == page + addend - 0x1_0000_0000_0000_0000);
    let distance = (imm12(insn) * 8) as u64;
    assert(distance == 8 * ((insn >> 10) & 0xFFF));
}

proof fn lemma_addresses_for(entry: u64, code: Seq<u32>, i: int, j: int, slot: u64)
    requires
        0 <= j <= i < code.len(),
    ensures
        addresses_for(entry, code, i, j).contains(slot) <==> exists|k: int|
            0 <= k < j && is_adrp(#[trigger] code[k], base_register(code[i])) && slot
                == load_address(entry, code, i, k),
    decreases j,
{
    if j > 0 {
        lemma_addresses_for(entry, code, i, j - 1, slot);
        let rest = addresses_for(entry, code, i, j - 1);
        let all = addresses_for(entry, code, i, j);
        if is_adrp(code[j - 1], base_register(code[i])) {
            assert(all[0] == load_address(entry, code, i, j - 1));
            assert(all.contains(slot) <==> rest.contains(slot) || slot == load_address(
                entry,
                code,
                i,
                j - 1,
            )) by {
                if rest.contains(slot) {
                    let k = choose|k: int| 0 <= k < rest.len() && rest[k] == slot;
                    assert(all[k + 1] == slot);
                }
                if all.contains(slot) {
                    let k = choose|k: int| 0 <= k < all.len() && all[k] == slot;
                    if k > 0 {
                        assert(rest[k - 1] == slot);
                    }
                }
            }
        }
    }
}

/// Earlier loads come first, and for one load the nearest `adrp` before it.
pub proof fn law_main_slots_in_order(entry: u64, code: Seq<u32>, m: int, n: int, j: int)
    requires
        0 <= m <= n <= code.len(),
    ensures
        main_slots(entry, code, m).len() <= main_slots(entry, code, n).len(),
        main_slots(entry, code, n).take(main_slots(entry, code, m).len() as int) == main_slots(
            entry,
            code,
            m,
        ),
        0 <= j < m < n && loads_x2(code[m]) && is_adrp(code[j], base_register(code[m])) && (forall|k:
            int| j < k < m ==> !is_adrp(#[trigger] code[k], base_register(code[m])))
            ==> main_slots(entry, code, m).len() < main_slots(entry, code, n).len() && main_slots(
            entry,
            code,
            n,
        )[main_slots(entry, code, m).len() as int] == load_address(entry, code, m, j),
    decreases n - m,
{
    let first = main_slots(entry, code, m);
    let all = main_slots(entry, code, n);
    if m < n {
        law_main_slots_in_order(entry, code, m + 1, n, j);
        let next = main_slots(entry, code, m + 1);
        assert(next.take(first.len() as int) =~= first);
        assert(all.take(first.len() as int) =~= all.take(next.len() as int).take(
            first.len() as int,
        ));
        if 0 <= j < m && loads_x2(code[m]) && is_adrp(code[j], base_register(code[m])) && (forall|k:
            int| j < k < m ==> !is_adrp(#[trigger] code[k], base_register(code[m]))) {
            lemma_nearest(entry, code, m, m, j);
            assert(next[first.len() as int] == load_address(entry, code, m, j));
            assert(all.take(next.len() as int)[first.len() as int] == all[first.len() as int]);
        }
    } else {
        assert(all.take(first.len() as int) =~= first);
    }
}

proof fn lemma_nearest(entry: u64, code: Seq<u32>, i: int, to: int, j: int)
    requires
        0 <= j < to <= i < code.len(),
        is_adrp(code[j], base_register(code[i])),
        forall|k: int| j < k < to ==> !is_adrp(#[trigger] code[k], base_register(code[i])),
    ensures
        addresses_for(entry, code, i, to).len() > 0,
        addresses_for(entry, code, i, to)[0] == load_address(entry, code, i, j),
    decreases to,
{
    if j < to - 1 {
        assert(!is_adrp(code[to - 1], base_register(code[i])));
        lemma_nearest(entry, code, i, to - 1, j);
    }
}

/// The address of `main` is the word at the first of the addresses that is inside of
/// the image and holds the address of an instruction.
pub proof fn law_first_address_counts(mem: Seq<u8>, base: u64, slots: Seq<u64>, k: int)
    ensures
        ({
            let good = |slot: u64|
                base <= slot && slot + 8 <= base + mem.len() && u64_at(mem, slot - base) != 0
                    && u64_at(mem, slot - base) % 4 == 0;
            &&& 0 <= k < slots.len() && good(slots[k]) && (forall|j: int|
                0 <= j < k ==> !good(#[trigger] slots[j])) ==> first_code_address(mem, base, slots)
                == Some(u64_at(mem, slots[k] - base))
            &&& (forall|j: int| 0 <= j < slots.len() ==> !good(#[trigger] slots[j]))
                ==> first_code_address(mem, base, slots) is None
        }),
    decreases slots.len(),
{
    if slots.len() > 0 {
        let rest = slots.drop_first();
        assert forall|j: int| 0 <= j < rest.len() implies #[trigger] rest[j] == slots[j + 1] by {}
        law_first_address_counts(mem, base, rest, k - 1);
        let good = |slot: u64|
            base <= slot && slot + 8 <= base + mem.len() && u64_at(mem, slot - base) != 0 && u64_at(
                mem,
                slot - base,
            ) % 4 == 0;
        if forall|j: int| 0 <= j < slots.len() ==> !good(#[trigger] slots[j]) {
            assert(!good(slots[0]));
            assert forall|j: int| 0 <= j < rest.len() implies !good(#[trigger] rest[j]) by {
                assert(!good(slots[j + 1]));
            }
        }
        if 0 <= k < slots.len() && good(slots[k]) && (forall|j: int|
            0 <= j < k ==> !good(#[trigger] slots[j])) {
            if k > 0 {
                assert(!good(slots[0]));
                assert(rest[k - 1] == slots[k]);
                assert forall|j: int| 0 <= j < k - 1 implies !good(#[trigger] rest[j]) by {
                    assert(!good(slots[j + 1]));
                }
            }
        }
    }
}

/// The entry code is what stands in the image from the entry point on: up to 48
/// instructions, each from its four bytes, lowest first.
pub proof fn law_entry_code_read(mem: Seq<u8>, base: u64, entry: u64, i: int)
    requires
        i >= 0,
    ensures
        ({
            let code = entry_code(mem, base, entry);
            let at = entry - base + 4 * i;
            &&& i < code.len() <==> i < 48 && base <= entry && at + 4 <= mem.len()
            &&& i < code.len() ==> code[i] == mem[at] + 0x100 * mem[at + 1] + 0x1_0000 * mem[at + 2]
                + 0x100_0000 * mem[at + 3]
        }),
{
    crate::elf::law_numbers_little_endian(mem, entry - base + 4 * i);
}

/// What is saved are the writable LOAD segments that lie inside of the image, all of
/// them and in their order: where each is in memory, its bytes and its flags.
pub proof fn law_writable_segments_saved(mem: Seq<u8>, base: u64, phdrs: Seq<Phdr>)
    ensures
        saved_segments(mem, base, phdrs) == phdrs.filter(
            |p: Phdr|
                p.p_type == 1 && (p.p_flags / 2) % 2 == 1 && p.p_memsz > 0 && p.p_vaddr + p.p_memsz
                    <= mem.len(),
        ).map_values(
            |p: Phdr|
                (
                    (base + p.p_vaddr) as u64,
                    mem.subrange(p.p_vaddr as int, p.p_vaddr + p.p_memsz),
                    p.p_flags,
                ),
        ),
    decreases phdrs.len(),
{
    reveal(Seq::filter);
    let pred = |p: Phdr|
        p.p_type == 1 && (p.p_flags / 2) % 2 == 1 && p.p_memsz > 0 && p.p_vaddr + p.p_memsz
            <= mem.len();
    let save = |p: Phdr|
        (
            (base + p.p_vaddr) as u64,
            mem.subrange(p.p_vaddr as int, p.p_vaddr + p.p_memsz),
            p.p_flags,
        );
    if phdrs.len() > 0 {
        let some = phdrs.drop_last();
        let last = phdrs.last();
        law_writable_segments_saved(mem, base, some);
        let flags = last.p_flags;
        assert((flags & 2 != 0) <==> (flags / 2) % 2 == 1) by (bit_vector);
        let kept = some.filter(pred);
        if pred(last) {
            assert(kept.push(last).map_values(save) =~= kept.map_values(save).push(save(last)));
        }
    }
    assert(saved_segments(mem, base, phdrs) =~= phdrs.filter(pred).map_values(save));
}

/// Each snapshot that is not empty is written back in one step, in order: to the
/// address that it was taken from, with the whole pages around it made writable, and
/// with the permissions of its segment afterwards, which always let it be written.
pub proof fn law_restore_plan(segments: Seq<WritableSegment>, n: int, k: int)
    requires
        0 <= n <= segments.len(),
        segments.len() <= usize::MAX,
        forall|i: int|
            0 <= i < segments.len() ==> (#[trigger] segments[i]).addr + segments[i].data@.len()
                + 4095 <= u64::MAX,
    ensures
        ({
            let steps = restore_steps(segments, n);
            &&& forall|j: int|
                0 <= j < n && (#[trigger] segments[j]).data@.len() > 0 ==> exists|i: int|
                    0 <= i < steps.len() && (#[trigger] steps[i]).index == j
            &&& forall|i: int, j: int|
                0 <= i < j < steps.len() ==> (#[trigger] steps[i]).index < (
                #[trigger] steps[j]).index
            &&& forall|i: int| 0 <= i < steps.len() ==> (#[trigger] steps[i]).index < n
            &&& 0 <= k < steps.len() ==> {
                let step = steps[k];
                let s = segments[step.index as int];
                &&& s.data@.len() > 0
                &&& step.addr == s.addr
                &&& step.page_start % 4096 == 0
                &&& step.page_size % 4096 == 0
                &&& step.page_start <= s.addr < step.page_start + 4096
                &&& s.addr + s.data@.len() <= step.page_start + step.page_size < s.addr
                    + s.data@.len() + 4096
                &&& (step.prot / 2) % 2 == 1
                &&& step.prot % 2 == 1 <==> (s.orig_flags / 4) % 2 == 1
                &&& (step.prot / 4) % 2 == 1 <==> s.orig_flags % 2 == 1
                &&& 0 <= step.prot < 8
            }
        }),
    decreases n,
{
    if n > 0 {
        law_restore_plan(segments, n - 1, k);
        let before = restore_steps(segments, n - 1);
        let steps = restore_steps(segments, n);
        let s = segments[n - 1];
        assert(s.addr + s.data@.len() + 4095 <= u64::MAX);
        crate::loader::law_permissions_kept(s.orig_flags);
        crate::loader::law_page_align(s.addr as int);
        crate::loader::law_page_align(s.addr + s.data@.len());
        let flags = s.orig_flags;
        assert((flags & 2 != 0) <==> (flags / 2) % 2 == 1) by (bit_vector);
        assert forall|j: int| 0 <= j < n && (#[trigger] segments[j]).data@.len()
            > 0 implies exists|i: int| 0 <= i < steps.len() && (#[trigger] steps[i]).index == j by {
            if j < n - 1 {
                let i = choose|i: int|
                    0 <= i < before.len() && (#[trigger] before[i]).index == j;
                assert(steps[i] == before[i]);
            } else {
                assert(steps[before.len() as int].index == j);
            }
        }
        assert forall|i: int, j: int| 0 <= i < j < steps.len() implies (#[trigger] steps[i]).index
            < (#[trigger] steps[j]).index by {
            assert(steps[i] == before[i]);
            if j < before.len() {
                assert(steps[j] == before[j]);
            }
        }
        assert forall|i: int| 0 <= i < steps.len() implies (#[trigger] steps[i]).index < n by {
            if i < before.len() {
                assert(steps[i] == before[i]);
            }
        }
    }
}

/// The image extends to the end of the LOAD segment that ends last.
pub proof fn law_extent_is_the_last_end(phdrs: Seq<Phdr>)
    ensures
        forall|i: int|
            0 <= i < phdrs.len() && (#[trigger] phdrs[i]).p_type == 1 ==> phdrs[i].p_vaddr
                + phdrs[i].p_memsz <= extent_of(phdrs),
        extent_of(phdrs) == 0 || exists|i: int|
            0 <= i < phdrs.len() && (#[trigger] phdrs[i]).p_type == 1 && phdrs[i].p_vaddr
                + phdrs[i].p_memsz == extent_of(phdrs),
        extent_of(phdrs) >= 0,
    decreases phdrs.len(),
{
    if phdrs.len() > 0 {
        let some = phdrs.drop_last();
        law_extent_is_the_last_end(some);
        assert(phdrs[phdrs.len() - 1] == phdrs.last());
        assert forall|i: int| 0 <= i < phdrs.len() && (#[trigger] phdrs[i]).p_type
            == 1 implies phdrs[i].p_vaddr + phdrs[i].p_memsz <= extent_of(phdrs) by {
            if i < some.len() {
                assert(some[i] == phdrs[i]);
            }
        }
        if extent_of(phdrs) == extent_of(some) && extent_of(some) != 0 {
            let i = choose|i: int|
                0 <= i < some.len() && (#[trigger] some[i]).p_type == 1 && some[i].p_vaddr
                    + some[i].p_memsz == extent_of(some);
            assert(phdrs[i] == some[i]);
        }
    }
}

/// All that has to be done to a program is done, and in an order that works: every
/// constructor is disarmed, `exit` and `execve` of the C library are redirected, and
/// every patch is made, after all pages were unlocked and before any is locked.
pub proof fn law_first_load_is_complete(
    offsets: Seq<u64>,
    pages: Seq<u64>,
    patches: Seq<(u64, Hook)>,
    a: int,
    b: int,
    c: int,
)
    requires
        0 <= a < offsets.len(),
        0 <= b < pages.len(),
        0 <= c < patches.len(),
    ensures
        ({
            let steps = first_load_steps(offsets, pages, patches);
            let calls = offsets.len() as int;
            let unlock = calls + 2;
            let patch = unlock + pages.len();
            let lock = patch + patches.len();
            &&& steps.len() == lock + pages.len() + 1
            &&& steps[a] == ImageStep::Zero(offsets[a])
            &&& steps[calls] == ImageStep::Redirect(Hook::Exit)
            &&& steps[calls + 1] == ImageStep::Redirect(Hook::Execve)
            &&& steps[unlock + b] == ImageStep::Unlock(pages[b])
            &&& steps[patch + c] == ImageStep::Patch(patches[c].0, patches[c].1)
            &&& steps[lock + b] == ImageStep::Lock(pages[b])
            &&& steps[lock + pages.len()] == ImageStep::Snapshot
        }),
{
}

/// A started process has the next number, runs the program, owns its strings, and
/// waits at the end of the queue; nobody else is touched.
pub proof fn law_started_process(
    ex: ExecutorView,
    co: CoroView,
    c_strings: Seq<usize>,
    path: Seq<char>,
    other: VPid,
)
    requires
        ex.next_pid < u32::MAX,
    ensures
        ({
            let after = ex_started(ex, co, c_strings, path);
            let pid = ex.next_pid;
            &&& after.vprocs.contains_key(pid)
            &&& after.vprocs[pid].binary_path == Some(path)
            &&& after.vprocs[pid].c_strings == c_strings
            &&& after.vprocs[pid].stack_alloc == co.stack_alloc
            &&& after.vprocs[pid].state == co.state
            &&& after.ready == ex.ready.push(pid)
            &&& after.next_pid == pid + 1
            &&& other != pid ==> after.vprocs.contains_key(other) == ex.vprocs.contains_key(other)
                && (ex.vprocs.contains_key(other) ==> after.vprocs[other] == ex.vprocs[other])
            &&& after.current == ex.current
            &&& after.exit_codes == ex.exit_codes
            &&& after.children == ex.children
        }),
{
}

/// A program is dynamic exactly when one of its headers names an interpreter, and
/// only a program without one is loaded as a static one.
pub proof fn law_interpreter_decides(
    s: Seq<u8>,
    hdr: Ehdr,
    route: ExecRoute,
    before: AddressSpace,
    after: AddressSpace,
    plan: LoadPlan,
)
    ensures
        ({
            let names_one = exists|i: int|
                0 <= i < headers_of(s, hdr).len() && (#[trigger] headers_of(s, hdr)[i]).p_type == 3;
            &&& routed(s, hdr, Ok(route)) ==> (route == ExecRoute::Dynamic <==> names_one)
            &&& routed(s, hdr, Ok(route)) ==> headers_error(s, hdr) is None
            &&& static_planned(s, hdr, before, after, Ok(plan)) ==> !names_one
        }),
{
    crate::elf::law_interpreter_found(s, headers_of(s, hdr), 0, 0);
}

/// How a program is started can be decided unless its headers or the path of its
/// interpreter cannot be read.
pub proof fn law_route_is_decided(s: Seq<u8>, hdr: Ehdr, result: Result<ExecRoute, String>)
    requires
        routed(s, hdr, result),
    ensures
        result is Ok <==> headers_error(s, hdr) is None && interp_error(s, headers_of(s, hdr))
            is None,
        headers_error(s, hdr) matches Some(reason) ==> result is Err && result->Err_0@ == reason,
{
}

/// A program that was put into the cache is found there, with its main function and
/// its snapshots; one without a main function is found once, to be closed, and is gone
/// then. No other program is touched, and a
/// path that is not cached is not found.
pub proof fn law_cached_program_is_found(
    before: Map<Seq<char>, EntryView>,
    path: Seq<char>,
    handle: u64,
    main_addr: Option<u64>,
    saved: Seq<(u64, Seq<u8>, u32)>,
    cached: Map<Seq<char>, EntryView>,
    answer: CacheAnswer,
    after: Map<Seq<char>, EntryView>,
    other: Seq<char>,
)
    requires
        is_newly_cached(before, path, handle, main_addr, saved, cached),
        is_cache_answer(cached, path, answer, after),
        other != path,
    ensures
        main_addr is Some && main_addr->0 != 0 ==> answer is Hit && answer->Hit_0 == main_addr->0
            && after == cached,
        main_addr is None || main_addr->0 == 0 ==> answer == CacheAnswer::Unusable(handle)
            && !after.contains_key(path),
        cached[path].saved_writable.len() == saved.len(),
        forall|i: int|
            0 <= i < saved.len() ==> {
                &&& (#[trigger] cached[path].saved_writable[i]).addr == saved[i].0
                &&& cached[path].saved_writable[i].data@ == saved[i].1
                &&& cached[path].saved_writable[i].orig_flags == saved[i].2
            },
        cached[path].active_users == 0,
        after.contains_key(other) == before.contains_key(other),
        before.contains_key(other) ==> after[other] == before[other],
{
    assert(cached.contains_key(other) == before.contains_key(other));
    assert forall|i: int| 0 <= i < saved.len() implies {
        &&& (#[trigger] cached[path].saved_writable[i]).addr == saved[i].0
        &&& cached[path].saved_writable[i].data@ == saved[i].1
        &&& cached[path].saved_writable[i].orig_flags == saved[i].2
    } by {
        lemma_snapshot_view(cached[path].saved_writable, i);
    }
}

/// A program that is started again from the cache starts as it was when it was put
/// there: carrying out the steps that the cache answers with gives every byte of its
/// writable segments the value it had, whatever became of it meanwhile, and changes no
/// other byte.
pub proof fn law_cached_program_is_restored(
    before: Map<Seq<char>, EntryView>,
    path: Seq<char>,
    handle: u64,
    main_addr: u64,
    mem: Seq<u8>,
    base: u64,
    phdrs: Seq<Phdr>,
    cached: Map<Seq<char>, EntryView>,
    answer: CacheAnswer,
    after: Map<Seq<char>, EntryView>,
    now: Seq<u8>,
    i: int,
)
    requires
        is_newly_cached(
            before,
            path,
            handle,
            Some(main_addr),
            saved_segments(mem, base, phdrs),
            cached,
        ),
        is_cache_answer(cached, path, answer, after),
        main_addr != 0,
        base + mem.len() <= u64::MAX,
        now.len() == mem.len(),
        cached[path].saved_writable.len() <= usize::MAX,
        0 <= i < now.len(),
    ensures
        answer is Hit,
        ({
            let out = restored(now, base, cached[path].saved_writable, answer->Hit_1@);
            let saved = exists|k: int|
                0 <= k < phdrs.len() && (#[trigger] phdrs[k]).p_type == 1 && (phdrs[k].p_flags / 2)
                    % 2 == 1 && phdrs[k].p_vaddr + phdrs[k].p_memsz <= mem.len() && phdrs[k].p_vaddr
                    <= i < phdrs[k].p_vaddr + phdrs[k].p_memsz;
            &&& out.len() == now.len()
            &&& saved ==> out[i] == mem[i]
            &&& !saved ==> out[i] == now[i]
        }),
{
    law_restore_gives_back(mem, now, base, phdrs, cached[path].saved_writable);
    assert forall|k: int| 0 <= k < phdrs.len() implies (has_flag(
        (#[trigger] phdrs[k]).p_flags,
        PF_W,
    ) <==> (phdrs[k].p_flags / 2) % 2 == 1) by {
        let flags = phdrs[k].p_flags;
        assert((flags & 2 != 0) <==> (flags / 2) % 2 == 1) by (bit_vector);
    }
    if in_saved(mem, phdrs, i) {
        let k = choose|k: int|
            0 <= k < phdrs.len() && is_saved(mem, #[trigger] phdrs[k]) && phdrs[k].p_vaddr <= i
                < phdrs[k].p_vaddr + phdrs[k].p_memsz;
        assert(phdrs[k].p_type == 1);
    }
}

/// Starting a program changes the descriptors of the started process only; one that is
/// started from outside of all processes keeps the table that it has, without the
/// files that are marked for closing, and gets none where it has none.
pub proof fn law_exec_leaves_others(
    all: FdTablesView,
    current: Option<VPid>,
    vpid: VPid,
    other: VPid,
    fd: u32,
)
    requires
        other != vpid,
    ensures
        ({
            let after = tables_inherited(all, current, vpid);
            let was = crate::tables::lookup_vfd(all, vpid, fd);
            &&& crate::tables::lookup_vfd(after, other, fd) == crate::tables::lookup_vfd(
                all,
                other,
                fd,
            )
            &&& after.tables.contains_key(other) == all.tables.contains_key(other)
            &&& current is None && !all.tables.contains_key(vpid) ==> after == all
            &&& current is None ==> crate::tables::lookup_vfd(after, vpid, fd) == (if was
                is Some && was->0 is File && was->0->File_0.cloexec {
                None
            } else {
                was
            })
            &&& current is Some ==> after.tables.contains_key(vpid)
        }),
{
}

} // verus!
