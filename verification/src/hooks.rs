//! Calls of a loaded program that are redirected to the runtime.
//!
//! The functions here look at a loaded program through the bytes of its image:
//! `mem` holds the bytes from the load address `base` on. Tables and entries that
//! would lie outside of the image are left alone.

use crate::elf::{
    dyn_at, dyn_value, find_phdr, first_of, last_value, law_first_header_found,
    law_last_entry_counts, law_numbers_little_endian, law_string_ends_at_nul, lemma_signed,
    read_dyn, read_rela, read_sym, read_until_nul, rela_at, rela_sym,
    rela_type, sym_at, u32_at, u64_at, until_nul, Dyn, Phdr, Rela, Sym, DT_INIT,
    DT_INIT_ARRAY, DT_JMPREL, DT_PLTRELSZ, DT_STRTAB, DT_SYMTAB, DYN_SIZE, PT_DYNAMIC, RELA_SIZE,
    R_AARCH64_JUMP_SLOT,
};
use crate::loader::{page_align_down, page_down};
use crate::text::chars_of;
use vstd::prelude::*;

verus! {

/// The runtime function that a call is redirected to.
#[derive(Debug, Clone, Copy, PartialEq, Eq, Structural)]
pub enum Hook {
    Fork,
    Execve,
    Waitpid,
    Wait4,
    Pipe,
    Dup,
    Dup2,
    Close,
    Read,
    Write,
    Getpid,
    Getppid,
    Exit,
    ImmediateExit,
    Kill,
    Getpgid,
    Setpgid,
    Raise,
    Open,
    Openat,
    Creat,
    Fstat,
    Lseek,
    Chdir,
    Getcwd,
}

/// What calls of the function `name` are redirected to.
pub open spec fn hook_named(name: Seq<char>) -> Option<Hook> {
    if name == "fork"@ || name == "vfork"@ {
        Some(Hook::Fork)
    } else if name == "execve"@ {
        Some(Hook::Execve)
    } else if name == "waitpid"@ {
        Some(Hook::Waitpid)
    } else if name == "wait4"@ {
        Some(Hook::Wait4)
    } else if name == "pipe"@ {
        Some(Hook::Pipe)
    } else if name == "dup"@ {
        Some(Hook::Dup)
    } else if name == "dup2"@ {
        Some(Hook::Dup2)
    } else if name == "close"@ {
        Some(Hook::Close)
    } else if name == "read"@ {
        Some(Hook::Read)
    } else if name == "write"@ {
        Some(Hook::Write)
    } else if name == "getpid"@ {
        Some(Hook::Getpid)
    } else if name == "getppid"@ {
        Some(Hook::Getppid)
    } else if name == "exit"@ {
        Some(Hook::Exit)
    } else if name == "_exit"@ {
        Some(Hook::ImmediateExit)
    } else if name == "kill"@ {
        Some(Hook::Kill)
    } else if name == "getpgid"@ {
        Some(Hook::Getpgid)
    } else if name == "setpgid"@ {
        Some(Hook::Setpgid)
    } else if name == "raise"@ {
        Some(Hook::Raise)
    } else if name == "open"@ {
        Some(Hook::Open)
    } else if name == "openat"@ {
        Some(Hook::Openat)
    } else if name == "creat"@ {
        Some(Hook::Creat)
    } else if name == "fstat"@ {
        Some(Hook::Fstat)
    } else if name == "lseek"@ {
        Some(Hook::Lseek)
    } else if name == "chdir"@ {
        Some(Hook::Chdir)
    } else if name == "getcwd"@ {
        Some(Hook::Getcwd)
    } else {
        None
    }
}

/// Whether `name` is the text of `other`.
fn is_text(name: &Vec<char>, other: &str) -> (yes: bool)
    ensures
        yes == (name@ == other@),
{
    let text: Vec<char> = chars_of(other);
    if name.len() != text.len() {
        return false;
    }
    let mut i: usize = 0;
    while i < name.len()
        invariant
            i <= name@.len(),
            name@.len() == text@.len(),
            text@ == other@,
            forall|k: int| 0 <= k < i ==> name@[k] == text@[k],
        decreases name.len() - i,
    {
        if name[i] != text[i] {
            return false;
        }
        i = i + 1;
    }
    assert(name@ =~= text@);
    true
}

/// Looks up what calls of the function `name` are redirected to.
pub fn find_hook(name: &Vec<char>) -> (hook: Option<Hook>)
    ensures
        hook == hook_named(name@),
{
    if is_text(name, "fork") || is_text(name, "vfork") {
        Some(Hook::Fork)
    } else if is_text(name, "execve") {
        Some(Hook::Execve)
    } else if is_text(name, "waitpid") {
        Some(Hook::Waitpid)
    } else if is_text(name, "wait4") {
        Some(Hook::Wait4)
    } else if is_text(name, "pipe") {
        Some(Hook::Pipe)
    } else if is_text(name, "dup") {
        Some(Hook::Dup)
    } else if is_text(name, "dup2") {
        Some(Hook::Dup2)
    } else if is_text(name, "close") {
        Some(Hook::Close)
    } else if is_text(name, "read") {
        Some(Hook::Read)
    } else if is_text(name, "write") {
        Some(Hook::Write)
    } else if is_text(name, "getpid") {
        Some(Hook::Getpid)
    } else if is_text(name, "getppid") {
        Some(Hook::Getppid)
    } else if is_text(name, "exit") {
        Some(Hook::Exit)
    } else if is_text(name, "_exit") {
        Some(Hook::ImmediateExit)
    } else if is_text(name, "kill") {
        Some(Hook::Kill)
    } else if is_text(name, "getpgid") {
        Some(Hook::Getpgid)
    } else if is_text(name, "setpgid") {
        Some(Hook::Setpgid)
    } else if is_text(name, "raise") {
        Some(Hook::Raise)
    } else if is_text(name, "open") {
        Some(Hook::Open)
    } else if is_text(name, "openat") {
        Some(Hook::Openat)
    } else if is_text(name, "creat") {
        Some(Hook::Creat)
    } else if is_text(name, "fstat") {
        Some(Hook::Fstat)
    } else if is_text(name, "lseek") {
        Some(Hook::Lseek)
    } else if is_text(name, "chdir") {
        Some(Hook::Chdir)
    } else if is_text(name, "getcwd") {
        Some(Hook::Getcwd)
    } else {
        None
    }
}

/// The bytes are ASCII characters.
pub open spec fn is_ascii_name(bytes: Seq<u8>) -> bool {
    forall|i: int| 0 <= i < bytes.len() ==> #[trigger] bytes[i] < 128
}

/// The characters of an ASCII name.
pub open spec fn name_text(bytes: Seq<u8>) -> Seq<char> {
    bytes.map_values(|b: u8| b as char)
}

/// What calls of the function with this name are redirected to.
pub open spec fn hook_of(bytes: Seq<u8>) -> Option<Hook> {
    if is_ascii_name(bytes) {
        hook_named(name_text(bytes))
    } else {
        None
    }
}

fn hook_for(bytes: &Vec<u8>) -> (hook: Option<Hook>)
    ensures
        hook == hook_of(bytes@),
{
    let mut name: Vec<char> = Vec::new();
    let mut i: usize = 0;
    while i < bytes.len()
        invariant
            i <= bytes@.len(),
            name@ =~= name_text(bytes@.take(i as int)),
            forall|k: int| 0 <= k < i ==> #[trigger] bytes@[k] < 128,
        decreases bytes.len() - i,
    {
        if bytes[i] >= 128 {
            return None;
        }
        name.push(bytes[i] as char);
        i = i + 1;
    }
    assert(bytes@.take(i as int) =~= bytes@);
    find_hook(&name)
}

/// How many entries of `size` bytes there are at `start` of an image of `len`
/// bytes, out of `n`.
pub open spec fn entries_inside(len: nat, start: int, size: int, n: int) -> int {
    if start > len {
        0
    } else if n < (len - start) / size {
        n
    } else {
        (len - start) / size
    }
}

fn count_inside(len: usize, start: u64, size: u64, n: u64) -> (count: usize)
    requires
        size > 0,
    ensures
        count == entries_inside(len as nat, start as int, size as int, n as int),
        count > 0 ==> start + count * size <= len,
{
    if start > len as u64 {
        return 0;
    }
    let room: u64 = (len as u64 - start) / size;
    proof {
        vstd::arithmetic::div_mod::lemma_fundamental_div_mod((len - start) as int, size as int);
        vstd::arithmetic::div_mod::lemma_div_is_ordered_by_denominator(
            (len - start) as int,
            1,
            size as int,
        );
        assert(room <= len - start);
    }
    let count: u64 = if n < room {
        n
    } else {
        room
    };
    proof {
        vstd::arithmetic::mul::lemma_mul_inequality(count as int, room as int, size as int);
        vstd::arithmetic::mul::lemma_mul_is_commutative(size as int, room as int);
    }
    count as usize
}

/// The dynamic entries in the image.
pub open spec fn image_dyns(mem: Seq<u8>, phdrs: Seq<Phdr>) -> Seq<Dyn> {
    match first_of(phdrs, PT_DYNAMIC) {
        None => Seq::empty(),
        Some(phdr) => Seq::new(
            entries_inside(mem.len(), phdr.p_vaddr as int, 16, (phdr.p_memsz / 16) as int) as nat,
            |i: int| dyn_at(mem, phdr.p_vaddr + i * 16),
        ),
    }
}

/// Reads the dynamic entries in the image.
fn read_image_dyns(mem: &[u8], phdrs: &[Phdr]) -> (dyns: Vec<Dyn>)
    ensures
        dyns@ == image_dyns(mem@, phdrs@),
{
    let mut dyns: Vec<Dyn> = Vec::new();
    match find_phdr(phdrs, PT_DYNAMIC) {
        None => {},
        Some(phdr) => {
            let count: usize = count_inside(mem.len(), phdr.p_vaddr, DYN_SIZE, phdr.p_memsz / 16);
            let mut i: usize = 0;
            while i < count
                invariant
                    i <= count,
                    count > 0 ==> phdr.p_vaddr + count * 16 <= mem@.len(),
                    dyns@.len() == i,
                    forall|k: int|
                        0 <= k < i ==> #[trigger] dyns@[k] == dyn_at(mem@, phdr.p_vaddr + k * 16),
                decreases count - i,
            {
                assert(mem.len() == mem@.len());
                dyns.push(read_dyn(mem, phdr.p_vaddr as usize + i * 16));
                i = i + 1;
            }
        },
    }
    assert(dyns@ =~= image_dyns(mem@, phdrs@));
    dyns
}

/// Offsets in the image of the values of constructor entries among the first `n`
/// dynamic entries at `start`.
pub open spec fn init_offsets(dyns: Seq<Dyn>, start: int, n: int) -> Seq<u64>
    decreases n,
{
    if n <= 0 {
        Seq::empty()
    } else {
        let before = init_offsets(dyns, start, n - 1);
        if dyns[n - 1].d_tag == DT_INIT_ARRAY || dyns[n - 1].d_tag == DT_INIT {
            before.push((start + (n - 1) * 16 + 8) as u64)
        } else {
            before
        }
    }
}

/// Where in the image constructor entries have their values: these words are to
/// be zeroed, so that constructors do not run a second time.
pub fn clear_init_arrays(mem: &[u8], phdrs: &[Phdr]) -> (offsets: Vec<u64>)
    ensures
        match first_of(phdrs@, PT_DYNAMIC) {
            None => offsets@.len() == 0,
            Some(phdr) => offsets@ == init_offsets(
                image_dyns(mem@, phdrs@),
                phdr.p_vaddr as int,
                image_dyns(mem@, phdrs@).len() as int,
            ),
        },
{
    let mut offsets: Vec<u64> = Vec::new();
    match find_phdr(phdrs, PT_DYNAMIC) {
        None => {},
        Some(phdr) => {
            let dyns: Vec<Dyn> = read_image_dyns(mem, phdrs);
            let count: usize = count_inside(mem.len(), phdr.p_vaddr, DYN_SIZE, phdr.p_memsz / 16);
            let mut i: usize = 0;
            while i < dyns.len()
                invariant
                    i <= dyns@.len(),
                    dyns@.len() == count,
                    count > 0 ==> phdr.p_vaddr + count * 16 <= mem@.len(),
                    offsets@ == init_offsets(dyns@, phdr.p_vaddr as int, i as int),
                decreases dyns.len() - i,
            {
                assert(mem.len() == mem@.len());
                if dyns[i].d_tag == DT_INIT_ARRAY || dyns[i].d_tag == DT_INIT {
                    offsets.push(phdr.p_vaddr + i as u64 * 16 + 8);
                }
                i = i + 1;
            }
        },
    }
    offsets
}

/// Where the tables of the procedure linkage are in the image.
pub struct PltTables {
    pub jmprel: u64,
    pub symtab: u64,
    pub strtab: u64,
}

/// The redirection that relocation `i` of the procedure linkage leads to: where
/// the address of the called function is stored in the image, and what to put
/// there.
pub open spec fn redirection(mem: Seq<u8>, plt: PltTables, i: int) -> Option<(u64, Hook)> {
    let rela = rela_at(mem, plt.jmprel + i * 24);
    let sym_offset = plt.symtab + (rela.r_info / 0x1_0000_0000) * 24;
    let name_offset = plt.strtab + sym_at(mem, sym_offset).st_name;
    if rela.r_info % 0x1_0000_0000 != R_AARCH64_JUMP_SLOT {
        None
    } else if sym_offset + 24 > mem.len() || name_offset > mem.len() || rela.r_offset + 8
        > mem.len() {
        None
    } else {
        match hook_of(until_nul(mem.skip(name_offset))) {
            Some(hook) => Some((rela.r_offset, hook)),
            None => None,
        }
    }
}

fn find_redirection(mem: &[u8], plt: &PltTables, i: usize) -> (found: Option<(u64, Hook)>)
    requires
        plt.jmprel + i * 24 + 24 <= mem@.len(),
    ensures
        found == redirection(mem@, *plt, i as int),
{
    assert(mem.len() == mem@.len());
    let rela: Rela = read_rela(mem, plt.jmprel as usize + i * 24);
    if rela_type(rela.r_info) != R_AARCH64_JUMP_SLOT {
        return None;
    }
    let index: u64 = rela_sym(rela.r_info) as u64 * 24;
    let len: u64 = mem.len() as u64;
    if plt.symtab > len || index > len - plt.symtab {
        return None;
    }
    let sym: Sym = match read_sym(mem, (plt.symtab + index) as usize) {
        Some(sym) => sym,
        None => {
            return None;
        },
    };
    if plt.strtab > len || sym.st_name as u64 > len - plt.strtab {
        return None;
    }
    if len < 8 || rela.r_offset > len - 8 {
        return None;
    }
    let start: usize = (plt.strtab + sym.st_name as u64) as usize;
    assert(mem@.subrange(start as int, mem@.len() as int) =~= mem@.skip(start as int));
    let name: Vec<u8> = read_until_nul(mem, start, mem.len());
    match hook_for(&name) {
        Some(hook) => Some((rela.r_offset, hook)),
        None => None,
    }
}

/// What has to be done to redirect the calls of a loaded program.
pub struct GotPlan {
    /// Pages to be made writable and then read-only again, in ascending order.
    pub pages: Vec<u64>,
    /// Addresses of words, and the runtime function whose address goes there.
    pub patches: Vec<(u64, Hook)>,
}

/// The patches that the first `n` relocations of the procedure linkage lead to.
pub open spec fn patches_of(mem: Seq<u8>, base: u64, plt: PltTables, n: int) -> Seq<(u64, Hook)>
    decreases n,
{
    if n <= 0 {
        Seq::empty()
    } else {
        let before = patches_of(mem, base, plt, n - 1);
        match redirection(mem, plt, n - 1) {
            Some((offset, hook)) => before.push(((base + offset) as u64, hook)),
            None => before,
        }
    }
}

/// The tables of the procedure linkage; `None` where one of them is missing.
pub open spec fn plt_of(dyns: Seq<Dyn>) -> Option<PltTables> {
    if last_value(dyns, DT_JMPREL) == 0 || last_value(dyns, DT_SYMTAB) == 0 || last_value(
        dyns,
        DT_STRTAB,
    ) == 0 || last_value(dyns, DT_PLTRELSZ) == 0 {
        None
    } else {
        Some(
            PltTables {
                jmprel: last_value(dyns, DT_JMPREL),
                symtab: last_value(dyns, DT_SYMTAB),
                strtab: last_value(dyns, DT_STRTAB),
            },
        )
    }
}

/// All patches of a program.
pub open spec fn got_patches(mem: Seq<u8>, base: u64, phdrs: Seq<Phdr>) -> Seq<(u64, Hook)> {
    let dyns = image_dyns(mem, phdrs);
    match plt_of(dyns) {
        None => Seq::empty(),
        Some(plt) => patches_of(
            mem,
            base,
            plt,
            entries_inside(
                mem.len(),
                plt.jmprel as int,
                24,
                (last_value(dyns, DT_PLTRELSZ) / 24) as int,
            ),
        ),
    }
}

/// `pages` is ascending and holds the page of each patch, and no other.
pub open spec fn are_pages_of(pages: Seq<u64>, patches: Seq<(u64, Hook)>) -> bool {
    &&& forall|i: int, j: int| 0 <= i < j < pages.len() ==> pages[i] < pages[j]
    &&& forall|i: int| 0 <= i < patches.len() ==> pages.contains(page_of((#[trigger] patches[i]).0))
    &&& forall|j: int| 0 <= j < pages.len() ==> some_patch_on(patches, #[trigger] pages[j])
}

/// One of the patches is on `page`.
pub open spec fn some_patch_on(patches: Seq<(u64, Hook)>, page: u64) -> bool {
    exists|i: int| 0 <= i < patches.len() && page_of((#[trigger] patches[i]).0) == page
}

/// The page of an address.
pub open spec fn page_of(addr: u64) -> u64 {
    page_down(addr as int) as u64
}

/// Inserts `page` into an ascending list, where it is not there yet.
fn insert_page(pages: &mut Vec<u64>, page: u64)
    requires
        forall|i: int, j: int| 0 <= i < j < old(pages)@.len() ==> old(pages)@[i] < old(pages)@[j],
    ensures
        forall|i: int, j: int|
            0 <= i < j < final(pages)@.len() ==> final(pages)@[i] < final(pages)@[j],
        forall|p: u64| #[trigger]
            final(pages)@.contains(p) <==> old(pages)@.contains(p) || p == page,
{
    let mut i: usize = 0;
    while i < pages.len() && pages[i] < page
        invariant
            i <= pages@.len(),
            pages@ == old(pages)@,
            forall|k: int| 0 <= k < i ==> pages@[k] < page,
        decreases pages.len() - i,
    {
        i = i + 1;
    }
    if i < pages.len() && pages[i] == page {
        assert(pages@.contains(page));
        return;
    }
    pages.insert(i, page);
    proof {
        let before = old(pages)@;
        let after = pages@;
        assert(after =~= before.insert(i as int, page));
        assert forall|p: u64| #[trigger] after.contains(p) <==> before.contains(p) || p == page by {
            if before.contains(p) {
                let k = choose|k: int| 0 <= k < before.len() && before[k] == p;
                if k < i {
                    assert(after[k] == p);
                } else {
                    assert(after[k + 1] == p);
                }
            }
            if after.contains(p) {
                let k = choose|k: int| 0 <= k < after.len() && after[k] == p;
                if k < i {
                    assert(before[k] == p);
                } else if k > i {
                    assert(before[k - 1] == p);
                }
            }
            assert(after[i as int] == page);
        }
    }
}

/// Plans how the calls of a loaded program are redirected.
pub fn patch_got_for_loaded_binary(mem: &[u8], base: u64, phdrs: &[Phdr]) -> (plan: GotPlan)
    requires
        base + mem@.len() <= u64::MAX,
    ensures
        plan.patches@ == got_patches(mem@, base, phdrs@),
        are_pages_of(plan.pages@, plan.patches@),
{
    let mut patches: Vec<(u64, Hook)> = Vec::new();
    let mut pages: Vec<u64> = Vec::new();
    let dyns: Vec<Dyn> = read_image_dyns(mem, phdrs);
    let jmprel: u64 = dyn_value(dyns.as_slice(), DT_JMPREL);
    let pltrelsz: u64 = dyn_value(dyns.as_slice(), DT_PLTRELSZ);
    let symtab: u64 = dyn_value(dyns.as_slice(), DT_SYMTAB);
    let strtab: u64 = dyn_value(dyns.as_slice(), DT_STRTAB);
    if jmprel == 0 || symtab == 0 || strtab == 0 || pltrelsz == 0 {
        return GotPlan { pages, patches };
    }
    let plt = PltTables { jmprel, symtab, strtab };
    let count: usize = count_inside(mem.len(), jmprel, RELA_SIZE, pltrelsz / 24);
    let mut i: usize = 0;
    while i < count
        invariant
            i <= count,
            count > 0 ==> plt.jmprel + count * 24 <= mem@.len(),
            base + mem@.len() <= u64::MAX,
            patches@ == patches_of(mem@, base, plt, i as int),
            are_pages_of(pages@, patches@),
        decreases count - i,
    {
        let ghost patches0 = patches@;
        let ghost pages0 = pages@;
        if let Some((offset, hook)) = find_redirection(mem, &plt, i) {
            let addr: u64 = base + offset;
            insert_page(&mut pages, page_align_down(addr));
            patches.push((addr, hook));
            proof {
                assert(patches@ =~= patches0.push((addr, hook)));
                assert forall|k: int| 0 <= k < patches@.len() implies pages@.contains(
                    page_of((#[trigger] patches@[k]).0),
                ) by {
                    if k < patches0.len() {
                        assert(patches0[k] == patches@[k]);
                    }
                }
                assert forall|j: int| 0 <= j < pages@.len() implies some_patch_on(
                    patches@,
                    #[trigger] pages@[j],
                ) by {
                    assert(pages@.contains(pages@[j]));
                    if pages0.contains(pages@[j]) {
                        let j0 = choose|j0: int| 0 <= j0 < pages0.len() && pages0[j0] == pages@[j];
                        assert(some_patch_on(patches0, pages0[j0]));
                        let k = choose|k: int|
                            0 <= k < patches0.len() && page_of((#[trigger] patches0[k]).0)
                                == pages0[j0];
                        assert(patches@[k] == patches0[k]);
                    } else {
                        assert(page_of(patches@[patches0.len() as int].0) == pages@[j]);
                    }
                }
            }
        }
        i = i + 1;
    }
    GotPlan { pages, patches }
}

/// Every patch lies inside the image, with room for an address.
pub proof fn law_patches_inside(mem: Seq<u8>, base: u64, plt: PltTables, n: int, i: int)
    requires
        base + mem.len() <= u64::MAX,
        0 <= i < patches_of(mem, base, plt, n).len(),
    ensures
        base <= patches_of(mem, base, plt, n)[i].0,
        patches_of(mem, base, plt, n)[i].0 + 8 <= base + mem.len(),
    decreases n,
{
    if n > 0 && i < patches_of(mem, base, plt, n - 1).len() {
        law_patches_inside(mem, base, plt, n - 1, i);
    }
}

/// Which names are redirected, and to what: each of these, spelled out, and no other
/// name at all.
#[verifier::spinoff_prover]
pub proof fn law_redirected_names(name: Seq<u8>)
    ensures
        hook_of(name) == Some(Hook::Fork) <==> name == seq![0x66u8, 0x6fu8, 0x72u8, 0x6bu8]
            || name == seq![0x76u8, 0x66u8, 0x6fu8, 0x72u8, 0x6bu8],
        hook_of(name) == Some(Hook::Execve)
            <==> name == seq![0x65u8, 0x78u8, 0x65u8, 0x63u8, 0x76u8, 0x65u8],
        hook_of(name) == Some(Hook::Waitpid)
            <==> name == seq![0x77u8, 0x61u8, 0x69u8, 0x74u8, 0x70u8, 0x69u8, 0x64u8],
        hook_of(name) == Some(Hook::Wait4)
            <==> name == seq![0x77u8, 0x61u8, 0x69u8, 0x74u8, 0x34u8],
        hook_of(name) == Some(Hook::Pipe) <==> name == seq![0x70u8, 0x69u8, 0x70u8, 0x65u8],
        hook_of(name) == Some(Hook::Dup) <==> name == seq![0x64u8, 0x75u8, 0x70u8],
        hook_of(name) == Some(Hook::Dup2) <==> name == seq![0x64u8, 0x75u8, 0x70u8, 0x32u8],
        hook_of(name) == Some(Hook::Close)
            <==> name == seq![0x63u8, 0x6cu8, 0x6fu8, 0x73u8, 0x65u8],
        hook_of(name) == Some(Hook::Read) <==> name == seq![0x72u8, 0x65u8, 0x61u8, 0x64u8],
        hook_of(name) == Some(Hook::Write)
            <==> name == seq![0x77u8, 0x72u8, 0x69u8, 0x74u8, 0x65u8],
        hook_of(name) == Some(Hook::Getpid)
            <==> name == seq![0x67u8, 0x65u8, 0x74u8, 0x70u8, 0x69u8, 0x64u8],
        hook_of(name) == Some(Hook::Getppid)
            <==> name == seq![0x67u8, 0x65u8, 0x74u8, 0x70u8, 0x70u8, 0x69u8, 0x64u8],
        hook_of(name) == Some(Hook::Exit) <==> name == seq![0x65u8, 0x78u8, 0x69u8, 0x74u8],
        hook_of(name) == Some(Hook::ImmediateExit)
            <==> name == seq![0x5fu8, 0x65u8, 0x78u8, 0x69u8, 0x74u8],
        hook_of(name) == Some(Hook::Kill) <==> name == seq![0x6bu8, 0x69u8, 0x6cu8, 0x6cu8],
        hook_of(name) == Some(Hook::Getpgid)
            <==> name == seq![0x67u8, 0x65u8, 0x74u8, 0x70u8, 0x67u8, 0x69u8, 0x64u8],
        hook_of(name) == Some(Hook::Setpgid)
            <==> name == seq![0x73u8, 0x65u8, 0x74u8, 0x70u8, 0x67u8, 0x69u8, 0x64u8],
        hook_of(name) == Some(Hook::Raise)
            <==> name == seq![0x72u8, 0x61u8, 0x69u8, 0x73u8, 0x65u8],
        hook_of(name) == Some(Hook::Open) <==> name == seq![0x6fu8, 0x70u8, 0x65u8, 0x6eu8],
        hook_of(name) == Some(Hook::Openat)
            <==> name == seq![0x6fu8, 0x70u8, 0x65u8, 0x6eu8, 0x61u8, 0x74u8],
        hook_of(name) == Some(Hook::Creat)
            <==> name == seq![0x63u8, 0x72u8, 0x65u8, 0x61u8, 0x74u8],
        hook_of(name) == Some(Hook::Fstat)
            <==> name == seq![0x66u8, 0x73u8, 0x74u8, 0x61u8, 0x74u8],
        hook_of(name) == Some(Hook::Lseek)
            <==> name == seq![0x6cu8, 0x73u8, 0x65u8, 0x65u8, 0x6bu8],
        hook_of(name) == Some(Hook::Chdir)
            <==> name == seq![0x63u8, 0x68u8, 0x64u8, 0x69u8, 0x72u8],
        hook_of(name) == Some(Hook::Getcwd)
            <==> name == seq![0x67u8, 0x65u8, 0x74u8, 0x63u8, 0x77u8, 0x64u8],
{
    assert(is_ascii_name(name) ==> (name_text(name) == "fork"@
        <==> name == seq![0x66u8, 0x6fu8, 0x72u8, 0x6bu8])) by {
        reveal_strlit("fork");
        lemma_word(name, "fork"@, seq![0x66u8, 0x6fu8, 0x72u8, 0x6bu8]);
    }
    assert(is_ascii_name(seq![0x66u8, 0x6fu8, 0x72u8, 0x6bu8]));
    assert(is_ascii_name(name) ==> (name_text(name) == "vfork"@
        <==> name == seq![0x76u8, 0x66u8, 0x6fu8, 0x72u8, 0x6bu8])) by {
        reveal_strlit("vfork");
        lemma_word(name, "vfork"@, seq![0x76u8, 0x66u8, 0x6fu8, 0x72u8, 0x6bu8]);
    }
    assert(is_ascii_name(seq![0x76u8, 0x66u8, 0x6fu8, 0x72u8, 0x6bu8]));
    assert(is_ascii_name(name) ==> (name_text(name) == "execve"@
        <==> name == seq![0x65u8, 0x78u8, 0x65u8, 0x63u8, 0x76u8, 0x65u8])) by {
        reveal_strlit("execve");
        lemma_word(name, "execve"@, seq![0x65u8, 0x78u8, 0x65u8, 0x63u8, 0x76u8, 0x65u8]);
    }
    assert(is_ascii_name(seq![0x65u8, 0x78u8, 0x65u8, 0x63u8, 0x76u8, 0x65u8]));
    assert(is_ascii_name(name) ==> (name_text(name) == "waitpid"@
        <==> name == seq![0x77u8, 0x61u8, 0x69u8, 0x74u8, 0x70u8, 0x69u8, 0x64u8])) by {
        reveal_strlit("waitpid");
        lemma_word(name, "waitpid"@, seq![0x77u8, 0x61u8, 0x69u8, 0x74u8, 0x70u8, 0x69u8, 0x64u8]);
    }
    assert(is_ascii_name(seq![0x77u8, 0x61u8, 0x69u8, 0x74u8, 0x70u8, 0x69u8, 0x64u8]));
    assert(is_ascii_name(name) ==> (name_text(name) == "wait4"@
        <==> name == seq![0x77u8, 0x61u8, 0x69u8, 0x74u8, 0x34u8])) by {
        reveal_strlit("wait4");
        lemma_word(name, "wait4"@, seq![0x77u8, 0x61u8, 0x69u8, 0x74u8, 0x34u8]);
    }
    assert(is_ascii_name(seq![0x77u8, 0x61u8, 0x69u8, 0x74u8, 0x34u8]));
    assert(is_ascii_name(name) ==> (name_text(name) == "pipe"@
        <==> name == seq![0x70u8, 0x69u8, 0x70u8, 0x65u8])) by {
        reveal_strlit("pipe");
        lemma_word(name, "pipe"@, seq![0x70u8, 0x69u8, 0x70u8, 0x65u8]);
    }
    assert(is_ascii_name(seq![0x70u8, 0x69u8, 0x70u8, 0x65u8]));
    assert(is_ascii_name(name) ==> (name_text(name) == "dup"@
        <==> name == seq![0x64u8, 0x75u8, 0x70u8])) by {
        reveal_strlit("dup");
        lemma_word(name, "dup"@, seq![0x64u8, 0x75u8, 0x70u8]);
    }
    assert(is_ascii_name(seq![0x64u8, 0x75u8, 0x70u8]));
    assert(is_ascii_name(name) ==> (name_text(name) == "dup2"@
        <==> name == seq![0x64u8, 0x75u8, 0x70u8, 0x32u8])) by {
        reveal_strlit("dup2");
        lemma_word(name, "dup2"@, seq![0x64u8, 0x75u8, 0x70u8, 0x32u8]);
    }
    assert(is_ascii_name(seq![0x64u8, 0x75u8, 0x70u8, 0x32u8]));
    assert(is_ascii_name(name) ==> (name_text(name) == "close"@
        <==> name == seq![0x63u8, 0x6cu8, 0x6fu8, 0x73u8, 0x65u8])) by {
        reveal_strlit("close");
        lemma_word(name, "close"@, seq![0x63u8, 0x6cu8, 0x6fu8, 0x73u8, 0x65u8]);
    }
    assert(is_ascii_name(seq![0x63u8, 0x6cu8, 0x6fu8, 0x73u8, 0x65u8]));
    assert(is_ascii_name(name) ==> (name_text(name) == "read"@
        <==> name == seq![0x72u8, 0x65u8, 0x61u8, 0x64u8])) by {
        reveal_strlit("read");
        lemma_word(name, "read"@, seq![0x72u8, 0x65u8, 0x61u8, 0x64u8]);
    }
    assert(is_ascii_name(seq![0x72u8, 0x65u8, 0x61u8, 0x64u8]));
    assert(is_ascii_name(name) ==> (name_text(name) == "write"@
        <==> name == seq![0x77u8, 0x72u8, 0x69u8, 0x74u8, 0x65u8])) by {
        reveal_strlit("write");
        lemma_word(name, "write"@, seq![0x77u8, 0x72u8, 0x69u8, 0x74u8, 0x65u8]);
    }
    assert(is_ascii_name(seq![0x77u8, 0x72u8, 0x69u8, 0x74u8, 0x65u8]));
    assert(is_ascii_name(name) ==> (name_text(name) == "getpid"@
        <==> name == seq![0x67u8, 0x65u8, 0x74u8, 0x70u8, 0x69u8, 0x64u8])) by {
        reveal_strlit("getpid");
        lemma_word(name, "getpid"@, seq![0x67u8, 0x65u8, 0x74u8, 0x70u8, 0x69u8, 0x64u8]);
    }
    assert(is_ascii_name(seq![0x67u8, 0x65u8, 0x74u8, 0x70u8, 0x69u8, 0x64u8]));
    assert(is_ascii_name(name) ==> (name_text(name) == "getppid"@
        <==> name == seq![0x67u8, 0x65u8, 0x74u8, 0x70u8, 0x70u8, 0x69u8, 0x64u8])) by {
        reveal_strlit("getppid");
        lemma_word(name, "getppid"@, seq![0x67u8, 0x65u8, 0x74u8, 0x70u8, 0x70u8, 0x69u8, 0x64u8]);
    }
    assert(is_ascii_name(seq![0x67u8, 0x65u8, 0x74u8, 0x70u8, 0x70u8, 0x69u8, 0x64u8]));
    assert(is_ascii_name(name) ==> (name_text(name) == "exit"@
        <==> name == seq![0x65u8, 0x78u8, 0x69u8, 0x74u8])) by {
        reveal_strlit("exit");
        lemma_word(name, "exit"@, seq![0x65u8, 0x78u8, 0x69u8, 0x74u8]);
    }
    assert(is_ascii_name(seq![0x65u8, 0x78u8, 0x69u8, 0x74u8]));
    assert(is_ascii_name(name) ==> (name_text(name) == "_exit"@
        <==> name == seq![0x5fu8, 0x65u8, 0x78u8, 0x69u8, 0x74u8])) by {
        reveal_strlit("_exit");
        lemma_word(name, "_exit"@, seq![0x5fu8, 0x65u8, 0x78u8, 0x69u8, 0x74u8]);
    }
    assert(is_ascii_name(seq![0x5fu8, 0x65u8, 0x78u8, 0x69u8, 0x74u8]));
    assert(is_ascii_name(name) ==> (name_text(name) == "kill"@
        <==> name == seq![0x6bu8, 0x69u8, 0x6cu8, 0x6cu8])) by {
        reveal_strlit("kill");
        lemma_word(name, "kill"@, seq![0x6bu8, 0x69u8, 0x6cu8, 0x6cu8]);
    }
    assert(is_ascii_name(seq![0x6bu8, 0x69u8, 0x6cu8, 0x6cu8]));
    assert(is_ascii_name(name) ==> (name_text(name) == "getpgid"@
        <==> name == seq![0x67u8, 0x65u8, 0x74u8, 0x70u8, 0x67u8, 0x69u8, 0x64u8])) by {
        reveal_strlit("getpgid");
        lemma_word(name, "getpgid"@, seq![0x67u8, 0x65u8, 0x74u8, 0x70u8, 0x67u8, 0x69u8, 0x64u8]);
    }
    assert(is_ascii_name(seq![0x67u8, 0x65u8, 0x74u8, 0x70u8, 0x67u8, 0x69u8, 0x64u8]));
    assert(is_ascii_name(name) ==> (name_text(name) == "setpgid"@
        <==> name == seq![0x73u8, 0x65u8, 0x74u8, 0x70u8, 0x67u8, 0x69u8, 0x64u8])) by {
        reveal_strlit("setpgid");
        lemma_word(name, "setpgid"@, seq![0x73u8, 0x65u8, 0x74u8, 0x70u8, 0x67u8, 0x69u8, 0x64u8]);
    }
    assert(is_ascii_name(seq![0x73u8, 0x65u8, 0x74u8, 0x70u8, 0x67u8, 0x69u8, 0x64u8]));
    assert(is_ascii_name(name) ==> (name_text(name) == "raise"@
        <==> name == seq![0x72u8, 0x61u8, 0x69u8, 0x73u8, 0x65u8])) by {
        reveal_strlit("raise");
        lemma_word(name, "raise"@, seq![0x72u8, 0x61u8, 0x69u8, 0x73u8, 0x65u8]);
    }
    assert(is_ascii_name(seq![0x72u8, 0x61u8, 0x69u8, 0x73u8, 0x65u8]));
    assert(is_ascii_name(name) ==> (name_text(name) == "open"@
        <==> name == seq![0x6fu8, 0x70u8, 0x65u8, 0x6eu8])) by {
        reveal_strlit("open");
        lemma_word(name, "open"@, seq![0x6fu8, 0x70u8, 0x65u8, 0x6eu8]);
    }
    assert(is_ascii_name(seq![0x6fu8, 0x70u8, 0x65u8, 0x6eu8]));
    assert(is_ascii_name(name) ==> (name_text(name) == "openat"@
        <==> name == seq![0x6fu8, 0x70u8, 0x65u8, 0x6eu8, 0x61u8, 0x74u8])) by {
        reveal_strlit("openat");
        lemma_word(name, "openat"@, seq![0x6fu8, 0x70u8, 0x65u8, 0x6eu8, 0x61u8, 0x74u8]);
    }
    assert(is_ascii_name(seq![0x6fu8, 0x70u8, 0x65u8, 0x6eu8, 0x61u8, 0x74u8]));
    assert(is_ascii_name(name) ==> (name_text(name) == "creat"@
        <==> name == seq![0x63u8, 0x72u8, 0x65u8, 0x61u8, 0x74u8])) by {
        reveal_strlit("creat");
        lemma_word(name, "creat"@, seq![0x63u8, 0x72u8, 0x65u8, 0x61u8, 0x74u8]);
    }
    assert(is_ascii_name(seq![0x63u8, 0x72u8, 0x65u8, 0x61u8, 0x74u8]));
    assert(is_ascii_name(name) ==> (name_text(name) == "fstat"@
        <==> name == seq![0x66u8, 0x73u8, 0x74u8, 0x61u8, 0x74u8])) by {
        reveal_strlit("fstat");
        lemma_word(name, "fstat"@, seq![0x66u8, 0x73u8, 0x74u8, 0x61u8, 0x74u8]);
    }
    assert(is_ascii_name(seq![0x66u8, 0x73u8, 0x74u8, 0x61u8, 0x74u8]));
    assert(is_ascii_name(name) ==> (name_text(name) == "lseek"@
        <==> name == seq![0x6cu8, 0x73u8, 0x65u8, 0x65u8, 0x6bu8])) by {
        reveal_strlit("lseek");
        lemma_word(name, "lseek"@, seq![0x6cu8, 0x73u8, 0x65u8, 0x65u8, 0x6bu8]);
    }
    assert(is_ascii_name(seq![0x6cu8, 0x73u8, 0x65u8, 0x65u8, 0x6bu8]));
    assert(is_ascii_name(name) ==> (name_text(name) == "chdir"@
        <==> name == seq![0x63u8, 0x68u8, 0x64u8, 0x69u8, 0x72u8])) by {
        reveal_strlit("chdir");
        lemma_word(name, "chdir"@, seq![0x63u8, 0x68u8, 0x64u8, 0x69u8, 0x72u8]);
    }
    assert(is_ascii_name(seq![0x63u8, 0x68u8, 0x64u8, 0x69u8, 0x72u8]));
    assert(is_ascii_name(name) ==> (name_text(name) == "getcwd"@
        <==> name == seq![0x67u8, 0x65u8, 0x74u8, 0x63u8, 0x77u8, 0x64u8])) by {
        reveal_strlit("getcwd");
        lemma_word(name, "getcwd"@, seq![0x67u8, 0x65u8, 0x74u8, 0x63u8, 0x77u8, 0x64u8]);
    }
    assert(is_ascii_name(seq![0x67u8, 0x65u8, 0x74u8, 0x63u8, 0x77u8, 0x64u8]));
}

proof fn lemma_word(name: Seq<u8>, text: Seq<char>, word: Seq<u8>)
    requires
        word.len() == text.len(),
        forall|i: int| 0 <= i < word.len() ==> #[trigger] word[i] < 128 && word[i] as char == text[i],
    ensures
        is_ascii_name(name) ==> (name_text(name) == text <==> name == word),
        is_ascii_name(word),
{
    assert(name_text(word) =~= text);
    if is_ascii_name(name) && name_text(name) == text {
        assert(name.len() == text.len());
        assert forall|i: int| 0 <= i < name.len() implies name[i] == word[i] by {
            assert(name_text(name)[i] == text[i]);
            assert(word[i] < 128 && name[i] < 128);
        }
        assert(name =~= word);
    }
}

/// A call of a redirected function is patched, once, and at its place. Relocation
/// `i` of the procedure linkage is of the type for calls; its first word is
/// `r_offset`; its symbol has number `sym`, and the name of the symbol begins at
/// `st_name` in the string table, and ends with a zero. Where that name is one of
/// those spelled out, the plan holds one patch for the relocation: at
/// `base + r_offset`, with the hook of that name.
#[verifier::spinoff_prover]
pub proof fn law_call_is_patched(
    mem: Seq<u8>,
    base: u64,
    plt: PltTables,
    n: int,
    i: int,
    r_offset: int,
    sym: int,
    st_name: int,
    name: Seq<u8>,
    hook: Hook,
)
    requires
        0 <= i < n,
        plt.jmprel + 24 * n <= mem.len(),
        base + mem.len() <= u64::MAX,
        ({
            let at = plt.jmprel + 24 * i;
            &&& r_offset == mem[at] + 0x100 * mem[at + 1] + 0x1_0000 * mem[at + 2] + 0x100_0000
                * mem[at + 3] + 0x1_0000_0000 * mem[at + 4] + 0x100_0000_0000 * mem[at + 5]
                + 0x1_0000_0000_0000 * mem[at + 6] + 0x100_0000_0000_0000 * mem[at + 7]
            &&& mem[at + 8] == 2 && mem[at + 9] == 4 && mem[at + 10] == 0 && mem[at + 11] == 0
            &&& sym == mem[at + 12] + 0x100 * mem[at + 13] + 0x1_0000 * mem[at + 14] + 0x100_0000
                * mem[at + 15]
        }),
        r_offset + 8 <= mem.len(),
        plt.symtab + 24 * sym + 24 <= mem.len(),
        ({
            let at = plt.symtab + 24 * sym;
            st_name == mem[at] + 0x100 * mem[at + 1] + 0x1_0000 * mem[at + 2] + 0x100_0000 * mem[at
                + 3]
        }),
        plt.strtab + st_name + name.len() < mem.len(),
        forall|k: int|
            0 <= k < name.len() ==> #[trigger] name[k] == mem[plt.strtab + st_name + k],
        mem[(plt.strtab + st_name + name.len()) as int] == 0,
        ({
            ||| name == seq![0x66u8, 0x6fu8, 0x72u8, 0x6bu8] && hook == Hook::Fork
            ||| name == seq![0x76u8, 0x66u8, 0x6fu8, 0x72u8, 0x6bu8] && hook == Hook::Fork
            ||| name == seq![0x65u8, 0x78u8, 0x65u8, 0x63u8, 0x76u8, 0x65u8] && hook == Hook::Execve
            ||| name == seq![0x77u8, 0x61u8, 0x69u8, 0x74u8, 0x70u8, 0x69u8, 0x64u8] && hook == Hook::Waitpid
            ||| name == seq![0x77u8, 0x61u8, 0x69u8, 0x74u8, 0x34u8] && hook == Hook::Wait4
            ||| name == seq![0x70u8, 0x69u8, 0x70u8, 0x65u8] && hook == Hook::Pipe
            ||| name == seq![0x64u8, 0x75u8, 0x70u8] && hook == Hook::Dup
            ||| name == seq![0x64u8, 0x75u8, 0x70u8, 0x32u8] && hook == Hook::Dup2
            ||| name == seq![0x63u8, 0x6cu8, 0x6fu8, 0x73u8, 0x65u8] && hook == Hook::Close
            ||| name == seq![0x72u8, 0x65u8, 0x61u8, 0x64u8] && hook == Hook::Read
            ||| name == seq![0x77u8, 0x72u8, 0x69u8, 0x74u8, 0x65u8] && hook == Hook::Write
            ||| name == seq![0x67u8, 0x65u8, 0x74u8, 0x70u8, 0x69u8, 0x64u8] && hook == Hook::Getpid
            ||| name == seq![0x67u8, 0x65u8, 0x74u8, 0x70u8, 0x70u8, 0x69u8, 0x64u8] && hook == Hook::Getppid
            ||| name == seq![0x65u8, 0x78u8, 0x69u8, 0x74u8] && hook == Hook::Exit
            ||| name == seq![0x5fu8, 0x65u8, 0x78u8, 0x69u8, 0x74u8] && hook == Hook::ImmediateExit
            ||| name == seq![0x6bu8, 0x69u8, 0x6cu8, 0x6cu8] && hook == Hook::Kill
            ||| name == seq![0x67u8, 0x65u8, 0x74u8, 0x70u8, 0x67u8, 0x69u8, 0x64u8] && hook == Hook::Getpgid
            ||| name == seq![0x73u8, 0x65u8, 0x74u8, 0x70u8, 0x67u8, 0x69u8, 0x64u8] && hook == Hook::Setpgid
            ||| name == seq![0x72u8, 0x61u8, 0x69u8, 0x73u8, 0x65u8] && hook == Hook::Raise
            ||| name == seq![0x6fu8, 0x70u8, 0x65u8, 0x6eu8] && hook == Hook::Open
            ||| name == seq![0x6fu8, 0x70u8, 0x65u8, 0x6eu8, 0x61u8, 0x74u8] && hook == Hook::Openat
            ||| name == seq![0x63u8, 0x72u8, 0x65u8, 0x61u8, 0x74u8] && hook == Hook::Creat
            ||| name == seq![0x66u8, 0x73u8, 0x74u8, 0x61u8, 0x74u8] && hook == Hook::Fstat
            ||| name == seq![0x6cu8, 0x73u8, 0x65u8, 0x65u8, 0x6bu8] && hook == Hook::Lseek
            ||| name == seq![0x63u8, 0x68u8, 0x64u8, 0x69u8, 0x72u8] && hook == Hook::Chdir
            ||| name == seq![0x67u8, 0x65u8, 0x74u8, 0x63u8, 0x77u8, 0x64u8] && hook == Hook::Getcwd
        }),
    ensures
        ({
            let patch = ((base + r_offset) as u64, hook);
            let before = patches_of(mem, base, plt, i);
            let all = patches_of(mem, base, plt, n);
            &&& patches_of(mem, base, plt, i + 1) == before.push(patch)
            &&& before.len() < all.len()
            &&& all.take(before.len() as int) == before
            &&& all[before.len() as int] == patch
        }),
{
    lemma_pair(name, hook);
    lemma_redirection(mem, plt, i, r_offset, sym, st_name, name);
    law_patches_in_order(mem, base, plt, i + 1, n);
    law_patches_in_order(mem, base, plt, i, n);
    let now = patches_of(mem, base, plt, i + 1);
    let all = patches_of(mem, base, plt, n);
    assert(all[now.len() - 1] == all.take(now.len() as int)[now.len() - 1]);
}

/// Each name that is spelled out has its hook, and holds no zero.
#[verifier::spinoff_prover]
proof fn lemma_pair(name: Seq<u8>, hook: Hook)
    requires
        ({
            ||| name == seq![0x66u8, 0x6fu8, 0x72u8, 0x6bu8] && hook == Hook::Fork
            ||| name == seq![0x76u8, 0x66u8, 0x6fu8, 0x72u8, 0x6bu8] && hook == Hook::Fork
            ||| name == seq![0x65u8, 0x78u8, 0x65u8, 0x63u8, 0x76u8, 0x65u8] && hook == Hook::Execve
            ||| name == seq![0x77u8, 0x61u8, 0x69u8, 0x74u8, 0x70u8, 0x69u8, 0x64u8] && hook == Hook::Waitpid
            ||| name == seq![0x77u8, 0x61u8, 0x69u8, 0x74u8, 0x34u8] && hook == Hook::Wait4
            ||| name == seq![0x70u8, 0x69u8, 0x70u8, 0x65u8] && hook == Hook::Pipe
            ||| name == seq![0x64u8, 0x75u8, 0x70u8] && hook == Hook::Dup
            ||| name == seq![0x64u8, 0x75u8, 0x70u8, 0x32u8] && hook == Hook::Dup2
            ||| name == seq![0x63u8, 0x6cu8, 0x6fu8, 0x73u8, 0x65u8] && hook == Hook::Close
            ||| name == seq![0x72u8, 0x65u8, 0x61u8, 0x64u8] && hook == Hook::Read
            ||| name == seq![0x77u8, 0x72u8, 0x69u8, 0x74u8, 0x65u8] && hook == Hook::Write
            ||| name == seq![0x67u8, 0x65u8, 0x74u8, 0x70u8, 0x69u8, 0x64u8] && hook == Hook::Getpid
            ||| name == seq![0x67u8, 0x65u8, 0x74u8, 0x70u8, 0x70u8, 0x69u8, 0x64u8] && hook == Hook::Getppid
            ||| name == seq![0x65u8, 0x78u8, 0x69u8, 0x74u8] && hook == Hook::Exit
            ||| name == seq![0x5fu8, 0x65u8, 0x78u8, 0x69u8, 0x74u8] && hook == Hook::ImmediateExit
            ||| name == seq![0x6bu8, 0x69u8, 0x6cu8, 0x6cu8] && hook == Hook::Kill
            ||| name == seq![0x67u8, 0x65u8, 0x74u8, 0x70u8, 0x67u8, 0x69u8, 0x64u8] && hook == Hook::Getpgid
            ||| name == seq![0x73u8, 0x65u8, 0x74u8, 0x70u8, 0x67u8, 0x69u8, 0x64u8] && hook == Hook::Setpgid
            ||| name == seq![0x72u8, 0x61u8, 0x69u8, 0x73u8, 0x65u8] && hook == Hook::Raise
            ||| name == seq![0x6fu8, 0x70u8, 0x65u8, 0x6eu8] && hook == Hook::Open
            ||| name == seq![0x6fu8, 0x70u8, 0x65u8, 0x6eu8, 0x61u8, 0x74u8] && hook == Hook::Openat
            ||| name == seq![0x63u8, 0x72u8, 0x65u8, 0x61u8, 0x74u8] && hook == Hook::Creat
            ||| name == seq![0x66u8, 0x73u8, 0x74u8, 0x61u8, 0x74u8] && hook == Hook::Fstat
            ||| name == seq![0x6cu8, 0x73u8, 0x65u8, 0x65u8, 0x6bu8] && hook == Hook::Lseek
            ||| name == seq![0x63u8, 0x68u8, 0x64u8, 0x69u8, 0x72u8] && hook == Hook::Chdir
            ||| name == seq![0x67u8, 0x65u8, 0x74u8, 0x63u8, 0x77u8, 0x64u8] && hook == Hook::Getcwd
        }),
    ensures
        hook_of(name) == Some(hook),
        forall|k: int| 0 <= k < name.len() ==> #[trigger] name[k] != 0,
{
    law_redirected_names(name);
    assert forall|k: int| 0 <= k < name.len() implies #[trigger] name[k] != 0 by {}
}

/// The name of the function that a relocation for calls is about decides on its
/// redirection.
#[verifier::spinoff_prover]
proof fn lemma_redirection(
    mem: Seq<u8>,
    plt: PltTables,
    i: int,
    r_offset: int,
    sym: int,
    st_name: int,
    name: Seq<u8>,
)
    requires
        0 <= i,
        plt.jmprel + 24 * i + 24 <= mem.len(),
        ({
            let at = plt.jmprel + 24 * i;
            &&& r_offset == mem[at] + 0x100 * mem[at + 1] + 0x1_0000 * mem[at + 2] + 0x100_0000
                * mem[at + 3] + 0x1_0000_0000 * mem[at + 4] + 0x100_0000_0000 * mem[at + 5]
                + 0x1_0000_0000_0000 * mem[at + 6] + 0x100_0000_0000_0000 * mem[at + 7]
            &&& mem[at + 8] == 2 && mem[at + 9] == 4 && mem[at + 10] == 0 && mem[at + 11] == 0
            &&& sym == mem[at + 12] + 0x100 * mem[at + 13] + 0x1_0000 * mem[at + 14] + 0x100_0000
                * mem[at + 15]
        }),
        r_offset + 8 <= mem.len(),
        plt.symtab + 24 * sym + 24 <= mem.len(),
        ({
            let at = plt.symtab + 24 * sym;
            st_name == mem[at] + 0x100 * mem[at + 1] + 0x1_0000 * mem[at + 2] + 0x100_0000 * mem[at
                + 3]
        }),
        plt.strtab + st_name + name.len() < mem.len(),
        forall|k: int|
            0 <= k < name.len() ==> #[trigger] name[k] == mem[plt.strtab + st_name + k] && name[k]
                != 0,
        mem[(plt.strtab + st_name + name.len()) as int] == 0,
    ensures
        redirection(mem, plt, i) == (match hook_of(name) {
            Some(hook) => Some((r_offset as u64, hook)),
            None => None,
        }),
{
    let at = plt.jmprel + 24 * i;
    law_numbers_little_endian(mem, at);
    law_numbers_little_endian(mem, at + 8);
    law_numbers_little_endian(mem, at + 12);
    let info = u64_at(mem, at + 8);
    lemma_halves(info as int, 0x402, sym);
    law_numbers_little_endian(mem, plt.symtab + 24 * sym);
    let text = mem.skip(plt.strtab + st_name);
    assert forall|k: int| 0 <= k < name.len() implies #[trigger] text[k] != 0 by {
        assert(name[k] != 0);
    }
    law_string_ends_at_nul(text, name.len() as int);
    assert(text.take(name.len() as int) =~= name);
}

proof fn lemma_halves(n: int, low: int, high: int)
    requires
        0 <= low < 0x1_0000_0000,
        n == low + 0x1_0000_0000 * high,
    ensures
        n % 0x1_0000_0000 == low,
        n / 0x1_0000_0000 == high,
{
}

/// Patches come in the order of the relocations: those of the first `m` come first.
pub proof fn law_patches_in_order(mem: Seq<u8>, base: u64, plt: PltTables, m: int, n: int)
    requires
        0 <= m <= n,
    ensures
        patches_of(mem, base, plt, m).len() <= patches_of(mem, base, plt, n).len(),
        patches_of(mem, base, plt, n).take(patches_of(mem, base, plt, m).len() as int)
            == patches_of(mem, base, plt, m),
        patches_of(mem, base, plt, n).len() <= n,
    decreases n,
{
    let first = patches_of(mem, base, plt, m);
    let all = patches_of(mem, base, plt, n);
    if n > 0 {
        if m < n {
            law_patches_in_order(mem, base, plt, m, n - 1);
        } else {
            law_patches_in_order(mem, base, plt, m - 1, n - 1);
        }
    }
    assert(all.take(first.len() as int) =~= first);
}

/// A relocation of another type, or one whose function has another name, is left
/// alone.
#[verifier::spinoff_prover]
pub proof fn law_other_calls_are_kept(mem: Seq<u8>, base: u64, plt: PltTables, i: int)
    requires
        0 <= i,
        ({
            let at = plt.jmprel + 24 * i;
            mem[at + 8] != 2 || mem[at + 9] != 4 || mem[at + 10] != 0 || mem[at + 11] != 0
        }) || redirection(mem, plt, i) is None,
    ensures
        patches_of(mem, base, plt, i + 1) == patches_of(mem, base, plt, i),
{
    let at = plt.jmprel + 24 * i;
    law_numbers_little_endian(mem, at + 8);
    law_numbers_little_endian(mem, at + 12);
    let low = mem[at + 8] + 0x100 * mem[at + 9] + 0x1_0000 * mem[at + 10] + 0x100_0000 * mem[at
        + 11];
    lemma_halves(u64_at(mem, at + 8) as int, low, u32_at(mem, at + 12) as int);
}

/// An entry of a table in the image is looked at exactly when it is one of the `n`
/// entries and lies inside the image as a whole.
pub proof fn law_entries_inside(len: nat, start: int, size: int, n: int, k: int)
    requires
        start >= 0,
        size > 0,
        n >= 0,
        k >= 0,
    ensures
        k < entries_inside(len, start, size, n) <==> k < n && start + (k + 1) * size <= len,
{
    if start <= len {
        let room = len - start;
        vstd::arithmetic::div_mod::lemma_fundamental_div_mod(room, size);
        vstd::arithmetic::div_mod::lemma_mod_bound(room, size);
        let fit = room / size;
        assert(size * fit == fit * size) by (nonlinear_arith);
        assert((fit + 1) * size == fit * size + size) by (nonlinear_arith);
        if k < fit {
            assert((k + 1) * size <= fit * size) by (nonlinear_arith)
                requires
                    k + 1 <= fit,
                    size > 0,
            ;
        } else {
            assert((k + 1) * size >= (fit + 1) * size) by (nonlinear_arith)
                requires
                    k >= fit,
                    size > 0,
            ;
        }
    } else {
        assert((k + 1) * size >= 0) by (nonlinear_arith)
            requires
                k >= 0,
                size > 0,
        ;
    }
}

/// The dynamic section of an image in memory is read from where its program header
/// says it is in memory: entry `k` has its tag and its value from the two
/// little-endian words at `p_vaddr + 16 * k`. Entries outside of the image are not
/// read.
#[verifier::spinoff_prover]
pub proof fn law_image_dynamic_read(mem: Seq<u8>, phdrs: Seq<Phdr>, h: int, k: int)
    requires
        0 <= h < phdrs.len(),
        phdrs[h].p_type == 2,
        forall|j: int| 0 <= j < h ==> (#[trigger] phdrs[j]).p_type != 2,
        k >= 0,
    ensures
        ({
            let word = |at: int|
                mem[at] + 0x100 * mem[at + 1] + 0x1_0000 * mem[at + 2] + 0x100_0000 * mem[at + 3]
                    + 0x1_0000_0000 * mem[at + 4] + 0x100_0000_0000 * mem[at + 5]
                    + 0x1_0000_0000_0000 * mem[at + 6] + 0x100_0000_0000_0000 * mem[at + 7];
            let at = phdrs[h].p_vaddr + 16 * k;
            let dyns = image_dyns(mem, phdrs);
            &&& k < dyns.len() <==> k < phdrs[h].p_memsz / 16 && at + 16 <= mem.len()
            &&& k < dyns.len() ==> dyns[k].d_val == word(at + 8)
            &&& k < dyns.len() && word(at) < 0x8000_0000_0000_0000 ==> dyns[k].d_tag == word(at)
            &&& k < dyns.len() && word(at) >= 0x8000_0000_0000_0000 ==> dyns[k].d_tag == word(at)
                - 0x1_0000_0000_0000_0000
        }),
{
    law_first_header_found(phdrs, PT_DYNAMIC, h);
    let at = phdrs[h].p_vaddr + 16 * k;
    law_entries_inside(
        mem.len(),
        phdrs[h].p_vaddr as int,
        16,
        (phdrs[h].p_memsz / 16) as int,
        k,
    );
    law_numbers_little_endian(mem, at);
    law_numbers_little_endian(mem, at + 8);
    lemma_signed(u64_at(mem, at));
}

/// All relocations of the procedure linkage are looked at: where the last entries of
/// the dynamic section for the linkage name its table of `size` bytes, the symbols
/// and the strings, none of them at 0, the plan has the patches of all relocations
/// of that table that lie inside the image. Where one of them is missing or 0, there
/// are no patches.
pub proof fn law_linkage_found(
    mem: Seq<u8>,
    base: u64,
    phdrs: Seq<Phdr>,
    at: Seq<int>,
    n: int,
)
    requires
        at.len() == 4,
        ({
            let dyns = image_dyns(mem, phdrs);
            let is_last = |k: int, tag: int|
                0 <= k < dyns.len() && dyns[k].d_tag == tag && forall|j: int|
                    k < j < dyns.len() ==> (#[trigger] dyns[j]).d_tag != tag;
            is_last(at[0], 23) && is_last(at[1], 2) && is_last(at[2], 6) && is_last(at[3], 5)
        }),
        ({
            let dyns = image_dyns(mem, phdrs);
            let jmprel = dyns[at[0]].d_val;
            let count = dyns[at[1]].d_val / 24;
            &&& 0 <= n <= count
            &&& n > 0 ==> jmprel + 24 * n <= mem.len()
            &&& n == count || jmprel + 24 * n + 24 > mem.len()
        }),
    ensures
        ({
            let dyns = image_dyns(mem, phdrs);
            let plt = PltTables {
                jmprel: dyns[at[0]].d_val,
                symtab: dyns[at[2]].d_val,
                strtab: dyns[at[3]].d_val,
            };
            got_patches(mem, base, phdrs) == (if plt.jmprel == 0 || plt.symtab == 0 || plt.strtab
                == 0 || dyns[at[1]].d_val == 0 {
                Seq::empty()
            } else {
                patches_of(mem, base, plt, n)
            })
        }),
{
    let dyns = image_dyns(mem, phdrs);
    law_last_entry_counts(dyns, DT_JMPREL, at[0]);
    law_last_entry_counts(dyns, DT_PLTRELSZ, at[1]);
    law_last_entry_counts(dyns, DT_SYMTAB, at[2]);
    law_last_entry_counts(dyns, DT_STRTAB, at[3]);
    let jmprel = dyns[at[0]].d_val as int;
    let count = (dyns[at[1]].d_val / 24) as int;
    let m = entries_inside(mem.len(), jmprel, 24, count);
    law_entries_inside(mem.len(), jmprel, 24, count, n);
    if n > 0 {
        law_entries_inside(mem.len(), jmprel, 24, count, n - 1);
    }
    assert(0 <= m);
    assert(m == n);
}

/// Without one of the four entries there is no linkage to redirect.
pub proof fn law_no_linkage(mem: Seq<u8>, base: u64, phdrs: Seq<Phdr>, tag: i64)
    requires
        tag == 23 || tag == 2 || tag == 6 || tag == 5,
        forall|j: int|
            0 <= j < image_dyns(mem, phdrs).len() ==> (#[trigger] image_dyns(mem, phdrs)[j]).d_tag
                != tag,
    ensures
        got_patches(mem, base, phdrs) == Seq::<(u64, Hook)>::empty(),
{
    law_last_entry_counts(image_dyns(mem, phdrs), tag, 0);
}

/// The words that are zeroed are the values of the entries for constructors, of the
/// list and of the single function, and no others; each once, in ascending order.
pub proof fn law_constructors_disarmed(dyns: Seq<Dyn>, start: int, n: int, offset: u64)
    requires
        0 <= start,
        0 <= n <= dyns.len(),
        start + 16 * n <= u64::MAX,
    ensures
        init_offsets(dyns, start, n).contains(offset) <==> exists|i: int|
            0 <= i < n && ((#[trigger] dyns[i]).d_tag == 25 || dyns[i].d_tag == 12) && offset
                == start + 16 * i + 8,
        forall|a: int, b: int|
            0 <= a < b < init_offsets(dyns, start, n).len() ==> init_offsets(dyns, start, n)[a]
                < init_offsets(dyns, start, n)[b],
        forall|a: int|
            0 <= a < init_offsets(dyns, start, n).len() ==> #[trigger] init_offsets(
                dyns,
                start,
                n,
            )[a] < start + 16 * n,
    decreases n,
{
    if n > 0 {
        law_constructors_disarmed(dyns, start, n - 1, offset);
        let before = init_offsets(dyns, start, n - 1);
        let all = init_offsets(dyns, start, n);
        let here = start + 16 * (n - 1) + 8;
        if dyns[n - 1].d_tag == 25 || dyns[n - 1].d_tag == 12 {
            assert(all == before.push(here as u64));
            assert(all.contains(offset) <==> before.contains(offset) || offset == here) by {
                if before.contains(offset) {
                    let k = choose|k: int| 0 <= k < before.len() && before[k] == offset;
                    assert(all[k] == offset);
                }
                assert(all[before.len() as int] == here);
            }
        }
        if exists|i: int|
            0 <= i < n && ((#[trigger] dyns[i]).d_tag == 25 || dyns[i].d_tag == 12) && offset
                == start + 16 * i + 8 {
            let i = choose|i: int|
                0 <= i < n && ((#[trigger] dyns[i]).d_tag == 25 || dyns[i].d_tag == 12) && offset
                    == start + 16 * i + 8;
            assert(i == n - 1 || 0 <= i < n - 1);
        }
    }
}

/// The pages of a plan are those that its patches lie on, in ascending order: each
/// patch lies on one of them, and each of them holds a patch.
pub proof fn law_pages_of_patches(pages: Seq<u64>, patches: Seq<(u64, Hook)>, i: int, j: int)
    requires
        are_pages_of(pages, patches),
    ensures
        0 <= i < patches.len() ==> exists|k: int|
            0 <= k < pages.len() && (#[trigger] pages[k]) % 4096 == 0 && pages[k] <= patches[i].0
                < pages[k] + 4096,
        0 <= j < pages.len() ==> pages[j] % 4096 == 0 && exists|k: int|
            0 <= k < patches.len() && pages[j] <= (#[trigger] patches[k]).0 < pages[j] + 4096,
        0 <= i < j < pages.len() ==> pages[i] < pages[j],
{
    if 0 <= i < patches.len() {
        let page = page_of(patches[i].0);
        assert(pages.contains(page));
        let k = choose|k: int| 0 <= k < pages.len() && pages[k] == page;
        assert(pages[k] % 4096 == 0);
    }
    if 0 <= j < pages.len() {
        assert(some_patch_on(patches, pages[j]));
        let k = choose|k: int|
            0 <= k < patches.len() && page_of((#[trigger] patches[k]).0) == pages[j];
        assert(pages[j] <= patches[k].0 < pages[j] + 4096);
    }
}

/// A call of a redirected function is redirected in the program: where its dynamic
/// section names the linkage, the symbols and the strings, every relocation of the
/// linkage that is for a call of a function whose name is one of those spelled out has
/// its patch in the plan of the program.
#[verifier::spinoff_prover]
pub proof fn law_program_calls_are_patched(
    mem: Seq<u8>,
    base: u64,
    phdrs: Seq<Phdr>,
    places: Seq<int>,
    plt: PltTables,
    n: int,
    i: int,
    r_offset: int,
    sym: int,
    st_name: int,
    name: Seq<u8>,
    hook: Hook,
)
    requires
        places.len() == 4,
        ({
            let dyns = image_dyns(mem, phdrs);
            let is_last = |k: int, tag: int|
                0 <= k < dyns.len() && dyns[k].d_tag == tag && forall|j: int|
                    k < j < dyns.len() ==> (#[trigger] dyns[j]).d_tag != tag;
            &&& is_last(places[0], 23) && is_last(places[1], 2) && is_last(places[2], 6) && is_last(
                places[3],
                5,
            )
            &&& plt.jmprel == dyns[places[0]].d_val
            &&& plt.symtab == dyns[places[2]].d_val
            &&& plt.strtab == dyns[places[3]].d_val
            &&& n == dyns[places[1]].d_val / 24
        }),
        plt.jmprel != 0,
        plt.symtab != 0,
        plt.strtab != 0,
        0 <= i < n,
        plt.jmprel + 24 * n <= mem.len(),
        base + mem.len() <= u64::MAX,
        ({
            let at = plt.jmprel + 24 * i;
            &&& r_offset == mem[at] + 0x100 * mem[at + 1] + 0x1_0000 * mem[at + 2] + 0x100_0000
                * mem[at + 3] + 0x1_0000_0000 * mem[at + 4] + 0x100_0000_0000 * mem[at + 5]
                + 0x1_0000_0000_0000 * mem[at + 6] + 0x100_0000_0000_0000 * mem[at + 7]
            &&& mem[at + 8] == 2 && mem[at + 9] == 4 && mem[at + 10] == 0 && mem[at + 11] == 0
            &&& sym == mem[at + 12] + 0x100 * mem[at + 13] + 0x1_0000 * mem[at + 14] + 0x100_0000
                * mem[at + 15]
        }),
        r_offset + 8 <= mem.len(),
        plt.symtab + 24 * sym + 24 <= mem.len(),
        ({
            let at = plt.symtab + 24 * sym;
            st_name == mem[at] + 0x100 * mem[at + 1] + 0x1_0000 * mem[at + 2] + 0x100_0000 * mem[at
                + 3]
        }),
        plt.strtab + st_name + name.len() < mem.len(),
        forall|k: int|
            0 <= k < name.len() ==> #[trigger] name[k] == mem[plt.strtab + st_name + k],
        mem[(plt.strtab + st_name + name.len()) as int] == 0,
        ({
            ||| name == seq![0x66u8, 0x6fu8, 0x72u8, 0x6bu8] && hook == Hook::Fork
            ||| name == seq![0x76u8, 0x66u8, 0x6fu8, 0x72u8, 0x6bu8] && hook == Hook::Fork
            ||| name == seq![0x65u8, 0x78u8, 0x65u8, 0x63u8, 0x76u8, 0x65u8] && hook == Hook::Execve
            ||| name == seq![0x77u8, 0x61u8, 0x69u8, 0x74u8, 0x70u8, 0x69u8, 0x64u8] && hook == Hook::Waitpid
            ||| name == seq![0x77u8, 0x61u8, 0x69u8, 0x74u8, 0x34u8] && hook == Hook::Wait4
            ||| name == seq![0x70u8, 0x69u8, 0x70u8, 0x65u8] && hook == Hook::Pipe
            ||| name == seq![0x64u8, 0x75u8, 0x70u8] && hook == Hook::Dup
            ||| name == seq![0x64u8, 0x75u8, 0x70u8, 0x32u8] && hook == Hook::Dup2
            ||| name == seq![0x63u8, 0x6cu8, 0x6fu8, 0x73u8, 0x65u8] && hook == Hook::Close
            ||| name == seq![0x72u8, 0x65u8, 0x61u8, 0x64u8] && hook == Hook::Read
            ||| name == seq![0x77u8, 0x72u8, 0x69u8, 0x74u8, 0x65u8] && hook == Hook::Write
            ||| name == seq![0x67u8, 0x65u8, 0x74u8, 0x70u8, 0x69u8, 0x64u8] && hook == Hook::Getpid
            ||| name == seq![0x67u8, 0x65u8, 0x74u8, 0x70u8, 0x70u8, 0x69u8, 0x64u8] && hook == Hook::Getppid
            ||| name == seq![0x65u8, 0x78u8, 0x69u8, 0x74u8] && hook == Hook::Exit
            ||| name == seq![0x5fu8, 0x65u8, 0x78u8, 0x69u8, 0x74u8] && hook == Hook::ImmediateExit
            ||| name == seq![0x6bu8, 0x69u8, 0x6cu8, 0x6cu8] && hook == Hook::Kill
            ||| name == seq![0x67u8, 0x65u8, 0x74u8, 0x70u8, 0x67u8, 0x69u8, 0x64u8] && hook == Hook::Getpgid
            ||| name == seq![0x73u8, 0x65u8, 0x74u8, 0x70u8, 0x67u8, 0x69u8, 0x64u8] && hook == Hook::Setpgid
            ||| name == seq![0x72u8, 0x61u8, 0x69u8, 0x73u8, 0x65u8] && hook == Hook::Raise
            ||| name == seq![0x6fu8, 0x70u8, 0x65u8, 0x6eu8] && hook == Hook::Open
            ||| name == seq![0x6fu8, 0x70u8, 0x65u8, 0x6eu8, 0x61u8, 0x74u8] && hook == Hook::Openat
            ||| name == seq![0x63u8, 0x72u8, 0x65u8, 0x61u8, 0x74u8] && hook == Hook::Creat
            ||| name == seq![0x66u8, 0x73u8, 0x74u8, 0x61u8, 0x74u8] && hook == Hook::Fstat
            ||| name == seq![0x6cu8, 0x73u8, 0x65u8, 0x65u8, 0x6bu8] && hook == Hook::Lseek
            ||| name == seq![0x63u8, 0x68u8, 0x64u8, 0x69u8, 0x72u8] && hook == Hook::Chdir
            ||| name == seq![0x67u8, 0x65u8, 0x74u8, 0x63u8, 0x77u8, 0x64u8] && hook == Hook::Getcwd
        }),
    ensures
        got_patches(mem, base, phdrs).contains(((base + r_offset) as u64, hook)),
{
    law_linkage_found(mem, base, phdrs, places, n);
    law_call_is_patched(mem, base, plt, n, i, r_offset, sym, st_name, name, hook);
    let before = patches_of(mem, base, plt, i);
    let all = patches_of(mem, base, plt, n);
    assert(got_patches(mem, base, phdrs) == all);
    assert(all[before.len() as int] == ((base + r_offset) as u64, hook));
}

} // verus!
