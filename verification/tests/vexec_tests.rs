use vproc::cache::{
    cached_binary_count, release_binaries, track_binary_user, unload_all_binaries, unload_binary,
    BinaryCache, BinaryCacheEntry, WritableSegment,
};
use vproc::elf::{parse_header, Phdr, PF_R, PF_W, PF_X, PT_DYNAMIC, PT_LOAD};
use vproc::executor::Executor;
use vproc::ffi::Session;
use vproc::hooks::{clear_init_arrays, find_hook, patch_got_for_loaded_binary, Hook};
use vproc::loader::AddressSpace;
use vproc::pipe::PipeStore;
use vproc::tables::{get_or_create_table, insert_file, FdTables};
use vproc::vexec::{
    cache_binary, decode_adrp, extract_main_addr, find_main_slots, inherit_descriptors,
    image_extent, inline_hook, linked_image, look_up_binary, restore_writable_segments, save_writable_segments,
    start_cached, start_loaded, start_static, virtual_execve, virtual_execve_dynamic,
    virtual_execve_static, virtual_execve_via_entry, CacheAnswer, ExecRoute, ImageStep, RestoreStep,
    VirtualExec,
};
use vproc::vfd::Vfd;

fn put(data: &mut [u8], offset: usize, bytes: &[u8]) {
    data[offset..offset + bytes.len()].copy_from_slice(bytes);
}

fn phdr(p_type: u32, p_flags: u32, vaddr: u64, size: u64) -> Phdr {
    Phdr {
        p_type,
        p_flags,
        p_offset: vaddr,
        p_vaddr: vaddr,
        p_paddr: 0,
        p_filesz: size,
        p_memsz: size,
        p_align: 4096,
    }
}

fn elf(phdrs: &[Phdr], len: usize) -> Vec<u8> {
    let mut d = vec![0u8; len];
    put(&mut d, 0, &[0x7f, b'E', b'L', b'F', 2, 1, 1]);
    put(&mut d, 16, &3u16.to_le_bytes());
    put(&mut d, 18, &183u16.to_le_bytes());
    put(&mut d, 24, &0x200u64.to_le_bytes());
    put(&mut d, 32, &64u64.to_le_bytes());
    put(&mut d, 54, &56u16.to_le_bytes());
    put(&mut d, 56, &(phdrs.len() as u16).to_le_bytes());
    for (i, p) in phdrs.iter().enumerate() {
        let o = 64 + i * 56;
        put(&mut d, o, &p.p_type.to_le_bytes());
        put(&mut d, o + 4, &p.p_flags.to_le_bytes());
        put(&mut d, o + 8, &p.p_offset.to_le_bytes());
        put(&mut d, o + 16, &p.p_vaddr.to_le_bytes());
        put(&mut d, o + 32, &p.p_filesz.to_le_bytes());
        put(&mut d, o + 40, &p.p_memsz.to_le_bytes());
    }
    d
}

fn adrp(register: u32, pages: i32) -> u32 {
    let imm = (pages as u32) & 0x1f_ffff;
    0x9000_0000 | ((imm & 3) << 29) | ((imm >> 2) << 5) | register
}

fn add(register: u32, imm: u32) -> u32 {
    0x9100_0000 | (imm << 10) | (register << 5) | register
}

fn load_x2(register: u32, words: u32) -> u32 {
    0xF940_0002 | (words << 10) | (register << 5)
}

fn entry(path: &str, main_addr: u64, handle: u64) -> BinaryCacheEntry {
    BinaryCacheEntry {
        path: path.to_string(),
        main_addr,
        handle,
        saved_writable: Vec::new(),
        active_users: 0,
    }
}

#[test]
fn page_distance_has_a_sign() {
    assert_eq!(decode_adrp(0x40_1234, adrp(3, 2)), 0x40_3000);
    assert_eq!(decode_adrp(0x40_1234, adrp(3, -1)), 0x40_0000);
    assert_eq!(decode_adrp(0x40_1fff, adrp(0, 0)), 0x40_1000);
    assert_eq!(decode_adrp(0x40_1000, adrp(1, 0xf_ffff)), 0x40_1000 + 0xf_ffff_u64 * 4096);
    assert_eq!(decode_adrp(0x40_1000, adrp(1, 0x8_0000)), 0x40_1000 + 0x8_0000_u64 * 4096);
    assert_eq!(decode_adrp(0x1000, adrp(1, -2)), 0u64.wrapping_sub(0x1000));
}

#[test]
fn slots_of_the_main_function() {
    let nop = 0xD503_201Fu32;
    let code = vec![adrp(4, 1), nop, add(4, 0x20), load_x2(4, 3)];
    assert_eq!(find_main_slots(0x1000, &code), vec![0x2000 + 0x20 + 24]);
    let two = vec![adrp(4, 1), adrp(4, 2), load_x2(4, 0)];
    assert_eq!(find_main_slots(0x1000, &two), vec![0x3000, 0x2000]);
    let other = vec![adrp(5, 1), load_x2(4, 0)];
    assert!(find_main_slots(0x1000, &other).is_empty());
}

#[test]
fn main_function_is_found_in_the_image() {
    let base = 0x10_0000u64;
    let mut mem = vec![0u8; 0x3000];
    put(&mut mem, 0x200, &adrp(7, 2).to_le_bytes());
    put(&mut mem, 0x204, &add(7, 8).to_le_bytes());
    put(&mut mem, 0x208, &load_x2(7, 1).to_le_bytes());
    put(&mut mem, 0x2010, &0x10_0400u64.to_le_bytes());
    assert_eq!(extract_main_addr(&mem, base, base + 0x200), Some(0x10_0400));
    put(&mut mem, 0x2010, &0x10_0401u64.to_le_bytes());
    assert_eq!(extract_main_addr(&mem, base, base + 0x200), None);
    put(&mut mem, 0x2010, &0u64.to_le_bytes());
    assert_eq!(extract_main_addr(&mem, base, base + 0x200), None);
    assert_eq!(extract_main_addr(&mem, base, base - 4), None);
    assert_eq!(extract_main_addr(&mem[..0x2000], base, base + 0x200), None);
    assert_eq!(extract_main_addr(&mem, base, base + 0x9000), None);
}

#[test]
fn hooks_by_name() {
    let names = [
        ("fork", Hook::Fork),
        ("vfork", Hook::Fork),
        ("execve", Hook::Execve),
        ("waitpid", Hook::Waitpid),
        ("wait4", Hook::Wait4),
        ("pipe", Hook::Pipe),
        ("dup", Hook::Dup),
        ("dup2", Hook::Dup2),
        ("close", Hook::Close),
        ("read", Hook::Read),
        ("write", Hook::Write),
        ("getpid", Hook::Getpid),
        ("getppid", Hook::Getppid),
        ("exit", Hook::Exit),
        ("_exit", Hook::ImmediateExit),
        ("kill", Hook::Kill),
        ("getpgid", Hook::Getpgid),
        ("setpgid", Hook::Setpgid),
        ("raise", Hook::Raise),
        ("open", Hook::Open),
        ("openat", Hook::Openat),
        ("creat", Hook::Creat),
        ("fstat", Hook::Fstat),
        ("lseek", Hook::Lseek),
        ("chdir", Hook::Chdir),
        ("getcwd", Hook::Getcwd),
    ];
    for (name, hook) in names {
        assert_eq!(find_hook(&name.chars().collect()), Some(hook));
    }
    for name in ["", "printf", "for", "forks", "pipe2", "poll"] {
        assert_eq!(find_hook(&name.chars().collect()), None);
    }
}

fn linked(base_dyn: usize) -> (Vec<u8>, Vec<Phdr>) {
    let mut mem = vec![0u8; 0x3000];
    let entries: [(i64, u64); 7] = [
        (12, 0x77),
        (23, 0x400),
        (2, 96),
        (6, 0x500),
        (5, 0x600),
        (25, 0x88),
        (0, 0),
    ];
    for (i, (tag, value)) in entries.iter().enumerate() {
        put(&mut mem, base_dyn + i * 16, &tag.to_le_bytes());
        put(&mut mem, base_dyn + i * 16 + 8, &value.to_le_bytes());
    }
    let relas: [(u64, u64); 4] = [
        (0x2ff8, (1u64 << 32) | 0x402),
        (0x1010, (2u64 << 32) | 0x402),
        (0x1018, (1u64 << 32) | 0x401),
        (0x1020, (3u64 << 32) | 0x402),
    ];
    for (i, (offset, info)) in relas.iter().enumerate() {
        put(&mut mem, 0x400 + i * 24, &offset.to_le_bytes());
        put(&mut mem, 0x408 + i * 24, &info.to_le_bytes());
    }
    put(&mut mem, 0x600, b"\0fork\0puts\0getcwd\0");
    put(&mut mem, 0x500 + 24, &1u32.to_le_bytes());
    put(&mut mem, 0x500 + 48, &6u32.to_le_bytes());
    put(&mut mem, 0x500 + 72, &11u32.to_le_bytes());
    let phdrs = vec![
        phdr(PT_LOAD, PF_R | PF_X, 0, 0x1000),
        phdr(PT_DYNAMIC, PF_R | PF_W, base_dyn as u64, 112),
    ];
    (mem, phdrs)
}

#[test]
fn calls_of_a_loaded_program_are_redirected() {
    let (mem, phdrs) = linked(0x300);
    let plan = patch_got_for_loaded_binary(&mem, 0x5000_0000, &phdrs);
    assert_eq!(
        plan.patches,
        vec![(0x5000_2ff8, Hook::Fork), (0x5000_1020, Hook::Getcwd)]
    );
    assert_eq!(plan.pages, vec![0x5000_1000, 0x5000_2000]);
    assert!(patch_got_for_loaded_binary(&mem, 0x5000_0000, &phdrs[..1]).patches.is_empty());
    let cut = patch_got_for_loaded_binary(&mem[..0x2fff], 0x5000_0000, &phdrs);
    assert_eq!(cut.patches, vec![(0x5000_1020, Hook::Getcwd)]);
}

#[test]
fn constructor_entries_are_cleared() {
    let (mem, phdrs) = linked(0x300);
    assert_eq!(clear_init_arrays(&mem, &phdrs), vec![0x308, 0x358]);
    assert!(clear_init_arrays(&mem, &phdrs[..1]).is_empty());
}

#[test]
fn snapshots_of_writable_segments() {
    let mut mem = vec![0u8; 0x3000];
    put(&mut mem, 0x1ff0, &[1, 2, 3, 4]);
    let phdrs = [
        phdr(PT_LOAD, PF_R | PF_X, 0, 0x1000),
        phdr(PT_LOAD, PF_R | PF_W, 0x1ff0, 0x20),
        phdr(PT_LOAD, PF_W, 0x2500, 0),
        phdr(PT_DYNAMIC, PF_W, 0x2000, 8),
    ];
    let segments = save_writable_segments(&mem, 0x7000_0000, &phdrs);
    assert_eq!(segments.len(), 1);
    assert_eq!(segments[0].addr, 0x7000_1ff0);
    assert_eq!(segments[0].data.len(), 0x20);
    assert_eq!(&segments[0].data[..4], &[1, 2, 3, 4]);
    assert_eq!(segments[0].orig_flags, PF_R | PF_W);
    assert_eq!(
        restore_writable_segments(&segments),
        vec![RestoreStep {
            page_start: 0x7000_1000,
            page_size: 0x2000,
            addr: 0x7000_1ff0,
            index: 0,
            prot: libc::PROT_READ | libc::PROT_WRITE,
        }]
    );
    let odd = vec![
        WritableSegment { addr: 5, data: Vec::new(), orig_flags: PF_W },
        WritableSegment { addr: 0x1000, data: vec![1], orig_flags: PF_R },
    ];
    let steps = restore_writable_segments(&odd);
    assert_eq!(steps.len(), 1);
    assert_eq!(steps[0].index, 1);
    assert_eq!(steps[0].page_size, 0x1000);
    assert_eq!(steps[0].prot, libc::PROT_READ | libc::PROT_WRITE);
}

#[test]
fn writing_back_gives_writable_bytes_their_values_again() {
    let base = 0x7000_0000u64;
    let saved: Vec<u8> = (0..0x400).map(|i| (i % 251) as u8).collect();
    let phdrs = [
        phdr(PT_LOAD, PF_R | PF_X, 0, 0x100),
        phdr(PT_LOAD, PF_R | PF_W, 0x100, 0x80),
        phdr(PT_LOAD, PF_W, 0x140, 0x80),
        phdr(PT_LOAD, PF_W, 0x3f0, 0x20),
    ];
    let segments = save_writable_segments(&saved, base, &phdrs);
    assert_eq!(segments.len(), 2);
    let mut now = vec![0xffu8; 0x400];
    for step in restore_writable_segments(&segments) {
        put(&mut now, (step.addr - base) as usize, &segments[step.index].data);
    }
    for (i, byte) in now.iter().enumerate() {
        let expected = if (0x100..0x1c0).contains(&i) { saved[i] } else { 0xff };
        assert_eq!(*byte, expected);
    }
}

#[test]
fn extent_of_an_image() {
    let phdrs = [
        phdr(PT_LOAD, PF_R, 0x1000, 0x800),
        phdr(PT_LOAD, PF_R, 0, 0x100),
        phdr(PT_DYNAMIC, PF_R, 0x9000, 0x100),
    ];
    assert_eq!(image_extent(0x1000, &phdrs), Some(0x1800));
    assert_eq!(image_extent(0x1000, &[]), Some(0));
    assert_eq!(image_extent(u64::MAX - 4095 - 0x1800, &phdrs), Some(0x1800));
    assert_eq!(image_extent(u64::MAX - 4095 - 0x17ff, &phdrs), None);
    assert_eq!(image_extent(0, &[phdr(PT_LOAD, PF_R, 8, u64::MAX)]), None);
}

#[test]
fn redirecting_a_function_in_place() {
    assert_eq!(
        inline_hook(0x1122_3344_5566_7788),
        [0x5800_0050, 0xD61F_0200, 0x5566_7788, 0x1122_3344]
    );
}

#[test]
fn static_and_dynamic_programs() {
    let plain = elf(&[phdr(PT_LOAD, 5, 0, 0x100)], 0x300);
    let mut with_interp = elf(&[phdr(PT_LOAD, 5, 0, 0x100), phdr(3, 4, 0x280, 8)], 0x300);
    put(&mut with_interp, 0x280, b"/ld.so\0");
    assert_eq!(virtual_execve(&plain), Ok(ExecRoute::Static));
    assert_eq!(virtual_execve(&with_interp), Ok(ExecRoute::Dynamic));
    assert_eq!(virtual_execve(&[]).unwrap_err(), "data too small for ELF header");
    let beyond = elf(&[phdr(3, 4, 0x280, 0x800)], 0x300);
    assert_eq!(virtual_execve(&beyond).unwrap_err(), "PT_INTERP extends beyond file");
    let mut space = AddressSpace::new();
    assert_eq!(
        virtual_execve_static(&with_interp, &mut space).err().unwrap(),
        "binary is dynamically linked \u{2014} use virtual_execve_dynamic()"
    );
    let plan = match virtual_execve_static(&plain, &mut space) {
        Ok(plan) => plan,
        Err(e) => panic!("{}", e),
    };
    assert_eq!(plan.image.entry, plan.image.base + 0x200);
    assert_eq!(plan.segments.len(), 1);
}

#[test]
fn cache_counts_users() {
    let mut cache = BinaryCache::new();
    let mut ex = Executor::new();
    let pid = ex.spawn();
    let sh = "/bin/sh".to_string();
    let other = "/bin/ls".to_string();
    assert!(cache.insert(entry("/bin/sh", 8, 100)).is_none());
    assert_eq!(cached_binary_count(&cache), 1);
    track_binary_user(&mut ex, &mut cache, pid, &sh);
    track_binary_user(&mut ex, &mut cache, pid, &other);
    assert_eq!(cache.get(&sh).unwrap().active_users, 1);
    assert_eq!(ex.vproc(pid).unwrap().binary_path, Some(other.clone()));
    release_binaries(&mut cache, &[sh.clone(), other.clone()]);
    assert_eq!(cache.get(&sh).unwrap().active_users, 0);
    assert_eq!(cached_binary_count(&cache), 1);
    assert_eq!(unload_binary(&mut cache, &other), None);
    assert_eq!(unload_binary(&mut cache, &sh), Some(100));
    assert_eq!(vproc::cached_binary_count(&cache), 0);
}

#[test]
fn cache_replaces_and_empties() {
    let mut cache = BinaryCache::new();
    cache.insert(entry("/a", 8, 1));
    cache.insert(entry("/b", 8, 2));
    assert_eq!(cache.insert(entry("/a", 8, 3)).unwrap().handle, 1);
    assert_eq!(cached_binary_count(&cache), 2);
    let mut handles: Vec<u64> = unload_all_binaries(&mut cache).iter().map(|e| e.handle).collect();
    handles.sort();
    assert_eq!(handles, vec![2, 3]);
    assert_eq!(cached_binary_count(&cache), 0);
    assert!(vproc::unload_all_binaries(&mut cache).is_empty());
    assert_eq!(vproc::unload_binary(&mut cache, &"/a".to_string()), None);
}

#[test]
fn looking_up_programs() {
    let mut cache = BinaryCache::new();
    let a = "/a".to_string();
    let b = "/b".to_string();
    assert!(matches!(look_up_binary(&mut cache, &a), CacheAnswer::Miss));
    let mem = vec![7u8; 0x1000];
    let phdrs = [phdr(PT_LOAD, PF_R | PF_W, 0x10, 0x20)];
    assert!(cache_binary(&mut cache, &a, 5, Some(0x400), &mem, 0x10000, &phdrs).is_none());
    assert!(cache_binary(&mut cache, &b, 6, None, &mem, 0x10000, &phdrs).is_none());
    match look_up_binary(&mut cache, &a) {
        CacheAnswer::Hit(main_addr, steps) => {
            assert_eq!(main_addr, 0x400);
            assert_eq!(steps.len(), 1);
            assert_eq!(steps[0].addr, 0x10010);
        }
        _ => panic!("it was cached"),
    }
    match look_up_binary(&mut cache, &b) {
        CacheAnswer::Unusable(handle) => assert_eq!(handle, 6),
        _ => panic!("its main function is not known"),
    }
    assert!(matches!(look_up_binary(&mut cache, &b), CacheAnswer::Miss));
}

#[test]
fn images_that_the_linker_loaded() {
    let data = elf(&[], 0x80);
    let hdr = parse_header(&data).unwrap();
    let image = linked_image(&hdr, 0x1000).unwrap();
    assert_eq!((image.entry, image.phdr_addr, image.total_size), (0x1200, 0x1040, 0));
    assert!(linked_image(&hdr, u64::MAX).is_none());
    let (mem, phdrs) = linked(0x300);
    let first = match virtual_execve_via_entry(&hdr, &phdrs, &mem, 0x5000_0000) {
        Ok(first) => first,
        Err(e) => panic!("{}", e),
    };
    assert_eq!(first.main_addr, None);
    assert_eq!(first.init_offsets, vec![0x308, 0x358]);
    assert_eq!(first.got.patches.len(), 2);
    assert_eq!(
        first.steps,
        vec![
            ImageStep::Zero(0x308),
            ImageStep::Zero(0x358),
            ImageStep::Redirect(Hook::Exit),
            ImageStep::Redirect(Hook::Execve),
            ImageStep::Unlock(0x5000_1000),
            ImageStep::Unlock(0x5000_2000),
            ImageStep::Patch(0x5000_2ff8, Hook::Fork),
            ImageStep::Patch(0x5000_1020, Hook::Getcwd),
            ImageStep::Lock(0x5000_1000),
            ImageStep::Lock(0x5000_2000),
            ImageStep::Snapshot,
        ]
    );
    assert_eq!(
        virtual_execve_via_entry(&hdr, &phdrs, &[], u64::MAX).err().unwrap(),
        "offset overflow"
    );
}

#[test]
fn new_program_inherits_descriptors() {
    let mut tables = FdTables::new();
    let mut pipes = PipeStore::new();
    let (r, _) = get_or_create_table(&mut tables, 1).create_pipe(&mut pipes);
    let kept = insert_file(&mut tables, &mut pipes, 1, 50, false);
    let gone = insert_file(&mut tables, &mut pipes, 1, 51, true);
    assert!(inherit_descriptors(&mut tables, &mut pipes, Some(1), 2).is_empty());
    assert_eq!(tables.lookup(2, r), tables.lookup(1, r));
    assert_eq!(tables.lookup(2, kept), tables.lookup(1, kept));
    assert_eq!(tables.lookup(2, gone), None);
    assert!(tables.lookup(1, gone).is_some());
    assert!(inherit_descriptors(&mut tables, &mut pipes, None, 3).is_empty());
    assert!(!tables.contains(3));
    insert_file(&mut tables, &mut pipes, 1, 52, true);
    let other = get_or_create_table(&mut tables, 4).create_pipe(&mut pipes);
    assert_eq!(other, (3, 4));
    insert_file(&mut tables, &mut pipes, 4, 53, false);
    let files = inherit_descriptors(&mut tables, &mut pipes, Some(1), 4);
    let kernel: Vec<i32> = files.iter().map(|file| file.real_fd).collect();
    assert_eq!(kernel, vec![53]);
}

#[test]
fn program_can_be_looked_up_after_its_process_ended() {
    let mut session = Session::new(1);
    let mut cache = BinaryCache::new();
    let path = "/a".to_string();
    let mem = vec![7u8; 0x1000];
    let phdrs = [phdr(PT_LOAD, PF_R | PF_W, 0x10, 0x20)];
    cache_binary(&mut cache, &path, 5, Some(0x400), &mem, 0x10000, &phdrs);
    for _ in 0..2 {
        match look_up_binary(&mut cache, &path) {
            CacheAnswer::Hit(main_addr, steps) => {
                assert_eq!((main_addr, steps.len(), steps[0].addr), (0x400, 1, 0x10010));
            }
            _ => panic!("it was cached"),
        }
        let started = start_cached(
            &mut session.executor,
            &mut session.tables,
            &mut session.pipes,
            &mut cache,
            &path,
            vec![],
        );
        assert_eq!(cache.get(&path).unwrap().active_users, 1);
        session.executor.step_from_driver();
        session.end_turn(&mut cache, Some((started.vpid, true)));
        assert_eq!(cache.get(&path).unwrap().active_users, 0);
    }
    session.finish(&mut cache);
    assert!(matches!(look_up_binary(&mut cache, &path), CacheAnswer::Hit(0x400, _)));
}

#[test]
fn starting_programs() {
    let mut ex = Executor::new();
    let mut tables = FdTables::new();
    let mut pipes = PipeStore::new();
    let mut cache = BinaryCache::new();
    let path = "/bin/sh".to_string();
    cache.insert(entry("/bin/sh", 8, 100));
    let started = start_cached(&mut ex, &mut tables, &mut pipes, &mut cache, &path, vec![1, 2]);
    assert_eq!(started.vpid, 1);
    assert!(started.files.is_empty());
    assert_eq!(ex.vproc(1).unwrap().c_strings, vec![1, 2]);
    assert_eq!(ex.vproc(1).unwrap().binary_path, Some(path.clone()));
    assert_eq!(cache.get(&path).unwrap().active_users, 1);
    let (loaded, stack) = start_loaded(
        &mut ex,
        &mut tables,
        &mut pipes,
        &mut cache,
        &path,
        vec![],
        0x10000,
        0x1000,
        &[5],
        &[],
        &[[0, 0]],
    );
    assert_eq!(loaded.vpid, 2);
    assert_eq!(stack.words, vec![1, 5, 0, 0, 0, 0]);
    assert_eq!(stack.sp, 0x11000 - 48);
    assert_eq!(cache.get(&path).unwrap().active_users, 2);
    let (exec, _) = start_static(&mut ex, 0x9000, 0x3000, vec![4], 0x10000, 0x1000, &[], &[], &[]);
    assert_eq!(exec, VirtualExec { vpid: 3 });
    assert_eq!(ex.vproc(3).unwrap().mapped_regions, vec![(0x9000, 0x3000)]);
    assert_eq!(virtual_execve_dynamic(&mut ex, vec![9]).vpid, 4);
    assert_eq!(ex.vproc(4).unwrap().c_strings, vec![9]);
    assert_eq!(tables.lookup(1, 0), None::<Vfd>);
}
