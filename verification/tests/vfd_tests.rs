use vproc::pipe::PipeStore;
use vproc::tables::{dup2_fd, dup_fd, FdTables};
use vproc::vfd::{
    cleanup, close_cloexec, close_file_fd, create_table_with_fds, fork_fd_table,
    get_or_create_table, get_table, insert_file, remove_table, remove_table_and_get_fds, FileRef,
    Vfd, VfdTable, EBADF,
};

#[test]
fn standard_descriptors_pass_through() {
    let table = VfdTable::new();
    assert_eq!(table.get(0), Some(&Vfd::Real(0)));
    assert_eq!(table.get(1), Some(&Vfd::Real(1)));
    assert_eq!(table.get(2), Some(&Vfd::Real(2)));
    assert_eq!(table.get(3), None);
    let other = VfdTable::with_fds(10, 11, 12);
    assert_eq!(other.get(2), Some(&Vfd::Real(12)));
}

#[test]
fn numbers_are_given_out_upwards() {
    let mut pipes = PipeStore::new();
    let mut table = VfdTable::new();
    assert_eq!(table.insert(&mut pipes, Vfd::Real(7)), 3);
    assert_eq!(table.insert(&mut pipes, Vfd::Real(8)), 4);
    assert_eq!(table.get(4), Some(&Vfd::Real(8)));
    assert!(table.can_alloc());
}

#[test]
fn numbers_in_use_are_skipped() {
    let mut pipes = PipeStore::new();
    let mut table = VfdTable::new();
    assert_eq!(table.dup2(&mut pipes, 0, 4), Ok(4));
    assert_eq!(table.insert(&mut pipes, Vfd::Real(9)), 3);
    assert_eq!(table.insert(&mut pipes, Vfd::Real(9)), 5);
}

#[test]
fn get_mut_changes_in_place() {
    let mut table = VfdTable::new();
    *table.get_mut(1).unwrap() = Vfd::Real(33);
    assert_eq!(table.get(1), Some(&Vfd::Real(33)));
    assert!(table.get_mut(99).is_none());
}

#[test]
fn close_of_unused_number_fails() {
    let mut pipes = PipeStore::new();
    let mut table = VfdTable::new();
    assert_eq!(table.close(&mut pipes, 9), Err(EBADF));
    assert_eq!(table.close(&mut pipes, 0), Ok(()));
    assert_eq!(table.close(&mut pipes, 0), Err(9));
}

#[test]
fn close_undoes_insert() {
    let mut pipes = PipeStore::new();
    let mut table = VfdTable::new();
    let fd = table.insert(&mut pipes, Vfd::Real(5));
    assert_eq!(table.close(&mut pipes, fd), Ok(()));
    assert_eq!(table.get(fd), None);
    assert_eq!(table.insert(&mut pipes, Vfd::Real(5)), fd + 1);
}

fn pipe_id(table: &VfdTable, fd: u32) -> u64 {
    match table.get(fd) {
        Some(Vfd::PipeRead(id)) | Some(Vfd::PipeWrite(id)) => *id,
        _ => panic!("no end of a pipe"),
    }
}

fn pipe_of(all: &FdTables, vpid: u32, fd: u32) -> u64 {
    match all.lookup(vpid, fd) {
        Some(Vfd::PipeRead(id)) | Some(Vfd::PipeWrite(id)) => id,
        _ => panic!("no end of a pipe"),
    }
}

#[test]
fn pipe_closes_with_last_descriptors() {
    let mut pipes = PipeStore::new();
    let mut table = VfdTable::new();
    let (r, w) = table.create_pipe(&mut pipes);
    assert_eq!((r, w), (3, 4));
    let id = pipe_id(&table, r);
    assert_eq!(table.get(w), Some(&Vfd::PipeWrite(id)));
    assert_eq!(table.close(&mut pipes, w), Ok(()));
    assert!(!pipes.get(id).unwrap().is_closed());
    assert_eq!(table.close(&mut pipes, r), Ok(()));
    assert!(pipes.get(id).unwrap().is_closed());
}

#[test]
fn stream_ends_with_the_last_writer() {
    let mut pipes = PipeStore::new();
    let mut table = VfdTable::new();
    let (r, w) = table.create_pipe(&mut pipes);
    let id = pipe_id(&table, r);
    let copy = table.dup(&mut pipes, w).unwrap();
    assert_eq!(pipes.write_to(id, b"ab"), 2);
    table.close(&mut pipes, w).unwrap();
    let mut dst = [0u8; 8];
    assert_eq!(pipes.read_from(id, &mut dst), 2);
    assert_eq!(pipes.read_from(id, &mut dst), -1);
    assert_eq!(pipes.write_to(id, b"c"), 1);
    table.close(&mut pipes, copy).unwrap();
    assert!(pipes.get(id).unwrap().is_ended());
    assert!(!pipes.get(id).unwrap().is_broken());
    assert_eq!(pipes.read_from(id, &mut dst), 1);
    assert_eq!(pipes.read_from(id, &mut dst), 0);
}

#[test]
fn writes_fail_with_the_last_reader() {
    let mut pipes = PipeStore::new();
    let mut table = VfdTable::new();
    let (r, _) = table.create_pipe(&mut pipes);
    let id = pipe_id(&table, r);
    assert_eq!(table.dup2(&mut pipes, r, 9), Ok(9));
    table.close(&mut pipes, r).unwrap();
    assert_eq!(pipes.write_to(id, b"x"), 1);
    assert_eq!(table.dup2(&mut pipes, 0, 9), Ok(9));
    assert!(pipes.get(id).unwrap().is_broken());
    assert!(!pipes.get(id).unwrap().is_ended());
    assert_eq!(pipes.write_to(id, b"x"), -1);
}

#[test]
fn closing_both_ends_leaves_the_copy_working() {
    let mut pipes = PipeStore::new();
    let mut table = VfdTable::new();
    let (r, w) = table.create_pipe(&mut pipes);
    assert_eq!((r, w), (3, 4));
    let mut copy = table.clone_for_fork(&mut pipes);
    assert_eq!(table.close(&mut pipes, 3), Ok(()));
    assert_eq!(table.close(&mut pipes, 4), Ok(()));
    let id = pipe_id(&copy, 4);
    assert_eq!(pipes.write_to(id, b"x"), 1);
    assert_eq!(copy.close(&mut pipes, 4), Ok(()));
    let mut dst = [0u8; 4];
    assert_eq!(pipes.read_from(id, &mut dst), 1);
    assert_eq!(pipes.read_from(id, &mut dst), 0);
}

#[test]
fn inserted_ends_are_counted() {
    let mut pipes = PipeStore::new();
    let mut table = VfdTable::new();
    let (r, w) = table.create_pipe(&mut pipes);
    let id = pipe_id(&table, r);
    let extra = table.insert(&mut pipes, Vfd::PipeWrite(id));
    table.close(&mut pipes, w).unwrap();
    assert!(!pipes.get(id).unwrap().is_ended());
    table.close(&mut pipes, extra).unwrap();
    assert!(pipes.get(id).unwrap().is_ended());
}

#[test]
fn replacing_an_end_under_the_next_number_gives_it_up() {
    let mut pipes = PipeStore::new();
    let mut table = VfdTable::new();
    let (_, w) = table.create_pipe(&mut pipes);
    let id = pipe_id(&table, w);
    assert_eq!(table.dup2(&mut pipes, w, 5), Ok(5));
    table.close(&mut pipes, w).unwrap();
    assert_eq!(table.insert(&mut pipes, Vfd::Real(1)), 5);
    assert!(pipes.get(id).unwrap().is_ended());
    assert_eq!(table.dup2(&mut pipes, 3, 6), Ok(6));
    table.close(&mut pipes, 3).unwrap();
    assert_eq!(table.create_pipe(&mut pipes), (6, 7));
    assert!(pipes.get(id).unwrap().is_broken());
}

#[test]
fn dup_shares_and_reports_errors() {
    let mut pipes = PipeStore::new();
    let mut table = VfdTable::new();
    let (r, _) = table.create_pipe(&mut pipes);
    let d = table.dup(&mut pipes, r).unwrap();
    assert_eq!(d, 5);
    assert_eq!(table.get(d), table.get(r));
    assert_eq!(table.dup(&mut pipes, 77), Err(EBADF));
    assert_eq!(table.insert(&mut pipes, Vfd::Real(1)), 7);
}

#[test]
fn dup2_closes_target_first() {
    let mut pipes = PipeStore::new();
    let mut table = VfdTable::new();
    assert_eq!(table.dup2(&mut pipes, 1, 2), Ok(2));
    assert_eq!(table.get(2), Some(&Vfd::Real(1)));
    assert_eq!(table.dup2(&mut pipes, 50, 2), Err(EBADF));
    assert_eq!(table.get(2), None);
    assert_eq!(table.dup2(&mut pipes, 1, 1), Err(EBADF));
    assert_eq!(table.get(1), None);
}

#[test]
fn forked_table_is_a_copy() {
    let mut pipes = PipeStore::new();
    let mut table = VfdTable::new();
    let (r, w) = table.create_pipe(&mut pipes);
    let copy = table.clone_for_fork(&mut pipes);
    assert_eq!(copy.get(r), table.get(r));
    assert_eq!(copy.get(w), table.get(w));
    assert_eq!(copy.get(0), Some(&Vfd::Real(0)));
    assert_eq!(copy.get(9), None);
}

#[test]
fn pipe_survives_close_in_other_table() {
    let parent = 10u32;
    let child = 20u32;
    let mut all = FdTables::new();
    let mut pipes = PipeStore::new();
    let (read_fd, write_fd) = get_or_create_table(&mut all, parent).create_pipe(&mut pipes);
    fork_fd_table(&mut all, &mut pipes, parent, child);
    let id = match all.lookup(parent, write_fd) {
        Some(Vfd::PipeWrite(id)) => id,
        _ => panic!("no writing end"),
    };
    assert_eq!(pipes.write_to(id, b"hello from parent!"), 18);
    let table = get_table(&mut all, parent).unwrap();
    table.close(&mut pipes, read_fd).unwrap();
    table.close(&mut pipes, write_fd).unwrap();
    let child_id = match all.lookup(child, read_fd) {
        Some(Vfd::PipeRead(id)) => id,
        _ => panic!("no reading end"),
    };
    let mut dst = [0u8; 64];
    assert_eq!(pipes.read_from(child_id, &mut dst), 18);
    assert_eq!(&dst[..18], b"hello from parent!");
    get_table(&mut all, child).unwrap().close(&mut pipes, write_fd).unwrap();
    assert_eq!(pipes.read_from(child_id, &mut dst), 0);
}

#[test]
fn fork_without_parent_table_gives_a_fresh_one() {
    let mut all = FdTables::new();
    let mut pipes = PipeStore::new();
    fork_fd_table(&mut all, &mut pipes, 1, 2);
    assert!(!all.contains(1));
    assert_eq!(all.lookup(2, 2), Some(Vfd::Real(2)));
}

#[test]
fn closing_in_one_process_leaves_the_pipes_of_others() {
    let mut all = FdTables::new();
    let mut pipes = PipeStore::new();
    let (r, w) = get_or_create_table(&mut all, 1).create_pipe(&mut pipes);
    let id = pipe_of(&all, 1, r);
    fork_fd_table(&mut all, &mut pipes, 1, 2);
    get_table(&mut all, 2).unwrap().close(&mut pipes, r).unwrap();
    get_table(&mut all, 2).unwrap().close(&mut pipes, w).unwrap();
    let mut dst = [0u8; 4];
    assert_eq!(pipes.read_from(id, &mut dst), -1);
    assert_eq!(pipes.write_to(id, b"q"), 1);
    fork_fd_table(&mut all, &mut pipes, 1, 3);
    get_table(&mut all, 1).unwrap().close(&mut pipes, w).unwrap();
    assert_eq!(pipes.read_from(id, &mut dst), 1);
    assert_eq!(pipes.read_from(id, &mut dst), -1);
    get_table(&mut all, 3).unwrap().close(&mut pipes, w).unwrap();
    assert_eq!(pipes.read_from(id, &mut dst), 0);
}

#[test]
fn cleanup_of_one_process_ends_its_pipes_for_others() {
    let mut all = FdTables::new();
    let mut pipes = PipeStore::new();
    let (r, w) = get_or_create_table(&mut all, 1).create_pipe(&mut pipes);
    let (other, _) = get_table(&mut all, 1).unwrap().create_pipe(&mut pipes);
    let id = pipe_of(&all, 1, r);
    let other_id = pipe_of(&all, 1, other);
    fork_fd_table(&mut all, &mut pipes, 1, 2);
    get_table(&mut all, 2).unwrap().close(&mut pipes, other).unwrap();
    get_table(&mut all, 2).unwrap().close(&mut pipes, other + 1).unwrap();
    assert_eq!(pipes.write_to(id, b"q"), 1);
    assert!(remove_table_and_get_fds(&mut all, &mut pipes, 2).is_empty());
    assert!(!all.contains(2));
    assert!(pipes.get(id).unwrap().is_closed());
    assert!(!pipes.get(other_id).unwrap().is_closed());
    assert_eq!(all.lookup(1, w), Some(Vfd::PipeWrite(id)));
    assert_eq!(pipes.write_to(id, b"r"), -1);
    let mut dst = [0u8; 4];
    assert_eq!(pipes.read_from(id, &mut dst), 1);
    assert_eq!(pipes.read_from(id, &mut dst), 0);
    assert_eq!(pipes.read_from(other_id, &mut dst), -1);
}

#[test]
fn dropped_table_ends_streams() {
    let mut all = FdTables::new();
    let mut pipes = PipeStore::new();
    let (r, _) = get_or_create_table(&mut all, 1).create_pipe(&mut pipes);
    let id = match all.lookup(1, r) {
        Some(Vfd::PipeRead(id)) => id,
        _ => panic!("no reading end"),
    };
    fork_fd_table(&mut all, &mut pipes, 1, 2);
    remove_table(&mut all, &mut pipes, 2);
    assert!(!all.contains(2));
    assert!(pipes.get(id).unwrap().is_closed());
    remove_table(&mut all, &mut pipes, 99);
}

#[test]
fn replaced_table_is_dropped() {
    let mut all = FdTables::new();
    let mut pipes = PipeStore::new();
    let (r, _) = get_or_create_table(&mut all, 1).create_pipe(&mut pipes);
    let id = match all.lookup(1, r) {
        Some(Vfd::PipeRead(id)) => id,
        _ => panic!("no reading end"),
    };
    let fd = insert_file(&mut all, &mut pipes, 1, 44, false);
    let files = create_table_with_fds(&mut all, &mut pipes, 1, 7, 8, 9);
    assert_eq!(files.len(), 1);
    assert_eq!(files[0].real_fd, 44);
    assert_eq!(all.lookup(1, fd), None);
    assert_eq!(all.lookup(1, 1), Some(Vfd::Real(8)));
    assert_eq!(all.lookup(1, r), None);
    assert!(pipes.get(id).unwrap().is_closed());
}

#[test]
fn cleanup_drops_everything() {
    let mut all = FdTables::new();
    let mut pipes = PipeStore::new();
    let (r, _) = get_or_create_table(&mut all, 1).create_pipe(&mut pipes);
    let id = match all.lookup(1, r) {
        Some(Vfd::PipeRead(id)) => id,
        _ => panic!("no reading end"),
    };
    insert_file(&mut all, &mut pipes, 2, 45, false);
    insert_file(&mut all, &mut pipes, 2, 46, false);
    fork_fd_table(&mut all, &mut pipes, 2, 3);
    let mut kernel: Vec<i32> =
        cleanup(&mut all, &mut pipes).iter().map(|file| file.real_fd).collect();
    kernel.sort();
    assert_eq!(kernel, vec![45, 46]);
    assert!(!all.contains(1) && !all.contains(2));
    assert!(pipes.get(id).unwrap().is_closed());
}

#[test]
fn kernel_descriptor_is_closed_once() {
    let mut all = FdTables::new();
    let mut pipes = PipeStore::new();
    let fd = insert_file(&mut all, &mut pipes, 1, 40, false);
    assert_eq!(fd, 3);
    let file = FileRef { id: 0, real_fd: 40, cloexec: false };
    assert_eq!(all.lookup(1, fd), Some(Vfd::File(file)));
    let copy = get_table(&mut all, 1).unwrap().dup(&mut pipes, fd).unwrap();
    fork_fd_table(&mut all, &mut pipes, 1, 2);
    assert_eq!(close_file_fd(&mut all, 1, fd), None);
    assert_eq!(close_file_fd(&mut all, 1, fd), None);
    assert_eq!(close_file_fd(&mut all, 1, copy), None);
    let left = remove_table_and_get_fds(&mut all, &mut pipes, 2);
    assert_eq!(left, vec![file]);
    assert!(remove_table_and_get_fds(&mut all, &mut pipes, 2).is_empty());
}

#[test]
fn last_close_hands_out_the_kernel_descriptor() {
    let mut all = FdTables::new();
    let mut pipes = PipeStore::new();
    let fd = insert_file(&mut all, &mut pipes, 5, 41, true);
    assert_eq!(close_file_fd(&mut all, 5, fd), Some(41));
    assert_eq!(close_file_fd(&mut all, 5, 0), None);
    assert_eq!(all.lookup(5, 0), Some(Vfd::Real(0)));
}

#[test]
fn close_on_exec_descriptors_go() {
    let mut all = FdTables::new();
    let mut pipes = PipeStore::new();
    let kept = insert_file(&mut all, &mut pipes, 1, 50, false);
    let gone = insert_file(&mut all, &mut pipes, 1, 51, true);
    let files = close_cloexec(&mut all, 1);
    assert_eq!(files.len(), 1);
    assert_eq!(files[0].real_fd, 51);
    assert_eq!(all.lookup(1, gone), None);
    assert!(all.lookup(1, kept).is_some());
    assert!(close_cloexec(&mut all, 1).is_empty());
    assert!(close_cloexec(&mut all, 77).is_empty());
}

#[test]
fn unused_pipes_are_freed() {
    let mut all = FdTables::new();
    let mut pipes = PipeStore::new();
    let (r, w) = get_or_create_table(&mut all, 1).create_pipe(&mut pipes);
    vproc::tables::release_unused_pipes(&all, &mut pipes);
    assert_eq!(pipes.ids().len(), 1);
    let table = get_table(&mut all, 1).unwrap();
    table.close(&mut pipes, r).unwrap();
    table.close(&mut pipes, w).unwrap();
    vproc::tables::release_unused_pipes(&all, &mut pipes);
    assert!(pipes.ids().is_empty());
}

#[test]
fn room_for_descriptors() {
    let all = FdTables::new();
    let pipes = PipeStore::new();
    assert!(vproc::tables::has_room_for_file(&all, 1));
    assert!(vproc::tables::has_room_for_pipe(&all, &pipes, 1));
    assert!(VfdTable::new().can_alloc_pipe());
}

#[test]
fn replaced_last_descriptor_hands_out_the_kernel_descriptor() {
    let mut all = FdTables::new();
    let mut pipes = PipeStore::new();
    let fd = insert_file(&mut all, &mut pipes, 1, 47, false);
    fork_fd_table(&mut all, &mut pipes, 1, 2);
    let first = dup2_fd(&mut all, &mut pipes, 1, 0, fd).unwrap();
    assert_eq!((first.result, first.close_kernel), (Ok(fd), None));
    let last = dup2_fd(&mut all, &mut pipes, 2, 0, fd).unwrap();
    assert_eq!((last.result, last.close_kernel), (Ok(fd), Some(47)));
    let other = insert_file(&mut all, &mut pipes, 1, 48, false);
    let lost = dup2_fd(&mut all, &mut pipes, 1, other, other).unwrap();
    assert_eq!((lost.result, lost.close_kernel), (Err(EBADF), Some(48)));
    assert!(dup2_fd(&mut all, &mut pipes, 9, 0, 1).is_none());
    assert!(dup_fd(&mut all, &mut pipes, 9, 0).is_none());
    let plain = dup_fd(&mut all, &mut pipes, 1, 0).unwrap();
    assert_eq!((plain.result, plain.close_kernel), (Ok(other + 1), None));
}

#[test]
fn duplicate_onto_a_file_under_the_next_number() {
    let mut all = FdTables::new();
    let mut pipes = PipeStore::new();
    let fd = insert_file(&mut all, &mut pipes, 1, 49, false);
    assert_eq!(fd, 3);
    assert_eq!(dup2_fd(&mut all, &mut pipes, 1, fd, 4).unwrap().result, Ok(4));
    assert_eq!(close_file_fd(&mut all, 1, fd), None);
    let d = dup_fd(&mut all, &mut pipes, 1, 0).unwrap();
    assert_eq!((d.result, d.close_kernel), (Ok(4), Some(49)));
}

#[test]
fn forking_over_a_table_hands_out_its_files() {
    let mut all = FdTables::new();
    let mut pipes = PipeStore::new();
    insert_file(&mut all, &mut pipes, 1, 52, false);
    insert_file(&mut all, &mut pipes, 2, 53, false);
    let files = fork_fd_table(&mut all, &mut pipes, 1, 2);
    assert_eq!(files.len(), 1);
    assert_eq!(files[0].real_fd, 53);
    assert!(remove_table(&mut all, &mut pipes, 2).is_empty());
    assert_eq!(remove_table(&mut all, &mut pipes, 1)[0].real_fd, 52);
}
