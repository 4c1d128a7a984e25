use vproc::pipe::{PipeBuffer, PipeStore, PIPE_CAPACITY};

#[test]
fn new_pipe_is_open_and_empty() {
    let pipe = PipeBuffer::new();
    assert!(pipe.is_empty());
    assert!(!pipe.is_full());
    assert!(!pipe.is_closed());
}

#[test]
fn bytes_come_out_in_order() {
    let mut pipe = PipeBuffer::new();
    assert_eq!(pipe.write_to(b"hello pipe!"), 11);
    let mut dst = [0u8; 5];
    assert_eq!(pipe.read_from(&mut dst), 5);
    assert_eq!(&dst, b"hello");
    let mut rest = [b'x'; 64];
    assert_eq!(pipe.read_from(&mut rest), 6);
    assert_eq!(&rest[..6], b" pipe!");
    assert_eq!(rest[6], b'x');
}

#[test]
fn open_empty_pipe_says_try_again() {
    let mut pipe = PipeBuffer::new();
    let mut dst = [7u8; 4];
    assert_eq!(pipe.read_from(&mut dst), -1);
    assert_eq!(dst, [7u8; 4]);
}

#[test]
fn closed_pipe_drains_and_ends() {
    let mut pipe = PipeBuffer::new();
    assert_eq!(pipe.write_to(b"ab"), 2);
    pipe.close();
    assert!(pipe.is_closed());
    assert_eq!(pipe.write_to(b"c"), -1);
    let mut dst = [0u8; 8];
    assert_eq!(pipe.read_from(&mut dst), 2);
    assert_eq!(&dst[..2], b"ab");
    assert_eq!(pipe.read_from(&mut dst), 0);
    assert_eq!(pipe.read_from(&mut dst), 0);
}

#[test]
fn full_pipe_takes_what_fits_then_nothing() {
    let mut pipe = PipeBuffer::new();
    let big = vec![3u8; PIPE_CAPACITY + 10];
    assert_eq!(pipe.write_to(&big), PIPE_CAPACITY as isize);
    assert!(pipe.is_full());
    assert_eq!(pipe.write_to(b"x"), -1);
    let mut one = [0u8; 1];
    assert_eq!(pipe.read_from(&mut one), 1);
    assert_eq!(pipe.write_to(b"xy"), 1);
}

#[test]
fn ring_wraps_around() {
    let mut pipe = PipeBuffer::new();
    let mut written: u32 = 0;
    let mut read: u32 = 0;
    let mut chunk = vec![0u8; 40_000];
    for _ in 0..20 {
        for b in chunk.iter_mut() {
            *b = (written % 251) as u8;
            written += 1;
        }
        assert_eq!(pipe.write_to(&chunk), 40_000);
        let mut dst = vec![0u8; 40_000];
        assert_eq!(pipe.read_from(&mut dst), 40_000);
        for b in dst {
            assert_eq!(b, (read % 251) as u8);
            read += 1;
        }
    }
    assert!(pipe.is_empty());
}

#[test]
fn zero_length_transfers() {
    let mut pipe = PipeBuffer::new();
    assert_eq!(pipe.write_to(&[]), 0);
    assert_eq!(pipe.write_to(b"z"), 1);
    let mut nothing: [u8; 0] = [];
    assert_eq!(pipe.read_from(&mut nothing), 0);
    assert!(!pipe.is_empty());
}

#[test]
fn store_keeps_pipes_apart() {
    let mut store = PipeStore::new();
    let a = store.create();
    let b = store.create();
    assert_ne!(a, b);
    assert_eq!(store.write_to(a, b"aa"), 2);
    let mut dst = [0u8; 4];
    assert_eq!(store.read_from(b, &mut dst), -1);
    assert_eq!(store.read_from(a, &mut dst), 2);
    store.close(b);
    assert!(store.get(b).unwrap().is_closed());
    assert!(!store.get(a).unwrap().is_closed());
    store.remove(a);
    assert!(store.get(a).is_none());
    assert_eq!(store.ids(), vec![b]);
    assert!(store.can_create(u64::MAX - 2));
    assert!(!store.can_create(u64::MAX - 1));
}

#[test]
fn ends_are_counted() {
    let mut pipe = PipeBuffer::new();
    let mut dst = [0u8; 4];
    pipe.open_writer();
    pipe.close_writer();
    assert!(!pipe.is_ended());
    assert_eq!(pipe.read_from(&mut dst), -1);
    pipe.close_writer();
    assert!(pipe.is_ended());
    assert!(!pipe.is_closed());
    assert_eq!(pipe.read_from(&mut dst), 0);
    pipe.close_writer();
    pipe.open_writer();
    assert!(!pipe.is_ended());
    pipe.open_reader();
    pipe.close_reader();
    assert_eq!(pipe.write_to(b"a"), 1);
    pipe.close_reader();
    assert!(pipe.is_broken());
    assert_eq!(pipe.write_to(b"a"), -1);
    assert_eq!(pipe.read_from(&mut dst), 1);
    pipe.close_writer();
    assert!(pipe.is_closed());
}

#[test]
fn ends_of_stored_pipes_are_counted() {
    let mut store = PipeStore::new();
    let id = store.create();
    store.open_reader(id);
    store.open_writer(id);
    store.close_reader(id);
    store.close_writer(id);
    assert!(!store.get(id).unwrap().is_ended() && !store.get(id).unwrap().is_broken());
    store.close_writer(id);
    assert!(store.get(id).unwrap().is_ended());
    store.close_reader(id);
    assert!(store.get(id).unwrap().is_closed());
    store.open_writer(id + 1);
    assert_eq!(store.ids(), vec![id]);
}
