use audio_engine::ring::RingBuffer;

#[test]
fn new_ring_is_silent_and_empty() {
    let mut ring = RingBuffer::new(4, 0.0f32);
    assert_eq!(ring.size(), 4);
    assert_eq!(ring.delay(), 0);
    let mut out = [1.0f32; 4];
    ring.read(&mut out);
    assert_eq!(out, [0.0; 4]);
}

#[test]
fn what_is_written_is_read_back_in_order() {
    let mut ring = RingBuffer::new(8, 0.0f32);
    ring.write(&[1.0, 2.0, 3.0]);
    assert_eq!(ring.delay(), 3);
    let mut out = [0.0f32; 3];
    ring.read(&mut out);
    assert_eq!(out, [1.0, 2.0, 3.0]);
    assert_eq!(ring.delay(), 0);
}

#[test]
fn round_trip_survives_wraparound() {
    // The buffer is smaller than one write and one read together, so the
    // cursors wrap again and again.
    let mut ring = RingBuffer::new(5, 0i32);
    let mut next = 0;
    let mut expected = 0;
    for _ in 0..50 {
        let block: Vec<i32> = (next..next + 3).collect();
        next += 3;
        ring.write(&block);
        let mut out = [0i32; 3];
        ring.read(&mut out);
        for sample in out {
            assert_eq!(sample, expected);
            expected += 1;
        }
    }
}

#[test]
fn several_writes_then_several_reads() {
    let mut ring = RingBuffer::new(8, 0u8);
    // Move the cursors off the start first.
    ring.write(&[9, 9, 9, 9, 9, 9]);
    let mut skip = [0u8; 6];
    ring.read(&mut skip);
    ring.write(&[1, 2]);
    ring.write(&[3]);
    ring.write(&[4, 5, 6, 7]);
    assert_eq!(ring.delay(), 7);
    let mut a = [0u8; 3];
    let mut b = [0u8; 4];
    ring.read(&mut a);
    ring.read(&mut b);
    assert_eq!(a, [1, 2, 3]);
    assert_eq!(b, [4, 5, 6, 7]);
}

#[test]
fn writing_more_than_fits_keeps_the_newest() {
    let mut ring = RingBuffer::new(4, 0u8);
    ring.write(&[1, 2, 3, 4, 5, 6]);
    // The write cursor stands at 2; the store holds 5 6 3 4.
    assert_eq!(ring.delay(), 2);
    ring.seek(4);
    let mut out = [0u8; 4];
    ring.read(&mut out);
    assert_eq!(out, [3, 4, 5, 6]);
}

#[test]
fn seek_sets_the_delay() {
    let mut ring = RingBuffer::new(10, 0u8);
    ring.write(&[1, 2, 3, 4, 5, 6, 7]);
    ring.seek(3);
    assert_eq!(ring.delay(), 3);
    let mut out = [0u8; 3];
    ring.read(&mut out);
    assert_eq!(out, [5, 6, 7]);
    ring.seek(13);
    assert_eq!(ring.delay(), 3);
    ring.seek(0);
    assert_eq!(ring.delay(), 0);
}

#[test]
fn peek_leaves_the_cursor_and_skip_moves_it() {
    let mut ring = RingBuffer::new(6, 0u8);
    ring.write(&[1, 2, 3, 4]);
    let mut out = [0u8; 2];
    ring.peek(&mut out);
    assert_eq!(out, [1, 2]);
    assert_eq!(ring.delay(), 4);
    ring.skip(1);
    ring.peek(&mut out);
    assert_eq!(out, [2, 3]);
    assert_eq!(ring.delay(), 3);
    ring.skip(6);
    assert_eq!(ring.delay(), 3);
}

#[test]
fn empty_ring_takes_empty_blocks() {
    let mut ring = RingBuffer::new(0, 0u8);
    assert_eq!(ring.size(), 0);
    ring.write(&[]);
    let mut out: [u8; 0] = [];
    ring.read(&mut out);
}

#[test]
fn cursors_move_by_signed_offsets() {
    let mut ring = RingBuffer::new(5, 0u8);
    ring.write(&[1, 2, 3, 4]);
    ring.seek_read(2);
    assert_eq!(ring.delay(), 2);
    ring.seek_read(-1);
    assert_eq!(ring.delay(), 3);
    ring.seek_read(-7);
    assert_eq!(ring.delay(), 0);
    ring.seek_read(isize::MIN);
    // The least offset is three samples back in a store of five.
    assert_eq!(ring.delay(), 3);
    ring.seek_write(-3);
    assert_eq!(ring.delay(), 0);
    ring.seek_write(12);
    assert_eq!(ring.delay(), 2);
    ring.sync_read_to_write(4);
    assert_eq!(ring.delay(), 4);
    let mut out = [0u8; 4];
    ring.read(&mut out);
    assert_eq!(out, [0, 1, 2, 3]);
}

#[test]
fn slice_read_gives_one_piece_or_two() {
    let mut ring = RingBuffer::new(8, 0u32);
    ring.write(&[1, 2, 3, 4, 5, 6]);
    ring.seek(6);
    // From the read cursor on, without going over the end.
    let (first, second) = ring.slice_read(0, 4);
    assert_eq!(first, &[1, 2, 3, 4]);
    assert_eq!(second, &[] as &[u32]);
    // Over the end of the store, in two pieces.
    let (first, second) = ring.slice_read(4, 10);
    assert_eq!(first, &[5, 6, 0, 0]);
    assert_eq!(second, &[1, 2]);
    // Before the read cursor.
    let (first, second) = ring.slice_read(-2, 1);
    assert_eq!(first, &[0, 0]);
    assert_eq!(second, &[1]);
    // Where both ends fall on one place, the whole store from there on.
    let (first, second) = ring.slice_read(3, 3);
    assert_eq!(first, &[4, 5, 6, 0, 0]);
    assert_eq!(second, &[1, 2, 3]);
    // Nothing has been read.
    assert_eq!(ring.delay(), 6);
}

#[test]
fn writes_and_reads_in_turn_keep_the_order() {
    // A store smaller than what goes through it, so that the cursors wrap
    // many times.
    let mut ring = RingBuffer::new(5, 0u32);
    let mut next = 0u32;
    let mut expected = 0u32;
    let mut unread = 0usize;
    for round in 0..40usize {
        let put = (round * 3) % 6;
        let put = put.min(5 - unread);
        let block: Vec<u32> = (0..put as u32).map(|i| next + i).collect();
        ring.write(&block);
        next += put as u32;
        unread += put;
        assert_eq!(ring.delay(), unread % 5);
        let take = ((round * 2) % 5).min(unread);
        let mut out = vec![u32::MAX; take];
        ring.read(&mut out);
        for sample in out {
            assert_eq!(sample, expected);
            expected += 1;
        }
        unread -= take;
    }
    assert!(expected > 50);
}
