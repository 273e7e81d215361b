use nab::arena::{Arena, Span, DEFAULT_CHUNK_SIZE};

#[test]
fn test_arena_basic() {
    let mut arena = Arena::new();
    let s1 = arena.alloc_str("hello");
    let s2 = arena.alloc_str(" world");

    assert_eq!(arena.str_at(s1), Some("hello"));
    assert_eq!(arena.str_at(s2), Some(" world"));
}

#[test]
fn test_arena_empty() {
    let mut arena = Arena::new();
    let empty = arena.alloc_str("");
    assert_eq!(arena.str_at(empty), Some(""));
}

#[test]
fn test_arena_large_allocation() {
    let mut arena = Arena::with_chunk_size(1024);
    let large_str = "x".repeat(2048);
    let allocated = arena.alloc_str(&large_str);

    assert_eq!(allocated.len, 2048);
    assert_eq!(arena.str_at(allocated), Some(large_str.as_str()));
}

#[test]
fn test_arena_multiple_chunks() {
    let mut arena = Arena::with_chunk_size(64);

    let mut strings: Vec<Span> = Vec::new();
    for i in 0..10 {
        let s = format!("string_{i}_with_some_content");
        strings.push(arena.alloc_str(&s));
    }

    assert!(arena.chunk_count() > 1);
    assert_eq!(arena.str_at(strings[0]), Some("string_0_with_some_content"));
    assert_eq!(arena.str_at(strings[9]), Some("string_9_with_some_content"));
}

#[test]
fn test_arena_bytes() {
    let mut arena = Arena::new();
    let bytes = b"binary data";
    let allocated = arena.alloc_bytes(bytes);

    assert_eq!(arena.bytes_at(allocated), bytes);
}

#[test]
fn test_arena_stats() {
    let mut arena = Arena::with_chunk_size(1024);

    let initial_allocated = arena.bytes_allocated();
    assert_eq!(initial_allocated, 1024);

    arena.alloc_str("test");
    assert!(arena.bytes_used() >= 4);
}

#[test]
fn test_arena_reset() {
    let mut arena = Arena::new();

    arena.alloc_str("test1");
    arena.alloc_str("test2");

    let used_before = arena.bytes_used();
    assert!(used_before > 0);

    arena.reset();

    let used_after = arena.bytes_used();
    assert_eq!(used_after, 0);

    let s = arena.alloc_str("after reset");
    assert_eq!(arena.str_at(s), Some("after reset"));
}

#[test]
fn default_arena_reserves_one_default_chunk() {
    let arena = Arena::default();
    assert_eq!(arena.chunk_count(), 1);
    assert_eq!(arena.bytes_allocated(), DEFAULT_CHUNK_SIZE);
    assert_eq!(arena.bytes_allocated(), 65536);
    assert_eq!(arena.bytes_used(), 0);
}

#[test]
fn fresh_arena_footprint_is_chunk_size() {
    let arena = Arena::with_chunk_size(1024);
    assert_eq!(arena.bytes_allocated(), 1024);
    assert_eq!(arena.chunk_count(), 1);
    assert_eq!(arena.bytes_used(), 0);
}

#[test]
fn empty_allocation_changes_nothing() {
    let mut arena = Arena::with_chunk_size(16);
    arena.alloc_bytes(b"abc");
    let sp = arena.alloc_bytes(b"");
    assert_eq!(sp.len, 0);
    assert_eq!(arena.bytes_at(sp), b"");
    assert_eq!(arena.chunk_count(), 1);
    assert_eq!(arena.bytes_used(), 3);
    assert_eq!(arena.bytes_allocated(), 16);
}

#[test]
fn small_allocations_are_bumped_in_place() {
    let mut arena = Arena::with_chunk_size(16);
    let a = arena.alloc_bytes(b"abc");
    let b = arena.alloc_bytes(b"defg");
    assert_eq!(a, Span { chunk: 0, start: 0, len: 3 });
    assert_eq!(b, Span { chunk: 0, start: 3, len: 4 });
    assert_eq!(arena.bytes_at(a), b"abc");
    assert_eq!(arena.bytes_at(b), b"defg");
    assert_eq!(arena.bytes_used(), 7);
}

#[test]
fn allocation_of_exactly_chunk_size_reads_back() {
    let mut arena = Arena::with_chunk_size(8);
    let data = [7u8, 6, 5, 4, 3, 2, 1, 0];
    let sp = arena.alloc_bytes(&data);
    assert_eq!(sp, Span { chunk: 0, start: 0, len: 8 });
    assert_eq!(arena.bytes_at(sp), &data);
    assert_eq!(arena.chunk_count(), 1);
    assert_eq!(arena.bytes_allocated(), 8);
}

#[test]
fn allocation_far_beyond_chunk_size_reads_back() {
    let mut arena = Arena::with_chunk_size(4);
    let data: Vec<u8> = (0..1000u32).map(|i| (i % 251) as u8).collect();
    let sp = arena.alloc_bytes(&data);
    assert_eq!(arena.bytes_at(sp), data.as_slice());
    assert_eq!(arena.chunk_count(), 2);
    assert_eq!(arena.bytes_allocated(), 1004);
}

#[test]
fn overflowing_allocation_opens_a_fresh_chunk() {
    let mut arena = Arena::with_chunk_size(8);
    arena.alloc_bytes(b"12345");
    let sp = arena.alloc_bytes(b"6789");
    assert_eq!(sp, Span { chunk: 1, start: 0, len: 4 });
    assert_eq!(arena.chunk_count(), 2);
    assert_eq!(arena.bytes_allocated(), 16);
    assert_eq!(arena.bytes_used(), 9);
    let next = arena.alloc_bytes(b"ab");
    assert_eq!(next, Span { chunk: 1, start: 4, len: 2 });
}

#[test]
fn large_allocation_keeps_the_cursor() {
    let mut arena = Arena::with_chunk_size(16);
    let first = arena.alloc_bytes(b"head");
    let big = arena.alloc_bytes(&[9u8; 40]);
    assert_eq!(big, Span { chunk: 1, start: 0, len: 40 });
    assert_eq!(arena.chunk_count(), 2);
    assert_eq!(arena.bytes_allocated(), 16 + 40);
    let small = arena.alloc_bytes(b"tail");
    assert_eq!(small, Span { chunk: 0, start: 4, len: 4 });
    assert_eq!(arena.bytes_at(first), b"head");
    assert_eq!(arena.bytes_at(big), &[9u8; 40]);
    assert_eq!(arena.bytes_at(small), b"tail");
}

#[test]
fn reset_keeps_only_the_first_chunk() {
    let mut arena = Arena::with_chunk_size(8);
    arena.alloc_bytes(b"1234567");
    arena.alloc_bytes(b"abcdefgh");
    arena.alloc_bytes(&[1u8; 30]);
    assert_eq!(arena.chunk_count(), 3);
    arena.reset();
    assert_eq!(arena.chunk_count(), 1);
    assert_eq!(arena.bytes_used(), 0);
    assert_eq!(arena.bytes_allocated(), 8);
    let sp = arena.alloc_bytes(b"again");
    assert_eq!(sp, Span { chunk: 0, start: 0, len: 5 });
    assert_eq!(arena.bytes_at(sp), b"again");
}

#[test]
fn str_at_refuses_bytes_that_are_not_utf8() {
    let mut arena = Arena::new();
    let sp = arena.alloc_bytes(&[0xff, 0xfe, 0x41]);
    assert_eq!(arena.str_at(sp), None);
    let ok = arena.alloc_bytes("h\u{e9}".as_bytes());
    assert_eq!(arena.str_at(ok), Some("h\u{e9}"));
}
