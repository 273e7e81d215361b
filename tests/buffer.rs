use nab::arena::Arena;
use nab::buffer::{BufferError, ResponseBuffer};

#[test]
fn test_response_buffer_basic() {
    let mut arena = Arena::new();
    let mut buffer = ResponseBuffer::new(&mut arena);

    buffer.push_str("HTTP/1.1 200 OK\r\n");
    buffer.push_str("Content-Type: text/html\r\n");
    buffer.push_str("\r\n");
    buffer.push_str("<html><body>Hello</body></html>");

    let content = buffer.as_str();
    assert!(content.contains("HTTP/1.1 200 OK"));
    assert!(content.contains("<html>"));
    assert_eq!(buffer.part_count(), 4);
}

#[test]
fn test_response_buffer_empty_strings() {
    let mut arena = Arena::new();
    let mut buffer = ResponseBuffer::new(&mut arena);

    buffer.push_str("hello");
    buffer.push_str("");
    buffer.push_str("world");

    assert_eq!(buffer.part_count(), 2);
    assert_eq!(buffer.as_str(), "helloworld");
}

#[test]
fn test_response_buffer_len() {
    let mut arena = Arena::new();
    let mut buffer = ResponseBuffer::new(&mut arena);

    assert_eq!(buffer.len(), 0);
    assert!(buffer.is_empty());

    buffer.push_str("test");
    assert_eq!(buffer.len(), 4);
    assert!(!buffer.is_empty());

    buffer.push_str(" data");
    assert_eq!(buffer.len(), 9);
}

#[test]
fn test_response_buffer_clear() {
    let mut arena = Arena::new();
    let mut buffer = ResponseBuffer::new(&mut arena);

    buffer.push_str("test");
    buffer.push_str("data");
    assert_eq!(buffer.part_count(), 2);

    buffer.clear();
    assert_eq!(buffer.part_count(), 0);
    assert!(buffer.is_empty());

    buffer.push_str("new");
    assert_eq!(buffer.as_str(), "new");
}

#[test]
fn test_response_buffer_capacity() {
    let mut arena = Arena::new();
    let buffer = ResponseBuffer::with_capacity(&mut arena, 10);

    assert_eq!(buffer.part_count(), 0);
}

#[test]
fn nonempty_pushes_are_joined_in_order() {
    let mut arena = Arena::with_chunk_size(8);
    let mut buffer = ResponseBuffer::new(&mut arena);
    let pieces = ["alpha", "b", "gamma-delta", "\u{e9}\u{e8}", "z"];
    for p in pieces.iter() {
        buffer.push_str(p);
    }
    assert_eq!(buffer.part_count(), 5);
    assert_eq!(buffer.as_str(), "alphabgamma-delta\u{e9}\u{e8}z");
    assert_eq!(buffer.as_str(), "alphabgamma-delta\u{e9}\u{e8}z");
}

#[test]
fn empty_push_changes_nothing() {
    let mut arena = Arena::new();
    let mut buffer = ResponseBuffer::new(&mut arena);
    buffer.push_str("one");
    buffer.push_str("");
    assert_eq!(buffer.part_count(), 1);
    assert_eq!(buffer.as_str(), "one");
    assert_eq!(buffer.len(), 3);
}

#[test]
fn len_counts_utf8_bytes() {
    let mut arena = Arena::new();
    let mut buffer = ResponseBuffer::new(&mut arena);
    buffer.push_str("h\u{e9}llo");
    buffer.push_str("\u{1F600}");
    assert_eq!(buffer.len(), 10);
    assert_eq!(buffer.as_str(), "h\u{e9}llo\u{1F600}");
    assert_eq!(buffer.as_str().chars().count(), 6);
}

#[test]
fn push_bytes_accepts_utf8() {
    let mut arena = Arena::new();
    let mut buffer = ResponseBuffer::new(&mut arena);
    assert_eq!(buffer.push_bytes(b"abc"), Ok(()));
    assert_eq!(buffer.push_bytes("\u{e9}".as_bytes()), Ok(()));
    assert_eq!(buffer.push_bytes(b""), Ok(()));
    assert_eq!(buffer.part_count(), 2);
    assert_eq!(buffer.as_str(), "abc\u{e9}");
}

#[test]
fn push_bytes_refuses_invalid_utf8() {
    let mut arena = Arena::new();
    let mut buffer = ResponseBuffer::new(&mut arena);
    buffer.push_str("kept");
    assert_eq!(buffer.push_bytes(&[0x66, 0xff, 0x6f]), Err(BufferError::InvalidEncoding));
    assert_eq!(buffer.push_bytes(&[0xc3]), Err(BufferError::InvalidEncoding));
    assert_eq!(buffer.part_count(), 1);
    assert_eq!(buffer.as_str(), "kept");
}

#[test]
fn clear_keeps_arena_memory() {
    let mut arena = Arena::with_chunk_size(32);
    {
        let mut buffer = ResponseBuffer::new(&mut arena);
        buffer.push_str("0123456789");
        buffer.clear();
        assert!(buffer.is_empty());
    }
    assert_eq!(arena.bytes_used(), 10);
    arena.reset();
    assert_eq!(arena.bytes_used(), 0);
}

#[test]
fn fragments_spread_over_chunks_join_correctly() {
    let mut arena = Arena::with_chunk_size(64);
    let mut expected = String::new();
    {
        let mut buffer = ResponseBuffer::new(&mut arena);
        for i in 0..10 {
            let s = format!("string_{i}_with_some_content");
            expected.push_str(&s);
            buffer.push_str(&s);
        }
        assert_eq!(buffer.part_count(), 10);
        assert_eq!(buffer.as_str(), expected);
    }
    assert!(arena.chunk_count() > 1);
}

#[test]
fn arena_allocate_text_counts_used_bytes() {
    let mut arena = Arena::with_chunk_size(1024);
    arena.alloc_str("test");
    assert!(arena.bytes_used() >= 4);
    assert_eq!(arena.bytes_used(), 4);
}

#[test]
fn empty_pushes_keep_the_buffer_empty() {
    let mut arena = Arena::with_chunk_size(16);
    let mut buffer = ResponseBuffer::new(&mut arena);
    buffer.push_str("");
    assert_eq!(buffer.push_bytes(b""), Ok(()));
    assert!(buffer.is_empty());
    assert_eq!(buffer.len(), 0);
    assert_eq!(buffer.part_count(), 0);
    assert_eq!(buffer.as_str(), "");
}
