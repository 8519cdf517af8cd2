use chat_relay::buffer::ClientBuffer;
use chat_relay::BUFFER_SIZE;

#[test]
fn single_line_one_read() {
    let mut b = ClientBuffer::new();
    let r = b.receive(b"hi\n");
    assert_eq!(r, Some(b"hi\n".to_vec()));
    assert_eq!(b.capacity_left(), BUFFER_SIZE);
}

#[test]
fn split_line_two_reads() {
    let mut b = ClientBuffer::new();
    assert_eq!(b.receive(b"hel"), None);
    assert_eq!(b.capacity_left(), BUFFER_SIZE - 3);
    assert_eq!(b.receive(b"lo\n"), Some(b"hello\n".to_vec()));
    assert_eq!(b.capacity_left(), BUFFER_SIZE);
}

#[test]
fn full_buffer_without_newline_is_dropped() {
    let mut b = ClientBuffer::new();
    let oversized = vec![b'a'; BUFFER_SIZE];
    assert_eq!(b.receive(&oversized), None);
    // The oversized line is gone: the buffer is empty again and the dropped
    // bytes never appear in a later chunk.
    assert_eq!(b.capacity_left(), BUFFER_SIZE);
    assert_eq!(b.receive(b"ok\n"), Some(b"ok\n".to_vec()));
}

#[test]
fn two_lines_in_one_read_kept_in_order() {
    let mut b = ClientBuffer::new();
    assert_eq!(b.receive(b"x\ny\n"), Some(b"x\ny\n".to_vec()));
}

#[test]
fn trailing_partial_line_held_back() {
    let mut b = ClientBuffer::new();
    assert_eq!(b.receive(b"a\nbc"), Some(b"a\n".to_vec()));
    assert_eq!(b.capacity_left(), BUFFER_SIZE - 2);
    assert_eq!(b.receive(b"d\n"), Some(b"bcd\n".to_vec()));
}

#[test]
fn empty_read_changes_nothing() {
    let mut b = ClientBuffer::new();
    assert_eq!(b.receive(b""), None);
    assert_eq!(b.capacity_left(), BUFFER_SIZE);
    assert_eq!(b.receive(b"abc"), None);
    assert_eq!(b.receive(b""), None);
    assert_eq!(b.capacity_left(), BUFFER_SIZE - 3);
}

#[test]
fn newline_in_last_slot_completes_a_full_chunk() {
    let mut b = ClientBuffer::new();
    let almost = vec![b'a'; BUFFER_SIZE - 1];
    assert_eq!(b.receive(&almost), None);
    assert_eq!(b.capacity_left(), 1);
    let mut expected = almost.clone();
    expected.push(b'\n');
    assert_eq!(b.receive(b"\n"), Some(expected));
    assert_eq!(b.capacity_left(), BUFFER_SIZE);
}

#[test]
fn scan_and_compact_step_by_step() {
    let mut b = ClientBuffer::new();
    b.append(b"ab\ncd");
    assert!(b.check_message());
    assert_eq!(b.current_line(), b"ab\n".to_vec());
    b.compact();
    // The bytes after the newline now sit at the front of the buffer.
    assert_eq!(b.capacity_left(), BUFFER_SIZE - 2);
    b.append(b"\n");
    assert!(b.check_message());
    assert_eq!(b.current_line(), b"cd\n".to_vec());
    b.compact();
    assert_eq!(b.capacity_left(), BUFFER_SIZE);
}

#[test]
fn scan_without_newline_signals_nothing() {
    let mut b = ClientBuffer::new();
    b.append(b"abc");
    assert!(!b.check_message());
    assert_eq!(b.current_line(), Vec::<u8>::new());
}

#[test]
fn clear_empties_the_buffer() {
    let mut b = ClientBuffer::new();
    b.append(b"abc");
    b.clear();
    assert_eq!(b.capacity_left(), BUFFER_SIZE);
}

#[test]
fn many_reads_split_like_the_concatenation() {
    // Concatenated input: "abc\nde\nf\ngh\n" — its newline-split messages
    // must come out across the reads, in order, nothing lost or invented.
    let mut b = ClientBuffer::new();
    let mut chunks: Vec<u8> = Vec::new();
    for read in [&b"ab"[..], b"c\nd", b"", b"e\nf\ng", b"h\n"] {
        if let Some(chunk) = b.receive(read) {
            chunks.extend_from_slice(&chunk);
        }
    }
    assert_eq!(chunks, b"abc\nde\nf\ngh\n".to_vec());
    assert_eq!(b.capacity_left(), BUFFER_SIZE);
}

#[test]
fn buffer_size_is_the_design_constant() {
    assert_eq!(BUFFER_SIZE, 256);
}

#[test]
fn last_newline_wins_the_scan() {
    let mut b = ClientBuffer::new();
    b.append(b"a\nb\nc");
    assert!(b.check_message());
    assert_eq!(b.current_line(), b"a\nb\n".to_vec());
}
