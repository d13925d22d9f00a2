use tracer_core::writer::MaxWidthWriter;

fn write_all(w: &mut MaxWidthWriter, bytes: &[u8]) {
    w.write(&bytes.to_vec());
}

/// A fresh writer has emitted nothing and buffers nothing.
#[test]
fn new_writer_is_empty() {
    let w = MaxWidthWriter::new(70);
    assert!(w.writer_vec.is_empty());
    assert!(w.line_buffer.is_empty());
    assert_eq!(w.number_columns, 70);
}

/// An embedded newline flushes the completed line at once and keeps the
/// unconsumed trailing bytes buffered.
#[test]
fn newline_flushes_line() {
    let mut w = MaxWidthWriter::new(70);
    write_all(&mut w, b"hello\nwor");
    assert_eq!(w.writer_vec, b"hello\n".to_vec());
    assert_eq!(w.line_buffer, b"wor".to_vec());
    write_all(&mut w, b"ld\n");
    assert_eq!(w.writer_vec, b"hello\nworld\n".to_vec());
    assert!(w.line_buffer.is_empty());
}

/// Finalization flushes the remaining buffered bytes even without a
/// trailing newline.
#[test]
fn flush_emits_remainder() {
    let mut w = MaxWidthWriter::new(70);
    write_all(&mut w, b"tail without newline");
    assert!(w.writer_vec.is_empty());
    w.flush();
    assert_eq!(w.writer_vec, b"tail without newline".to_vec());
    assert!(w.line_buffer.is_empty());
}

/// `flush_partial` emits the first `x` bytes plus a newline and retains the
/// rest, replacing the byte at `x`.
#[test]
fn flush_partial_cuts_buffer() {
    let mut w = MaxWidthWriter::new(70);
    write_all(&mut w, b"abc def");
    w.flush_partial(3);
    assert_eq!(w.writer_vec, b"abc\n".to_vec());
    assert_eq!(w.line_buffer, b"def".to_vec());
}

/// Once the buffer outgrows the budget, the line wraps at the last space
/// inside the budget, never splitting a word.
#[test]
fn wraps_at_last_space_in_budget() {
    let mut w = MaxWidthWriter::new(10);
    write_all(&mut w, b"aa bb cc dd ee\n");
    // the first cut must come at the space after "cc" (index 8), the last
    // space within the first 11 bytes
    let out = String::from_utf8(w.writer_vec.clone()).unwrap();
    assert_eq!(out, "aa bb cc\ndd ee\n");
    for line in out.lines() {
        assert!(line.len() <= 10);
    }
}

/// Streaming equivalence: many arbitrarily split partial writes leave the
/// writer in exactly the state of one write of the concatenation.
#[test]
fn split_writes_equal_one_write() {
    let text: &[u8] = b"255 204 153 255 204 153 255 204 153 255 204 153 255 204 153 255 204 153\nshort line\nand a tail";
    for cut1 in [0, 1, 5, 17, 40, 69, 70, 71, text.len()] {
        for cut2 in [cut1, cut1 + 3, text.len()] {
            let cut2 = cut2.min(text.len());
            let mut one = MaxWidthWriter::new(70);
            write_all(&mut one, text);
            let mut many = MaxWidthWriter::new(70);
            write_all(&mut many, &text[..cut1]);
            write_all(&mut many, &text[cut1..cut2]);
            write_all(&mut many, &text[cut2..]);
            assert_eq!(one.writer_vec, many.writer_vec);
            assert_eq!(one.line_buffer, many.line_buffer);
            one.flush();
            many.flush();
            assert_eq!(one.writer_vec, many.writer_vec);
        }
    }
}

/// Byte-for-byte: splitting one byte at a time equals a single write.
#[test]
fn byte_at_a_time_equals_one_write() {
    let text: &[u8] = b"the quick brown fox jumps over the lazy dog again and again and again and again\n";
    let mut one = MaxWidthWriter::new(30);
    write_all(&mut one, text);
    let mut many = MaxWidthWriter::new(30);
    for b in text {
        write_all(&mut many, &[*b]);
    }
    assert_eq!(one.writer_vec, many.writer_vec);
    assert_eq!(one.line_buffer, many.line_buffer);
}

/// Wrapping replaces the space with the newline and keeps every other byte,
/// so unwrapping reproduces the input.
#[test]
fn wrap_preserves_content() {
    let text = b"one two three four five six seven eight nine ten eleven twelve thirteen fourteen\n";
    let mut w = MaxWidthWriter::new(20);
    write_all(&mut w, text);
    w.flush();
    let out = String::from_utf8(w.writer_vec.clone()).unwrap();
    let unwrapped: String = out
        .trim_end_matches('\n')
        .lines()
        .collect::<Vec<_>>()
        .join(" ");
    let original = String::from_utf8(text.to_vec()).unwrap();
    assert_eq!(unwrapped, original.trim_end_matches('\n'));
    for line in out.lines() {
        assert!(line.len() <= 20);
    }
}
