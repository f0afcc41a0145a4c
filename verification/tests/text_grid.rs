use rls_vfs::{byte_in_line, byte_in_str, make_line_indices, Column, Line, LinesIndex, Span};

#[test]
fn line_indices_of_sample_text() {
    assert_eq!(
        make_line_indices("foo\nHello\nWorld\nHello, World!\n"),
        vec![0, 4, 10, 16, 30, 30]
    );
}

#[test]
fn line_indices_of_empty_text() {
    assert_eq!(make_line_indices(""), vec![0, 0]);
}

#[test]
fn line_indices_without_final_newline() {
    assert_eq!(make_line_indices("abc"), vec![0, 3]);
    assert_eq!(make_line_indices("abc\ndef"), vec![0, 4, 7]);
}

#[test]
fn line_indices_of_newlines_only() {
    assert_eq!(make_line_indices("\n\n"), vec![0, 1, 2, 2]);
}

#[test]
fn line_indices_leave_carriage_return_in_line() {
    assert_eq!(make_line_indices("a\r\nb"), vec![0, 3, 4]);
}

#[test]
fn line_indices_count_bytes_not_chars() {
    // 'é' takes two bytes, '€' three.
    assert_eq!(make_line_indices("é\n€\n"), vec![0, 3, 7, 7]);
}

#[test]
fn lines_index_get() {
    let index = LinesIndex::from_str("foo\nHello\n");
    assert_eq!(index.len(), 4);
    assert_eq!(index.get(Line(0)), Some(&0));
    assert_eq!(index.get(Line(1)), Some(&4));
    assert_eq!(index.get(Line(2)), Some(&10));
    assert_eq!(index.get(Line(3)), Some(&10));
    assert_eq!(index.get(Line(4)), None);
    assert_eq!(index.get(Line(u32::MAX)), None);
}

#[test]
fn byte_in_line_ascii() {
    assert_eq!(byte_in_line("Hello\n", Column(0)), Some(0));
    assert_eq!(byte_in_line("Hello\n", Column(4)), Some(4));
    assert_eq!(byte_in_line("Hello\n", Column(5)), Some(5));
}

#[test]
fn byte_in_line_accepts_one_past_the_end() {
    assert_eq!(byte_in_line("Hello\n", Column(6)), Some(6));
    assert_eq!(byte_in_line("", Column(0)), Some(0));
}

#[test]
fn byte_in_line_rejects_later_columns() {
    assert_eq!(byte_in_line("Hello\n", Column(7)), None);
    assert_eq!(byte_in_line("", Column(1)), None);
    assert_eq!(byte_in_line("abc", Column(u32::MAX)), None);
}

#[test]
fn byte_in_line_counts_characters() {
    // h:1 é:2 l:1 €:3 😀:4 o:1
    let line = "hél€😀o";
    assert_eq!(byte_in_line(line, Column(0)), Some(0));
    assert_eq!(byte_in_line(line, Column(1)), Some(1));
    assert_eq!(byte_in_line(line, Column(2)), Some(3));
    assert_eq!(byte_in_line(line, Column(3)), Some(4));
    assert_eq!(byte_in_line(line, Column(4)), Some(7));
    assert_eq!(byte_in_line(line, Column(5)), Some(11));
    assert_eq!(byte_in_line(line, Column(6)), Some(12));
    assert_eq!(byte_in_line(line, Column(7)), None);
}

#[test]
fn byte_in_str_takes_wide_counts() {
    assert_eq!(byte_in_str("añb", 2), Some(3));
    assert_eq!(byte_in_str("añb", 3), Some(4));
    assert_eq!(byte_in_str("añb", 4), None);
    assert_eq!(byte_in_str("añb", 1 << 32), None);
    assert_eq!(byte_in_str("añb", u64::MAX), None);
}

#[test]
fn span_from_pairs() {
    let span = Span::from(((1, 2), (3, 4)));
    assert_eq!((span.start.0).0, 1);
    assert_eq!((span.start.1).0, 2);
    assert_eq!((span.end.0).0, 3);
    assert_eq!((span.end.1).0, 4);
}

#[test]
fn line_plus_offset() {
    let line = Line(3) + 4;
    assert_eq!(line.0, 7);
    assert_eq!((Line(0) + 0).0, 0);
    assert_eq!((Line(u32::MAX - 1) + 1).0, u32::MAX);
}

#[test]
fn lines_index_by_line() {
    let index = LinesIndex::from_str("foo\nHello\n");
    assert_eq!(index[Line(0)], 0);
    assert_eq!(index[Line(1)], 4);
    assert_eq!(index[Line(1) + 2], 10);
}
