use ropey::Rope;

#[test]
fn round_trip_slice_to_rope() {
    let text = "Hello there!\nHow're you doing?\nIt's a fine day.\n";
    let r: Rope = Rope::from_str(text);
    let s = r.slice(3..29);
    let r2 = s.to_rope();
    assert_eq!(r2.slice(..).to_string(), text[3..29].to_string());
}

#[test]
fn clone_is_independent() {
    let text = "Hello there!  How're you doing?";
    let r: Rope = Rope::from_str(text);
    let pre_slice = r.slice(5..12);
    let mut c = r.clone();
    c.insert(5, "ZZZ");
    c.remove(0..2);
    assert!(r == Rope::<ropey::segmentation::DefaultSegmenter>::from_str(text));
    assert!(pre_slice == &text[5..12]);
    assert!(c != r);
}

#[test]
fn index_conversions_round_trip() {
    let text = "こんにちは、みんなさん！\nHow's it going?\nFine, thanks.";
    let r: Rope = Rope::from_str(text);
    let s = r.slice(..);
    for c in 0..s.len_chars() {
        assert_eq!(s.byte_to_char(s.char_to_byte(c)), c);
    }
    for l in 0..s.len_lines() {
        assert_eq!(s.byte_to_line(s.line_to_byte(l)), l);
    }
}

#[test]
fn line_one_past_the_end_is_byte_length() {
    for text in ["", "Hi", "Hi\n", "Hi\nthere", "a\r\nb\r\n"] {
        let r: Rope = Rope::from_str(text);
        let s = r.slice(..);
        assert_eq!(s.line_to_byte(s.len_lines()), s.len_bytes());
        assert_eq!(s.line_to_char(s.len_lines()), s.len_chars());
    }
}

#[test]
fn large_slice_counts_chars() {
    let mut text = String::new();
    for _ in 0..20_000 {
        text.push_str("0123456789");
    }
    let r: Rope = Rope::from_str(&text);
    assert_eq!(r.len_chars(), 200_000);
    let s = r.slice(50_000..150_000);
    assert_eq!(s.len_chars(), 100_000);
    assert_eq!(s.len_bytes(), 100_000);
}

#[test]
fn edits_match_plain_string_edits() {
    let text = "Hello there!  How're you doing?";
    let mut r: Rope = Rope::from_str(text);
    r.remove(20..21);
    r.insert(20, "z");
    assert!(r != Rope::<ropey::segmentation::DefaultSegmenter>::from_str(text));

    let mut expected: String = text.chars().take(20).collect();
    expected.push('z');
    expected.extend(text.chars().skip(21));
    assert!(r == Rope::<ropey::segmentation::DefaultSegmenter>::from_str(&expected));
    assert!(r.slice(..) == expected);
}

#[test]
fn append_joins_texts() {
    let mut a: Rope = Rope::from_str("Hello ");
    let b: Rope = Rope::from_str("world!");
    a.append(b);
    assert!(a.slice(..) == "Hello world!");
    assert_eq!(a.len_chars(), 12);
}

#[test]
fn append_never_splits_crlf() {
    let mut a: Rope = Rope::from_str("one\r");
    let b: Rope = Rope::from_str("\ntwo");
    a.append(b);
    assert!(a.slice(..) == "one\r\ntwo");
    // the pair counts as a single line break
    assert_eq!(a.len_lines(), 2);
    let s = a.slice(..);
    assert_eq!(s.byte_to_line(3), 0);
    assert_eq!(s.byte_to_line(5), 1);
}

#[test]
fn split_off_divides_content() {
    let text = "Hello there!  How're you doing?";
    let mut r: Rope = Rope::from_str(text);
    let tail = r.split_off(12);
    assert!(r.slice(..) == &text[..12]);
    assert!(tail.slice(..) == &text[12..]);
}

#[test]
fn insert_into_empty_rope() {
    let mut r: Rope = Rope::new();
    assert_eq!(r.len_bytes(), 0);
    assert_eq!(r.len_lines(), 1);
    r.insert(0, "Hello");
    assert!(r.slice(..) == "Hello");
}

#[test]
fn insert_large_text_keeps_content() {
    let mut base = String::new();
    for _ in 0..500 {
        base.push_str("abcdefghij");
    }
    let mut r: Rope = Rope::from_str(&base);
    let mut inserted = String::new();
    for _ in 0..300 {
        inserted.push_str("0123456789");
    }
    r.insert(2500, &inserted);
    let mut expected = String::new();
    expected.push_str(&base[..2500]);
    expected.push_str(&inserted);
    expected.push_str(&base[2500..]);
    assert!(r.slice(..) == expected);
    assert_eq!(r.len_chars(), 8000);
}

#[test]
fn remove_middle_lines() {
    let text = "one\ntwo\nthree\nfour\n";
    let mut r: Rope = Rope::from_str(text);
    r.remove(4..14);
    assert!(r.slice(..) == "one\nfour\n");
    assert_eq!(r.len_lines(), 3);
}

#[test]
fn equality_ignores_tree_shape() {
    // the same content reached by different edit sequences compares equal
    let mut a: Rope = Rope::from_str("Hello world!");
    let mut b: Rope = Rope::from_str("Hello, world!");
    b.remove(5..6);
    a.insert(0, "");
    assert!(a == b);
    assert!(a.slice(..) == b);
    assert!(b == a.slice(..));
}

#[test]
fn multibyte_text_splits_cleanly() {
    let mut text = String::new();
    for _ in 0..200 {
        text.push_str("こんにちは、みんなさん！");
    }
    let r: Rope = Rope::from_str(&text);
    assert_eq!(r.len_chars(), 2400);
    let s = r.slice(600..1800);
    assert_eq!(s.len_chars(), 1200);
    let r2 = s.to_rope();
    assert!(r2.slice(..) == s);
}

#[test]
fn slice_line_counts_are_content_based() {
    // a slice ending between a carriage return and its line feed behaves
    // like a standalone rope over the same bytes
    let r: Rope = Rope::from_str("a\r\nb");
    let s = r.slice(0..2);
    assert_eq!(s.len_bytes(), 2);
    assert_eq!(s.len_lines(), 2);
    assert_eq!(s.byte_to_line(2), 1);
    assert_eq!(s.line_to_byte(1), 2);
    assert_eq!(s.line_to_byte(2), 2);
    assert_eq!(s.line_to_char(2), 2);
    let standalone: ropey::RopeSlice = ropey::RopeSlice::from_str("a\r");
    assert_eq!(standalone.len_lines(), 2);
    assert!(s == standalone);
    let r2 = s.to_rope();
    assert_eq!(r2.len_lines(), 2);
}

#[test]
fn full_slice_ending_inside_crlf_counts_content_lines() {
    let mut text = String::new();
    for _ in 0..600 {
        text.push('a');
    }
    text.push_str("\r\n");
    for _ in 0..600 {
        text.push('b');
    }
    let r: Rope = Rope::from_str(&text);
    let s = r.slice(0..601);
    assert_eq!(s.len_bytes(), 601);
    assert_eq!(s.len_lines(), 2);
    assert_eq!(s.byte_to_line(601), 1);
    assert_eq!(s.line_to_byte(1), 601);
    assert_eq!(s.line_to_byte(2), 601);
    assert!(s.line(0) == &text[..601]);
    assert!(s.line(1) == "");
    let r2 = s.to_rope();
    assert_eq!(r2.len_lines(), 2);
}

#[test]
fn as_str_succeeds_exactly_on_contiguous_slices() {
    let small: Rope = Rope::from_str("just one chunk");
    assert_eq!(small.slice(5..8).as_str(), Some("one"));

    let mut text = String::new();
    for _ in 0..200 {
        text.push_str("0123456789");
    }
    let big: Rope = Rope::from_str(&text);
    assert_eq!(big.slice(10..1500).as_str(), None);
}
