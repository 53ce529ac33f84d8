use ropey::Rope;

// 127 bytes, 103 chars, 1 line
const TEXT: &str = "Hello there!  How're you doing?  It's \
                    a fine day, isn't it?  Aren't you glad \
                    we're alive?  こんにちは、みんなさん！";
// 124 bytes, 100 chars, 4 lines
const TEXT_LINES: &str = "Hello there!  How're you doing?\nIt's \
                          a fine day, isn't it?\nAren't you glad \
                          we're alive?\nこんにちは、みんなさん！";

#[test]
fn len_bytes_01() {
    let r: Rope = Rope::from_str(TEXT);
    let s = r.slice(7..98);
    assert_eq!(s.len_bytes(), 105);
}

#[test]
fn len_bytes_02() {
    let r: Rope = Rope::from_str(TEXT);
    let s = r.slice(43..43);
    assert_eq!(s.len_bytes(), 0);
}

#[test]
fn len_chars_01() {
    let r: Rope = Rope::from_str(TEXT);
    let s = r.slice(7..98);
    assert_eq!(s.len_chars(), 91);
}

#[test]
fn len_chars_02() {
    let r: Rope = Rope::from_str(TEXT);
    let s = r.slice(43..43);
    assert_eq!(s.len_chars(), 0);
}

#[test]
fn len_lines_01() {
    let r: Rope = Rope::from_str(TEXT_LINES);
    let s = r.slice(34..98);
    assert_eq!(s.len_lines(), 3);
}

#[test]
fn len_lines_02() {
    let r: Rope = Rope::from_str(TEXT_LINES);
    let s = r.slice(43..43);
    assert_eq!(s.len_lines(), 1);
}

#[test]
fn byte_to_char_01() {
    let r: Rope = Rope::from_str(TEXT);
    let s = r.slice(88..102);

    // ?  こんにちは、みんなさん

    assert_eq!(0, s.byte_to_char(0));
    assert_eq!(1, s.byte_to_char(1));
    assert_eq!(2, s.byte_to_char(2));

    assert_eq!(3, s.byte_to_char(3));
    assert_eq!(3, s.byte_to_char(4));
    assert_eq!(3, s.byte_to_char(5));

    assert_eq!(4, s.byte_to_char(6));
    assert_eq!(4, s.byte_to_char(7));
    assert_eq!(4, s.byte_to_char(8));

    assert_eq!(13, s.byte_to_char(33));
    assert_eq!(13, s.byte_to_char(34));
    assert_eq!(13, s.byte_to_char(35));
    assert_eq!(14, s.byte_to_char(36));
}

#[test]
fn byte_to_line_01() {
    let r: Rope = Rope::from_str(TEXT_LINES);
    let s = r.slice(34..96);

    // 's a fine day, isn't it?\nAren't you glad \
    // we're alive?\nこんにちは、みん

    assert_eq!(0, s.byte_to_line(0));
    assert_eq!(0, s.byte_to_line(1));

    assert_eq!(0, s.byte_to_line(24));
    assert_eq!(1, s.byte_to_line(25));
    assert_eq!(1, s.byte_to_line(26));

    assert_eq!(1, s.byte_to_line(53));
    assert_eq!(2, s.byte_to_line(54));
    assert_eq!(2, s.byte_to_line(57));

    assert_eq!(2, s.byte_to_line(78));
}

#[test]
fn byte_to_line_02() {
    let r: Rope = Rope::from_str(TEXT_LINES);
    let s = r.slice(50..50);
    assert_eq!(0, s.byte_to_line(0));
}

#[test]
fn byte_to_line_03() {
    let r: Rope = Rope::from_str("Hi there\nstranger!");
    let s = r.slice(0..9);
    assert_eq!(0, s.byte_to_line(0));
    assert_eq!(0, s.byte_to_line(8));
    assert_eq!(1, s.byte_to_line(9));
}

#[test]
fn char_to_byte_01() {
    let r: Rope = Rope::from_str(TEXT);
    let s = r.slice(88..102);

    // ?  こんにちは、みんなさん

    assert_eq!(0, s.char_to_byte(0));
    assert_eq!(1, s.char_to_byte(1));
    assert_eq!(2, s.char_to_byte(2));

    assert_eq!(3, s.char_to_byte(3));
    assert_eq!(6, s.char_to_byte(4));
    assert_eq!(33, s.char_to_byte(13));
    assert_eq!(36, s.char_to_byte(14));
}

#[test]
fn char_to_line_01() {
    let r: Rope = Rope::from_str(TEXT_LINES);
    let s = r.slice(34..96);

    assert_eq!(0, s.char_to_line(0));
    assert_eq!(0, s.char_to_line(1));

    assert_eq!(0, s.char_to_line(24));
    assert_eq!(1, s.char_to_line(25));
    assert_eq!(1, s.char_to_line(26));

    assert_eq!(1, s.char_to_line(53));
    assert_eq!(2, s.char_to_line(54));
    assert_eq!(2, s.char_to_line(55));

    assert_eq!(2, s.char_to_line(62));
}

#[test]
fn char_to_line_02() {
    let r: Rope = Rope::from_str(TEXT_LINES);
    let s = r.slice(43..43);

    assert_eq!(0, s.char_to_line(0));
}

#[test]
fn char_to_line_03() {
    let r: Rope = Rope::from_str("Hi there\nstranger!");
    let s = r.slice(0..9);
    assert_eq!(0, s.char_to_line(0));
    assert_eq!(0, s.char_to_line(8));
    assert_eq!(1, s.char_to_line(9));
}

#[test]
fn line_to_byte_01() {
    let r: Rope = Rope::from_str(TEXT_LINES);
    let s = r.slice(34..96);

    assert_eq!(0, s.line_to_byte(0));
    assert_eq!(25, s.line_to_byte(1));
    assert_eq!(54, s.line_to_byte(2));
    assert_eq!(78, s.line_to_byte(3));
}

#[test]
fn line_to_byte_02() {
    let r: Rope = Rope::from_str(TEXT_LINES);
    let s = r.slice(43..43);

    assert_eq!(0, s.line_to_byte(0));
    assert_eq!(0, s.line_to_byte(1));
}

#[test]
fn line_to_char_01() {
    let r: Rope = Rope::from_str(TEXT_LINES);
    let s = r.slice(34..96);

    assert_eq!(0, s.line_to_char(0));
    assert_eq!(25, s.line_to_char(1));
    assert_eq!(54, s.line_to_char(2));
    assert_eq!(62, s.line_to_char(3));
}

#[test]
fn line_to_char_02() {
    let r: Rope = Rope::from_str(TEXT_LINES);
    let s = r.slice(43..43);

    assert_eq!(0, s.line_to_char(0));
    assert_eq!(0, s.line_to_char(1));
}

#[test]
fn char_01() {
    let r: Rope = Rope::from_str(TEXT);
    let s = r.slice(34..100);

    // t's \
    // a fine day, isn't it?  Aren't you glad \
    // we're alive?  こんにちは、みんな

    assert!(s.char(0) == 't');
    assert!(s.char(10) == ' ');
    assert!(s.char(18) == 'n');
    assert!(s.char(65) == 'な');
}

#[test]
fn line_01() {
    let r: Rope = Rope::from_str(TEXT_LINES);
    let s = r.slice(34..96);
    // "'s a fine day, isn't it?\nAren't you glad \
    //  we're alive?\nこんにちは、みん"

    assert!(s.line(0) == "'s a fine day, isn't it?\n");
    assert!(s.line(1) == "Aren't you glad we're alive?\n");
    assert!(s.line(2) == "こんにちは、みん");
}

#[test]
fn line_02() {
    let r: Rope = Rope::from_str(TEXT_LINES);
    let s = r.slice(34..59);
    // "'s a fine day, isn't it?\n"

    assert!(s.line(0) == "'s a fine day, isn't it?\n");
    assert!(s.line(1) == "");
}

#[test]
fn line_03() {
    let r: Rope = Rope::from_str("Hi\nHi\nHi\nHi\nHi\nHi\n");
    let s = r.slice(1..17);

    assert!(s.line(0) == "i\n");
    assert!(s.line(1) == "Hi\n");
    assert!(s.line(2) == "Hi\n");
    assert!(s.line(3) == "Hi\n");
    assert!(s.line(4) == "Hi\n");
    assert!(s.line(5) == "Hi");
}

#[test]
fn line_04() {
    let r: Rope = Rope::from_str(TEXT_LINES);
    let s = r.slice(43..43);

    assert!(s.line(0) == "");
}

#[test]
fn chunk_at_byte() {
    let r: Rope = Rope::from_str(TEXT_LINES);
    let s = r.slice(34..96);
    let text = &TEXT_LINES[34..112];
    // "'s a fine day, isn't it?\nAren't you glad \
    //  we're alive?\nこんにちは、みん"

    let mut t = text;
    let mut prev_chunk = "";
    for i in 0..s.len_bytes() {
        let (chunk, b, c, l) = s.chunk_at_byte(i);
        assert_eq!(c, ropey::str_utils::byte_to_char_idx(text, b));
        assert_eq!(l, ropey::str_utils::byte_to_line_idx(text, b));
        if chunk != prev_chunk {
            assert_eq!(chunk, &t[..chunk.len()]);
            t = &t[chunk.len()..];
            prev_chunk = chunk;
        }

        let c1 = {
            let i2 = ropey::str_utils::byte_to_char_idx(text, i);
            text.chars().nth(i2).unwrap()
        };
        let c2 = {
            let i2 = i - b;
            let i3 = ropey::str_utils::byte_to_char_idx(chunk, i2);
            chunk.chars().nth(i3).unwrap()
        };
        assert_eq!(c1, c2);
    }

    assert_eq!(t.len(), 0);
}

#[test]
fn chunk_at_char() {
    let r: Rope = Rope::from_str(TEXT_LINES);
    let s = r.slice(34..96);
    let text = &TEXT_LINES[34..112];

    let mut t = text;
    let mut prev_chunk = "";
    for i in 0..s.len_chars() {
        let (chunk, b, c, l) = s.chunk_at_char(i);
        assert_eq!(b, ropey::str_utils::char_to_byte_idx(text, c));
        assert_eq!(l, ropey::str_utils::char_to_line_idx(text, c));
        if chunk != prev_chunk {
            assert_eq!(chunk, &t[..chunk.len()]);
            t = &t[chunk.len()..];
            prev_chunk = chunk;
        }

        let c1 = text.chars().nth(i).unwrap();
        let c2 = {
            let i2 = i - c;
            chunk.chars().nth(i2).unwrap()
        };
        assert_eq!(c1, c2);
    }
    assert_eq!(t.len(), 0);
}

#[test]
fn chunk_at_line_break() {
    let r: Rope = Rope::from_str(TEXT_LINES);
    let s = r.slice(34..96);
    let text = &TEXT_LINES[34..112];

    // First chunk
    {
        let (chunk, b, c, l) = s.chunk_at_line_break(0);
        assert_eq!(chunk, &text[..chunk.len()]);
        assert_eq!(b, 0);
        assert_eq!(c, 0);
        assert_eq!(l, 0);
    }

    // Middle chunks
    for i in 1..s.len_lines() {
        let (chunk, b, c, l) = s.chunk_at_line_break(i);
        assert_eq!(chunk, &text[b..(b + chunk.len())]);
        assert_eq!(c, ropey::str_utils::byte_to_char_idx(text, b));
        assert_eq!(l, ropey::str_utils::byte_to_line_idx(text, b));
        assert!(l < i);
        assert!(i <= ropey::str_utils::byte_to_line_idx(text, b + chunk.len()));
    }

    // Last chunk
    {
        let (chunk, b, c, l) = s.chunk_at_line_break(s.len_lines());
        assert_eq!(chunk, &text[(text.len() - chunk.len())..]);
        assert_eq!(chunk, &text[b..]);
        assert_eq!(c, ropey::str_utils::byte_to_char_idx(text, b));
        assert_eq!(l, ropey::str_utils::byte_to_line_idx(text, b));
    }
}

#[test]
fn slice_01() {
    let r: Rope = Rope::from_str(TEXT);
    let s1 = r.slice(..);

    let s2 = s1.slice(..);

    assert!(TEXT == s2);
}

#[test]
fn slice_02() {
    let r: Rope = Rope::from_str(TEXT);
    let s1 = r.slice(5..43);

    let s2 = s1.slice(3..25);

    assert!(&TEXT[8..30] == s2);
}

#[test]
fn slice_03() {
    let r: Rope = Rope::from_str(TEXT);
    let s1 = r.slice(31..97);

    let s2 = s1.slice(7..64);

    assert!(&TEXT[38..103] == s2);
}

#[test]
fn slice_04() {
    let r: Rope = Rope::from_str(TEXT);
    let s1 = r.slice(5..43);

    let s2 = s1.slice(21..21);

    assert!("" == s2);
}

#[test]
fn eq_str_01() {
    let r: Rope = Rope::from_str(TEXT);
    let slice = r.slice(..);

    assert!(slice == TEXT);
    assert!(TEXT == slice);
}

#[test]
fn eq_str_02() {
    let r: Rope = Rope::from_str(TEXT);
    let slice = r.slice(0..20);

    assert!(slice != TEXT);
    assert!(TEXT != slice);
}

#[test]
fn eq_str_03() {
    let mut r: Rope = Rope::from_str(TEXT);
    r.remove(20..21);
    r.insert(20, "z");
    let slice = r.slice(..);

    assert!(slice != TEXT);
    assert!(TEXT != slice);
}

#[test]
fn eq_str_04() {
    let r: Rope = Rope::from_str(TEXT);
    let slice = r.slice(..);
    let s: String = TEXT.into();

    assert!(slice == s);
    assert!(s == slice);
}

#[test]
fn eq_rope_slice_01() {
    let r: Rope = Rope::from_str(TEXT);
    let s = r.slice(43..43);

    assert!(s == s);
}

#[test]
fn eq_rope_slice_02() {
    let r: Rope = Rope::from_str(TEXT);
    let s1 = r.slice(43..97);
    let s2 = r.slice(43..97);

    assert!(s1 == s2);
}

#[test]
fn eq_rope_slice_03() {
    let r: Rope = Rope::from_str(TEXT);
    let s1 = r.slice(43..43);
    let s2 = r.slice(43..45);

    assert!(s1 != s2);
}

#[test]
fn eq_rope_slice_04() {
    let r: Rope = Rope::from_str(TEXT);
    let s1 = r.slice(43..45);
    let s2 = r.slice(43..43);

    assert!(s1 != s2);
}

#[test]
fn eq_rope_slice_05() {
    let r: Rope = Rope::from_str("");
    let s = r.slice(0..0);

    assert!(s == s);
}

#[test]
fn to_rope_01() {
    let r1: Rope = Rope::from_str(TEXT);
    let s = r1.slice(..);
    let r2 = s.to_rope();

    assert!(r1 == r2);
    assert!(s == r2);
}

#[test]
fn to_rope_02() {
    let r1: Rope = Rope::from_str(TEXT);
    let s = r1.slice(0..24);
    let r2 = s.to_rope();

    assert!(s == r2);
}

#[test]
fn to_rope_03() {
    let r1: Rope = Rope::from_str(TEXT);
    let s = r1.slice(13..89);
    let r2 = s.to_rope();

    assert!(s == r2);
}

#[test]
fn to_rope_04() {
    let r1: Rope = Rope::from_str(TEXT);
    let s = r1.slice(13..41);
    let r2 = s.to_rope();

    assert!(s == r2);
}

#[test]
fn as_str_and_from_str() {
    let s: ropey::RopeSlice = ropey::RopeSlice::from_str("Hello there!");
    assert_eq!(s.len_bytes(), 12);
    assert_eq!(s.len_chars(), 12);
    assert_eq!(s.len_lines(), 1);
    assert_eq!(s.as_str(), Some("Hello there!"));
    assert!(s == "Hello there!");
}

#[test]
fn to_string_matches_content() {
    let r: Rope = Rope::from_str(TEXT);
    let s = r.slice(5..43);
    assert_eq!(s.to_string(), TEXT[5..43].to_string());
    let full = r.slice(..);
    assert_eq!(full.to_string(), TEXT.to_string());
}
