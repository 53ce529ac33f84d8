use ropey::segmentation::{
    is_break_checked, nearest_internal_break, seam_is_break_checked, CrlfSegmenter,
    DefaultSegmenter, GraphemeSegmenter, NullSegmenter,
};

type MSeg = CrlfSegmenter<DefaultSegmenter>;

#[test]
fn crlf_segmenter_01() {
    let text = "Hello world!\r\nHow's it going?";

    assert!(is_break_checked::<CrlfSegmenter<NullSegmenter>>(0, ""));
    assert!(is_break_checked::<CrlfSegmenter<NullSegmenter>>(0, text));
    assert!(is_break_checked::<CrlfSegmenter<NullSegmenter>>(12, text));
    assert!(!is_break_checked::<CrlfSegmenter<NullSegmenter>>(13, text));
    assert!(is_break_checked::<CrlfSegmenter<NullSegmenter>>(14, text));
    assert!(is_break_checked::<CrlfSegmenter<NullSegmenter>>(19, text));
}

#[test]
fn crlf_segmenter_02() {
    let l = "Hello world!\r";
    let r = "\nHow's it going?";

    assert!(!seam_is_break_checked::<CrlfSegmenter<NullSegmenter>>(l, r));
    assert!(!seam_is_break_checked::<CrlfSegmenter<NullSegmenter>>(l, "\n"));
    assert!(!seam_is_break_checked::<CrlfSegmenter<NullSegmenter>>("\r", r));
    assert!(!seam_is_break_checked::<CrlfSegmenter<NullSegmenter>>("\r", "\n"));
    assert!(seam_is_break_checked::<CrlfSegmenter<NullSegmenter>>(r, l));
    assert!(seam_is_break_checked::<CrlfSegmenter<NullSegmenter>>("\n", "\r"));
}

#[test]
fn nearest_internal_break_01() {
    let text = "Hello world!";
    assert_eq!(1, nearest_internal_break::<MSeg>(0, text));
    assert_eq!(6, nearest_internal_break::<MSeg>(6, text));
    assert_eq!(11, nearest_internal_break::<MSeg>(12, text));
}

#[test]
fn nearest_internal_break_02() {
    let text = "Hello\r\n world!";
    assert_eq!(5, nearest_internal_break::<MSeg>(5, text));
    assert_eq!(7, nearest_internal_break::<MSeg>(6, text));
    assert_eq!(7, nearest_internal_break::<MSeg>(7, text));
}

#[test]
fn nearest_internal_break_03() {
    let text = "\r\nHello world!\r\n";
    assert_eq!(2, nearest_internal_break::<MSeg>(0, text));
    assert_eq!(2, nearest_internal_break::<MSeg>(1, text));
    assert_eq!(2, nearest_internal_break::<MSeg>(2, text));
    assert_eq!(14, nearest_internal_break::<MSeg>(14, text));
    assert_eq!(14, nearest_internal_break::<MSeg>(15, text));
    assert_eq!(14, nearest_internal_break::<MSeg>(16, text));
}

#[test]
fn nearest_internal_break_04() {
    let text = "\r\n";
    assert_eq!(2, nearest_internal_break::<MSeg>(0, text));
    assert_eq!(2, nearest_internal_break::<MSeg>(1, text));
    assert_eq!(2, nearest_internal_break::<MSeg>(2, text));
}

#[test]
fn is_break_01() {
    let text = "\n\r\n\r\n\r\n\r\n\r\n\r";

    assert!(is_break_checked::<MSeg>(0, text));
    assert!(is_break_checked::<MSeg>(12, text));
    assert!(is_break_checked::<MSeg>(3, text));
    assert!(!is_break_checked::<MSeg>(6, text));
}

#[test]
fn seam_is_break_01() {
    let text1 = "\r\n\r\n\r\n";
    let text2 = "\r\n\r\n";

    assert!(<MSeg as GraphemeSegmenter>::seam_is_break(text1, text2));
}

#[test]
fn seam_is_break_02() {
    let text1 = "\r\n\r\n\r";
    let text2 = "\n\r\n\r\n";

    assert!(!<MSeg as GraphemeSegmenter>::seam_is_break(text1, text2));
}

#[test]
fn grapheme_cluster_interior_is_no_break() {
    // a combining mark joins the previous letter into one cluster; the
    // default segmenter refuses the boundary while the null segmenter,
    // which looks at code points only, accepts it
    let text = "e\u{301}x";
    assert!(!is_break_checked::<CrlfSegmenter<DefaultSegmenter>>(1, text));
    assert!(is_break_checked::<CrlfSegmenter<NullSegmenter>>(1, text));
    assert!(is_break_checked::<CrlfSegmenter<DefaultSegmenter>>(3, text));
}

#[test]
fn code_point_graphemes_walk() {
    // with the default rules every code point of this text is its own
    // cluster, so walking breaks visits every character boundary
    let text = "Hi chap!";
    let mut breaks = Vec::new();
    let mut i = 0;
    while i < text.len() {
        let j = ropey::segmentation::next_break::<MSeg>(i, text);
        breaks.push(&text[i..j]);
        i = j;
    }
    assert_eq!(breaks, vec!["H", "i", " ", "c", "h", "a", "p", "!"]);
}

#[test]
fn prev_and_next_break_walk() {
    let text = "Hello\r\n world!";
    assert_eq!(ropey::segmentation::next_break::<MSeg>(5, text), 7);
    assert_eq!(ropey::segmentation::prev_break::<MSeg>(7, text), 5);
    assert_eq!(ropey::segmentation::prev_break::<MSeg>(0, text), 0);
    assert_eq!(ropey::segmentation::next_break::<MSeg>(14, text), 14);
}

#[test]
fn find_good_split_prefers_bias() {
    let text = "Hello\r\nworld";
    // byte 6 sits between the carriage return and the line feed
    assert_eq!(ropey::segmentation::find_good_split::<MSeg>(6, text, true), 5);
    assert_eq!(ropey::segmentation::find_good_split::<MSeg>(6, text, false), 7);
    assert_eq!(ropey::segmentation::find_good_split::<MSeg>(3, text, true), 3);
}

#[test]
fn nearest_internal_break_measures_from_raw_offset() {
    // the distances are measured from the given offset, not from the code
    // point boundary it rounds down to
    let text = "a\u{3053}b";
    assert_eq!(
        nearest_internal_break::<CrlfSegmenter<NullSegmenter>>(3, text),
        4
    );
    assert_eq!(
        nearest_internal_break::<CrlfSegmenter<NullSegmenter>>(2, text),
        1
    );
}
