use instrument_repl::markers::{find_first_of, first_position, matches_at, Marker};
use instrument_repl::text::{
    byte_is_ascii_whitespace, char_is_whitespace, text_view, trim_ascii_start,
};

fn needles(list: &[&[u8]]) -> Vec<Vec<u8>> {
    list.iter().map(|n| n.to_vec()).collect()
}

#[test]
fn find_first_of_takes_the_minimum_over_all_markers() {
    let search = needles(&[b"cd", b"b", b"ef"]);
    assert_eq!(find_first_of(b"abcdef", &search), Some(1));
    let search = needles(&[b"ef", b"cd"]);
    assert_eq!(find_first_of(b"abcdef", &search), Some(2));
}

#[test]
fn find_first_of_does_not_depend_on_the_order_of_the_markers() {
    let haystack = b"..TSP?..#0..TSP>";
    let forward = needles(&[b"TSP>", b"TSP?", b"#0"]);
    let backward = needles(&[b"#0", b"TSP?", b"TSP>"]);
    assert_eq!(find_first_of(haystack, &forward), Some(2));
    assert_eq!(find_first_of(haystack, &backward), Some(2));
}

#[test]
fn find_first_of_reports_the_first_of_several_occurrences() {
    let search = needles(&[b"ab"]);
    assert_eq!(find_first_of(b"xxabxxab", &search), Some(2));
}

#[test]
fn find_first_of_finds_nothing_where_no_marker_occurs() {
    let search = needles(&[b"xyz", b"q"]);
    assert_eq!(find_first_of(b"abcdef", &search), None);
}

#[test]
fn find_first_of_takes_a_short_haystack_as_no_match() {
    let search = needles(&[b"ERM>START"]);
    assert_eq!(find_first_of(b"ERM>", &search), None);
    assert_eq!(find_first_of(b"", &search), None);
}

#[test]
fn find_first_of_finds_a_marker_at_either_end() {
    let search = needles(&[b"ab"]);
    assert_eq!(find_first_of(b"abxx", &search), Some(0));
    assert_eq!(find_first_of(b"xxab", &search), Some(2));
    assert_eq!(find_first_of(b"ab", &search), Some(0));
}

#[test]
fn find_first_of_with_no_markers_finds_nothing() {
    let search: Vec<Vec<u8>> = Vec::new();
    assert_eq!(find_first_of(b"abc", &search), None);
}

#[test]
fn first_position_is_the_lowest_offset() {
    assert_eq!(first_position(b"aXbXc", b"X"), Some(1));
    assert_eq!(first_position(b"aaab", b"ab"), Some(2));
    assert_eq!(first_position(b"aaab", b"ba"), None);
    assert_eq!(first_position(b"ab", b"abc"), None);
}

#[test]
fn matches_at_compares_the_window() {
    assert!(matches_at(b"abcd", b"bc", 1));
    assert!(!matches_at(b"abcd", b"bc", 0));
    assert!(!matches_at(b"abcd", b"cd", 3));
    assert!(matches_at(b"abcd", b"cd", 2));
    assert!(!matches_at(b"abcd", b"d", 4));
    assert!(!matches_at(b"abcd", b"d", usize::MAX));
    assert!(matches_at(b"abcd", b"", 4));
}

#[test]
fn markers_have_their_wire_bytes() {
    assert_eq!(Marker::Prompt.to_vec(), b"TSP>".to_vec());
    assert_eq!(Marker::PromptWithError.to_vec(), b"TSP?".to_vec());
    assert_eq!(Marker::ErrorStart.to_vec(), b"ERM>START".to_vec());
    assert_eq!(Marker::ErrorEnd.to_vec(), b"ERM>DONE".to_vec());
    assert_eq!(Marker::ErrorItem.to_vec(), b"ERM>".to_vec());
    assert_eq!(Marker::Progress.to_vec(), b">>>>".to_vec());
    assert_eq!(Marker::Binary.to_vec(), b"#0".to_vec());
}

#[test]
fn marker_text_and_length_agree_with_the_bytes() {
    let all = [
        Marker::Prompt,
        Marker::PromptWithError,
        Marker::ErrorStart,
        Marker::ErrorEnd,
        Marker::ErrorItem,
        Marker::Progress,
        Marker::Binary,
    ];
    for marker in all {
        assert_eq!(marker.as_str().as_bytes(), marker.to_vec().as_slice());
        assert_eq!(marker.len(), marker.to_vec().len());
    }
}

#[test]
fn leading_marker_goes_by_priority() {
    assert_eq!(Marker::leading("TSP>TSP?"), Some(Marker::Prompt));
    assert_eq!(Marker::leading("TSP?"), Some(Marker::PromptWithError));
    assert_eq!(Marker::leading("ERM>START"), Some(Marker::ErrorStart));
    assert_eq!(Marker::leading("ERM>DONE"), Some(Marker::ErrorEnd));
    assert_eq!(Marker::leading("ERM>DON"), Some(Marker::ErrorItem));
    assert_eq!(Marker::leading("ERM>"), Some(Marker::ErrorItem));
    assert_eq!(Marker::leading(">>>>"), Some(Marker::Progress));
    assert_eq!(Marker::leading("#0"), Some(Marker::Binary));
    assert_eq!(Marker::leading(" TSP>"), None);
    assert_eq!(Marker::leading("tsp>"), None);
    assert_eq!(Marker::leading(""), None);
}

#[test]
fn trim_ascii_start_removes_leading_ascii_whitespace_only() {
    assert_eq!(trim_ascii_start(b" \t\n\x0c\rabc "), b"abc ");
    assert_eq!(trim_ascii_start(b"abc"), b"abc");
    assert_eq!(trim_ascii_start(b"   "), b"");
    assert_eq!(trim_ascii_start(b""), b"");
    assert_eq!(trim_ascii_start(b"\x0babc"), b"\x0babc");
    assert_eq!(trim_ascii_start(b"\xc2\xa0abc"), b"\xc2\xa0abc");
}

#[test]
fn ascii_whitespace_is_five_bytes() {
    for b in 0..=255u8 {
        assert_eq!(byte_is_ascii_whitespace(b), b.is_ascii_whitespace());
    }
}

#[test]
fn whitespace_is_what_the_standard_library_takes_for_it() {
    for code in 0..=0x10ffffu32 {
        if let Some(c) = char::from_u32(code) {
            assert_eq!(char_is_whitespace(c), c.is_whitespace(), "U+{code:04X}");
        }
    }
}

#[test]
fn whitespace_holds_the_known_blanks() {
    for c in [' ', '\t', '\n', '\x0b', '\x0c', '\r', '\u{85}', '\u{a0}', '\u{2028}', '\u{3000}'] {
        assert!(char_is_whitespace(c));
    }
    for c in ['\0', 'a', '>', '#', '\u{200b}', '\u{180e}', '\u{fffd}', '\u{feff}'] {
        assert!(!char_is_whitespace(c));
    }
}

#[test]
fn text_view_is_the_lossy_decoding() {
    assert_eq!(text_view(b"TSP>"), "TSP>");
    assert_eq!(text_view(b""), "");
    assert_eq!(text_view(b"abc\xffdef"), "abc\u{fffd}def");
    assert_eq!(text_view(b"\xe2\x82"), "\u{fffd}");
    assert_eq!(text_view("gr\u{fc}n \u{20ac}".as_bytes()), "gr\u{fc}n \u{20ac}");
}

#[test]
fn text_view_keeps_the_ascii_head() {
    let inputs: [&[u8]; 4] = [
        b"ERM>START\xff\xfe",
        b"#0\x80",
        b"plain\xc3\xa9",
        b"\x7f\x00\x1b\xf0\x9f",
    ];
    for input in inputs {
        let head: Vec<u8> = input.iter().copied().take_while(|b| *b < 0x80).collect();
        let text = text_view(input);
        assert!(text.as_bytes().starts_with(&head));
    }
}
