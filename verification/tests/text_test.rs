use docmost_local_mcp::json::Json;
use docmost_local_mcp::order::insert_ascending;
use docmost_local_mcp::spacing::{blank, join, lines_of, split_space, squeeze};
use docmost_local_mcp::spans::{piece, Span};
use docmost_local_mcp::text::{byte_len, char_index, find_all, same_text, slice_text};
use docmost_local_mcp::wording::{number_text, preview};

fn owned(items: &[&str]) -> Vec<String> {
    items.iter().map(|s| s.to_string()).collect()
}

#[test]
fn occurrences_are_found_at_their_bytes() {
    assert_eq!(find_all("abcabc", "bc"), vec![1, 4]);
    assert_eq!(find_all("aaaa", "aa"), vec![0, 1, 2]);
    assert_eq!(find_all("äaäa", "a"), vec![2, 5]);
    assert_eq!(find_all("äaäa", "ä"), vec![0, 3]);
    assert_eq!(find_all("abc", "abcd"), Vec::<usize>::new());
    assert_eq!(find_all("", "a"), Vec::<usize>::new());
    assert_eq!(find_all("äb", ""), vec![0, 2]);
    assert_eq!(find_all("", ""), Vec::<usize>::new());
}

#[test]
fn previews_are_quoted_and_cut() {
    assert_eq!(preview("a \"b\"\n"), "\"a \\\"b\\\"\\n\"");
    let exact = "ä".repeat(80);
    assert_eq!(preview(&exact), format!("\"{exact}\""));
    assert_eq!(preview(&format!("{exact}x")), format!("\"{exact}\"…"));
    assert_eq!(preview(""), "\"\"");
}

#[test]
fn cuts_are_clamped_to_the_text() {
    let span = Span { start: 10, end: 19, prefix: 2, len: 5, is_text: true };
    for is_end in [false, true] {
        assert_eq!(span.cut(3, is_end), 0);
        assert_eq!(span.cut(11, is_end), 0);
        assert_eq!(span.cut(12, is_end), 0);
        assert_eq!(span.cut(14, is_end), 2);
        assert_eq!(span.cut(17, is_end), 5);
        assert_eq!(span.cut(19, is_end), 5);
        assert_eq!(span.cut(usize::MAX, is_end), 5);
    }
    let wide = Span { start: usize::MAX, end: usize::MAX, prefix: 2, len: 5, is_text: true };
    assert_eq!(wide.cut(usize::MAX, true), 0);
}

#[test]
fn an_atom_lies_before_a_cut_or_after_it() {
    let span = Span { start: 10, end: 14, prefix: 0, len: 1, is_text: false };
    assert_eq!(span.cut(10, false), 0);
    assert_eq!(span.cut(11, false), 1);
    assert_eq!(span.cut(13, true), 0);
    assert_eq!(span.cut(14, true), 1);
}

#[test]
fn parts_of_a_node_are_text_slices_or_whole_atoms() {
    let text = Json::Null
        .with("type", Json::String("text".to_string()))
        .with("text", Json::String("a€b".to_string()));
    assert_eq!(piece(&text, 1, 4).unwrap().text_at("text"), Some("€"));
    assert_eq!(piece(&text, 0, 5), Some(text.clone()));
    assert_eq!(piece(&text, 4, 4), None);
    assert_eq!(piece(&text, 3, 2), None);
    let atom = Json::Null.with("type", Json::String("hardBreak".to_string()));
    assert_eq!(piece(&atom, 0, 1), Some(atom.clone()));
    assert_eq!(piece(&atom, 1, 1), None);
}

#[test]
fn numbers_are_decimal() {
    assert_eq!(number_text(0), "0");
    assert_eq!(number_text(9), "9");
    assert_eq!(number_text(1020), "1020");
    assert_eq!(number_text(usize::MAX), usize::MAX.to_string());
}

#[test]
fn offsets_and_characters_correspond() {
    assert_eq!(byte_len("a€"), 4);
    assert_eq!(char_index("a€b", 1), Some(1));
    assert_eq!(char_index("a€b", 2), None);
    assert_eq!(char_index("a€b", 4), Some(2));
    assert_eq!(char_index("a€b", 5), Some(3));
    assert_eq!(char_index("a€b", 6), None);
    assert_eq!(slice_text("a€b", 1, 4), "€");
    assert!(same_text("a€", "a€"));
    assert!(!same_text("a", "A"));
    assert!(!same_text("a", "ab"));
}

#[test]
fn white_space_is_split_off() {
    let (lead, core, trail) = split_space(" \t a b\u{a0}\n");
    assert_eq!((lead.as_str(), core.as_str(), trail.as_str()), (" \t ", "a b", "\u{a0}\n"));
    let (_, core, _) = split_space(" \u{3000} ");
    assert_eq!(core, "");
    assert!(blank(""));
    assert!(blank("\u{2003}\r\n"));
    assert!(!blank(" x "));
    assert!(!blank("\u{200b}"));
}

#[test]
fn white_space_is_what_unicode_says() {
    let spaces: Vec<char> = ('\0'..=char::MAX).filter(|c| blank(&c.to_string())).collect();
    let mut expected: Vec<char> = ('\u{9}'..='\u{d}').collect();
    expected.extend(['\u{20}', '\u{85}', '\u{a0}', '\u{1680}']);
    expected.extend('\u{2000}'..='\u{200a}');
    expected.extend(['\u{2028}', '\u{2029}', '\u{202f}', '\u{205f}', '\u{3000}']);
    assert_eq!(spaces, expected);
}

#[test]
fn words_are_one_space_apart() {
    assert_eq!(squeeze("  a\n\nb\tc "), "a b c");
    assert_eq!(squeeze("abc"), "abc");
    assert_eq!(squeeze(" \n "), "");
}

#[test]
fn lines_end_with_a_line_feed_or_the_text() {
    assert_eq!(lines_of("a\nb\r\n\nc\rd\n"), owned(&["a", "b", "", "c\rd"]));
    assert_eq!(lines_of("a\r"), owned(&["a\r"]));
    assert_eq!(lines_of("\n"), owned(&[""]));
    assert_eq!(lines_of(""), owned(&[]));
}

#[test]
fn texts_are_joined() {
    assert_eq!(join(&owned(&["a", "", "b"]), ", "), "a, , b");
    assert_eq!(join(&owned(&["a"]), ", "), "a");
    assert_eq!(join(&owned(&[]), ", "), "");
}

#[test]
fn texts_are_kept_in_order_once() {
    let mut list = Vec::new();
    for item in ["b", "é", "ab", "b", "a", "z", "\u{1f600}", "\u{ffff}", ""] {
        insert_ascending(&mut list, item.to_string());
    }
    assert_eq!(list, owned(&["", "a", "ab", "b", "z", "é", "\u{ffff}", "\u{1f600}"]));
}
