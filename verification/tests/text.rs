use muggle_translator::chars::{
    blank, byte_length, count_matches, dec_pad, dec_usize, head_of, is_whitespace, join,
    lower_ascii, parse_i32, replace, str_eq, trim, trim_start_matches,
};
use muggle_translator::freezer::{freeze_at, freeze_text, unfreeze_text};
use muggle_translator::sentinels::{
    control_tokens_from_text, get_text, has_token, is_control_token, is_marker_digit, nt_token,
    parse_segmented_output, parse_slot_output, replace_tokens, seg_end, seg_start, slot_token,
    split_by_control_sequence, token_texts, MarkerError, TokenClass, BR, NBH, SHY, TAB,
};
use muggle_translator::textutil::{
    auto_language_pair, count_scripts, is_trivial_sentinel_text, strip_sentinels,
};

#[test]
fn white_space_is_that_of_unicode() {
    for n in 0..0x11_0000u32 {
        if let Some(c) = char::from_u32(n) {
            assert_eq!(is_whitespace(c), c.is_whitespace(), "U+{n:04X}");
        }
    }
}

#[test]
fn marker_digits_are_those_of_unicode() {
    assert!(is_marker_digit('0') && is_marker_digit('9'));
    assert!(is_marker_digit('\u{0663}'));
    assert!(!is_marker_digit('a') && !is_marker_digit('\u{00b2}') && !is_marker_digit('\u{4e00}'));
}

#[test]
fn small_text_functions_agree_with_std() {
    for s in ["", " ", "\u{3000}a b\t", "abab", "x<&>", "\u{4e2d}\u{6587}ABC"] {
        assert_eq!(trim(s), s.trim());
        assert_eq!(blank(s), s.trim().is_empty());
        assert_eq!(byte_length(s), s.len());
        assert_eq!(lower_ascii(s), s.to_ascii_lowercase());
        assert_eq!(replace(s, "ab", "z"), s.replace("ab", "z"));
        assert_eq!(trim_start_matches(s, "ab"), s.trim_start_matches("ab"));
        assert_eq!(count_matches(s, "a"), s.matches("a").count() as u128);
        assert_eq!(head_of(s, 2), s.chars().take(2).collect::<String>());
        assert!(str_eq(s, s));
    }
    assert_eq!(count_matches("abc", ""), 4);
    assert_eq!(dec_usize(1203), "1203");
    assert_eq!(dec_pad(42, 6), "000042");
    assert_eq!(dec_pad(1234567, 6), "1234567");
    for s in ["0", "-0", "+7", "2147483647", "2147483648", "-2147483648", "-2147483649", "", "-", "1a"] {
        assert_eq!(parse_i32(s), s.parse::<i32>().ok(), "{s}");
    }
    let parts = vec!["a".to_string(), "b".to_string(), String::new()];
    assert_eq!(join(&parts, " | "), "a | b | ");
}

#[test]
fn markers_have_their_widths() {
    assert_eq!(nt_token(7), "<<MT_NT:0007>>");
    assert_eq!(seg_start(123), "<<MT_SEG:000123>>");
    assert_eq!(seg_end(123), "<<MT_END:000123>>");
    assert_eq!(slot_token(0), "<<MT_SLOT:000000>>");
}

#[test]
fn control_markers_split_a_text() {
    let text = format!("a{TAB}b{BR}{NBH}c{SHY}");
    assert_eq!(control_tokens_from_text(&text), vec![TAB, BR, NBH, SHY]);
    let parts = split_by_control_sequence(&text);
    assert_eq!(parts, vec!["a", TAB, "b", BR, "", NBH, "c", SHY, ""]);
    assert_eq!(parts.concat(), text);
    assert!(is_control_token(TAB) && !is_control_token("a") && !is_control_token("<<MT_NT:0001>>"));
}

#[test]
fn tokens_of_each_class_are_found() {
    let text = "x<<MT_NT:0001>>y<<MT_TAB>><<MT_ODD>>";
    assert_eq!(token_texts(TokenClass::Nt, text), vec!["<<MT_NT:0001>>"]);
    assert_eq!(token_texts(TokenClass::Sentinel, text), vec!["<<MT_NT:0001>>", "<<MT_TAB>>"]);
    assert_eq!(
        token_texts(TokenClass::Mt, text),
        vec!["<<MT_NT:0001>>", "<<MT_TAB>>", "<<MT_ODD>>"]
    );
    assert!(has_token(TokenClass::Control, text) && !has_token(TokenClass::Control, "x"));
    assert_eq!(replace_tokens(TokenClass::Mt, text, " "), "x y  ");
}

#[test]
fn a_segmented_reply_is_taken_apart() {
    let reply = "noise <<MT_SEG:000001>>\nhello\n<<MT_END:000001>> <<MT_SEG:000005>>b<<MT_END:000005>>tail";
    let m = parse_segmented_output(reply, &vec![1, 5]).expect("segments");
    assert_eq!(m.len(), 2);
    assert_eq!(get_text(&m, 1).expect("first"), "\nhello\n");
    assert_eq!(get_text(&m, 5).expect("second"), "b");
    assert_eq!(
        parse_segmented_output(reply, &vec![2]).err(),
        Some(MarkerError::MissingStart { id: 2 })
    );
    assert_eq!(
        parse_segmented_output("<<MT_SEG:000001>>x", &vec![1]).err(),
        Some(MarkerError::MissingEnd { id: 1 })
    );
    assert_eq!(parse_segmented_output("", &vec![]).expect("none").len(), 0);
}

#[test]
fn a_slotted_reply_is_taken_apart() {
    let reply = format!(" {}one{}two ", slot_token(3), slot_token(4));
    let m = parse_slot_output(&reply, &vec![3, 4]).expect("slots");
    assert_eq!(get_text(&m, 3).expect("third"), "one");
    assert_eq!(get_text(&m, 4).expect("fourth"), "two ");
    assert_eq!(
        parse_slot_output(&reply, &vec![3, 9]).err(),
        Some(MarkerError::MissingSlot { id: 9 })
    );
    assert_eq!(
        parse_slot_output("x<<MT_SLOT:000001>>y", &vec![1]).err(),
        Some(MarkerError::UnexpectedPrefix)
    );
}

#[test]
fn what_must_not_be_translated_is_frozen() {
    let text = "See 4.1(b) at https://example.org/x, mail a.b@c.de or {name}.";
    let r = freeze_text(text);
    assert_eq!(
        r.text,
        "See <<MT_NT:0001>><<MT_NT:0002>> at <<MT_NT:0003>> mail <<MT_NT:0004>> or <<MT_NT:0005>>."
    );
    let originals: Vec<&str> = r.mask.iter().map(|m| m.original.as_str()).collect();
    assert_eq!(originals, vec!["4.1", "(b)", "https://example.org/x,", "a.b@c.de", "{name}"]);
    assert_eq!((r.mask[0].src_start, r.mask[0].src_end), (4, 7));
    assert_eq!(unfreeze_text(&r.text, &r.nt_map), text);
}

#[test]
fn markers_are_left_alone_when_freezing() {
    let text = "<<MT_SLOT:000001>>Clause IV<<MT_TAB>>";
    let r = freeze_text(text);
    assert_eq!(r.text, "<<MT_SLOT:000001>>Clause <<MT_NT:0001>><<MT_TAB>>");
    assert_eq!(unfreeze_text(&r.text, &r.nt_map), text);
    assert_eq!(unfreeze_text("<<MT_NT:0009>>", &r.nt_map), "<<MT_NT:0009>>");
    assert_eq!(freeze_text("").text, "");
}

#[test]
fn texts_without_letters_are_trivial() {
    assert!(is_trivial_sentinel_text(""));
    assert!(is_trivial_sentinel_text("<<MT_NT:0001>> 12.5% <<MT_TAB>>"));
    assert!(!is_trivial_sentinel_text("a"));
    assert!(!is_trivial_sentinel_text("\u{4e2d}"));
    assert_eq!(strip_sentinels("a<<MT_TAB>>b"), "a b");
}

#[test]
fn the_language_pair_follows_the_scripts() {
    assert_eq!(count_scripts("ab\u{4e2d}\u{6587}"), (2, 2));
    let en = vec!["An English sentence.".to_string()];
    let zh = vec!["\u{4e2d}".repeat(30)];
    let few = vec!["abc \u{4e2d}".to_string()];
    let pair = |a: &str, b: &str| (a.to_string(), b.to_string());
    assert_eq!(auto_language_pair(&en), pair("en", "zh"));
    assert_eq!(auto_language_pair(&zh), pair("zh", "en"));
    assert_eq!(auto_language_pair(&few), pair("en", "zh"));
}

#[test]
fn what_stands_between_bounds_is_frozen() {
    let r = freeze_at("a bc d", &vec![(2, 4), (5, 6)]);
    assert_eq!(r.text, format!("a {} {}", nt_token(1), nt_token(2)));
    assert_eq!(r.nt_map, vec![(nt_token(1), "bc".to_string()), (nt_token(2), "d".to_string())]);
    assert_eq!((r.mask[1].src_start, r.mask[1].src_end), (5, 6));
}

#[test]
fn slot_texts_come_back_beside_parts_of_markers() {
    let reply = "<<MT_SLOT:000001>>a <<MT_SLOT:<<MT_SLOT:000002>><<b<<MT_SLOT:000000>>";
    let m = parse_slot_output(reply, &vec![1, 2, 0]).expect("slots");
    assert_eq!(m[&1], "a <<MT_SLOT:");
    assert_eq!(m[&2], "<<b");
    assert_eq!(m[&0], "");
}
