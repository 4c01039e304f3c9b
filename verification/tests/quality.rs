use muggle_translator::freezer::freeze_text;
use muggle_translator::ir::TranslationUnit;
use muggle_translator::json::{from_first_brace, must_extract_json_obj, JsonError, JsonRead};
use muggle_translator::quality::{
    check_legal_ids, digit_runs_of, quality_heuristics, validate_translation, ValidationError,
};
use muggle_translator::ratio::{is_above, is_below, is_below_quarter, is_sum_below_tenth};

fn unit(source: &str) -> TranslationUnit {
    let f = freeze_text(source);
    TranslationUnit {
        tu_id: 1,
        part_name: String::new(),
        scope_key: "x#w:p@1".to_string(),
        para_style: None,
        atoms: vec![],
        spans: vec![],
        source_surface: source.to_string(),
        frozen_surface: f.text,
        nt_map: f.nt_map,
        nt_mask: f.mask,
        draft_translation: None,
        final_translation: None,
        alt_translation: None,
        draft_translation_model: None,
        alt_translation_model: None,
        qe_score: None,
        qe_flags: vec![],
    }
}

fn message(source: &str, translated: &str) -> String {
    match validate_translation(&unit(source), translated) {
        Ok(()) => String::new(),
        Err(e) => e.message(),
    }
}

#[test]
fn translations_that_keep_everything_are_valid() {
    assert_eq!(message("Pay 10 euros", "Zahle 10 Euro"), "");
    assert_eq!(message("a<<MT_TAB>>b", "x<<MT_TAB>>y"), "");
    let u = unit("See https://example.org now");
    assert_eq!(u.frozen_surface, "See <<MT_NT:0001>> now");
    assert!(validate_translation(&u, "Siehe <<MT_NT:0001>> jetzt").is_ok());
}

#[test]
fn each_fault_of_a_translation_is_told() {
    assert_eq!(message("a", " \n"), "empty_output");
    assert_eq!(message("a", "b<<MT_X>>"), "unexpected_mt_token:<<MT_X>>");
    assert_eq!(message("a<<MT_TAB>>b", "x y"), "sentinel_sequence_mismatch");
    assert_eq!(message("a<<MT_TAB>><<MT_TAB>>b", "a<<MT_TAB>>c<<MT_TAB>>b"), "control_token_layout_mismatch");
    assert!(matches!(validate_translation(&unit("1 2 2"), "1 2"), Err(ValidationError::Digits { .. })));
    assert!(message("10", "20").starts_with("digits_mismatch src={\"10\": 1} tgt={\"20\": 1}"));
}

#[test]
fn legal_references_keep_their_identifiers() {
    let texts = |v: &[&str]| -> Vec<String> { v.iter().map(|s| s.to_string()).collect() };
    assert!(check_legal_ids(&texts(&["4.1"]), &texts(&["4.1"]), &texts(&["4.1"])).is_ok());
    assert!(matches!(
        check_legal_ids(&texts(&["4.1"]), &texts(&["4.1"]), &texts(&[])),
        Err(ValidationError::LegalRefId { id, expected: 1, got: 0 }) if id == "4.1"
    ));
    assert!(matches!(
        check_legal_ids(&texts(&[]), &texts(&["IV"]), &texts(&["V"])),
        Err(ValidationError::CompoundLegalId { .. })
    ));
    assert!(check_legal_ids(&texts(&[]), &texts(&["7"]), &texts(&[])).is_ok());
    let mut u = unit("x");
    u.frozen_surface = "Section 4.1 applies".to_string();
    let e = validate_translation(&u, "Abschnitt 1.4 gilt").err().expect("fault");
    assert_eq!(e.message(), "legal_ref_id_mismatch id=4.1 expected=1 got=0");
    assert!(validate_translation(&u, "Abschnitt 4.1 gilt").is_ok());
    u.frozen_surface = "see 4.1 here".to_string();
    let e = validate_translation(&u, "siehe 4-1 hier").err().expect("fault");
    assert_eq!(
        e.message(),
        "compound_legal_id_mismatch src={\"4.1\": 1} tgt={\"4-1\": 1}"
    );
}

#[test]
fn runs_of_digits_are_found() {
    assert_eq!(digit_runs_of("a12b\u{0663}4 5"), vec!["12", "\u{0663}4", "5"]);
}

#[test]
fn the_heuristics_flag_what_looks_wrong() {
    let long = "This agreement is made between the two parties named below.";
    let h = quality_heuristics(&unit(long), long, "en", "zh");
    assert!(h.hard_flags.contains(&"output_identical_to_source".to_string()));
    assert!(h.hard_flags.contains(&"target_script_missing_han".to_string()));
    assert!(h.wants_force_retranslate());
    let h = quality_heuristics(&unit(long), "kurz", "en", "de");
    assert_eq!(h.hard_flags, vec!["len_ratio_too_short_extreme"]);
    let h = quality_heuristics(&unit("(a) [b]"), "x (y) (z)", "en", "de");
    assert_eq!(h.hard_flags, vec!["missing_brackets_square"]);
    assert_eq!(h.soft_flags, vec!["bracket_count_mismatch"]);
    assert_eq!(h.bracket_notes, vec!["():src=2 tgt=4", "[]:src=2 tgt=0"]);
    assert!(!h.wants_force_retranslate());
    let zh = "\u{4e2d}".repeat(30);
    let h = quality_heuristics(&unit(long), &zh, "en", "zh");
    assert!(h.hard_flags.is_empty());
    assert_eq!((h.src_chars, h.tgt_chars, h.han, h.latin_alpha), (50, 30, 30, 0));
    let h = quality_heuristics(&unit(&zh), &zh, "zh", "en");
    assert!(h.hard_flags.contains(&"target_script_missing_latin".to_string()));
}

#[test]
fn the_heuristics_are_rendered() {
    let h = quality_heuristics(&unit("(a) [b]"), "x (y) (z)", "en", "de");
    assert_eq!(
        h.render_block("1.17", "0.00", "0.43"),
        "QUALITY_HEURISTICS:\n- len: src_chars=6 tgt_chars=7 ratio=1.17\n- scripts: han_ratio=0.00 latin_alpha_ratio=0.43\n- brackets: ():src=2 tgt=4 | []:src=2 tgt=0\n- hard_flags: missing_brackets_square\n- soft_flags: bracket_count_mismatch"
    );
}

#[test]
fn quotients_are_compared_as_in_floating_point() {
    let check = |a: usize, b: usize| {
        let q = a as f32 / b as f32;
        assert_eq!(is_below_quarter(a, b), q < 0.25, "{a}/{b}");
        assert_eq!(is_below(a, b, 11744051, 0x400_0000), q < 0.35, "{a}/{b}");
        assert_eq!(is_above(a, b, 8388608, 0x40_0000), q > 4.0, "{a}/{b}");
        assert_eq!(is_above(a, b, 11744051, 0x80_0000), q > 2.8, "{a}/{b}");
        assert_eq!(is_below(a, b, 16106127, 0x2000_0000), q < 0.06, "{a}/{b}");
        assert_eq!(is_above(a, b, 8388608, 0x400_0000), q > 0.25, "{a}/{b}");
        assert_eq!(is_below(a, b, 12079596, 0x800_0000), q < 0.18, "{a}/{b}");
        assert_eq!(is_above(a, b, 13421773, 0x800_0000), q > 0.20, "{a}/{b}");
        assert_eq!(is_below(a, b, 13421773, 0x1000_0000), q < 0.10, "{a}/{b}");
    };
    for b in 1..400usize {
        for a in 0..1700usize {
            check(a, b);
        }
    }
    for b in [16777217usize, 33554433, 100000007, 4294967295] {
        for k in 0..200usize {
            for q in [b / 4, b * 7 / 20, b * 3 / 50, b * 9 / 50, b / 5, b / 10] {
                check(q + k, b);
                check(q.saturating_sub(k), b);
            }
        }
    }
    for total in 1..120usize {
        for a in 0..=total.min(30) {
            for b in 0..=(total - a).min(30) {
                let sum = a as f32 / total as f32 + b as f32 / total as f32;
                assert_eq!(is_sum_below_tenth(a, b, total), sum < 0.10, "{a}+{b} of {total}");
            }
        }
    }
}

#[test]
fn a_json_object_is_found_in_a_reply() {
    assert_eq!(from_first_brace("ab {c} d").as_deref(), Some("{c} d"));
    assert_eq!(from_first_brace("abc"), None);
    let json = must_extract_json_obj("Sure: {\"b\": [1, 2], \"a\": null} trailing").expect("json");
    assert_eq!(json, "{\"a\":null,\"b\":[1,2]}");
    assert!(matches!(must_extract_json_obj("none"), Err(JsonError::NoObject)));
    assert!(matches!(must_extract_json_obj("{broken"), Err(JsonError::Malformed(_))));
}

#[test]
fn broken_json_is_asked_for_twice() {
    let mut r = JsonRead::begin("{bad");
    assert_eq!(r.ask("fix: {{raw}}").as_deref(), Some("fix: {bad"));
    r.feed("still bad");
    assert_eq!(r.ask("fix: {{raw}}").as_deref(), Some("fix: still bad"));
    r.feed("ok {\"x\":1}");
    assert_eq!(r.ask("fix: {{raw}}"), None);
    assert_eq!(r.outcome().expect("json"), "{\"x\":1}");

    let mut r = JsonRead::begin("{bad");
    r.feed("a");
    r.feed("b");
    assert_eq!(r.ask("t"), None);
    assert!(matches!(r.outcome(), Err(JsonError::Malformed(_))));

    let r = JsonRead::begin("{}");
    assert_eq!(r.ask("t"), None);
    assert_eq!(r.outcome().expect("json"), "{}");
}

#[test]
fn identifiers_keep_their_brackets() {
    let mut u = unit("");
    u.frozen_surface = "Section 4.1(b)".to_string();
    u.nt_map = vec![];
    assert!(validate_translation(&u, "Article 4.1(b)").is_ok());
    assert!(matches!(
        validate_translation(&u, "Article 4.1(c)"),
        Err(ValidationError::LegalRefId { id, expected: 1, got: 0 }) if id == "4.1(B)"
    ));
    u.frozen_surface = "see 4.1(b) here".to_string();
    assert!(validate_translation(&u, "siehe 4.1(b) hier").is_ok());
    assert!(matches!(
        validate_translation(&u, "siehe 4.1(c) hier"),
        Err(ValidationError::CompoundLegalId { .. })
    ));
}
