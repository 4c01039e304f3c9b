use muggle_translator::agent::{
    ActPatch, AgentReviewResponse, Dimension, PatchApplyCheck, PatchType, Severity,
};
use muggle_translator::agentflow::{
    apply_patches_to_draft, extract_must_preserve_tokens, join_sentences, normalize_for_match,
    preserved_tokens, render_sentence_list, sha256_hex, split_sentences, take_changed_sentence, PatchError,
};
use muggle_translator::terminology::{TermApplyEvent, TermMemory, TermUpdate};

fn patch(index: usize, before: &str, after: &str) -> ActPatch {
    let mut p = ActPatch::default();
    p.patch_type = "sentence_replace".to_string();
    p.location.sentence_index = Some(index);
    p.before.sentence = before.to_string();
    p.after.sentence = after.to_string();
    p
}

#[test]
fn a_review_chooses_its_rewrite() {
    let mut r = AgentReviewResponse::default();
    assert_eq!(r.chosen_text("draft"), "draft");
    r.rewrite = "  better ".to_string();
    assert_eq!(r.chosen_text("draft"), "better");
    assert!(!r.quality_ok(0, 0, 0));
    r.ok = true;
    r.score_fidelity = 4;
    r.score_fluency = 3;
    r.score_style = 5;
    assert!(r.quality_ok(4, 3, 5));
    assert!(!r.quality_ok(5, 3, 5));
}

#[test]
fn patch_types_are_read() {
    assert_eq!(PatchType::from_str("sentence_replace"), PatchType::SentenceReplace);
    assert_eq!(PatchType::from_str("sentence_minimal_edit"), PatchType::SentenceMinimalEdit);
    assert_eq!(PatchType::from_str("term_map_update"), PatchType::TermMapUpdate);
    assert_eq!(PatchType::from_str("other"), PatchType::Unknown);
    assert_eq!(Dimension::default(), Dimension::Unknown);
    assert_eq!(Severity::default(), Severity::Unknown);
}

#[test]
fn sentences_split_and_join() {
    let text = "One. Two!\r\n\nThree? v1.2 is\u{3002} \u{4e2d}";
    let s = split_sentences(text);
    let texts: Vec<&str> = s.iter().map(|x| x.text.as_str()).collect();
    assert_eq!(texts, vec!["One.", "Two!", "Three?", "v1.2 is\u{3002}", "\u{4e2d}"]);
    assert_eq!(s[0].suffix, " ");
    assert_eq!(s[1].suffix, "\r\n\n");
    assert_eq!(join_sentences(&s), text);
    assert_eq!(split_sentences("").len(), 0);
    let line = split_sentences("a\r\nb");
    assert_eq!((line[0].text.as_str(), line[0].suffix.as_str()), ("a", "\r\n"));
}

#[test]
fn a_sentence_list_stops_at_its_limit() {
    let s = split_sentences("One. Two.");
    assert_eq!(render_sentence_list(&s, 0), "[0] One.\n[1] Two.\n");
    assert_eq!(render_sentence_list(&s, 9), "[0] One.\n... (truncated)\n");
    assert_eq!(render_sentence_list(&vec![], 0), "");
}

#[test]
fn small_helpers_of_the_agent() {
    assert_eq!(normalize_for_match("  a \n b\t"), "a b");
    assert_eq!(
        sha256_hex("abc"),
        "ba7816bf8f01cfea414140de5dae2223b00361a396177a9cb410ff61f20015ad"
    );
    assert_eq!(
        extract_must_preserve_tokens("<<MT_TAB>> 12 USA 12 A EU"),
        vec!["<<MT_TAB>>", "12", "USA", "EU"]
    );
    assert_eq!(
        preserved_tokens("7 <<MT_BR>>", &vec!["XY".to_string()]),
        vec!["<<MT_BR>>", "7", "XY"]
    );
}

#[test]
fn a_patch_changes_its_sentence_only() {
    let draft = "Pay 10 euros. Then go.";
    let out = apply_patches_to_draft(draft, &vec![patch(0, " Pay  10 euros. ", "Please pay 10 euros.")]);
    assert_eq!(out.expect("patched"), "Please pay 10 euros. Then go.");
    assert_eq!(apply_patches_to_draft(draft, &vec![]).expect("as it was"), draft);
    let mut term = patch(0, "", "");
    term.patch_type = "term_map_update".to_string();
    assert_eq!(apply_patches_to_draft(draft, &vec![term]).expect("no change"), draft);
}

#[test]
fn patches_that_do_not_fit_are_refused() {
    let draft = "Pay 10 euros. Then go.";
    let fault = |p: ActPatch| apply_patches_to_draft(draft, &vec![p]).err().expect("refused");
    let good = || patch(0, "Pay 10 euros.", "Please pay 10 euros.");

    assert!(matches!(apply_patches_to_draft("", &vec![good()]), Err(PatchError::EmptyDraft)));
    let mut p = good();
    p.patch_type = "x".to_string();
    assert!(matches!(fault(p), PatchError::UnknownType(t) if t == "x"));
    let mut p = good();
    p.location.sentence_index = None;
    assert!(matches!(fault(p), PatchError::MissingIndex));
    assert!(matches!(
        fault(patch(2, "a", "b")),
        PatchError::OutOfRange { index: 2, sentences: 2 }
    ));
    assert!(matches!(fault(patch(0, "Pay 10 euros.", " ")), PatchError::EmptyAfter));
    assert!(matches!(fault(patch(0, "Pay 10 euros.", "a\nb")), PatchError::LineBreakInAfter));
    assert!(matches!(fault(patch(1, "Then stay.", "Go.")), PatchError::BeforeMismatch { index: 1 }));
    assert!(matches!(
        fault(patch(0, "Pay 10 euros.", "Pay 10  euros.")),
        PatchError::NoChange { index: 0 }
    ));
    let mut p = good();
    p.verification.apply_check = Some(PatchApplyCheck {
        expect_before_contains: vec!["dollars".to_string()],
        expect_after_contains: vec![],
    });
    assert!(matches!(fault(p), PatchError::ExpectedBefore(s) if s == "dollars"));
    let mut p = good();
    p.verification.apply_check = Some(PatchApplyCheck {
        expect_before_contains: vec![" ".to_string()],
        expect_after_contains: vec!["dollars".to_string()],
    });
    assert!(matches!(fault(p), PatchError::ExpectedAfter(s) if s == "dollars"));
    let mut p = good();
    p.edit.minimal_from = "x".to_string();
    assert!(matches!(fault(p), PatchError::MinimalFrom));
    let mut p = good();
    p.edit.minimal_to = "x".to_string();
    assert!(matches!(fault(p), PatchError::MinimalTo));
    let mut p = patch(0, "Pay 10 euros.", "Please pay 20 euros.");
    p.verification.must_preserve_tokens = vec!["10".to_string()];
    assert!(matches!(fault(p), PatchError::Preserve { token, before: 1, after: 0 } if token == "10"));
}

fn update(src: &str, tgt: &str) -> TermUpdate {
    TermUpdate { src: src.to_string(), tgt: tgt.to_string(), kind: None, note: None }
}

#[test]
fn terms_keep_their_first_translation() {
    let mut m = TermMemory::new();
    assert!(m.is_empty());
    let mut first = update(" lessor ", "A");
    first.kind = Some(" party ".to_string());
    first.note = Some(" ".to_string());
    let events = m.apply_updates(&vec![first, update("", "x"), update("lease", "B")]);
    assert_eq!(events.len(), 2);
    assert!(matches!(&events[0], TermApplyEvent::Added { src, tgt } if src == "lessor" && tgt == "A"));
    let events = m.apply_updates(&vec![update("lessor", "C"), update("lessor", "A")]);
    assert_eq!(events.len(), 1);
    assert!(matches!(&events[0], TermApplyEvent::Conflict { src, existing_tgt, proposed_tgt }
        if src == "lessor" && existing_tgt == "A" && proposed_tgt == "C"));
    assert_eq!(m.len(), 2);
    let relevant = m.relevant_for_text("the lease of the lessor", 5);
    let names: Vec<&str> = relevant.iter().map(|t| t.src.as_str()).collect();
    assert_eq!(names, vec!["lessor", "lease"]);
    assert_eq!(relevant[0].seen, 3);
    assert_eq!(
        TermMemory::render_for_prompt(&relevant),
        "GLOSSARY (when relevant, follow these translations consistently):\n- lessor => A [party]\n- lease => B\n"
    );
    assert_eq!(m.relevant_for_text("the lessor", 0).len(), 0);
    assert_eq!(m.relevant_for_text("nothing", 5).len(), 0);
    assert_eq!(TermMemory::render_for_prompt(&vec![]), "");
}

#[test]
fn a_sentence_with_the_same_digest_is_not_taken() {
    assert_eq!(take_changed_sentence("b".to_string(), 3, "x", "y").ok().as_deref(), Some("b"));
    assert!(matches!(
        take_changed_sentence("b".to_string(), 3, "x", "x"),
        Err(PatchError::NoChange { index: 3 })
    ));
}

#[test]
fn what_is_compared_is_compared_as_it_is() {
    let once = normalize_for_match("\u{3000} One\r\n two\u{a0}\u{2003}three \t");
    assert_eq!(once, "One two three");
    assert_eq!(normalize_for_match(&once), once);
    assert_eq!(normalize_for_match(" \n "), "");
}
