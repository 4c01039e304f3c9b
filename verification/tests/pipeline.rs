use muggle_translator::docx::pure_text::{ParaContainer, PureParagraph};
use muggle_translator::ir::TranslationUnit;
use muggle_translator::pipeline::docmap::ParaSlotUnit;
use muggle_translator::pipeline::job::{AskKind, StageConfig, StageKind, UnitHints};
use muggle_translator::pipeline::memory::{build_memory, unit_notes, ParaNotes};
use muggle_translator::pipeline::notes::{
    record_notes, survey_groups, survey_prompt, survey_tokens, NoteItem, Survey,
};
use muggle_translator::pipeline::slots::{apply_slot_text, apply_slot_translation, SlotError};
use muggle_translator::pipeline::stage::{is_paragraph_unit, name_of_stage, Action, Stage};
use muggle_translator::pipeline::stitch::{find_issue, patch_prompt, Patch, StitchIssue};
use muggle_translator::pipeline::text::{cleanup_model_text, cut_after, cut_before, render_template};
use muggle_translator::pipeline::units::{
    apply_finals, autosave_file_name, draft_units, final_text, finals_from_drafts, keep_count,
    ordered_slot_ids, paragraph_units, resolve_lang_pair, slot_units, variant_file_name,
};
use muggle_translator::sentinels::MarkerError;
use std::collections::HashMap;

fn cfg(kind: StageKind) -> StageConfig {
    StageConfig {
        kind,
        model_name: "m".to_string(),
        ctx_size: 4096,
        source_lang: "en".to_string(),
        target_lang: "de".to_string(),
        source_label: "English".to_string(),
        target_label: "German".to_string(),
        prompt: "T {{source_lang}}>{{target_lang}}\n{{tu_block}}".to_string(),
        repair_prompt: "R {{validation_error}}|{{bad}}|{{source}}".to_string(),
        autosave_every: 2,
        preview: 20,
    }
}

fn stage(kind: StageKind, units: Vec<TranslationUnit>, slots: Vec<Vec<usize>>, texts: Vec<&str>) -> Stage {
    let n = units.len();
    let hints = (0..n)
        .map(|_| UnitHints { must_keep: String::new(), nt_map: String::new() })
        .collect();
    let places = (0..n).collect();
    Stage::new(
        cfg(kind),
        units,
        hints,
        vec![String::new(); n],
        slots,
        places,
        texts.iter().map(|t| t.to_string()).collect(),
    )
}

/// Runs a stage; `reply` answers what the model is asked. Gives the prompts and how often the texts
/// were to be saved.
fn run(s: &mut Stage, reply: &dyn Fn(AskKind, &str) -> Option<String>) -> (Vec<String>, usize) {
    let mut prompts = Vec::new();
    let mut saves = 0;
    for _ in 0..1000 {
        match s.step() {
            Action::Go => {}
            Action::Chat { kind, prompt, .. } => {
                match reply(kind, &prompt) {
                    Some(r) => s.feed(&r),
                    None => assert!(s.fail()),
                }
                prompts.push(prompt);
            }
            Action::Normalize { text, .. } => s.feed(&text),
            Action::Save { .. } => saves += 1,
            Action::Done => return (prompts, saves),
            Action::Fail(e) => panic!("unit {} failed", e.tu_id),
        }
    }
    panic!("the stage does not end")
}

fn slots_of(texts: &[&str]) -> Vec<TranslationUnit> {
    let ids: Vec<usize> = (1..=texts.len()).collect();
    let texts: Vec<String> = texts.iter().map(|t| t.to_string()).collect();
    slot_units(&ids, &texts).expect("units")
}

#[test]
fn slots_are_translated_in_chunks() {
    let source = ["Hello there", "12", "Good bye"];
    let mut s = stage(StageKind::Slots, slots_of(&source), vec![vec![]; 3], source.to_vec());
    let (prompts, saves) = run(&mut s, &|kind, _| {
        assert_eq!(kind, AskKind::Chunk);
        Some("```\n<<MT_SEG:000001>>\n\"Hallo\"\n<<MT_END:000001>>\n<<MT_SEG:000003>>Ade<<MT_END:000003>>\n```".to_string())
    });
    assert_eq!(s.texts, vec!["Hallo", "12", "Ade"]);
    assert_eq!(prompts.len(), 1);
    assert_eq!(
        prompts[0],
        "T English>German\n<<MT_SEG:000001>>\nHello there\n<<MT_END:000001>>\n\n<<MT_SEG:000003>>\nGood bye\n<<MT_END:000003>>\n\n"
    );
    assert_eq!(saves, 1);
    assert_eq!(s.units[0].draft_translation.as_deref(), Some("Hallo"));
    assert_eq!(s.units[1].draft_translation.as_deref(), Some("12"));
    assert_eq!(s.units[0].draft_translation_model.as_deref(), Some("m"));
}

#[test]
fn a_chunk_whose_reply_cannot_be_read_is_halved() {
    let source = ["Hello there", "Good bye"];
    let mut s = stage(StageKind::Slots, slots_of(&source), vec![vec![]; 2], source.to_vec());
    let (prompts, _) = run(&mut s, &|_, prompt| {
        Some(if prompt.contains("Hello there") && prompt.contains("Good bye") {
            "nothing of use".to_string()
        } else if prompt.contains("Hello there") {
            "Hallo".to_string()
        } else {
            "<<MT_SEG:000002>>Ade".to_string()
        })
    });
    assert_eq!(prompts.len(), 3);
    assert_eq!(s.texts, vec!["Hallo", "Ade"]);
}

#[test]
fn a_text_that_is_not_valid_is_repaired() {
    let source = ["Pay 10 euros"];
    let mut s = stage(StageKind::Slots, slots_of(&source), vec![vec![]], source.to_vec());
    let (prompts, _) = run(&mut s, &|kind, _| {
        Some(match kind {
            AskKind::Repair => "Zahle 10 Euro".to_string(),
            _ => "<<MT_SEG:000001>>Zahle zehn Euro<<MT_END:000001>>".to_string(),
        })
    });
    assert_eq!(prompts.len(), 2);
    assert_eq!(
        prompts[1],
        "R digits_mismatch src={\"10\": 1} tgt={}|Zahle zehn Euro|Pay 10 euros"
    );
    assert_eq!(s.texts, vec!["Zahle 10 Euro"]);
}

#[test]
fn a_text_that_stays_invalid_is_forced_or_left() {
    let source = ["Pay 10 euros"];
    let reply = |kind: AskKind, _: &str| {
        Some(match kind {
            AskKind::Force => "Zahle 10 Euro".to_string(),
            _ => "wrong 11".to_string(),
        })
    };
    let mut s = stage(StageKind::Slots, slots_of(&source), vec![vec![]], source.to_vec());
    let (prompts, _) = run(&mut s, &reply);
    assert_eq!(prompts.len(), 4);
    assert_eq!(s.texts, vec!["Zahle 10 Euro"]);

    let mut s = stage(StageKind::Slots, slots_of(&source), vec![vec![]], source.to_vec());
    run(&mut s, &|_, _| Some("wrong 11".to_string()));
    assert_eq!(s.texts, vec!["Pay 10 euros"]);

    let mut s = stage(StageKind::Slots, slots_of(&source), vec![vec![]], source.to_vec());
    run(&mut s, &|kind, _| match kind {
        AskKind::Force => None,
        _ => Some("wrong 11".to_string()),
    });
    assert_eq!(s.texts, vec!["Pay 10 euros"]);
}

fn para(id: usize, text: &str) -> PureParagraph {
    PureParagraph {
        para_id: id,
        part_name: "p".to_string(),
        scope_key: format!("p#w:p@{id}"),
        xml_event_index: id,
        container: ParaContainer::DocumentBody,
        section_index: None,
        table_index: None,
        row_index: None,
        cell_index: None,
        p_style: None,
        num_id: None,
        num_ilvl: None,
        outline_lvl: None,
        text: text.to_string(),
    }
}

#[test]
fn paragraphs_are_translated_for_reading() {
    let (units, places) = paragraph_units(&vec![para(4, "One thing"), para(9, "Other")], Some(1));
    assert_eq!((units.len(), places.clone()), (1, vec![0]));
    assert_eq!(units[0].scope_key, "p#w:p@4");
    let mut s = stage(StageKind::Paragraphs, units, vec![vec![]], vec!["One thing", "Other"]);
    run(&mut s, &|_, _| Some("<<MT_SEG:000004>>Ein Ding<<MT_END:000004>>".to_string()));
    assert_eq!(s.texts, vec!["Ein Ding", "Other"]);
}

fn slot_para(id: usize, slot: usize, text: &str) -> ParaSlotUnit {
    ParaSlotUnit {
        tu_id: id,
        part_name: "p".to_string(),
        scope_key: format!("p#w:p@{id}"),
        para_style: None,
        slot_ids: vec![slot],
        source_surface: format!("<<MT_SLOT:{slot:06}>>{text}<<MT_SLOT:000000>>"),
    }
}

#[test]
fn drafts_are_made_and_fused() {
    let paras = vec![slot_para(1, 1, "Hello there"), slot_para(2, 2, "Good bye")];
    let (units, slots) = draft_units(&paras, None);
    assert_eq!(slots, vec![vec![1], vec![2]]);
    let draft = |a: &str, b: &str| {
        format!("<<MT_SEG:000001>><<MT_SLOT:000001>>{a}<<MT_SLOT:000000>><<MT_END:000001>><<MT_SEG:000002>><<MT_SLOT:000002>>{b}<<MT_SLOT:000000>><<MT_END:000002>>")
    };
    let mut a = stage(StageKind::DraftA, units, slots.clone(), vec!["Hello there", "Good bye"]);
    run(&mut a, &|_, _| Some(draft("Hallo", "Ade")));
    assert_eq!(a.texts, vec!["Hallo", "Ade"]);
    assert_eq!(
        a.units[0].draft_translation.as_deref(),
        Some("<<MT_SLOT:000001>>Hallo<<MT_SLOT:000000>>")
    );
    let mut b = stage(StageKind::DraftB, a.units, slots.clone(), vec!["Hello there", "Good bye"]);
    run(&mut b, &|_, _| Some(draft("Servus", "Baba")));
    assert_eq!(
        b.units[1].alt_translation.as_deref(),
        Some("<<MT_SLOT:000002>>Baba<<MT_SLOT:000000>>")
    );
    let mut f = stage(StageKind::Fuse, b.units, slots.clone(), vec!["Hello there", "Good bye"]);
    let (prompts, _) = run(&mut f, &|kind, _| {
        assert_eq!(kind, AskKind::FuseChunk);
        Some(draft("Hallo", "Baba"))
    });
    assert!(prompts[0].contains("SOURCE:\n<<MT_SLOT:000001>>Hello there<<MT_SLOT:000000>>\n\nA:\n"));
    let mut texts = vec!["Hello there".to_string(), "Good bye".to_string()];
    assert!(apply_finals(&mut texts, &f.units, &slots, 20).is_ok());
    assert_eq!(texts, vec!["Hallo", "Baba"]);
    assert_eq!(final_text(&f.units[1]), "<<MT_SLOT:000002>>Baba<<MT_SLOT:000000>>");
}

#[test]
fn without_fusion_the_draft_is_final() {
    let (mut units, slots) = draft_units(&vec![slot_para(1, 1, "Hello")], None);
    assert_eq!(final_text(&units[0]), units[0].frozen_surface);
    units[0].draft_translation = Some("<<MT_SLOT:000001>>Hallo<<MT_SLOT:000000>>".to_string());
    finals_from_drafts(&mut units);
    assert_eq!(units[0].final_translation, units[0].draft_translation);
    let mut texts = vec!["Hello".to_string()];
    assert!(apply_finals(&mut texts, &units, &slots, 20).is_ok());
    assert_eq!(texts, vec!["Hallo"]);
    units[0].final_translation = Some("no marks".to_string());
    let e = apply_finals(&mut texts, &units, &slots, 20).err().expect("fault");
    assert_eq!(e.tu_id, 1);
    assert!(matches!(e.error, SlotError::Marks(MarkerError::MissingSlot { id: 1 })));
}

#[test]
fn slot_texts_are_put_in_their_places() {
    let mut texts = vec!["a".to_string(), "b".to_string()];
    let map = vec![("<<MT_NT:0001>>".to_string(), "X".to_string())];
    let marked = "<<MT_SLOT:000002>>n <<MT_NT:0001>><<MT_SLOT:000000>> ";
    assert!(apply_slot_translation(&mut texts, &vec![2], &map, marked, 20).is_ok());
    assert_eq!(texts, vec!["a", "n X"]);
    assert!(matches!(
        apply_slot_translation(&mut texts, &vec![2], &map, "<<MT_SLOT:000002>>n<<MT_SLOT:000000>>more to say", 4),
        Err(SlotError::TextAfterEnd(t)) if t == "more"
    ));
    assert!(matches!(
        apply_slot_translation(&mut texts, &vec![9], &map, "<<MT_SLOT:000009>>n<<MT_SLOT:000000>>", 4),
        Err(SlotError::OutOfRange { slot_id: 9, slot_texts: 2 })
    ));
    assert!(apply_slot_text(&mut texts, 1, "z").is_ok());
    assert!(apply_slot_text(&mut texts, 0, "z").is_ok());
    assert!(matches!(apply_slot_text(&mut texts, 3, "z"), Err(SlotError::OutOfRange { slot_id: 3, .. })));
    assert_eq!(texts, vec!["z", "n X"]);
}

#[test]
fn units_are_counted_and_ordered() {
    assert_eq!(keep_count(None, 5), 5);
    assert_eq!(keep_count(Some(3), 5), 3);
    assert_eq!(keep_count(Some(0), 5), 1);
    assert_eq!(keep_count(Some(9), 5), 5);
    let mut p = slot_para(1, 3, "x");
    p.slot_ids = vec![3, 0, 3, 1];
    assert_eq!(ordered_slot_ids(&vec![p, slot_para(2, 1, "y")], None), vec![3, 1]);
    assert_eq!(slot_units(&vec![1, 4], &vec!["a".to_string()]).err(), Some(4));
    assert_eq!(slots_of(&["a"])[0].scope_key, "slot#1");
}

#[test]
fn the_languages_are_given_or_guessed() {
    let en = Some("en".to_string());
    let fr = Some("fr".to_string());
    let texts = vec!["An English sentence to go by."];
    assert_eq!(resolve_lang_pair(&en, &fr, &texts), ("en".to_string(), "fr".to_string()));
    assert_eq!(resolve_lang_pair(&fr, &None, &texts), ("fr".to_string(), "zh".to_string()));
    assert_eq!(resolve_lang_pair(&None, &fr, &texts), ("en".to_string(), "fr".to_string()));
    assert_eq!(resolve_lang_pair(&None, &None, &texts), ("en".to_string(), "zh".to_string()));
}

#[test]
fn files_along_the_way_are_named() {
    assert_eq!(autosave_file_name("a", "_p.DOCX"), "a_p.DOCX");
    assert_eq!(autosave_file_name("a", "_p"), "a_p.docx");
    assert_eq!(variant_file_name("a", "A").as_deref(), Some("a_A.docx"));
    assert_eq!(variant_file_name("a", "B").as_deref(), Some("a_B.docx"));
    assert_eq!(variant_file_name("a", "C"), None);
    assert_eq!(name_of_stage(StageKind::DraftA), "translate_a");
    assert_eq!(name_of_stage(StageKind::Slots), "translate_a(slot_texts)");
}

#[test]
fn replies_are_cleaned() {
    assert_eq!(cleanup_model_text(" \"a\" "), "a");
    assert_eq!(cleanup_model_text("```text\nabc\n```"), "abc");
    assert_eq!(cleanup_model_text("a ``` b"), "a ``` b");
    assert_eq!(cut_after("xx--yy--zz", "--"), "yy--zz");
    assert_eq!(cut_before("xx--yy--zz", "--"), "xx");
    assert_eq!(cut_after("xx", "--"), "xx");
    assert_eq!(render_template("{{a}} {{b}} {{c}}", &vec![("a", "{{b}}"), ("b", "2")]), "2 2 {{c}}");
}

#[test]
fn notes_are_asked_for_and_kept() {
    let (units, _) = draft_units(&vec![slot_para(1, 1, "One"), slot_para(2, 2, "Two")], None);
    assert!(is_paragraph_unit(&units[0]));
    let groups = survey_groups(Survey::Notes, 16384, &units);
    assert_eq!(groups, vec![vec![0, 1]]);
    assert_eq!(survey_groups(Survey::Notes, 0, &units), vec![vec![0], vec![1]]);
    assert_eq!(
        survey_prompt(Survey::Notes, "{{target_lang}}: {{tu_block}}", "de", &units, &groups[0]),
        "de: TU#1:\n<<MT_SLOT:000001>>One<<MT_SLOT:000000>>\n\nTU#2:\n<<MT_SLOT:000002>>Two<<MT_SLOT:000000>>\n"
    );
    assert_eq!(survey_tokens(Survey::Notes, &groups[0]), 900);
    assert_eq!(survey_tokens(Survey::Audit, &groups[0]), 2400);
    assert!(survey_prompt(Survey::Audit, "{{tu_block}}", "de", &units, &vec![1])
        .starts_with("TU#2 SOURCE:\n<<MT_SLOT:000002>>Two<<MT_SLOT:000000>>\nTU#2 CURRENT:\n"));

    let mut notes: HashMap<usize, ParaNotes> = HashMap::new();
    record_notes(
        &mut notes,
        &vec![NoteItem {
            tu_id: 2,
            understanding: "about two".to_string(),
            proper_nouns: vec!["P".to_string()],
            terms: vec!["T".to_string()],
        }],
    );
    assert_eq!(unit_notes(&units, &notes), vec!["", "about two"]);
    let m = build_memory("en", "de", "ma", Some("mb"), None, &units, &notes);
    assert_eq!(m.paragraphs.len(), 2);
    assert_eq!(m.paragraphs[1].understanding.as_deref(), Some("about two"));
    assert_eq!(m.paragraphs[1].terms, vec!["T"]);
    assert_eq!((m.model_a.as_str(), m.model_b.as_deref(), m.agent_model), ("ma", Some("mb"), None));
}

#[test]
fn issues_are_patched() {
    let paras = vec![slot_para(1, 1, "One"), slot_para(2, 2, "Two"), slot_para(3, 3, "Three")];
    let (units, slots) = draft_units(&paras, None);
    let issue = StitchIssue {
        tu_id: 2,
        problem: String::new(),
        rewrite_instructions: "better".to_string(),
    };
    assert_eq!(find_issue(&units, &issue), Some(1));
    let notes = vec!["n1".to_string(), String::new(), String::new()];
    let prompt = patch_prompt("{{instructions}}|{{before}}|{{after}}", &cfg(StageKind::Fuse), &units, &notes, 1, &issue);
    assert_eq!(
        prompt,
        "better|TU#1 SOURCE:\n<<MT_SLOT:000001>>One<<MT_SLOT:000000>>\nTU#1 NOTE:\nn1\nTU#1 A:\n<<MT_SLOT:000001>>One<<MT_SLOT:000000>>\nTU#1 B:\n<<MT_SLOT:000001>>One<<MT_SLOT:000000>>\n\n|TU#3 SOURCE:\n<<MT_SLOT:000003>>Three<<MT_SLOT:000000>>\nTU#3 A:\n<<MT_SLOT:000003>>Three<<MT_SLOT:000000>>\nTU#3 B:\n<<MT_SLOT:000003>>Three<<MT_SLOT:000000>>\n\n"
    );
    let hints = UnitHints { must_keep: String::new(), nt_map: String::new() };
    let c = cfg(StageKind::Fuse);
    let mut texts = vec!["One".to_string(), "Two".to_string(), "Three".to_string()];
    let mut p = Patch::begin();
    p.feed(&c, &units[1], &slots[1], &mut texts, "no marks");
    let (ask, tokens) = p.ask(&c, &units[1], &hints).expect("a repair");
    assert!(ask.starts_with("R sentinel_sequence_mismatch|no marks|"));
    assert_eq!(tokens, 512);
    p.feed(&c, &units[1], &slots[1], &mut texts, "<<MT_SLOT:000002>>Zwei<<MT_SLOT:000000>>");
    assert!(p.applied);
    assert_eq!(p.ask(&c, &units[1], &hints), None);
    assert_eq!(texts, vec!["One", "Zwei", "Three"]);
}

#[test]
fn a_units_own_surface_changes_no_slot() {
    let paras = vec![ParaSlotUnit {
        tu_id: 1,
        part_name: "p".to_string(),
        scope_key: "p#w:p@1".to_string(),
        para_style: None,
        slot_ids: vec![1, 3],
        source_surface: "<<MT_SLOT:000001>>see https://a.example/x <<MT_SLOT:000003>>and a <b>\
<<MT_SLOT:000000>>"
            .to_string(),
    }];
    let (units, slots) = draft_units(&paras, None);
    assert!(units[0].frozen_surface.contains("<<MT_NT:0001>>"));
    let before: Vec<String> =
        ["see https://a.example/x ", "other", "and a <b>"].iter().map(|t| t.to_string()).collect();
    let mut texts = before.clone();
    let u = &units[0];
    assert!(apply_slot_translation(&mut texts, &slots[0], &u.nt_map, &u.frozen_surface, 20).is_ok());
    assert_eq!(texts, before);
}

#[test]
fn second_drafts_leave_the_first_ones() {
    let (units, slots) = draft_units(&vec![slot_para(1, 1, "Hello there")], None);
    let reply = |t: &str| format!("<<MT_SEG:000001>>\n<<MT_SLOT:000001>>{t}<<MT_SLOT:000000>>\n<<MT_END:000001>>");
    let mut a = stage(StageKind::DraftA, units, slots.clone(), vec!["Hello there", "kept"]);
    run(&mut a, &|_, _| Some(reply("Hallo")));
    assert_eq!(a.texts[1], "kept");
    let left = a.texts.clone();
    let first = a.units[0].draft_translation.clone();
    assert!(first.is_some());
    let mut b = stage(StageKind::DraftB, a.units, slots.clone(), vec!["Hello there", "kept"]);
    run(&mut b, &|_, _| Some(reply("Servus")));
    assert_eq!(b.texts[1], "kept");
    assert_eq!(b.units[0].draft_translation, first);
    let mut units = b.units;
    finals_from_drafts(&mut units);
    assert_eq!(units[0].final_translation, first);
    let mut texts = vec!["Hello there".to_string(), "kept".to_string()];
    assert!(apply_finals(&mut texts, &units, &slots, 20).is_ok());
    assert_eq!(texts, left);
}
