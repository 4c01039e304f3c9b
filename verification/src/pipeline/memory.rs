//! What is kept on record of the translation of each paragraph.

use crate::chars::owned;
use crate::freezer::{unfreeze_text, unfrozen};
use crate::ir::{FreezeMaskSpan, FreezeSpanV, TranslationUnit, UnitV};
use crate::pipeline::stage::{is_paragraph_unit, paragraph_unit};
use crate::vecs::{clone_opt, clone_strings, push_deep};
use std::collections::HashMap;
use vstd::prelude::*;

verus! {

broadcast use vstd::std_specs::hash::group_hash_axioms;

/// What the model noted of a paragraph.
#[derive(Clone, Debug)]
pub struct ParaNotes {
    pub understanding: Option<String>,
    pub proper_nouns: Vec<String>,
    pub terms: Vec<String>,
}

/// The model of [`ParaNotes`].
#[verifier::ext_equal]
pub struct NotesV {
    pub understanding: Option<Seq<char>>,
    pub proper_nouns: Seq<Seq<char>>,
    pub terms: Seq<Seq<char>>,
}

impl DeepView for ParaNotes {
    type V = NotesV;

    open spec fn deep_view(&self) -> NotesV {
        NotesV {
            understanding: self.understanding.deep_view(),
            proper_nouns: self.proper_nouns.deep_view(),
            terms: self.terms.deep_view(),
        }
    }
}

/// No notes.
pub open spec fn no_notes() -> NotesV {
    NotesV { understanding: None, proper_nouns: Seq::empty(), terms: Seq::empty() }
}

/// The notes of a unit by its number.
pub open spec fn notes_of(notes: Map<usize, ParaNotes>, id: usize) -> NotesV {
    if notes.contains_key(id) {
        notes[id].deep_view()
    } else {
        no_notes()
    }
}

/// What is on record of the translation of a document.
#[derive(Debug)]
pub struct ParagraphMemoryFile {
    pub schema_version: String,
    pub source_lang: String,
    pub target_lang: String,
    pub model_a: String,
    pub model_b: Option<String>,
    pub agent_model: Option<String>,
    pub paragraphs: Vec<ParagraphRecord>,
}

/// What is on record of the translation of a paragraph.
#[derive(Debug)]
pub struct ParagraphRecord {
    pub tu_id: usize,
    pub part_name: String,
    pub scope_key: String,
    pub para_style: Option<String>,
    pub tu_kind: String,
    pub source_surface: String,
    pub frozen_surface: String,
    pub nt_map: Vec<(String, String)>,
    pub nt_mask: Vec<FreezeMaskSpan>,
    pub understanding: Option<String>,
    pub proper_nouns: Vec<String>,
    pub terms: Vec<String>,
    pub translation_a: Option<String>,
    pub translation_b: Option<String>,
    pub final_translation: Option<String>,
}

/// The model of a [`ParagraphRecord`].
#[verifier::ext_equal]
pub struct RecordV {
    pub tu_id: nat,
    pub part_name: Seq<char>,
    pub scope_key: Seq<char>,
    pub para_style: Option<Seq<char>>,
    pub tu_kind: Seq<char>,
    pub source_surface: Seq<char>,
    pub frozen_surface: Seq<char>,
    pub nt_map: Seq<(Seq<char>, Seq<char>)>,
    pub nt_mask: Seq<FreezeSpanV>,
    pub notes: NotesV,
    pub translation_a: Option<Seq<char>>,
    pub translation_b: Option<Seq<char>>,
    pub final_translation: Option<Seq<char>>,
}

impl DeepView for ParagraphRecord {
    type V = RecordV;

    open spec fn deep_view(&self) -> RecordV {
        RecordV {
            tu_id: self.tu_id as nat,
            part_name: self.part_name@,
            scope_key: self.scope_key@,
            para_style: self.para_style.deep_view(),
            tu_kind: self.tu_kind@,
            source_surface: self.source_surface@,
            frozen_surface: self.frozen_surface@,
            nt_map: self.nt_map.deep_view(),
            nt_mask: self.nt_mask.deep_view(),
            notes: NotesV {
                understanding: self.understanding.deep_view(),
                proper_nouns: self.proper_nouns.deep_view(),
                terms: self.terms.deep_view(),
            },
            translation_a: self.translation_a.deep_view(),
            translation_b: self.translation_b.deep_view(),
            final_translation: self.final_translation.deep_view(),
        }
    }
}

/// A translation with what was frozen put back.
pub open spec fn thawed(t: Option<Seq<char>>, map: Seq<(Seq<char>, Seq<char>)>) -> Option<Seq<char>> {
    match t {
        Some(t) => Some(unfrozen(t, map)),
        None => None,
    }
}

/// What is on record of a unit with its notes.
pub open spec fn record_of(u: UnitV, notes: NotesV) -> RecordV {
    RecordV {
        tu_id: u.tu_id,
        part_name: u.part_name,
        scope_key: u.scope_key,
        para_style: u.para_style,
        tu_kind: if paragraph_unit(u) {
            "paragraph"@
        } else {
            "other"@
        },
        source_surface: u.source_surface,
        frozen_surface: u.frozen_surface,
        nt_map: u.nt_map,
        nt_mask: u.nt_mask,
        notes,
        translation_a: thawed(u.draft_translation, u.nt_map),
        translation_b: thawed(u.alt_translation, u.nt_map),
        final_translation: thawed(u.final_translation, u.nt_map),
    }
}

fn thaw(t: &Option<String>, map: &Vec<(String, String)>) -> (r: Option<String>)
    ensures
        r.deep_view() == thawed(t.deep_view(), map.deep_view()),
{
    match t {
        Some(t) => Some(unfreeze_text(t.as_str(), map)),
        None => None,
    }
}

fn clone_mask(v: &Vec<FreezeMaskSpan>) -> (r: Vec<FreezeMaskSpan>)
    ensures
        r.deep_view() == v.deep_view(),
{
    let ghost model = v.deep_view();
    let mut out: Vec<FreezeMaskSpan> = Vec::new();
    let mut i: usize = 0;
    assert(out.deep_view() =~= model.take(0));
    while i < v.len()
        invariant
            i <= v@.len(),
            model == v.deep_view(),
            out.deep_view() == model.take(i as int),
        decreases v@.len() - i,
    {
        assert(model[i as int] == v@[i as int].deep_view());
        push_deep(
            &mut out,
            FreezeMaskSpan {
                src_start: v[i].src_start,
                src_end: v[i].src_end,
                token: v[i].token.clone(),
                original: v[i].original.clone(),
            },
        );
        i = i + 1;
        assert(model.take(i as int) =~= model.take(i - 1).push(model[i - 1]));
    }
    assert(model.take(i as int) =~= model);
    out
}

fn find_notes(notes: &HashMap<usize, ParaNotes>, id: usize) -> (r: ParaNotes)
    ensures
        r.deep_view() == notes_of(notes@, id),
{
    match notes.get(&id) {
        Some(n) => ParaNotes {
            understanding: clone_opt(&n.understanding),
            proper_nouns: clone_strings(&n.proper_nouns),
            terms: clone_strings(&n.terms),
        },
        None => {
            let r = ParaNotes {
                understanding: None,
                proper_nouns: Vec::new(),
                terms: Vec::new(),
            };
            assert(r.deep_view() =~= no_notes());
            r
        },
    }
}

fn record(u: &TranslationUnit, notes: ParaNotes) -> (r: ParagraphRecord)
    ensures
        r.deep_view() == record_of(u.deep_view(), notes.deep_view()),
{
    let kind: String = if is_paragraph_unit(u) {
        owned("paragraph")
    } else {
        owned("other")
    };
    ParagraphRecord {
        tu_id: u.tu_id,
        part_name: u.part_name.clone(),
        scope_key: u.scope_key.clone(),
        para_style: clone_opt(&u.para_style),
        tu_kind: kind,
        source_surface: u.source_surface.clone(),
        frozen_surface: u.frozen_surface.clone(),
        nt_map: crate::docx::xml::clone_attrs(&u.nt_map),
        nt_mask: clone_mask(&u.nt_mask),
        understanding: notes.understanding,
        proper_nouns: notes.proper_nouns,
        terms: notes.terms,
        translation_a: thaw(&u.draft_translation, &u.nt_map),
        translation_b: thaw(&u.alt_translation, &u.nt_map),
        final_translation: thaw(&u.final_translation, &u.nt_map),
    }
}

fn own(t: Option<&str>) -> (r: Option<String>)
    ensures
        r.deep_view() == t.deep_view(),
{
    match t {
        Some(t) => Some(owned(t)),
        None => None,
    }
}

/// What is on record of units: their texts with what was frozen put back, and what was noted of
/// them.
pub fn build_memory(
    source_lang: &str,
    target_lang: &str,
    model_a: &str,
    model_b: Option<&str>,
    agent_model: Option<&str>,
    tus: &Vec<TranslationUnit>,
    notes: &HashMap<usize, ParaNotes>,
) -> (r: ParagraphMemoryFile)
    ensures
        r.schema_version@ == "mt.paragraph_memory.v1"@,
        r.source_lang@ == source_lang@,
        r.target_lang@ == target_lang@,
        r.model_a@ == model_a@,
        r.model_b.deep_view() == model_b.deep_view(),
        r.agent_model.deep_view() == agent_model.deep_view(),
        r.paragraphs.deep_view() == Seq::new(
            tus@.len(),
            |i: int| record_of(tus@[i].deep_view(), notes_of(notes@, tus@[i].tu_id)),
        ),
{
    let mut paragraphs: Vec<ParagraphRecord> = Vec::new();
    let mut i: usize = 0;
    while i < tus.len()
        invariant
            i <= tus@.len(),
            paragraphs@.len() == i,
            forall|k: int|
                0 <= k < i ==> (#[trigger] paragraphs@[k]).deep_view() == record_of(
                    tus@[k].deep_view(),
                    notes_of(notes@, tus@[k].tu_id),
                ),
        decreases tus@.len() - i,
    {
        let n: ParaNotes = find_notes(notes, tus[i].tu_id);
        paragraphs.push(record(&tus[i], n));
        i = i + 1;
    }
    assert(paragraphs.deep_view() =~= Seq::new(
        tus@.len(),
        |i: int| record_of(tus@[i].deep_view(), notes_of(notes@, tus@[i].tu_id)),
    ));
    ParagraphMemoryFile {
        schema_version: owned("mt.paragraph_memory.v1"),
        source_lang: owned(source_lang),
        target_lang: owned(target_lang),
        model_a: owned(model_a),
        model_b: own(model_b),
        agent_model: own(agent_model),
        paragraphs,
    }
}

/// The understanding that was noted of a unit, or nothing.
pub open spec fn noted(notes: Map<usize, ParaNotes>, id: usize) -> Seq<char> {
    match notes_of(notes, id).understanding {
        Some(t) => t,
        None => Seq::empty(),
    }
}

/// The understanding that was noted of each unit.
pub fn unit_notes(tus: &Vec<TranslationUnit>, notes: &HashMap<usize, ParaNotes>) -> (r: Vec<String>)
    ensures
        r.deep_view() == Seq::new(tus@.len(), |i: int| noted(notes@, tus@[i].tu_id)),
{
    let mut out: Vec<String> = Vec::new();
    let mut i: usize = 0;
    while i < tus.len()
        invariant
            i <= tus@.len(),
            out@.len() == i,
            forall|k: int| 0 <= k < i ==> (#[trigger] out@[k])@ == noted(notes@, tus@[k].tu_id),
        decreases tus@.len() - i,
    {
        let n: ParaNotes = find_notes(notes, tus[i].tu_id);
        let t: String = match n.understanding {
            Some(t) => t,
            None => {
                let none: String = String::new();
                assert(none@ =~= Seq::<char>::empty());
                none
            },
        };
        out.push(t);
        i = i + 1;
    }
    assert(out.deep_view() =~= Seq::new(tus@.len(), |i: int| noted(notes@, tus@[i].tu_id)));
    out
}

/// The record of a unit tells of it what it is, and its translations with what was frozen put back.
pub proof fn law_record_tells_of_its_unit(u: UnitV, notes: NotesV)
    ensures
        ({
            let r = record_of(u, notes);
            &&& r.tu_id == u.tu_id
            &&& r.part_name == u.part_name
            &&& r.scope_key == u.scope_key
            &&& r.source_surface == u.source_surface
            &&& r.frozen_surface == u.frozen_surface
            &&& r.nt_map == u.nt_map
            &&& r.notes == notes
            &&& u.draft_translation is None <==> r.translation_a is None
            &&& u.draft_translation matches Some(t) ==> r.translation_a == Some(
                unfrozen(t, u.nt_map),
            )
            &&& u.alt_translation is None <==> r.translation_b is None
            &&& u.alt_translation matches Some(t) ==> r.translation_b == Some(unfrozen(t, u.nt_map))
            &&& u.final_translation is None <==> r.final_translation is None
            &&& u.final_translation matches Some(t) ==> r.final_translation == Some(
                unfrozen(t, u.nt_map),
            )
        }),
{
}

} // verus!
