//! What goes into the stages of the translation, and what is made of what comes out.

use crate::chars::{
    append, ascii_lower, blank, dec, dec_usize, ends, ends_with, is_blank, lower_ascii, owned,
};
use crate::docx::pure_text::{ParaV, PureParagraph};
use crate::freezer::{freeze_text, frozen, FreezeResult};
use crate::ir::{TranslationUnit, UnitV};
use crate::pipeline::docmap::{ParaSlotUnit, SlotUnitV};
use crate::pipeline::slots::{apply_slot_translation, slots_applied, SlotErrorV};
use crate::pipeline::stage::{slots_view, StageError};
use crate::textutil::{auto_language_pair, cjk_total, language_pair, latin_total};
use crate::vecs::{clone_opt, push_deep};
use vstd::prelude::*;

verus! {

/// A unit at its start: its text frozen, and no translation.
pub open spec fn new_unit(
    tu_id: nat,
    part_name: Seq<char>,
    scope_key: Seq<char>,
    para_style: Option<Seq<char>>,
    source: Seq<char>,
) -> UnitV {
    let f = frozen(source);
    UnitV {
        tu_id,
        part_name,
        scope_key,
        para_style,
        atoms: Seq::empty(),
        spans: Seq::empty(),
        source_surface: source,
        frozen_surface: f.text,
        nt_map: f.nt_map,
        nt_mask: f.mask,
        draft_translation: None,
        final_translation: None,
        alt_translation: None,
        draft_translation_model: None,
        alt_translation_model: None,
        qe_score: None,
        qe_flags: Seq::empty(),
    }
}

fn make_unit(
    tu_id: usize,
    part_name: String,
    scope_key: String,
    para_style: Option<String>,
    source: String,
) -> (r: TranslationUnit)
    ensures
        r.deep_view() == new_unit(
            tu_id as nat,
            part_name@,
            scope_key@,
            para_style.deep_view(),
            source@,
        ),
        r.tu_id == tu_id,
{
    let f: FreezeResult = freeze_text(source.as_str());
    let r = TranslationUnit {
        tu_id,
        part_name,
        scope_key,
        para_style,
        atoms: Vec::new(),
        spans: Vec::new(),
        source_surface: source,
        frozen_surface: f.text,
        nt_map: f.nt_map,
        nt_mask: f.mask,
        draft_translation: None,
        final_translation: None,
        alt_translation: None,
        draft_translation_model: None,
        alt_translation_model: None,
        qe_score: None,
        qe_flags: Vec::new(),
    };
    assert(r.deep_view() =~= new_unit(
        tu_id as nat,
        part_name@,
        scope_key@,
        para_style.deep_view(),
        source@,
    ));
    r
}

/// How many of `n` units are translated: all, or as many as are asked for, but at least one.
pub open spec fn kept_units(max: Option<usize>, n: nat) -> nat {
    match max {
        Some(m) => {
            let least = if m < 1 {
                1
            } else {
                m as nat
            };
            if least < n {
                least
            } else {
                n
            }
        },
        None => n,
    }
}

/// How many of `n` units are translated.
pub fn keep_count(max_tus: Option<usize>, n: usize) -> (r: usize)
    ensures
        r == kept_units(max_tus, n as nat),
        r <= n,
{
    match max_tus {
        Some(m) => {
            let least: usize = if m < 1 {
                1
            } else {
                m
            };
            if least < n {
                least
            } else {
                n
            }
        },
        None => n,
    }
}

/// The unit of a paragraph with slots.
pub open spec fn draft_unit(p: SlotUnitV) -> UnitV {
    new_unit(p.tu_id, p.part_name, p.scope_key, p.para_style, p.source_surface)
}

/// The slots of the last paragraph with a number.
pub open spec fn slots_of_id(paras: Seq<ParaSlotUnit>, id: usize) -> Seq<usize>
    decreases paras.len(),
{
    if paras.len() == 0 {
        Seq::empty()
    } else if paras.last().tu_id == id {
        paras.last().slot_ids@
    } else {
        slots_of_id(paras.drop_last(), id)
    }
}

/// The slots of a unit, where only the first `n` units are translated: none for a number beyond that
/// of the last of them.
pub open spec fn unit_slots(paras: Seq<ParaSlotUnit>, n: int, cut: bool, i: int) -> Seq<usize> {
    if cut && paras[i].tu_id > paras[n - 1].tu_id {
        Seq::empty()
    } else {
        slots_of_id(paras, paras[i].tu_id)
    }
}

fn find_slots<'a>(paras: &'a Vec<ParaSlotUnit>, id: usize) -> (r: Option<&'a Vec<usize>>)
    ensures
        match r {
            Some(v) => v@ == slots_of_id(paras@, id),
            None => slots_of_id(paras@, id).len() == 0,
        },
{
    let mut i: usize = paras.len();
    assert(paras@.take(i as int) =~= paras@);
    while i > 0
        invariant
            i <= paras@.len(),
            slots_of_id(paras@.take(i as int), id) == slots_of_id(paras@, id),
        decreases i,
    {
        assert(paras@.take(i as int).last() == paras@[i - 1]);
        assert(paras@.take(i as int).drop_last() =~= paras@.take(i - 1));
        if paras[i - 1].tu_id == id {
            return Some(&paras[i - 1].slot_ids);
        }
        i = i - 1;
    }
    None
}

/// The units of paragraphs with slots, and the slots of each.
pub fn draft_units(paras: &Vec<ParaSlotUnit>, max_tus: Option<usize>) -> (r: (
    Vec<TranslationUnit>,
    Vec<Vec<usize>>,
))
    ensures
        ({
            let n = kept_units(max_tus, paras@.len()) as int;
            &&& r.0.deep_view() == Seq::new(n as nat, |i: int| draft_unit(paras@[i].deep_view()))
            &&& slots_view(r.1@) == Seq::new(
                n as nat,
                |i: int| unit_slots(paras@, n, max_tus is Some, i),
            )
        }),
{
    let n: usize = keep_count(max_tus, paras.len());
    let cut: bool = max_tus.is_some();
    let mut units: Vec<TranslationUnit> = Vec::new();
    let mut slots: Vec<Vec<usize>> = Vec::new();
    let mut i: usize = 0;
    while i < n
        invariant
            i <= n <= paras@.len(),
            units@.len() == i,
            slots@.len() == i,
            forall|k: int|
                0 <= k < i ==> (#[trigger] units@[k]).deep_view() == draft_unit(
                    paras@[k].deep_view(),
                ),
            forall|k: int|
                0 <= k < i ==> (#[trigger] slots@[k])@ == unit_slots(paras@, n as int, cut, k),
        decreases n - i,
    {
        let p: &ParaSlotUnit = &paras[i];
        let mut own: Vec<usize> = Vec::new();
        if !(cut && p.tu_id > paras[n - 1].tu_id) {
            match find_slots(paras, p.tu_id) {
                Some(v) => own.extend_from_slice(v.as_slice()),
                None => {},
            }
        }
        assert(own@ =~= unit_slots(paras@, n as int, cut, i as int));
        units.push(
            make_unit(
                p.tu_id,
                p.part_name.clone(),
                p.scope_key.clone(),
                clone_opt(&p.para_style),
                p.source_surface.clone(),
            ),
        );
        slots.push(own);
        i = i + 1;
    }
    assert(units.deep_view() =~= Seq::new(n as nat, |i: int| draft_unit(paras@[i].deep_view())));
    assert(slots_view(slots@) =~= Seq::new(
        n as nat,
        |i: int| unit_slots(paras@, n as int, cut, i),
    ));
    (units, slots)
}

/// The slots of paragraphs, each once and in their order. The slot 0 is only a mark.
pub open spec fn slots_in_order(seen: Seq<usize>, of: Seq<usize>) -> Seq<usize>
    decreases of.len(),
{
    if of.len() == 0 {
        seen
    } else {
        let before = slots_in_order(seen, of.drop_last());
        if of.last() == 0 || before.contains(of.last()) {
            before
        } else {
            before.push(of.last())
        }
    }
}

/// The slots of the first `n` paragraphs.
pub open spec fn all_slots(paras: Seq<ParaSlotUnit>, n: int) -> Seq<usize>
    decreases n,
{
    if n <= 0 {
        Seq::empty()
    } else {
        slots_in_order(all_slots(paras, n - 1), paras[n - 1].slot_ids@)
    }
}

fn is_seen(seen: &Vec<usize>, id: usize) -> (r: bool)
    ensures
        r == seen@.contains(id),
{
    let mut i: usize = 0;
    while i < seen.len()
        invariant
            i <= seen@.len(),
            forall|k: int| 0 <= k < i ==> #[trigger] seen@[k] != id,
        decreases seen@.len() - i,
    {
        if seen[i] == id {
            return true;
        }
        i = i + 1;
    }
    false
}

fn add_slots(seen: &mut Vec<usize>, of: &Vec<usize>)
    ensures
        final(seen)@ == slots_in_order(old(seen)@, of@),
{
    let mut i: usize = 0;
    assert(of@.take(0) =~= Seq::<usize>::empty());
    while i < of.len()
        invariant
            i <= of@.len(),
            seen@ == slots_in_order(old(seen)@, of@.take(i as int)),
        decreases of@.len() - i,
    {
        assert(of@.take(i + 1).drop_last() =~= of@.take(i as int));
        let id: usize = of[i];
        if id != 0 && !is_seen(seen, id) {
            seen.push(id);
        }
        i = i + 1;
    }
    assert(of@.take(i as int) =~= of@);
}

/// The slots of the paragraphs that are translated, each once and in their order.
pub fn ordered_slot_ids(paras: &Vec<ParaSlotUnit>, max_tus: Option<usize>) -> (r: Vec<usize>)
    ensures
        r@ == all_slots(paras@, kept_units(max_tus, paras@.len()) as int),
{
    let n: usize = keep_count(max_tus, paras.len());
    let mut out: Vec<usize> = Vec::new();
    let mut i: usize = 0;
    assert(out@ =~= Seq::<usize>::empty());
    while i < n
        invariant
            i <= n <= paras@.len(),
            out@ == all_slots(paras@, i as int),
        decreases n - i,
    {
        add_slots(&mut out, &paras[i].slot_ids);
        i = i + 1;
    }
    out
}

/// The unit of a slot.
pub open spec fn slot_unit(id: usize, text: Seq<char>) -> UnitV {
    new_unit(id as nat, Seq::empty(), "slot#"@ + dec(id as nat), None, text)
}

/// Where the text of a slot stands.
pub open spec fn slot_place(id: usize) -> int {
    if id == 0 {
        0
    } else {
        id - 1
    }
}

/// The units of slots, or the first slot that has no text.
pub fn slot_units(slot_ids: &Vec<usize>, slot_texts: &Vec<String>) -> (r: Result<
    Vec<TranslationUnit>,
    usize,
>)
    ensures
        match r {
            Ok(units) => (forall|k: int|
                0 <= k < slot_ids@.len() ==> slot_place(#[trigger] slot_ids@[k]) < slot_texts@.len())
                && units.deep_view() == Seq::new(
                slot_ids@.len(),
                |k: int|
                    slot_unit(slot_ids@[k], slot_texts@[slot_place(slot_ids@[k])]@),
            ),
            Err(id) => exists|k: int|
                0 <= k < slot_ids@.len() && #[trigger] slot_ids@[k] == id && slot_place(id)
                    >= slot_texts@.len() && forall|j: int|
                    0 <= j < k ==> slot_place(#[trigger] slot_ids@[j]) < slot_texts@.len(),
        },
{
    let mut units: Vec<TranslationUnit> = Vec::new();
    let mut i: usize = 0;
    while i < slot_ids.len()
        invariant
            i <= slot_ids@.len(),
            units@.len() == i,
            forall|k: int|
                0 <= k < i ==> slot_place(#[trigger] slot_ids@[k]) < slot_texts@.len(),
            forall|k: int|
                0 <= k < i ==> (#[trigger] units@[k]).deep_view() == slot_unit(
                    slot_ids@[k],
                    slot_texts@[slot_place(slot_ids@[k])]@,
                ),
        decreases slot_ids@.len() - i,
    {
        let id: usize = slot_ids[i];
        let place: usize = if id == 0 {
            0
        } else {
            id - 1
        };
        if place >= slot_texts.len() {
            return Err(id);
        }
        let number: String = dec_usize(id);
        let mut key: String = owned("slot#");
        append(&mut key, number.as_str());
        let none: String = String::new();
        assert(none@ =~= Seq::<char>::empty());
        units.push(make_unit(id, none, key, None, slot_texts[place].clone()));
        i = i + 1;
    }
    assert(units.deep_view() =~= Seq::new(
        slot_ids@.len(),
        |k: int| slot_unit(slot_ids@[k], slot_texts@[slot_place(slot_ids@[k])]@),
    ));
    Ok(units)
}

/// The unit of a paragraph.
pub open spec fn paragraph_unit_of(p: ParaV) -> UnitV {
    new_unit(p.para_id, p.part_name, p.scope_key, p.p_style, p.text)
}

/// The place of the last paragraph with a number.
pub open spec fn last_place(paras: Seq<PureParagraph>, id: usize) -> int
    decreases paras.len(),
{
    if paras.len() == 0 {
        0
    } else if paras.last().para_id == id {
        paras.len() - 1
    } else {
        last_place(paras.drop_last(), id)
    }
}

fn find_place(paras: &Vec<PureParagraph>, id: usize) -> (r: usize)
    ensures
        r == last_place(paras@, id),
        paras@.len() > 0 ==> r < paras@.len(),
{
    let mut i: usize = paras.len();
    assert(paras@.take(i as int) =~= paras@);
    while i > 0
        invariant
            i <= paras@.len(),
            last_place(paras@.take(i as int), id) == last_place(paras@, id),
        decreases i,
    {
        assert(paras@.take(i as int).last() == paras@[i - 1]);
        assert(paras@.take(i as int).drop_last() =~= paras@.take(i - 1));
        if paras[i - 1].para_id == id {
            return i - 1;
        }
        i = i - 1;
    }
    0
}

/// The units of paragraphs, and where the text of each goes.
pub fn paragraph_units(paras: &Vec<PureParagraph>, max_tus: Option<usize>) -> (r: (
    Vec<TranslationUnit>,
    Vec<usize>,
))
    ensures
        ({
            let n = kept_units(max_tus, paras@.len());
            &&& r.0.deep_view() == Seq::new(
                n,
                |i: int| paragraph_unit_of(paras@[i].deep_view()),
            )
            &&& r.1@.len() == n
            &&& forall|i: int|
                0 <= i < n ==> #[trigger] r.1@[i] == last_place(paras@, paras@[i].para_id) && r.1@[i]
                    < paras@.len()
        }),
{
    let n: usize = keep_count(max_tus, paras.len());
    let mut units: Vec<TranslationUnit> = Vec::new();
    let mut places: Vec<usize> = Vec::new();
    let mut i: usize = 0;
    while i < n
        invariant
            i <= n <= paras@.len(),
            units@.len() == i,
            places@.len() == i,
            forall|k: int|
                0 <= k < i ==> (#[trigger] units@[k]).deep_view() == paragraph_unit_of(
                    paras@[k].deep_view(),
                ),
            forall|k: int|
                0 <= k < i ==> #[trigger] places@[k] == last_place(paras@, paras@[k].para_id)
                    && places@[k] < paras@.len(),
        decreases n - i,
    {
        let p: &PureParagraph = &paras[i];
        units.push(
            make_unit(
                p.para_id,
                p.part_name.clone(),
                p.scope_key.clone(),
                clone_opt(&p.p_style),
                p.text.clone(),
            ),
        );
        places.push(find_place(paras, p.para_id));
        i = i + 1;
    }
    assert(units.deep_view() =~= Seq::new(
        n as nat,
        |i: int| paragraph_unit_of(paras@[i].deep_view()),
    ));
    (units, places)
}

/// The texts by which languages are told: of the first 64 those that are not blank, and of these the
/// first 20.
pub open spec fn excerpts_of(texts: Seq<Seq<char>>) -> Seq<Seq<char>>
    decreases texts.len(),
{
    if texts.len() == 0 {
        Seq::empty()
    } else {
        let before = excerpts_of(texts.drop_last());
        if texts.len() > 64 || before.len() >= 20 || is_blank(texts.last()) {
            before
        } else {
            before.push(texts.last())
        }
    }
}

/// The source and the target language: each the one that is set, or else the one that the texts show.
pub open spec fn lang_pair(
    source: Option<Seq<char>>,
    target: Option<Seq<char>>,
    texts: Seq<Seq<char>>,
) -> (Seq<char>, Seq<char>) {
    let shown = language_pair(cjk_total(excerpts_of(texts)), latin_total(excerpts_of(texts)));
    match (source, target) {
        (Some(s), Some(t)) => (s, t),
        (Some(s), None) => (s, shown.1),
        (None, Some(t)) => (shown.0, t),
        (None, None) => shown,
    }
}

/// The source and the target language.
pub fn resolve_lang_pair(source: &Option<String>, target: &Option<String>, texts: &Vec<&str>) -> (r: (
    String,
    String,
))
    ensures
        r.deep_view() == lang_pair(source.deep_view(), target.deep_view(), texts.deep_view()),
{
    match (source, target) {
        (Some(s), Some(t)) => (s.clone(), t.clone()),
        (Some(s), None) => {
            let shown: (String, String) = shown_pair(texts);
            (s.clone(), shown.1)
        },
        (None, Some(t)) => {
            let shown: (String, String) = shown_pair(texts);
            (shown.0, t.clone())
        },
        (None, None) => shown_pair(texts),
    }
}

fn shown_pair(texts: &Vec<&str>) -> (r: (String, String))
    ensures
        r.deep_view() == lang_pair(None, None, texts.deep_view()),
{
    let ghost model = texts.deep_view();
    let mut excerpts: Vec<String> = Vec::new();
    let mut i: usize = 0;
    assert(model.take(0) =~= Seq::<Seq<char>>::empty());
    assert(excerpts.deep_view() =~= Seq::<Seq<char>>::empty());
    while i < texts.len()
        invariant
            i <= texts@.len(),
            model == texts.deep_view(),
            excerpts.deep_view() == excerpts_of(model.take(i as int)),
        decreases texts@.len() - i,
    {
        assert(model[i as int] == texts@[i as int]@);
        assert(model.take(i + 1).drop_last() =~= model.take(i as int));
        if i < 64 && excerpts.len() < 20 && !blank(texts[i]) {
            push_deep(&mut excerpts, owned(texts[i]));
        }
        i = i + 1;
    }
    assert(model.take(i as int) =~= model);
    auto_language_pair(&excerpts)
}

/// The text that stands for a unit at the end: the final one, or the draft, or the source.
pub open spec fn final_or_draft(u: UnitV) -> Seq<char> {
    match u.final_translation {
        Some(t) => t,
        None => crate::pipeline::job::draft_or_source(u),
    }
}

/// The text that stands for a unit at the end.
pub fn final_text(u: &TranslationUnit) -> (r: &str)
    ensures
        r@ == final_or_draft(u.deep_view()),
{
    match &u.final_translation {
        Some(t) => t.as_str(),
        None => match &u.draft_translation {
            Some(t) => t.as_str(),
            None => u.frozen_surface.as_str(),
        },
    }
}

/// The slot texts after the texts of the first `n` units were put into their slots, up to the first
/// that does not fit.
pub open spec fn finals_applied(
    texts: Seq<Seq<char>>,
    units: Seq<UnitV>,
    slots: Seq<Seq<usize>>,
    preview: nat,
    n: int,
) -> (Seq<Seq<char>>, Option<(int, SlotErrorV)>)
    decreases n,
{
    if n <= 0 {
        (texts, None)
    } else {
        let (before, fault) = finals_applied(texts, units, slots, preview, n - 1);
        if fault is Some {
            (before, fault)
        } else {
            let u = units[n - 1];
            let (after, ok) = slots_applied(
                before,
                slots[n - 1],
                u.nt_map,
                final_or_draft(u),
                preview,
            );
            (
                after,
                match ok {
                    Ok(_) => None,
                    Err(e) => Some((n - 1, e)),
                },
            )
        }
    }
}

proof fn lemma_finals_fault(
    texts: Seq<Seq<char>>,
    units: Seq<UnitV>,
    slots: Seq<Seq<usize>>,
    preview: nat,
    k: int,
    n: int,
)
    requires
        k <= n,
        finals_applied(texts, units, slots, preview, k).1 is Some,
    ensures
        finals_applied(texts, units, slots, preview, n) == finals_applied(
            texts,
            units,
            slots,
            preview,
            k,
        ),
    decreases n - k,
{
    if k < n {
        lemma_finals_fault(texts, units, slots, preview, k, n - 1);
    }
}

/// Puts the texts of units into their slots.
pub fn apply_finals(
    texts: &mut Vec<String>,
    units: &Vec<TranslationUnit>,
    slots: &Vec<Vec<usize>>,
    preview: usize,
) -> (r: Result<(), StageError>)
    requires
        slots@.len() == units@.len(),
    ensures
        ({
            let (after, fault) = finals_applied(
                old(texts).deep_view(),
                units.deep_view(),
                slots_view(slots@),
                preview as nat,
                units@.len() as int,
            );
            &&& final(texts).deep_view() == after
            &&& match r {
                Ok(_) => fault is None,
                Err(e) => exists|k: int|
                    0 <= k < units@.len() && fault == Some((k, e.error.deep_view())) && e.tu_id == (
                    #[trigger] units@[k]).tu_id,
            }
        }),
        final(texts)@.len() == old(texts)@.len(),
{
    let ghost us = units.deep_view();
    let ghost ss = slots_view(slots@);
    let ghost start = texts.deep_view();
    let mut i: usize = 0;
    while i < units.len()
        invariant
            i <= units@.len() == slots@.len(),
            us == units.deep_view(),
            ss == slots_view(slots@),
            start == old(texts).deep_view(),
            texts@.len() == old(texts)@.len(),
            finals_applied(start, us, ss, preview as nat, i as int) == (
                texts.deep_view(),
                None::<(int, SlotErrorV)>,
            ),
        decreases units@.len() - i,
    {
        assert(us[i as int] == units@[i as int].deep_view());
        assert(ss[i as int] == slots@[i as int]@);
        match apply_slot_translation(
            texts,
            &slots[i],
            &units[i].nt_map,
            final_text(&units[i]),
            preview,
        ) {
            Ok(_) => {},
            Err(error) => {
                proof {
                    lemma_finals_fault(start, us, ss, preview as nat, i + 1, us.len() as int);
                    assert(units@[i as int].tu_id == units@[i as int].tu_id);
                }
                return Err(StageError { tu_id: units[i].tu_id, error });
            },
        }
        i = i + 1;
    }
    Ok(())
}

/// The units with their drafts as the final texts, where there is none.
pub open spec fn drafts_kept(units: Seq<UnitV>) -> Seq<UnitV> {
    units.map_values(
        |u: UnitV|
            if u.final_translation is None {
                UnitV { final_translation: u.draft_translation, ..u }
            } else {
                u
            },
    )
}

/// Makes the drafts of units their final texts, where there is none.
pub fn finals_from_drafts(units: &mut Vec<TranslationUnit>)
    ensures
        final(units).deep_view() == drafts_kept(old(units).deep_view()),
{
    let ghost model = units.deep_view();
    let n: usize = units.len();
    let mut i: usize = 0;
    while i < n
        invariant
            i <= n == units@.len() == model.len(),
            forall|k: int|
                0 <= k < i ==> (#[trigger] units@[k]).deep_view() == (
                if model[k].final_translation is None {
                    UnitV { final_translation: model[k].draft_translation, ..model[k] }
                } else {
                    model[k]
                }),
            forall|k: int| i <= k < n ==> (#[trigger] units@[k]).deep_view() == model[k],
        decreases n - i,
    {
        let ghost u = units@[i as int].deep_view();
        if units[i].final_translation.is_none() {
            let t: Option<String> = clone_opt(&units[i].draft_translation);
            units[i].final_translation = t;
            assert(units@[i as int].deep_view() =~= (UnitV {
                final_translation: u.draft_translation,
                ..u
            }));
        }
        i = i + 1;
    }
    assert(units.deep_view() =~= drafts_kept(model));
}

/// The name of the document that is saved along the way: the stem with a suffix that ends in
/// `.docx`.
pub open spec fn autosave_name(stem: Seq<char>, suffix: Seq<char>) -> Seq<char> {
    if ends(ascii_lower(suffix), ".docx"@) {
        stem + suffix
    } else {
        stem + suffix + ".docx"@
    }
}

/// The name of the document that is saved along the way.
pub fn autosave_file_name(stem: &str, suffix: &str) -> (r: String)
    ensures
        r@ == autosave_name(stem@, suffix@),
{
    let mut s: String = owned(stem);
    append(&mut s, suffix);
    let lower: String = lower_ascii(suffix);
    if !ends_with(lower.as_str(), ".docx") {
        append(&mut s, ".docx");
    }
    s
}

/// The name of the document of one of the drafts.
pub fn variant_file_name(stem: &str, variant: &str) -> (r: Option<String>)
    ensures
        r.deep_view() == (if variant@ == "A"@ {
            Some(stem@ + "_A.docx"@)
        } else if variant@ == "B"@ {
            Some(stem@ + "_B.docx"@)
        } else {
            None
        }),
{
    let mut s: String = owned(stem);
    if crate::chars::str_eq(variant, "A") {
        append(&mut s, "_A.docx");
        Some(s)
    } else if crate::chars::str_eq(variant, "B") {
        append(&mut s, "_B.docx");
        Some(s)
    } else {
        None
    }
}

/// No more units are kept than are asked for, but at least one, and all where nothing is asked.
pub proof fn law_kept_units(max: Option<usize>, n: nat)
    ensures
        max is None ==> kept_units(max, n) == n,
        max matches Some(m) ==> kept_units(max, n) <= n && (m > 0 ==> kept_units(max, n) <= m) && (
        m >= n ==> kept_units(max, n) == n) && (0 < m <= n ==> kept_units(max, n) == m) && (n > 0
            ==> kept_units(max, n) > 0),
{
}

proof fn lemma_in_order(seen: Seq<usize>, of: Seq<usize>)
    requires
        seen.no_duplicates(),
        !seen.contains(0),
    ensures
        ({
            let r = slots_in_order(seen, of);
            &&& r.no_duplicates()
            &&& !r.contains(0)
            &&& forall|id: usize| #[trigger]
                r.contains(id) <==> seen.contains(id) || (id != 0 && of.contains(id))
        }),
    decreases of.len(),
{
    if of.len() > 0 {
        let front = of.drop_last();
        let z = of.last();
        lemma_in_order(seen, front);
        let before = slots_in_order(seen, front);
        let r = slots_in_order(seen, of);
        assert forall|id: usize| #[trigger] r.contains(id) <==> seen.contains(id) || (id != 0
            && of.contains(id)) by {
            assert(of[of.len() - 1] == z);
            if of.contains(id) && id != z {
                let k = of.index_of(id);
                assert(front[k] == id);
            }
            if front.contains(id) {
                let k = front.index_of(id);
                assert(of[k] == id);
            }
            if before.contains(id) {
                let k = before.index_of(id);
                assert(r[k] == id);
            }
            if r.contains(id) {
                let k = r.index_of(id);
                if k < before.len() {
                    assert(before[k] == id);
                }
            }
            if z != 0 && !before.contains(z) {
                assert(r[before.len() as int] == z);
            }
        }
    }
}

/// The slots that are worked on are all those of the first paragraphs, each once.
pub proof fn law_all_slots(paras: Seq<ParaSlotUnit>, n: int)
    requires
        0 <= n <= paras.len(),
    ensures
        all_slots(paras, n).no_duplicates(),
        !all_slots(paras, n).contains(0),
        forall|id: usize| #[trigger]
            all_slots(paras, n).contains(id) <==> id != 0 && exists|i: int|
                0 <= i < n && (#[trigger] paras[i]).slot_ids@.contains(id),
    decreases n,
{
    if n > 0 {
        law_all_slots(paras, n - 1);
        lemma_in_order(all_slots(paras, n - 1), paras[n - 1].slot_ids@);
        assert forall|id: usize| #[trigger] all_slots(paras, n).contains(id) <==> id != 0
            && exists|i: int| 0 <= i < n && (#[trigger] paras[i]).slot_ids@.contains(id) by {
            if all_slots(paras, n - 1).contains(id) {
                let i = choose|i: int|
                    0 <= i < n - 1 && (#[trigger] paras[i]).slot_ids@.contains(id);
                assert(paras[i].slot_ids@.contains(id));
            }
            if id != 0 && exists|i: int|
                0 <= i < n && (#[trigger] paras[i]).slot_ids@.contains(id) {
                let i = choose|i: int| 0 <= i < n && (#[trigger] paras[i]).slot_ids@.contains(id);
                if i < n - 1 {
                    assert(paras[i].slot_ids@.contains(id));
                    assert(all_slots(paras, n - 1).contains(id));
                }
            }
        }
    } else {
        assert(all_slots(paras, n) =~= Seq::<usize>::empty());
    }
}

/// The language is told from the first 20 texts that are not blank among the first 64.
pub proof fn law_excerpts(texts: Seq<Seq<char>>)
    ensures
        excerpts_of(texts) == ({
            let some = if texts.len() > 64 {
                texts.take(64)
            } else {
                texts
            };
            let said = some.filter(|t: Seq<char>| !is_blank(t));
            if said.len() > 20 {
                said.take(20)
            } else {
                said
            }
        }),
    decreases texts.len(),
{
    let p = |t: Seq<char>| !is_blank(t);
    if texts.len() > 64 {
        law_excerpts(texts.drop_last());
        if texts.len() - 1 > 64 {
            assert(texts.drop_last().take(64) =~= texts.take(64));
        } else {
            assert(texts.drop_last() =~= texts.take(64));
        }
    } else if texts.len() > 0 {
        law_excerpts(texts.drop_last());
        reveal(Seq::filter);
        let before = texts.drop_last().filter(p);
        let now = texts.filter(p);
        if before.len() >= 20 {
            assert(now.take(20) =~= before.take(20));
            assert(before.take(20).len() == 20);
        }
        if before.len() == 20 {
            assert(before.take(20) =~= before);
        }
        if now.len() > 20 {
            assert(now.take(20) =~= before.take(20));
        }
    } else {
        reveal(Seq::filter);
    }
}

/// A language that is named stands, and one that is not is told from the texts.
pub proof fn law_named_languages_stand(
    source: Option<Seq<char>>,
    target: Option<Seq<char>>,
    texts: Seq<Seq<char>>,
)
    ensures
        source matches Some(s) ==> lang_pair(source, target, texts).0 == s,
        target matches Some(t) ==> lang_pair(source, target, texts).1 == t,
        source is None ==> lang_pair(source, target, texts).0 == language_pair(
            cjk_total(excerpts_of(texts)),
            latin_total(excerpts_of(texts)),
        ).0,
        target is None ==> lang_pair(source, target, texts).1 == language_pair(
            cjk_total(excerpts_of(texts)),
            latin_total(excerpts_of(texts)),
        ).1,
{
}

/// The text of a unit is its final translation, where it has none its draft, and else its source. A
/// unit that has no final translation at the end gets its draft for one, and others keep theirs.
pub proof fn law_final_goes_first(units: Seq<UnitV>, i: int)
    requires
        0 <= i < units.len(),
    ensures
        units[i].final_translation matches Some(t) ==> final_or_draft(units[i]) == t && drafts_kept(
            units,
        )[i] == units[i],
        units[i].final_translation is None ==> drafts_kept(units)[i].final_translation
            == units[i].draft_translation && (units[i].draft_translation matches Some(t)
            ==> final_or_draft(units[i]) == t) && (units[i].draft_translation is None
            ==> final_or_draft(units[i]) == units[i].frozen_surface),
        drafts_kept(units).len() == units.len(),
        drafts_kept(units)[i].draft_translation == units[i].draft_translation,
{
}

/// The slots of a number are those of the last paragraph of that number, and none where there is no
/// such paragraph.
pub proof fn law_slots_of_a_number(paras: Seq<ParaSlotUnit>, k: int, id: usize)
    ensures
        0 <= k < paras.len() && paras[k].tu_id == id && (forall|j: int|
            k < j < paras.len() ==> (#[trigger] paras[j]).tu_id != id) ==> slots_of_id(paras, id)
            == paras[k].slot_ids@,
        (forall|j: int| 0 <= j < paras.len() ==> (#[trigger] paras[j]).tu_id != id) ==> slots_of_id(
            paras,
            id,
        ).len() == 0,
    decreases paras.len(),
{
    if paras.len() > 0 {
        let front = paras.drop_last();
        law_slots_of_a_number(front, k, id);
        assert(forall|j: int| 0 <= j < front.len() ==> #[trigger] front[j] == paras[j]);
        assert(paras[paras.len() - 1] == paras.last());
    }
}

} // verus!
