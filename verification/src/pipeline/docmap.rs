//! The paragraphs of a document with the slots that they hold.

use crate::chars::{append, opt_nat, str_eq};
use crate::docx::decompose::{mask_run, OffsetsJson, SlotKind, SlotV, TextSlot};
use crate::docx::error::{DocxError, DocxErrorV};
use crate::docx::package::{package_of, xml_only, DocxEntry, DocxPackage, EntryV};
use crate::docx::pure_text::{ParaV, PureParagraph, PureTextJson};
use crate::docx::xml::{parse_xml_part, parsed, EventV, XmlEvent, XmlPart};
use crate::sentinels::{slot_token, slot_token_of};
use crate::vecs::{clone_opt, pop_deep, popped, push_deep};
use std::collections::HashMap;
use vstd::prelude::*;

verus! {

broadcast use vstd::std_specs::hash::group_hash_axioms;

/// A paragraph with the slots it holds, and their texts between slot marks.
#[derive(Clone, Debug)]
pub struct ParaSlotUnit {
    pub tu_id: usize,
    pub part_name: String,
    pub scope_key: String,
    pub para_style: Option<String>,
    pub slot_ids: Vec<usize>,
    pub source_surface: String,
}

/// The model of a [`ParaSlotUnit`].
#[verifier::ext_equal]
pub struct SlotUnitV {
    pub tu_id: nat,
    pub part_name: Seq<char>,
    pub scope_key: Seq<char>,
    pub para_style: Option<Seq<char>>,
    pub slot_ids: Seq<nat>,
    pub source_surface: Seq<char>,
}

/// Numbers as naturals.
pub open spec fn ids(v: Seq<usize>) -> Seq<nat> {
    v.map_values(|i: usize| i as nat)
}

impl DeepView for ParaSlotUnit {
    type V = SlotUnitV;

    open spec fn deep_view(&self) -> SlotUnitV {
        SlotUnitV {
            tu_id: self.tu_id as nat,
            part_name: self.part_name@,
            scope_key: self.scope_key@,
            para_style: self.para_style.deep_view(),
            slot_ids: ids(self.slot_ids@),
            source_surface: self.source_surface@,
        }
    }
}

/// The place of the last paragraph that starts at an event of a part.
pub open spec fn para_at(paras: Seq<ParaV>, part: Seq<char>, event: nat) -> Option<nat>
    decreases paras.len(),
{
    if paras.len() == 0 {
        None
    } else if paras.last().part_name == part && paras.last().xml_event_index == event {
        Some((paras.len() - 1) as nat)
    } else {
        para_at(paras.drop_last(), part, event)
    }
}

/// The number of the last slot of a kind at an event of a part.
pub open spec fn slot_at(slots: Seq<SlotV>, part: Seq<char>, event: nat, kind: SlotKind) -> Option<
    nat,
>
    decreases slots.len(),
{
    if slots.len() == 0 {
        None
    } else if slots.last().part_name == part && slots.last().event_index == event
        && slots.last().kind == kind {
        Some(slots.last().id)
    } else {
        slot_at(slots.drop_last(), part, event, kind)
    }
}

/// The units while slots are added to them: the open tags, the paragraph that is open, and how many
/// paragraphs are open inside it.
#[verifier::ext_equal]
pub struct MapV {
    pub units: Seq<SlotUnitV>,
    pub stack: Seq<Seq<char>>,
    pub para: Option<nat>,
    pub nested: nat,
}

/// Units with a slot and its text added to the one at `i`.
pub open spec fn slot_added(units: Seq<SlotUnitV>, i: nat, id: nat, text: Seq<char>) -> Seq<
    SlotUnitV,
> {
    let u = units[i as int];
    units.update(
        i as int,
        SlotUnitV {
            slot_ids: u.slot_ids.push(id),
            source_surface: u.source_surface + slot_token_of(id) + text,
            ..u
        },
    )
}

/// Where the text of a slot stands in the list of slot texts.
pub open spec fn text_place(id: nat) -> nat {
    if id == 0 {
        0
    } else {
        (id - 1) as nat
    }
}

/// Whether the innermost open tags are those of a text that a paragraph shows: one of its own runs,
/// or of a run of one of its own links.
pub open spec fn shown_in_paragraph(stack: Seq<Seq<char>>) -> bool {
    let n = stack.len() as int;
    &&& n >= 3
    &&& stack[n - 1] == "w:t"@
    &&& stack[n - 2] == "w:r"@
    &&& stack[n - 3] == "w:p"@ || (n >= 4 && stack[n - 3] == "w:hyperlink"@ && stack[n - 4]
        == "w:p"@)
}

fn is_shown_in_paragraph(stack: &Vec<String>) -> (r: bool)
    ensures
        r == shown_in_paragraph(stack.deep_view()),
{
    let n: usize = stack.len();
    assert(stack.deep_view().len() == n);
    if n < 3 {
        return false;
    }
    assert(stack.deep_view()[n - 1] == stack@[n - 1]@);
    assert(stack.deep_view()[n - 2] == stack@[n - 2]@);
    assert(stack.deep_view()[n - 3] == stack@[n - 3]@);
    if !str_eq(stack[n - 1].as_str(), "w:t") || !str_eq(stack[n - 2].as_str(), "w:r") {
        return false;
    }
    if str_eq(stack[n - 3].as_str(), "w:p") {
        return true;
    }
    if n < 4 {
        return false;
    }
    assert(stack.deep_view()[n - 4] == stack@[n - 4]@);
    str_eq(stack[n - 3].as_str(), "w:hyperlink") && str_eq(stack[n - 4].as_str(), "w:p")
}

/// What a text at an event does: where the open paragraph itself shows it, and a slot is on record
/// for it, the slot is added to the paragraph.
pub open spec fn text_mapped(texts: Seq<Seq<char>>, st: MapV, slot: Option<nat>) -> Result<
    MapV,
    DocxErrorV,
> {
    match (st.para, slot) {
        (Some(i), Some(id)) => if st.nested > 0 || !shown_in_paragraph(st.stack) {
            Ok(st)
        } else if text_place(id) >= texts.len() {
            Err(DocxErrorV::MissingSlotText { id })
        } else {
            Ok(MapV { units: slot_added(st.units, i, id, texts[text_place(id) as int]), ..st })
        },
        _ => Ok(st),
    }
}

/// What the event at `idx` of a part does to the units.
pub open spec fn map_step(
    paras: Seq<ParaV>,
    texts: Seq<Seq<char>>,
    slots: Seq<SlotV>,
    part: Seq<char>,
    st: MapV,
    idx: nat,
    ev: EventV,
) -> Result<MapV, DocxErrorV> {
    match ev {
        EventV::Start { name, .. } => {
            let opened = if name != "w:p"@ {
                st
            } else if st.para is Some {
                MapV { nested: st.nested + 1, ..st }
            } else {
                MapV { para: para_at(paras, part, idx), nested: 0, ..st }
            };
            Ok(MapV { stack: st.stack.push(name), ..opened })
        },
        EventV::End { name } => {
            let closed = if name != "w:p"@ {
                st
            } else if st.nested > 0 {
                MapV { nested: (st.nested - 1) as nat, ..st }
            } else {
                MapV { para: None, ..st }
            };
            Ok(MapV { stack: popped(st.stack), ..closed })
        },
        EventV::Text { .. } => text_mapped(texts, st, slot_at(slots, part, idx, SlotKind::Text)),
        EventV::CData { .. } => text_mapped(texts, st, slot_at(slots, part, idx, SlotKind::CData)),
        _ => Ok(st),
    }
}

/// What the events of a part from `idx` on do to the units.
pub open spec fn map_events(
    paras: Seq<ParaV>,
    texts: Seq<Seq<char>>,
    slots: Seq<SlotV>,
    part: Seq<char>,
    st: MapV,
    idx: nat,
    events: Seq<EventV>,
) -> Result<Seq<SlotUnitV>, DocxErrorV>
    decreases events.len(),
{
    if events.len() == 0 {
        Ok(st.units)
    } else {
        match map_step(paras, texts, slots, part, st, idx, events[0]) {
            Ok(next) => map_events(paras, texts, slots, part, next, idx + 1, events.drop_first()),
            Err(e) => Err(e),
        }
    }
}

/// What the XML entries do to the units.
pub open spec fn map_entries(
    paras: Seq<ParaV>,
    texts: Seq<Seq<char>>,
    slots: Seq<SlotV>,
    units: Seq<SlotUnitV>,
    entries: Seq<EntryV>,
) -> Result<Seq<SlotUnitV>, DocxErrorV>
    decreases entries.len(),
{
    if entries.len() == 0 {
        Ok(units)
    } else {
        let e = entries[0];
        let mapped = if e.data.len() == 0 {
            Ok(units)
        } else {
            match parsed(e.data) {
                Ok(events) => map_events(
                    paras,
                    texts,
                    slots,
                    e.name,
                    MapV { units, stack: Seq::empty(), para: None, nested: 0 },
                    0,
                    events,
                ),
                Err(error) => Err(DocxErrorV::Xml { part: e.name, error }),
            }
        };
        match mapped {
            Ok(next) => map_entries(paras, texts, slots, next, entries.drop_first()),
            Err(e) => Err(e),
        }
    }
}

/// The unit of a paragraph, without any slot.
pub open spec fn bare_unit(p: ParaV) -> SlotUnitV {
    SlotUnitV {
        tu_id: p.para_id,
        part_name: p.part_name,
        scope_key: p.scope_key,
        para_style: p.p_style,
        slot_ids: Seq::empty(),
        source_surface: Seq::empty(),
    }
}

/// A unit with the closing slot mark, where it has slots.
pub open spec fn unit_closed(u: SlotUnitV) -> SlotUnitV {
    if u.slot_ids.len() == 0 {
        u
    } else {
        SlotUnitV { source_surface: u.source_surface + slot_token_of(0), ..u }
    }
}

/// The units of a document's paragraphs.
pub open spec fn slot_units_of(
    docx: Seq<u8>,
    paras: Seq<ParaV>,
    texts: Seq<Seq<char>>,
    slots: Seq<SlotV>,
) -> Result<Seq<SlotUnitV>, DocxErrorV> {
    match package_of(docx) {
        Err(e) => Err(e),
        Ok(entries) => match map_entries(
            paras,
            texts,
            slots,
            paras.map_values(|p: ParaV| bare_unit(p)),
            xml_only(entries),
        ) {
            Err(e) => Err(e),
            Ok(units) => Ok(units.map_values(|u: SlotUnitV| unit_closed(u))),
        },
    }
}

/// What a map holds at a key.
pub open spec fn held(m: Map<usize, usize>, k: usize) -> Option<nat> {
    if m.dom().contains(k) {
        Some(m[k] as nat)
    } else {
        None
    }
}

fn para_index(paras: &Vec<PureParagraph>, part: &str) -> (m: HashMap<usize, usize>)
    ensures
        forall|k: usize| #[trigger]
            held(m@, k) == para_at(paras.deep_view(), part@, k as nat),
        forall|k: usize| #[trigger] m@.dom().contains(k) ==> m@[k] < paras@.len(),
{
    let ghost model = paras.deep_view();
    let mut m: HashMap<usize, usize> = HashMap::new();
    let mut i: usize = 0;
    assert(model.take(0) =~= Seq::<ParaV>::empty());
    while i < paras.len()
        invariant
            i <= paras@.len(),
            model == paras.deep_view(),
            forall|k: usize| #[trigger]
                held(m@, k) == para_at(model.take(i as int), part@, k as nat),
            forall|k: usize| #[trigger] m@.dom().contains(k) ==> m@[k] < paras@.len(),
        decreases paras@.len() - i,
    {
        assert(model[i as int] == paras@[i as int].deep_view());
        assert(model.take(i + 1).drop_last() =~= model.take(i as int));
        let ghost before = m@;
        if str_eq(paras[i].part_name.as_str(), part) {
            m.insert(paras[i].xml_event_index, i);
        }
        proof {
            assert forall|k: usize| #[trigger] held(m@, k) == para_at(
                model.take(i + 1),
                part@,
                k as nat,
            ) by {
                assert(held(before, k) == para_at(model.take(i as int), part@, k as nat));
            }
        }
        i = i + 1;
    }
    assert(model.take(i as int) =~= model);
    m
}

fn slot_index(slots: &Vec<TextSlot>, part: &str, kind: SlotKind) -> (m: HashMap<usize, usize>)
    ensures
        forall|k: usize| #[trigger]
            held(m@, k) == slot_at(slots.deep_view(), part@, k as nat, kind),
{
    let ghost model = slots.deep_view();
    let mut m: HashMap<usize, usize> = HashMap::new();
    let mut i: usize = 0;
    assert(model.take(0) =~= Seq::<SlotV>::empty());
    while i < slots.len()
        invariant
            i <= slots@.len(),
            model == slots.deep_view(),
            forall|k: usize| #[trigger]
                held(m@, k) == slot_at(model.take(i as int), part@, k as nat, kind),
        decreases slots@.len() - i,
    {
        assert(model[i as int] == slots@[i as int].deep_view());
        assert(model.take(i + 1).drop_last() =~= model.take(i as int));
        let ghost before = m@;
        if slots[i].kind == kind && str_eq(slots[i].part_name.as_str(), part) {
            m.insert(slots[i].event_index, slots[i].id);
        }
        proof {
            assert forall|k: usize| #[trigger] held(m@, k) == slot_at(
                model.take(i + 1),
                part@,
                k as nat,
                kind,
            ) by {
                assert(held(before, k) == slot_at(model.take(i as int), part@, k as nat, kind));
            }
        }
        i = i + 1;
    }
    assert(model.take(i as int) =~= model);
    m
}

struct MapState {
    units: Vec<ParaSlotUnit>,
    stack: Vec<String>,
    para: Option<usize>,
    nested: usize,
}

impl DeepView for MapState {
    type V = MapV;

    closed spec fn deep_view(&self) -> MapV {
        MapV {
            units: self.units.deep_view(),
            stack: self.stack.deep_view(),
            para: opt_nat(self.para),
            nested: self.nested as nat,
        }
    }
}

impl MapState {
    spec fn fits(&self) -> bool {
        self.para matches Some(i) ==> i < self.units@.len()
    }

    fn text(&mut self, texts: &Vec<String>, slot: Option<usize>) -> (r: Result<(), DocxError>)
        requires
            old(self).fits(),
        ensures
            match r {
                Ok(_) => text_mapped(texts.deep_view(), old(self).deep_view(), opt_nat(slot)) == Ok::<
                    _,
                    DocxErrorV,
                >(final(self).deep_view()),
                Err(e) => text_mapped(texts.deep_view(), old(self).deep_view(), opt_nat(slot))
                    == Err::<MapV, _>(e.deep_view()),
            },
            final(self).fits(),
            final(self).units@.len() == old(self).units@.len(),
            final(self).nested == old(self).nested,
    {
        let ghost before = self.deep_view();
        match (self.para, slot) {
            (Some(i), Some(id)) => {
                if self.nested > 0 || !is_shown_in_paragraph(&self.stack) {
                    return Ok(());
                }
                let place: usize = if id == 0 {
                    0
                } else {
                    id - 1
                };
                if place >= texts.len() {
                    return Err(DocxError::MissingSlotText { id });
                }
                assert(texts.deep_view()[place as int] == texts@[place as int]@);
                let ghost u = self.units@[i as int];
                assert(before.units[i as int] == u.deep_view());
                let mark: String = slot_token(id);
                self.units[i].slot_ids.push(id);
                append(&mut self.units[i].source_surface, mark.as_str());
                append(&mut self.units[i].source_surface, texts[place].as_str());
                proof {
                    let now = self.units@[i as int];
                    assert(ids(u.slot_ids@.push(id)) =~= ids(u.slot_ids@).push(id as nat));
                    assert(self.units.deep_view() =~= slot_added(
                        before.units,
                        i as nat,
                        id as nat,
                        texts@[place as int]@,
                    ));
                    assert(self.deep_view() =~= text_mapped(
                        texts.deep_view(),
                        before,
                        opt_nat(slot),
                    )->Ok_0);
                }
                Ok(())
            },
            _ => Ok(()),
        }
    }
}

fn look_up(m: &HashMap<usize, usize>, k: usize) -> (r: Option<usize>)
    ensures
        opt_nat(r) == held(m@, k),
        r matches Some(v) ==> m@.dom().contains(k) && v == m@[k],
{
    match m.get(&k) {
        Some(v) => Some(*v),
        None => None,
    }
}

fn map_part(
    units: Vec<ParaSlotUnit>,
    part: &XmlPart,
    paras: &Vec<PureParagraph>,
    texts: &Vec<String>,
    slots: &Vec<TextSlot>,
) -> (r: Result<Vec<ParaSlotUnit>, DocxError>)
    requires
        units@.len() == paras@.len(),
    ensures
        crate::docx::xml::result_view(r) == map_events(
            paras.deep_view(),
            texts.deep_view(),
            slots.deep_view(),
            part.name@,
            MapV { units: units.deep_view(), stack: Seq::empty(), para: None, nested: 0 },
            0,
            part.events.deep_view(),
        ),
        r matches Ok(u) ==> u@.len() == paras@.len(),
{
    let ghost model = part.events.deep_view();
    let ghost (p, t, s) = (paras.deep_view(), texts.deep_view(), slots.deep_view());
    let ghost start = MapV { units: units.deep_view(), stack: Seq::empty(), para: None, nested: 0 };
    let para_of: HashMap<usize, usize> = para_index(paras, part.name.as_str());
    let text_of: HashMap<usize, usize> = slot_index(slots, part.name.as_str(), SlotKind::Text);
    let cdata_of: HashMap<usize, usize> = slot_index(slots, part.name.as_str(), SlotKind::CData);
    let mut st = MapState { units, stack: Vec::new(), para: None, nested: 0 };
    assert(st.deep_view() =~= start);
    let n: usize = part.events.len();
    let mut i: usize = 0;
    assert(model.skip(0) =~= model);
    while i < n
        invariant
            i <= n == part.events@.len(),
            model == part.events.deep_view(),
            p == paras.deep_view(),
            t == texts.deep_view(),
            s == slots.deep_view(),
            forall|k: usize| #[trigger] held(para_of@, k) == para_at(p, part.name@, k as nat),
            forall|k: usize| #[trigger]
                para_of@.dom().contains(k) ==> para_of@[k] < paras@.len(),
            forall|k: usize| #[trigger]
                held(text_of@, k) == slot_at(s, part.name@, k as nat, SlotKind::Text),
            forall|k: usize| #[trigger]
                held(cdata_of@, k) == slot_at(s, part.name@, k as nat, SlotKind::CData),
            st.fits(),
            st.nested <= i,
            st.units@.len() == paras@.len(),
            start == (MapV { units: units.deep_view(), stack: Seq::empty(), para: None, nested: 0 }),
            map_events(p, t, s, part.name@, st.deep_view(), i as nat, model.skip(i as int))
                == map_events(p, t, s, part.name@, start, 0, model),
        decreases n - i,
    {
        let ghost before = st.deep_view();
        assert(model[i as int] == part.events@[i as int].deep_view());
        assert(model.skip(i as int).drop_first() =~= model.skip(i + 1));
        assert(model.skip(i as int)[0] == model[i as int]);
        match &part.events[i] {
            XmlEvent::Start { name, .. } => {
                if str_eq(name.as_str(), "w:p") {
                    if st.para.is_some() {
                        st.nested = st.nested + 1;
                    } else {
                        st.para = look_up(&para_of, i);
                        st.nested = 0;
                    }
                }
                push_deep(&mut st.stack, name.clone());
                assert(st.deep_view() =~= map_step(
                    p,
                    t,
                    s,
                    part.name@,
                    before,
                    i as nat,
                    model[i as int],
                )->Ok_0);
            },
            XmlEvent::End { name } => {
                if str_eq(name.as_str(), "w:p") {
                    if st.nested > 0 {
                        st.nested = st.nested - 1;
                    } else {
                        st.para = None;
                    }
                }
                let _ = pop_deep(&mut st.stack);
                assert(st.deep_view() =~= map_step(
                    p,
                    t,
                    s,
                    part.name@,
                    before,
                    i as nat,
                    model[i as int],
                )->Ok_0);
            },
            XmlEvent::Text { .. } => {
                match st.text(texts, look_up(&text_of, i)) {
                    Ok(_) => {},
                    Err(e) => {
                        return Err(e);
                    },
                }
            },
            XmlEvent::CData { .. } => {
                match st.text(texts, look_up(&cdata_of, i)) {
                    Ok(_) => {},
                    Err(e) => {
                        return Err(e);
                    },
                }
            },
            _ => {},
        }
        i = i + 1;
    }
    assert(model.skip(i as int) =~= Seq::<EventV>::empty());
    Ok(st.units)
}

fn bare_units(paras: &Vec<PureParagraph>) -> (r: Vec<ParaSlotUnit>)
    ensures
        r.deep_view() == paras.deep_view().map_values(|p: ParaV| bare_unit(p)),
        r@.len() == paras@.len(),
{
    let ghost model = paras.deep_view().map_values(|p: ParaV| bare_unit(p));
    let mut out: Vec<ParaSlotUnit> = Vec::new();
    let mut i: usize = 0;
    assert(out.deep_view() =~= model.take(0));
    while i < paras.len()
        invariant
            i <= paras@.len(),
            out@.len() == i,
            model == paras.deep_view().map_values(|p: ParaV| bare_unit(p)),
            out.deep_view() == model.take(i as int),
        decreases paras@.len() - i,
    {
        let p: &PureParagraph = &paras[i];
        let u = ParaSlotUnit {
            tu_id: p.para_id,
            part_name: p.part_name.clone(),
            scope_key: p.scope_key.clone(),
            para_style: clone_opt(&p.p_style),
            slot_ids: Vec::new(),
            source_surface: String::new(),
        };
        assert(paras.deep_view()[i as int] == p.deep_view());
        assert(u.deep_view() =~= model[i as int]);
        push_deep(&mut out, u);
        i = i + 1;
        assert(model.take(i as int) =~= model.take(i - 1).push(model[i - 1]));
    }
    assert(model.take(i as int) =~= model);
    out
}

fn close_units(units: &mut Vec<ParaSlotUnit>)
    ensures
        final(units).deep_view() == old(units).deep_view().map_values(
            |u: SlotUnitV| unit_closed(u),
        ),
{
    let ghost model = units.deep_view();
    let n: usize = units.len();
    let mut i: usize = 0;
    while i < n
        invariant
            i <= n == units@.len() == model.len(),
            forall|k: int| 0 <= k < i ==> (#[trigger] units@[k]).deep_view() == unit_closed(model[k]),
            forall|k: int| i <= k < n ==> (#[trigger] units@[k]).deep_view() == model[k],
        decreases n - i,
    {
        let ghost u = units@[i as int];
        if units[i].slot_ids.len() > 0 {
            let mark: String = slot_token(0);
            append(&mut units[i].source_surface, mark.as_str());
        }
        assert(units@[i as int].deep_view() =~= unit_closed(u.deep_view()));
        i = i + 1;
    }
    assert(units.deep_view() =~= model.map_values(|u: SlotUnitV| unit_closed(u)));
}

/// The units of a document's paragraphs: for each the slots of its own text, with their texts between
/// slot marks.
pub fn build_para_slot_units(docx: &[u8], text: &PureTextJson, offsets: &OffsetsJson) -> (r: Result<
    Vec<ParaSlotUnit>,
    DocxError,
>)
    ensures
        crate::docx::xml::result_view(r) == slot_units_of(
            docx@,
            text.paragraphs.deep_view(),
            text.slot_texts.deep_view(),
            offsets.slots.deep_view(),
        ),
{
    let pkg: DocxPackage = match DocxPackage::read(docx) {
        Ok(pkg) => pkg,
        Err(e) => {
            return Err(e);
        },
    };
    let ghost (p, t, s) = (
        text.paragraphs.deep_view(),
        text.slot_texts.deep_view(),
        offsets.slots.deep_view(),
    );
    let ghost first = p.map_values(|p: ParaV| bare_unit(p));
    let entries: Vec<&DocxEntry> = pkg.xml_entries();
    let ghost model = entries.deep_view();
    let mut units: Vec<ParaSlotUnit> = bare_units(&text.paragraphs);
    let mut i: usize = 0;
    assert(model.skip(0) =~= model);
    while i < entries.len()
        invariant
            i <= entries@.len(),
            model == entries.deep_view(),
            package_of(docx@) == Ok::<_, DocxErrorV>(pkg.deep_view()),
            model == xml_only(pkg.deep_view()),
            p == text.paragraphs.deep_view(),
            t == text.slot_texts.deep_view(),
            s == offsets.slots.deep_view(),
            first == p.map_values(|p: ParaV| bare_unit(p)),
            units@.len() == text.paragraphs@.len(),
            map_entries(p, t, s, units.deep_view(), model.skip(i as int)) == map_entries(
                p,
                t,
                s,
                first,
                model,
            ),
        decreases entries@.len() - i,
    {
        let e: &DocxEntry = entries[i];
        assert(model[i as int] == e.deep_view());
        assert(model.skip(i as int).drop_first() =~= model.skip(i + 1));
        assert(model.skip(i as int)[0] == model[i as int]);
        if e.data.len() > 0 {
            let part: XmlPart = match parse_xml_part(e.name.as_str(), e.data.as_slice()) {
                Ok(part) => part,
                Err(error) => {
                    return Err(DocxError::Xml { part: e.name.clone(), error });
                },
            };
            units = match map_part(units, &part, &text.paragraphs, &text.slot_texts, &offsets.slots) {
                Ok(units) => units,
                Err(fault) => {
                    return Err(fault);
                },
            };
        }
        i = i + 1;
    }
    assert(model.skip(i as int) =~= Seq::<EntryV>::empty());
    close_units(&mut units);
    Ok(units)
}

/// Slot marks, each followed by the text of its slot.
pub open spec fn surfaces(slot_ids: Seq<nat>, texts: Seq<Seq<char>>) -> Seq<char>
    decreases slot_ids.len(),
{
    if slot_ids.len() == 0 {
        Seq::empty()
    } else {
        let id = slot_ids.last();
        surfaces(slot_ids.drop_last(), texts) + slot_token_of(id) + texts[text_place(id) as int]
    }
}

/// Whether a unit stands for a paragraph, and its surface shows the texts of its slots.
pub open spec fn unit_shows(u: SlotUnitV, p: ParaV, texts: Seq<Seq<char>>) -> bool {
    &&& u.tu_id == p.para_id
    &&& u.part_name == p.part_name
    &&& u.scope_key == p.scope_key
    &&& u.para_style == p.p_style
    &&& u.source_surface == surfaces(u.slot_ids, texts)
    &&& forall|k: int| 0 <= k < u.slot_ids.len() ==> text_place(#[trigger] u.slot_ids[k]) < texts.len()
}

/// Whether the units stand for the paragraphs.
pub open spec fn units_show(units: Seq<SlotUnitV>, paras: Seq<ParaV>, texts: Seq<Seq<char>>) -> bool {
    units.len() == paras.len() && forall|i: int|
        0 <= i < units.len() ==> unit_shows(#[trigger] units[i], paras[i], texts)
}

proof fn lemma_para_at(paras: Seq<ParaV>, part: Seq<char>, event: nat)
    ensures
        para_at(paras, part, event) matches Some(i) ==> i < paras.len(),
    decreases paras.len(),
{
    if paras.len() > 0 {
        lemma_para_at(paras.drop_last(), part, event);
    }
}

proof fn lemma_text_mapped(paras: Seq<ParaV>, texts: Seq<Seq<char>>, st: MapV, slot: Option<nat>)
    requires
        units_show(st.units, paras, texts),
        st.para matches Some(i) ==> i < paras.len(),
    ensures
        text_mapped(texts, st, slot) matches Ok(next) ==> units_show(next.units, paras, texts)
            && next.para == st.para,
{
    match (st.para, slot, text_mapped(texts, st, slot)) {
        (Some(i), Some(id), Ok(next)) => {
            if next != st {
                let u = st.units[i as int];
                let v = next.units[i as int];
                assert(v.slot_ids.drop_last() =~= u.slot_ids);
                assert(v.source_surface =~= surfaces(v.slot_ids, texts));
                assert(unit_shows(u, paras[i as int], texts));
                assert(unit_shows(v, paras[i as int], texts));
                assert forall|k: int| 0 <= k < next.units.len() implies unit_shows(
                    #[trigger] next.units[k],
                    paras[k],
                    texts,
                ) by {
                    assert(unit_shows(st.units[k], paras[k], texts));
                }
            }
        },
        _ => {},
    }
}

proof fn lemma_map_events(
    paras: Seq<ParaV>,
    texts: Seq<Seq<char>>,
    slots: Seq<SlotV>,
    part: Seq<char>,
    st: MapV,
    idx: nat,
    events: Seq<EventV>,
)
    requires
        units_show(st.units, paras, texts),
        st.para matches Some(i) ==> i < paras.len(),
    ensures
        map_events(paras, texts, slots, part, st, idx, events) matches Ok(units) ==> units_show(
            units,
            paras,
            texts,
        ),
    decreases events.len(),
{
    if events.len() > 0 {
        lemma_para_at(paras, part, idx);
        lemma_text_mapped(paras, texts, st, slot_at(slots, part, idx, SlotKind::Text));
        lemma_text_mapped(paras, texts, st, slot_at(slots, part, idx, SlotKind::CData));
        match map_step(paras, texts, slots, part, st, idx, events[0]) {
            Ok(next) => {
                lemma_map_events(paras, texts, slots, part, next, idx + 1, events.drop_first());
            },
            Err(_) => {},
        }
    }
}

proof fn lemma_map_entries(
    paras: Seq<ParaV>,
    texts: Seq<Seq<char>>,
    slots: Seq<SlotV>,
    units: Seq<SlotUnitV>,
    entries: Seq<EntryV>,
)
    requires
        units_show(units, paras, texts),
    ensures
        map_entries(paras, texts, slots, units, entries) matches Ok(done) ==> units_show(
            done,
            paras,
            texts,
        ),
    decreases entries.len(),
{
    if entries.len() > 0 {
        let e = entries[0];
        if e.data.len() == 0 {
            lemma_map_entries(paras, texts, slots, units, entries.drop_first());
        } else {
            match parsed(e.data) {
                Ok(events) => {
                    let st = MapV { units, stack: Seq::empty(), para: None, nested: 0 };
                    lemma_map_events(paras, texts, slots, e.name, st, 0, events);
                    match map_events(paras, texts, slots, e.name, st, 0, events) {
                        Ok(next) => {
                            lemma_map_entries(paras, texts, slots, next, entries.drop_first());
                        },
                        Err(_) => {},
                    }
                },
                Err(_) => {},
            }
        }
    }
}

/// There is one unit for each paragraph, in their order, and the surface of a unit with slots is the
/// mark and the text of each of them and the closing mark.
pub proof fn law_slot_units(
    docx: Seq<u8>,
    paras: Seq<ParaV>,
    texts: Seq<Seq<char>>,
    slots: Seq<SlotV>,
)
    requires
        slot_units_of(docx, paras, texts, slots) is Ok,
    ensures
        ({
            let units = slot_units_of(docx, paras, texts, slots)->Ok_0;
            units.len() == paras.len() && forall|i: int|
                0 <= i < units.len() ==> {
                    let u = #[trigger] units[i];
                    u.tu_id == paras[i].para_id && u.source_surface == (if u.slot_ids.len() == 0 {
                        Seq::empty()
                    } else {
                        surfaces(u.slot_ids, texts) + slot_token_of(0)
                    })
                }
        }),
{
    let entries = xml_only(package_of(docx)->Ok_0);
    let first = paras.map_values(|p: ParaV| bare_unit(p));
    assert forall|i: int| 0 <= i < first.len() implies unit_shows(
        #[trigger] first[i],
        paras[i],
        texts,
    ) by {
        assert(first[i] == bare_unit(paras[i]));
    }
    lemma_map_entries(paras, texts, slots, first, entries);
    let open = map_entries(paras, texts, slots, first, entries)->Ok_0;
    let units = slot_units_of(docx, paras, texts, slots)->Ok_0;
    assert forall|i: int| 0 <= i < units.len() implies {
        let u = #[trigger] units[i];
        u.tu_id == paras[i].para_id && u.source_surface == (if u.slot_ids.len() == 0 {
            Seq::empty()
        } else {
            surfaces(u.slot_ids, texts) + slot_token_of(0)
        })
    } by {
        assert(units[i] == unit_closed(open[i]));
        assert(unit_shows(open[i], paras[i], texts));
    }
}

/// Whether slots are numbered in their order, and those of a part stand in the order of its events.
pub open spec fn slots_rise(slots: Seq<SlotV>) -> bool {
    &&& forall|a: int| 0 <= a < slots.len() ==> (#[trigger] slots[a]).id == a + 1
    &&& forall|a: int, b: int|
        0 <= a < b < slots.len() && (#[trigger] slots[a]).part_name == (
        #[trigger] slots[b]).part_name ==> slots[a].event_index < slots[b].event_index
}

/// Filling the slots of a part that has none yet keeps them numbered in their order.
pub proof fn law_masked_slots_rise(
    prefix: Seq<char>,
    part_name: Seq<char>,
    before: Seq<SlotV>,
    events: Seq<EventV>,
)
    requires
        slots_rise(before),
        forall|a: int| 0 <= a < before.len() ==> (#[trigger] before[a]).part_name != part_name,
    ensures
        slots_rise(mask_run(prefix, part_name, before, events).slots),
{
    lemma_masked_slots(prefix, part_name, before, events);
}

proof fn lemma_masked_slots(
    prefix: Seq<char>,
    part_name: Seq<char>,
    before: Seq<SlotV>,
    events: Seq<EventV>,
)
    requires
        slots_rise(before),
        forall|a: int| 0 <= a < before.len() ==> (#[trigger] before[a]).part_name != part_name,
    ensures
        ({
            let st = mask_run(prefix, part_name, before, events);
            &&& slots_rise(st.slots)
            &&& st.events.len() == events.len()
            &&& forall|a: int|
                0 <= a < st.slots.len() && (#[trigger] st.slots[a]).part_name == part_name
                    ==> st.slots[a].event_index < events.len()
        }),
    decreases events.len(),
{
    if events.len() > 0 {
        lemma_masked_slots(prefix, part_name, before, events.drop_last());
    }
}

/// Whether the slots of units are their own: those of a unit rise and stand in its part, before the
/// event `idx` of the part or in a part that is done, and no slot is one of two units.
spec fn slots_owned(
    units: Seq<SlotUnitV>,
    paras: Seq<ParaV>,
    slots: Seq<SlotV>,
    done: Set<Seq<char>>,
    part: Seq<char>,
    idx: nat,
) -> bool {
    &&& units.len() == paras.len()
    &&& forall|i: int, k: int|
        0 <= i < units.len() && 0 <= k < units[i].slot_ids.len() ==> {
            let id = #[trigger] units[i].slot_ids[k];
            let slot = slots[id - 1];
            &&& 1 <= id <= slots.len()
            &&& slot.part_name == paras[i].part_name
            &&& done.contains(slot.part_name) || (slot.part_name == part && slot.event_index < idx)
        }
    &&& units_apart(units)
}

/// Whether the slots of each unit rise, and no slot is one of two units.
pub open spec fn units_apart(units: Seq<SlotUnitV>) -> bool {
    &&& forall|i: int, j: int, k: int|
        0 <= i < units.len() && 0 <= j < k < units[i].slot_ids.len()
            ==> #[trigger] units[i].slot_ids[j] < #[trigger] units[i].slot_ids[k]
    &&& forall|i: int, j: int, k: int, l: int|
        0 <= i < units.len() && 0 <= j < units.len() && i != j && 0 <= k < units[i].slot_ids.len()
            && 0 <= l < units[j].slot_ids.len() ==> #[trigger] units[i].slot_ids[k]
            != #[trigger] units[j].slot_ids[l]
}

proof fn lemma_slot_at(slots: Seq<SlotV>, part: Seq<char>, event: nat, kind: SlotKind)
    requires
        slots_rise(slots),
    ensures
        slot_at(slots, part, event, kind) matches Some(id) ==> {
            &&& 1 <= id <= slots.len()
            &&& slots[id - 1].part_name == part
            &&& slots[id - 1].event_index == event
        },
    decreases slots.len(),
{
    if slots.len() > 0 {
        let front = slots.drop_last();
        assert(slots_rise(front)) by {
            assert forall|a: int| 0 <= a < front.len() implies (#[trigger] front[a]).id == a + 1 by {
                assert(front[a] == slots[a]);
            }
        }
        lemma_slot_at(front, part, event, kind);
        assert(slots[slots.len() - 1].id == slots.len());
        if let Some(id) = slot_at(front, part, event, kind) {
            assert(front[id - 1] == slots[id - 1]);
        }
    }
}

proof fn lemma_para_part(paras: Seq<ParaV>, part: Seq<char>, event: nat)
    ensures
        para_at(paras, part, event) matches Some(i) ==> i < paras.len()
            && paras[i as int].part_name == part,
    decreases paras.len(),
{
    if paras.len() > 0 {
        lemma_para_part(paras.drop_last(), part, event);
    }
}

proof fn lemma_added_owned(
    st: MapV,
    paras: Seq<ParaV>,
    texts: Seq<Seq<char>>,
    slots: Seq<SlotV>,
    done: Set<Seq<char>>,
    part: Seq<char>,
    idx: nat,
    kind: SlotKind,
)
    requires
        slots_rise(slots),
        slots_owned(st.units, paras, slots, done, part, idx),
        !done.contains(part),
        st.para matches Some(i) ==> i < paras.len() && paras[i as int].part_name == part,
    ensures
        text_mapped(texts, st, slot_at(slots, part, idx, kind)) matches Ok(next) ==> slots_owned(
            next.units,
            paras,
            slots,
            done,
            part,
            idx + 1,
        ) && next.para == st.para,
{
    lemma_slot_at(slots, part, idx, kind);
    let slot = slot_at(slots, part, idx, kind);
    match (st.para, slot, text_mapped(texts, st, slot)) {
        (Some(p), Some(id), Ok(next)) => {
            if next != st {
                let units = next.units;
                let p = p as int;
                let old_ids = st.units[p].slot_ids;
                let ids = units[p].slot_ids;
                assert(ids == old_ids.push(id));
                let before = st.units;
                assert forall|i: int, k: int|
                    0 <= i < before.len() && 0 <= k < before[i].slot_ids.len() implies
                    #[trigger] before[i].slot_ids[k] != id by {
                    let other = before[i].slot_ids[k];
                }
                assert forall|k: int| 0 <= k < old_ids.len() implies #[trigger] old_ids[k] < id by {
                    let other = before[p].slot_ids[k];
                    if other > id {
                        assert(slots[id - 1].event_index < slots[other - 1].event_index);
                    }
                }
                assert forall|i: int| 0 <= i < units.len() && i != p implies (
                #[trigger] units[i]).slot_ids == before[i].slot_ids by {}
                assert forall|i: int, k: int|
                    0 <= i < units.len() && 0 <= k < units[i].slot_ids.len() implies ({
                    let id = #[trigger] units[i].slot_ids[k];
                    let slot = slots[id - 1];
                    &&& 1 <= id <= slots.len()
                    &&& slot.part_name == paras[i].part_name
                    &&& done.contains(slot.part_name) || (slot.part_name == part && slot.event_index
                        < idx + 1)
                }) by {
                    if i != p || k < old_ids.len() {
                        assert(units[i].slot_ids[k] == before[i].slot_ids[k]);
                    }
                }
                assert(units_apart(units)) by {
                    assert forall|i: int, j: int, k: int|
                        0 <= i < units.len() && 0 <= j < k < units[i].slot_ids.len() implies
                        #[trigger] units[i].slot_ids[j] < #[trigger] units[i].slot_ids[k] by {
                        assert(units[i].slot_ids[j] == before[i].slot_ids[j]);
                        if i != p || k < old_ids.len() {
                            assert(units[i].slot_ids[k] == before[i].slot_ids[k]);
                        }
                    }
                    assert forall|i: int, j: int, k: int, l: int|
                        0 <= i < units.len() && 0 <= j < units.len() && i != j && 0 <= k
                            < units[i].slot_ids.len() && 0 <= l < units[j].slot_ids.len() implies
                        #[trigger] units[i].slot_ids[k] != #[trigger] units[j].slot_ids[l] by {
                        if i != p || k < old_ids.len() {
                            assert(units[i].slot_ids[k] == before[i].slot_ids[k]);
                        }
                        if j != p || l < old_ids.len() {
                            assert(units[j].slot_ids[l] == before[j].slot_ids[l]);
                        }
                    }
                }
            }
        },
        _ => {},
    }
}

proof fn lemma_events_owned(
    paras: Seq<ParaV>,
    texts: Seq<Seq<char>>,
    slots: Seq<SlotV>,
    done: Set<Seq<char>>,
    part: Seq<char>,
    st: MapV,
    idx: nat,
    events: Seq<EventV>,
)
    requires
        slots_rise(slots),
        slots_owned(st.units, paras, slots, done, part, idx),
        !done.contains(part),
        st.para matches Some(i) ==> i < paras.len() && paras[i as int].part_name == part,
    ensures
        map_events(paras, texts, slots, part, st, idx, events) matches Ok(units) ==> slots_owned(
            units,
            paras,
            slots,
            done.insert(part),
            part,
            0,
        ),
    decreases events.len(),
{
    if events.len() > 0 {
        lemma_para_part(paras, part, idx);
        lemma_added_owned(st, paras, texts, slots, done, part, idx, SlotKind::Text);
        lemma_added_owned(st, paras, texts, slots, done, part, idx, SlotKind::CData);
        match map_step(paras, texts, slots, part, st, idx, events[0]) {
            Ok(next) => {
                assert(slots_owned(next.units, paras, slots, done, part, idx + 1));
                lemma_events_owned(
                    paras,
                    texts,
                    slots,
                    done,
                    part,
                    next,
                    idx + 1,
                    events.drop_first(),
                );
            },
            Err(_) => {},
        }
    }
}

proof fn lemma_entries_owned(
    paras: Seq<ParaV>,
    texts: Seq<Seq<char>>,
    slots: Seq<SlotV>,
    done: Set<Seq<char>>,
    units: Seq<SlotUnitV>,
    entries: Seq<EntryV>,
)
    requires
        slots_rise(slots),
        slots_owned(units, paras, slots, done, Seq::empty(), 0),
        forall|a: int| 0 <= a < entries.len() ==> !done.contains((#[trigger] entries[a]).name),
        forall|a: int, b: int|
            0 <= a < b < entries.len() ==> (#[trigger] entries[a]).name != (
            #[trigger] entries[b]).name,
    ensures
        map_entries(paras, texts, slots, units, entries) matches Ok(out) ==> units_apart(out),
    decreases entries.len(),
{
    if entries.len() > 0 {
        let e = entries[0];
        let rest = entries.drop_first();
        assert forall|a: int| 0 <= a < rest.len() implies !done.contains((#[trigger] rest[a]).name)
            && rest[a].name != e.name by {
            assert(rest[a] == entries[a + 1]);
        }
        if e.data.len() == 0 {
            lemma_entries_owned(paras, texts, slots, done, units, rest);
        } else {
            match parsed(e.data) {
                Ok(events) => {
                    let st = MapV { units, stack: Seq::empty(), para: None, nested: 0 };
                    assert(slots_owned(units, paras, slots, done, e.name, 0));
                    lemma_events_owned(paras, texts, slots, done, e.name, st, 0, events);
                    match map_events(paras, texts, slots, e.name, st, 0, events) {
                        Ok(next) => {
                            let more = done.insert(e.name);
                            assert(slots_owned(next, paras, slots, more, Seq::empty(), 0));
                            lemma_entries_owned(paras, texts, slots, more, next, rest);
                        },
                        Err(_) => {},
                    }
                },
                Err(_) => {},
            }
        }
    }
}

/// In a document without two parts of one name, whose slots are numbered in their order, the slots of
/// each unit rise, and no slot is one of two units.
pub proof fn law_units_share_no_slot(
    docx: Seq<u8>,
    paras: Seq<ParaV>,
    texts: Seq<Seq<char>>,
    slots: Seq<SlotV>,
)
    requires
        slots_rise(slots),
        slot_units_of(docx, paras, texts, slots) is Ok,
        ({
            let entries = xml_only(package_of(docx)->Ok_0);
            forall|a: int, b: int|
                0 <= a < b < entries.len() ==> (#[trigger] entries[a]).name != (
                #[trigger] entries[b]).name
        }),
    ensures
        units_apart(slot_units_of(docx, paras, texts, slots)->Ok_0),
{
    let entries = xml_only(package_of(docx)->Ok_0);
    let first = paras.map_values(|p: ParaV| bare_unit(p));
    assert forall|i: int| 0 <= i < first.len() implies (#[trigger] first[i]).slot_ids.len() == 0 by {
        assert(first[i] == bare_unit(paras[i]));
    }
    lemma_entries_owned(paras, texts, slots, Set::empty(), first, entries);
    let open = map_entries(paras, texts, slots, first, entries)->Ok_0;
    let units = slot_units_of(docx, paras, texts, slots)->Ok_0;
    assert forall|i: int| 0 <= i < units.len() implies (#[trigger] units[i]).slot_ids
        == open[i].slot_ids by {
        assert(units[i] == unit_closed(open[i]));
    }
    assert(units_apart(units)) by {
        assert forall|i: int, j: int, k: int|
            0 <= i < units.len() && 0 <= j < k < units[i].slot_ids.len() implies
            #[trigger] units[i].slot_ids[j] < #[trigger] units[i].slot_ids[k] by {
            assert(open[i].slot_ids[j] < open[i].slot_ids[k]);
        }
        assert forall|i: int, j: int, k: int, l: int|
            0 <= i < units.len() && 0 <= j < units.len() && i != j && 0 <= k
                < units[i].slot_ids.len() && 0 <= l < units[j].slot_ids.len() implies
            #[trigger] units[i].slot_ids[k] != #[trigger] units[j].slot_ids[l] by {
            assert(open[i].slot_ids[k] != open[j].slot_ids[l]);
        }
    }
}

} // verus!
