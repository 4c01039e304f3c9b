//! Taking the texts out of a document and putting texts back in.
//!
//! A masked document holds a placeholder in place of each text. The slots tell which placeholder
//! stands where; the texts come in a list of their own, in the order of the slots.

use crate::chars::{
    append, byte_len, byte_length, contains, dec_pad, dec_padded, ends, ends_with, begins,
    has, lemma_byte_len, owned, starts_with, str_eq,
};
use crate::digest::{law_hex_text, sha256, sha256_hex_bytes, sha256_hex_of};
use crate::docx::error::{DataFault, DataFaultV, Difference, DocxError, DocxErrorV, SlotFault};
use crate::docx::package::{
    bytes_result, dir_entry, entries_read, entry_read, entry_reads_back, is_dir_entry, is_xml_name,
    package_of, packed, reads_back, xml_name, DocxEntry, DocxPackage, EntryV,
};
use crate::docx::pure_text::{attr, attr_position, find_attr, PureTextJson, PureTextV};
use crate::docx::refilled::{
    entries_refilled, lemma_masked_part_read, lemma_filled_part_read, lemma_merge_of_read,
    lemma_texts_of_read, merged_from, parts_plain, parts_shaped, refills_free_of, refills_of,
    taken_from, texts_for,
};
use crate::docx::roundtrip::{
    entry_plain, law_masked_package, law_plain_entry_kept, masked_list, normal, normalized,
    part_with_content, plain_directories,
};
use crate::docx::shape::hex_tag;
use crate::docx::xml::{
    events_written, full_hash, full_hash_of, parse_xml_part, parsed, reads_own, result_view,
    write_xml_part, AttrsV, EventV, XmlEvent, XmlPart,
};
use crate::vecs::push_deep;
use base64::engine::general_purpose::STANDARD;
use base64::Engine;
use vstd::prelude::*;
use vstd::utf8::*;

verus! {

/// What a slot holds the text of.
#[derive(Clone, Copy, Debug, PartialEq, Eq, Structural)]
pub enum SlotKind {
    Text,
    CData,
    Attr,
}

/// A place in a document that holds a text.
#[derive(Clone, Debug)]
pub struct TextSlot {
    pub id: usize,
    pub part_name: String,
    pub kind: SlotKind,
    pub event_index: usize,
    pub attr_name: Option<String>,
}

/// The model of a [`TextSlot`].
#[verifier::ext_equal]
pub struct SlotV {
    pub id: nat,
    pub part_name: Seq<char>,
    pub kind: SlotKind,
    pub event_index: nat,
    pub attr_name: Option<Seq<char>>,
}

impl DeepView for TextSlot {
    type V = SlotV;

    open spec fn deep_view(&self) -> SlotV {
        SlotV {
            id: self.id as nat,
            part_name: self.part_name@,
            kind: self.kind,
            event_index: self.event_index as nat,
            attr_name: self.attr_name.deep_view(),
        }
    }
}

/// The slots of a masked document.
#[derive(Clone, Debug)]
pub struct OffsetsJson {
    pub version: u32,
    pub placeholder_prefix: String,
    pub slots: Vec<TextSlot>,
}

/// The model of an [`OffsetsJson`].
#[verifier::ext_equal]
pub struct OffsetsV {
    pub version: u32,
    pub placeholder_prefix: Seq<char>,
    pub slots: Seq<SlotV>,
}

impl DeepView for OffsetsJson {
    type V = OffsetsV;

    open spec fn deep_view(&self) -> OffsetsV {
        OffsetsV {
            version: self.version,
            placeholder_prefix: self.placeholder_prefix@,
            slots: self.slots.deep_view(),
        }
    }
}

/// The data of a masked entry.
#[derive(Clone, Debug)]
pub enum MaskEntryData {
    Utf8(String),
    Base64(String),
    External(MaskBlobRef),
    Empty,
}

/// A stretch of the blobs, with the digest of its bytes.
#[derive(Clone, Debug)]
pub struct MaskBlobRef {
    pub offset: u64,
    pub length: u64,
    pub sha256: String,
}

/// The model of a [`MaskEntryData`].
#[verifier::ext_equal]
pub enum MaskDataV {
    Utf8(Seq<char>),
    Base64(Seq<char>),
    External { offset: u64, length: u64, sha256: Seq<char> },
    Empty,
}

impl DeepView for MaskEntryData {
    type V = MaskDataV;

    open spec fn deep_view(&self) -> MaskDataV {
        match self {
            MaskEntryData::Utf8(s) => MaskDataV::Utf8(s@),
            MaskEntryData::Base64(s) => MaskDataV::Base64(s@),
            MaskEntryData::External(r) => MaskDataV::External {
                offset: r.offset,
                length: r.length,
                sha256: r.sha256@,
            },
            MaskEntryData::Empty => MaskDataV::Empty,
        }
    }
}

/// An entry of a masked package.
pub struct MaskEntryJson {
    pub name: String,
    pub compression: u16,
    pub last_modified: (u16, u16),
    pub unix_mode: Option<u32>,
    pub is_dir: bool,
    pub data: MaskEntryData,
}

/// The model of a [`MaskEntryJson`].
#[verifier::ext_equal]
pub struct MaskEntryV {
    pub name: Seq<char>,
    pub compression: u16,
    pub last_modified: (u16, u16),
    pub unix_mode: Option<u32>,
    pub is_dir: bool,
    pub data: MaskDataV,
}

impl DeepView for MaskEntryJson {
    type V = MaskEntryV;

    open spec fn deep_view(&self) -> MaskEntryV {
        MaskEntryV {
            name: self.name@,
            compression: self.compression,
            last_modified: self.last_modified,
            unix_mode: self.unix_mode,
            is_dir: self.is_dir,
            data: self.data.deep_view(),
        }
    }
}

/// A masked package.
pub struct MaskJson {
    pub version: u32,
    pub placeholder_prefix: String,
    pub blobs_file: Option<String>,
    pub entries: Vec<MaskEntryJson>,
}

/// The model of a [`MaskJson`].
#[verifier::ext_equal]
pub struct MaskV {
    pub version: u32,
    pub placeholder_prefix: Seq<char>,
    pub blobs_file: Option<Seq<char>>,
    pub entries: Seq<MaskEntryV>,
}

impl DeepView for MaskJson {
    type V = MaskV;

    open spec fn deep_view(&self) -> MaskV {
        MaskV {
            version: self.version,
            placeholder_prefix: self.placeholder_prefix@,
            blobs_file: self.blobs_file.deep_view(),
            entries: self.entries.deep_view(),
        }
    }
}

/// A masked package, its slots, and the bytes that its entries refer to.
pub struct MaskedDocx {
    pub mask: MaskJson,
    pub offsets: OffsetsJson,
    pub blobs: Vec<u8>,
}

/// The model of a [`MaskedDocx`].
#[verifier::ext_equal]
pub struct MaskedV {
    pub mask: MaskV,
    pub offsets: OffsetsV,
    pub blobs: Seq<u8>,
}

impl DeepView for MaskedDocx {
    type V = MaskedV;

    open spec fn deep_view(&self) -> MaskedV {
        MaskedV {
            mask: self.mask.deep_view(),
            offsets: self.offsets.deep_view(),
            blobs: self.blobs@,
        }
    }
}

/// The names of the files that a masked document is written to.
pub struct MaskOutputs {
    pub mask_json_path: String,
    pub offsets_json_path: String,
    pub blobs_bin_path: String,
}

/// The tag that tells the placeholders of one file from those of another: the first ten
/// hexadecimal digits of the file's digest.
pub open spec fn file_prefix(bytes: Seq<u8>) -> Seq<char> {
    sha256_hex_of(bytes).take(10)
}

/// The tag of a file's placeholders.
pub fn hash_file_prefix(bytes: &[u8]) -> (r: String)
    ensures
        r@ == file_prefix(bytes@),
        r@.len() == 10,
        hex_tag(r@),
{
    let hex: String = sha256_hex_bytes(bytes);
    let v: Vec<char> = crate::chars::to_chars(hex.as_str());
    assert(hex@.take(10) =~= hex@.subrange(0, 10));
    proof {
        law_hex_text(sha256(bytes@));
    }
    crate::chars::text_of(&v, 0, 10)
}

/// What the placeholders of a file begin with.
pub open spec fn placeholder_start(prefix: Seq<char>) -> Seq<char> {
    "__MT_MASK_"@ + prefix + "_"@
}

/// The placeholder of the slot `id`.
pub open spec fn placeholder_of(prefix: Seq<char>, id: nat) -> Seq<char> {
    placeholder_start(prefix) + dec_padded(id, 8) + "__"@
}

/// Whether `s` has the form of a placeholder.
pub open spec fn placeholder_form(s: Seq<char>, prefix: Seq<char>) -> bool {
    &&& begins(s, placeholder_start(prefix))
    &&& ends(s, "__"@)
    &&& byte_len(s) >= byte_len(placeholder_start(prefix)) + 8 + 2
}

fn placeholder_head(prefix: &str) -> (r: String)
    ensures
        r@ == placeholder_start(prefix@),
{
    let mut s: String = owned("__MT_MASK_");
    append(&mut s, prefix);
    append(&mut s, "_");
    s
}

fn placeholder(prefix: &str, id: usize) -> (r: String)
    ensures
        r@ == placeholder_of(prefix@, id as nat),
{
    let mut s: String = placeholder_head(prefix);
    let d: String = dec_pad(id, 8);
    append(&mut s, d.as_str());
    append(&mut s, "__");
    s
}

fn is_placeholder(s: &str, prefix: &str) -> (r: bool)
    ensures
        r == placeholder_form(s@, prefix@),
{
    let pfx: String = placeholder_head(prefix);
    let n: usize = byte_length(s);
    starts_with(s, pfx.as_str()) && ends_with(s, "__") && n >= 10 && n - 10 >= byte_length(
        pfx.as_str(),
    )
}

/// A placeholder has the form of one.
pub proof fn lemma_placeholder_form(prefix: Seq<char>, id: nat)
    ensures
        placeholder_form(placeholder_of(prefix, id), prefix),
{
    let head = placeholder_start(prefix);
    let d = dec_padded(id, 8);
    let p = placeholder_of(prefix, id);
    reveal_strlit("__");
    crate::chars::lemma_dec(id);
    assert(d.len() >= 8);
    assert(p.subrange(0, head.len() as int) =~= head);
    assert(p.subrange(p.len() - 2, p.len() as int) =~= "__"@);
    lemma_byte_len(head + d, "__"@);
    lemma_byte_len(head, d);
    lemma_byte_len(d, "__"@);
    lemma_byte_len("__"@, d);
}

/// The text that an event holds for a slot: of a text or a CDATA section its characters, of a list
/// level its format.
pub open spec fn slot_text(ev: EventV) -> Option<Seq<char>> {
    match ev {
        EventV::Text { text } => Some(text),
        EventV::CData { text } => Some(text),
        EventV::Start { name, attrs } => if name == "w:lvlText"@ {
            attr(attrs, "w:val"@)
        } else {
            None
        },
        EventV::Empty { name, attrs } => if name == "w:lvlText"@ {
            attr(attrs, "w:val"@)
        } else {
            None
        },
        _ => None,
    }
}

/// The kind of the slot that an event is.
pub open spec fn slot_kind(ev: EventV) -> SlotKind {
    match ev {
        EventV::Text { .. } => SlotKind::Text,
        EventV::CData { .. } => SlotKind::CData,
        _ => SlotKind::Attr,
    }
}

/// The attribute that a slot of an event is about.
pub open spec fn slot_attr(ev: EventV) -> Option<Seq<char>> {
    match ev {
        EventV::Text { .. } => None,
        EventV::CData { .. } => None,
        _ => Some("w:val"@),
    }
}

/// Attributes with the value of the first one that has the key `key` set to `v`.
pub open spec fn attrs_with(attrs: AttrsV, key: Seq<char>, v: Seq<char>) -> AttrsV
    decreases attrs.len(),
{
    if attrs.len() == 0 {
        attrs
    } else if attrs[0].0 == key {
        attrs.update(0, (key, v))
    } else {
        seq![attrs[0]] + attrs_with(attrs.drop_first(), key, v)
    }
}

/// An event with another text in its slot.
pub open spec fn with_slot_text(ev: EventV, t: Seq<char>) -> EventV {
    match ev {
        EventV::Text { .. } => EventV::Text { text: t },
        EventV::CData { .. } => EventV::CData { text: t },
        EventV::Start { name, attrs } => EventV::Start { name, attrs: attrs_with(attrs, "w:val"@, t) },
        EventV::Empty { name, attrs } => EventV::Empty { name, attrs: attrs_with(attrs, "w:val"@, t) },
        _ => ev,
    }
}

/// The events of a part with placeholders in their slots, and the slots of all parts so far.
#[verifier::ext_equal]
pub struct MaskRunV {
    pub events: Seq<EventV>,
    pub slots: Seq<SlotV>,
}

/// The events of a part with placeholders in their slots. Ids go on from the slots before.
pub open spec fn mask_run(
    prefix: Seq<char>,
    part_name: Seq<char>,
    before: Seq<SlotV>,
    events: Seq<EventV>,
) -> MaskRunV
    decreases events.len(),
{
    if events.len() == 0 {
        MaskRunV { events: Seq::empty(), slots: before }
    } else {
        let st = mask_run(prefix, part_name, before, events.drop_last());
        let ev = events.last();
        if slot_text(ev) is Some {
            let id = st.slots.len() + 1;
            MaskRunV {
                events: st.events.push(with_slot_text(ev, placeholder_of(prefix, id))),
                slots: st.slots.push(
                    SlotV {
                        id,
                        part_name,
                        kind: slot_kind(ev),
                        event_index: st.events.len(),
                        attr_name: slot_attr(ev),
                    },
                ),
            }
        } else {
            MaskRunV { events: st.events.push(ev), slots: st.slots }
        }
    }
}

/// The texts in the slots of a sequence of events.
pub open spec fn slot_texts_of(events: Seq<EventV>) -> Seq<Seq<char>>
    decreases events.len(),
{
    if events.len() == 0 {
        Seq::empty()
    } else {
        let before = slot_texts_of(events.drop_last());
        match slot_text(events.last()) {
            Some(t) => before.push(t),
            None => before,
        }
    }
}

proof fn lemma_attrs_with(attrs: AttrsV, key: Seq<char>, v: Seq<char>, i: int)
    requires
        0 <= i < attrs.len(),
        attrs[i].0 == key,
        forall|j: int| 0 <= j < i ==> (#[trigger] attrs[j]).0 != key,
    ensures
        attrs_with(attrs, key, v) == attrs.update(i, (key, v)),
    decreases attrs.len(),
{
    if i > 0 {
        assert(attrs[0].0 != key);
        let rest = attrs.drop_first();
        assert forall|j: int| 0 <= j < i - 1 implies (#[trigger] rest[j]).0 != key by {
            assert(rest[j] == attrs[j + 1]);
        }
        lemma_attrs_with(rest, key, v, i - 1);
        assert(attrs_with(attrs, key, v) =~= attrs.update(i, (key, v)));
    }
}

/// Sets the value of the attribute at `i`, which is the first with the key `key`.
fn set_attr_at(attrs: &mut Vec<(String, String)>, key: &str, i: usize, v: String)
    requires
        i < old(attrs)@.len(),
        old(attrs)@[i as int].0@ == key@,
        forall|j: int| 0 <= j < i ==> (#[trigger] old(attrs)@[j]).0@ != key@,
    ensures
        final(attrs).deep_view() == attrs_with(old(attrs).deep_view(), key@, v@),
{
    let ghost model = attrs.deep_view();
    proof {
        assert forall|j: int| 0 <= j < i implies (#[trigger] model[j]).0 != key@ by {
            assert(old(attrs)@[j].0@ != key@);
        }
        lemma_attrs_with(model, key@, v@, i as int);
    }
    attrs[i].1 = v;
    assert(attrs.deep_view() =~= model.update(i as int, (key@, v@)));
}

/// The text in the slot of an event.
fn slot_text_ref(ev: &XmlEvent) -> (r: Option<&str>)
    ensures
        r.deep_view() == slot_text(ev.deep_view()),
{
    match ev {
        XmlEvent::Text { text } => Some(text.as_str()),
        XmlEvent::CData { text } => Some(text.as_str()),
        XmlEvent::Start { name, attrs } => if str_eq(name.as_str(), "w:lvlText") {
            find_attr(attrs, "w:val")
        } else {
            None
        },
        XmlEvent::Empty { name, attrs } => if str_eq(name.as_str(), "w:lvlText") {
            find_attr(attrs, "w:val")
        } else {
            None
        },
        _ => None,
    }
}

fn slot_kind_of(ev: &XmlEvent) -> (r: SlotKind)
    ensures
        r == slot_kind(ev.deep_view()),
{
    match ev {
        XmlEvent::Text { .. } => SlotKind::Text,
        XmlEvent::CData { .. } => SlotKind::CData,
        _ => SlotKind::Attr,
    }
}

fn slot_attr_of(ev: &XmlEvent) -> (r: Option<String>)
    ensures
        r.deep_view() == slot_attr(ev.deep_view()),
{
    match ev {
        XmlEvent::Text { .. } => None,
        XmlEvent::CData { .. } => None,
        _ => Some(owned("w:val")),
    }
}

/// Puts a text in the slot of an event.
fn set_slot_text(ev: &mut XmlEvent, t: String)
    requires
        slot_text(old(ev).deep_view()) is Some,
    ensures
        final(ev).deep_view() == with_slot_text(old(ev).deep_view(), t@),
{
    match ev {
        XmlEvent::Text { text } => {
            *text = t;
        },
        XmlEvent::CData { text } => {
            *text = t;
        },
        XmlEvent::Start { name, attrs } => {
            if let Some(i) = attr_position(attrs, "w:val") {
                set_attr_at(attrs, "w:val", i, t);
            }
        },
        XmlEvent::Empty { name, attrs } => {
            if let Some(i) = attr_position(attrs, "w:val") {
                set_attr_at(attrs, "w:val", i, t);
            }
        },
        _ => {},
    }
}

/// Puts placeholders in the slots of a part, and adds its slots to the list.
fn mask_part(prefix: &str, part: &mut XmlPart, slots: &mut Vec<TextSlot>)
    ensures
        final(part).events.deep_view() == mask_run(
            prefix@,
            old(part).name@,
            old(slots).deep_view(),
            old(part).events.deep_view(),
        ).events,
        final(slots).deep_view() == mask_run(
            prefix@,
            old(part).name@,
            old(slots).deep_view(),
            old(part).events.deep_view(),
        ).slots,
        final(part).name == old(part).name,
{
    let ghost model = part.events.deep_view();
    let ghost name = part.name;
    let ghost before = slots.deep_view();
    let mut i: usize = 0;
    assert(model.take(0) =~= Seq::<EventV>::empty());
    assert(part.events.deep_view() =~= mask_run(prefix@, name@, before, model.take(0)).events
        + model.skip(0));
    while i < part.events.len()
        invariant
            i <= part.events@.len() == model.len(),
            part.name == name,
            part.events.deep_view() == mask_run(prefix@, name@, before, model.take(i as int)).events
                + model.skip(i as int),
            mask_run(prefix@, name@, before, model.take(i as int)).events.len() == i,
            slots.deep_view() == mask_run(prefix@, name@, before, model.take(i as int)).slots,
        decreases part.events@.len() - i,
    {
        let ghost st = mask_run(prefix@, name@, before, model.take(i as int));
        let ghost evs = part.events.deep_view();
        assert(model.take(i + 1).drop_last() =~= model.take(i as int));
        assert(part.events@[i as int].deep_view() == evs[i as int]);
        assert(evs[i as int] == model[i as int]);
        if slot_text_ref(&part.events[i]).is_some() {
            let kind: SlotKind = slot_kind_of(&part.events[i]);
            let attr_name: Option<String> = slot_attr_of(&part.events[i]);
            let part_name: String = part.name.clone();
            slots.push(TextSlot { id: 0, part_name, kind, event_index: i, attr_name });
            let id: usize = slots.len();
            slots[id - 1].id = id;
            assert(slots.deep_view() =~= st.slots.push(
                SlotV {
                    id: st.slots.len() + 1,
                    part_name: name@,
                    kind: slot_kind(model[i as int]),
                    event_index: i as nat,
                    attr_name: slot_attr(model[i as int]),
                },
            ));
            let ph: String = placeholder(prefix, id);
            set_slot_text(&mut part.events[i], ph);
            assert(part.events.deep_view() =~= evs.update(
                i as int,
                with_slot_text(model[i as int], placeholder_of(prefix@, id as nat)),
            ));
        }
        i = i + 1;
        assert(part.events.deep_view() =~= mask_run(prefix@, name@, before, model.take(i as int)).events
            + model.skip(i as int));
    }
    assert(model.take(i as int) =~= model);
    assert(mask_run(prefix@, name@, before, model).events + model.skip(i as int) =~= mask_run(
        prefix@,
        name@,
        before,
        model,
    ).events);
}


/// Putting a text in a slot and reading the slot gives the text, and two texts after another leave
/// the second.
pub proof fn law_slot_text_set(ev: EventV, t: Seq<char>, u: Seq<char>)
    requires
        slot_text(ev) is Some,
    ensures
        slot_text(with_slot_text(ev, t)) == Some(t),
        with_slot_text(with_slot_text(ev, t), u) == with_slot_text(ev, u),
        with_slot_text(ev, slot_text(ev)->0) == ev,
        slot_kind(with_slot_text(ev, t)) == slot_kind(ev),
        slot_attr(with_slot_text(ev, t)) == slot_attr(ev),
{
    match ev {
        EventV::Start { name, attrs } => {
            lemma_attrs_set(attrs, "w:val"@, t, u);
        },
        EventV::Empty { name, attrs } => {
            lemma_attrs_set(attrs, "w:val"@, t, u);
        },
        _ => {},
    }
}

proof fn lemma_attrs_set(attrs: AttrsV, key: Seq<char>, t: Seq<char>, u: Seq<char>)
    requires
        attr(attrs, key) is Some,
    ensures
        attr(attrs_with(attrs, key, t), key) == Some(t),
        attrs_with(attrs_with(attrs, key, t), key, u) == attrs_with(attrs, key, u),
        attrs_with(attrs, key, attr(attrs, key)->0) == attrs,
    decreases attrs.len(),
{
    let a = attrs_with(attrs, key, t);
    if attrs[0].0 == key {
        assert(a[0] == (key, t));
        assert(a.update(0, (key, u)) =~= attrs.update(0, (key, u)));
        assert(attrs.update(0, (key, attrs[0].1)) =~= attrs);
    } else {
        let rest = attrs.drop_first();
        lemma_attrs_set(rest, key, t, u);
        assert(a[0] == attrs[0]);
        assert(a.drop_first() =~= attrs_with(rest, key, t));
        assert(seq![attrs[0]] + rest =~= attrs);
    }
}

/// The first text of a part that is no placeholder.
pub open spec fn first_impure(prefix: Seq<char>, events: Seq<EventV>) -> Option<Seq<char>>
    decreases events.len(),
{
    if events.len() == 0 {
        None
    } else {
        match slot_text(events[0]) {
            Some(t) if !placeholder_form(t, prefix) => Some(t),
            _ => first_impure(prefix, events.drop_first()),
        }
    }
}

/// Succeeds where all texts of a part are placeholders.
fn verify_part_mask_pure(part: &XmlPart, prefix: &str) -> (r: Result<(), DocxError>)
    ensures
        match r {
            Ok(_) => first_impure(prefix@, part.events.deep_view()) is None,
            Err(e) => first_impure(prefix@, part.events.deep_view()) is Some && e.deep_view()
                == (DocxErrorV::MaskNotPure {
                part: part.name@,
                text: first_impure(prefix@, part.events.deep_view())->0,
            }),
        },
{
    let ghost model = part.events.deep_view();
    let mut i: usize = 0;
    assert(model.skip(0) =~= model);
    while i < part.events.len()
        invariant
            i <= part.events@.len(),
            model == part.events.deep_view(),
            first_impure(prefix@, model.skip(i as int)) == first_impure(prefix@, model),
        decreases part.events@.len() - i,
    {
        assert(model.skip(i as int)[0] == part.events@[i as int].deep_view());
        assert(model.skip(i as int).drop_first() =~= model.skip(i + 1));
        if let Some(t) = slot_text_ref(&part.events[i]) {
            if !is_placeholder(t, prefix) {
                return Err(DocxError::MaskNotPure { part: part.name.clone(), text: owned(t) });
            }
        }
        i = i + 1;
    }
    Ok(())
}

proof fn lemma_first_impure_push(prefix: Seq<char>, events: Seq<EventV>, ev: EventV)
    requires
        first_impure(prefix, events) is None,
        slot_text(ev) is Some ==> placeholder_form(slot_text(ev)->0, prefix),
    ensures
        first_impure(prefix, events.push(ev)) is None,
    decreases events.len(),
{
    let all = events.push(ev);
    if events.len() == 0 {
        reveal_with_fuel(first_impure, 2);
        assert(all.drop_first() =~= Seq::<EventV>::empty());
    } else {
        assert(all[0] == events[0]);
        assert(all.drop_first() =~= events.drop_first().push(ev));
        lemma_first_impure_push(prefix, events.drop_first(), ev);
    }
}

/// A part whose slots were filled with placeholders holds no other text.
pub proof fn law_mask_is_pure(
    prefix: Seq<char>,
    part_name: Seq<char>,
    before: Seq<SlotV>,
    events: Seq<EventV>,
)
    ensures
        first_impure(prefix, mask_run(prefix, part_name, before, events).events) is None,
    decreases events.len(),
{
    if events.len() > 0 {
        law_mask_is_pure(prefix, part_name, before, events.drop_last());
        let st = mask_run(prefix, part_name, before, events.drop_last());
        let ev = events.last();
        if slot_text(ev) is Some {
            let ph = placeholder_of(prefix, st.slots.len() + 1);
            law_slot_text_set(ev, ph, ph);
            lemma_placeholder_form(prefix, st.slots.len() + 1);
            lemma_first_impure_push(prefix, st.events, with_slot_text(ev, ph));
        } else {
            lemma_first_impure_push(prefix, st.events, ev);
        }
    }
}

/// What was masked so far.
#[verifier::ext_equal]
pub struct MaskStateV {
    pub entries: Seq<MaskEntryV>,
    pub slots: Seq<SlotV>,
    pub blobs: Seq<u8>,
}

/// An entry of a masked package with the given data.
pub open spec fn mask_entry_of(e: EntryV, data: MaskDataV) -> MaskEntryV {
    MaskEntryV {
        name: e.name,
        compression: e.compression,
        last_modified: e.last_modified,
        unix_mode: e.unix_mode,
        is_dir: e.is_dir,
        data,
    }
}

/// Whether an entry is an XML part with content.
pub open spec fn xml_entry(e: EntryV) -> bool {
    xml_name(e.name) && e.data.len() > 0
}

/// The state after an entry whose masked bytes are `bytes`: they are appended to the blobs, unless
/// there are none.
pub open spec fn with_bytes(st: MaskStateV, e: EntryV, bytes: Seq<u8>) -> MaskStateV {
    if bytes.len() == 0 {
        MaskStateV { entries: st.entries.push(mask_entry_of(e, MaskDataV::Empty)), ..st }
    } else {
        MaskStateV {
            entries: st.entries.push(
                mask_entry_of(
                    e,
                    MaskDataV::External {
                        offset: st.blobs.len() as u64,
                        length: bytes.len() as u64,
                        sha256: sha256_hex_of(bytes),
                    },
                ),
            ),
            slots: st.slots,
            blobs: st.blobs + bytes,
        }
    }
}

/// The state after one more entry.
pub open spec fn mask_entry(prefix: Seq<char>, st: MaskStateV, e: EntryV) -> Result<
    MaskStateV,
    DocxErrorV,
> {
    if dir_entry(e) {
        Ok(MaskStateV { entries: st.entries.push(mask_entry_of(e, MaskDataV::Empty)), ..st })
    } else if xml_entry(e) {
        match parsed(e.data) {
            Err(error) => Err(DocxErrorV::Xml { part: e.name, error }),
            Ok(events) => {
                let m = mask_run(prefix, e.name, st.slots, events);
                Ok(
                    with_bytes(
                        MaskStateV { slots: m.slots, ..st },
                        e,
                        encode_utf8(events_written(m.events)),
                    ),
                )
            },
        }
    } else {
        Ok(with_bytes(st, e, e.data))
    }
}

/// The state after a sequence of entries.
pub open spec fn mask_entries(prefix: Seq<char>, st: MaskStateV, entries: Seq<EntryV>) -> Result<
    MaskStateV,
    DocxErrorV,
>
    decreases entries.len(),
{
    if entries.len() == 0 {
        Ok(st)
    } else {
        match mask_entry(prefix, st, entries[0]) {
            Err(e) => Err(e),
            Ok(next) => mask_entries(prefix, next, entries.drop_first()),
        }
    }
}

/// The state before the first entry.
pub open spec fn mask_start() -> MaskStateV {
    MaskStateV { entries: Seq::empty(), slots: Seq::empty(), blobs: Seq::empty() }
}

/// The masked form of a package with the given entries.
pub open spec fn masked_of(prefix: Seq<char>, blobs_file: Seq<char>, entries: Seq<EntryV>) -> Result<
    MaskedV,
    DocxErrorV,
> {
    match mask_entries(prefix, mask_start(), entries) {
        Err(e) => Err(e),
        Ok(st) => Ok(
            MaskedV {
                mask: MaskV {
                    version: 2,
                    placeholder_prefix: prefix,
                    blobs_file: Some(blobs_file),
                    entries: st.entries,
                },
                offsets: OffsetsV { version: 1, placeholder_prefix: prefix, slots: st.slots },
                blobs: st.blobs,
            },
        ),
    }
}

/// The masked form of a document.
pub open spec fn masked_docx(docx: Seq<u8>, blobs_file: Seq<char>) -> Result<MaskedV, DocxErrorV> {
    match package_of(docx) {
        Err(e) => Err(e),
        Ok(entries) => masked_of(file_prefix(docx), blobs_file, entries),
    }
}

struct MaskState {
    entries: Vec<MaskEntryJson>,
    slots: Vec<TextSlot>,
    blobs: Vec<u8>,
}

impl DeepView for MaskState {
    type V = MaskStateV;

    closed spec fn deep_view(&self) -> MaskStateV {
        MaskStateV {
            entries: self.entries.deep_view(),
            slots: self.slots.deep_view(),
            blobs: self.blobs@,
        }
    }
}

fn masked_entry(e: &DocxEntry, data: MaskEntryData) -> (r: MaskEntryJson)
    ensures
        r.deep_view() == mask_entry_of(e.deep_view(), data.deep_view()),
{
    MaskEntryJson {
        name: e.name.clone(),
        compression: e.compression,
        last_modified: e.last_modified,
        unix_mode: e.unix_mode,
        is_dir: e.is_dir,
        data,
    }
}

impl MaskState {
    fn add_bytes(&mut self, e: &DocxEntry, bytes: &Vec<u8>)
        ensures
            final(self).deep_view() == with_bytes(old(self).deep_view(), e.deep_view(), bytes@),
    {
        let ghost before = self.deep_view();
        if bytes.len() == 0 {
            push_deep(&mut self.entries, masked_entry(e, MaskEntryData::Empty));
        } else {
            let sha256: String = sha256_hex_bytes(bytes.as_slice());
            let offset: u64 = self.blobs.len() as u64;
            let length: u64 = bytes.len() as u64;
            self.blobs.extend_from_slice(bytes.as_slice());
            assert(self.blobs@ =~= before.blobs + bytes@);
            let data = MaskEntryData::External(MaskBlobRef { offset, length, sha256 });
            push_deep(&mut self.entries, masked_entry(e, data));
        }
        assert(self.deep_view() =~= with_bytes(before, e.deep_view(), bytes@));
    }

    fn add_entry(&mut self, prefix: &str, e: &DocxEntry) -> (r: Result<(), DocxError>)
        ensures
            match r {
                Ok(_) => mask_entry(prefix@, old(self).deep_view(), e.deep_view()) == Ok::<
                    _,
                    DocxErrorV,
                >(final(self).deep_view()),
                Err(x) => mask_entry(prefix@, old(self).deep_view(), e.deep_view()) == Err::<
                    MaskStateV,
                    _,
                >(x.deep_view()),
            },
            !dir_entry(e.deep_view()) && xml_entry(e.deep_view()) ==> reads_own(e.data@),
    {
        let ghost before = self.deep_view();
        if is_dir_entry(e) {
            push_deep(&mut self.entries, masked_entry(e, MaskEntryData::Empty));
            assert(self.deep_view() =~= (MaskStateV {
                entries: before.entries.push(mask_entry_of(e.deep_view(), MaskDataV::Empty)),
                ..before
            }));
            return Ok(());
        }
        if is_xml_name(e.name.as_str()) && e.data.len() > 0 {
            let mut part: XmlPart = match parse_xml_part(e.name.as_str(), e.data.as_slice()) {
                Ok(p) => p,
                Err(error) => return Err(DocxError::Xml { part: e.name.clone(), error }),
            };
            let ghost events = part.events.deep_view();
            proof {
                law_mask_is_pure(prefix@, e.name@, before.slots, events);
            }
            mask_part(prefix, &mut part, &mut self.slots);
            let ghost m = mask_run(prefix@, e.name@, before.slots, events);
            assert(self.deep_view() =~= (MaskStateV { slots: m.slots, ..before }));
            match verify_part_mask_pure(&part, prefix) {
                Ok(_) => {},
                Err(x) => return Err(x),
            }
            match write_xml_part(&part) {
                Ok(bytes) => self.add_bytes(e, &bytes),
                Err(error) => return Err(DocxError::Xml { part: e.name.clone(), error }),
            }
            return Ok(());
        }
        self.add_bytes(e, &e.data);
        Ok(())
    }
}

/// Masks the texts of a document. `blobs_file` is the name under which the masked package refers to
/// the blobs. What is masked is what a reader gives: entries of an archive, with events of their shape,
/// under a tag of ten hexadecimal digits.
pub fn extract_mask_json_and_offsets(docx: &[u8], blobs_file: &str) -> (r: Result<
    MaskedDocx,
    DocxError,
>)
    ensures
        result_view(r) == masked_docx(docx@, blobs_file@),
        r matches Ok(m) ==> {
            let entries = package_of(docx@)->Ok_0;
            &&& entries_read(entries)
            &&& parts_shaped(entries)
            &&& m.offsets.placeholder_prefix@.len() == 10
            &&& hex_tag(m.offsets.placeholder_prefix@)
        },
{
    let pkg: DocxPackage = match DocxPackage::read(docx) {
        Ok(p) => p,
        Err(e) => return Err(e),
    };
    let prefix: String = hash_file_prefix(docx);
    let mut st = MaskState { entries: Vec::new(), slots: Vec::new(), blobs: Vec::new() };
    let ghost model = pkg.entries.deep_view();
    let mut i: usize = 0;
    assert(model.skip(0) =~= model);
    assert(st.deep_view() =~= mask_start());
    while i < pkg.entries.len()
        invariant
            i <= pkg.entries@.len(),
            model == pkg.entries.deep_view(),
            package_of(docx@) == Ok::<_, DocxErrorV>(model),
            prefix@ == file_prefix(docx@),
            prefix@.len() == 10,
            hex_tag(prefix@),
            entries_read(model),
            forall|k: int|
                0 <= k < i && #[trigger] part_with_content(model, k) ==> reads_own(model[k].data),
            mask_entries(prefix@, st.deep_view(), model.skip(i as int)) == mask_entries(
                prefix@,
                mask_start(),
                model,
            ),
        decreases pkg.entries@.len() - i,
    {
        assert(model.skip(i as int)[0] == pkg.entries@[i as int].deep_view());
        assert(model.skip(i as int).drop_first() =~= model.skip(i + 1));
        match st.add_entry(prefix.as_str(), &pkg.entries[i]) {
            Ok(_) => {},
            Err(e) => return Err(e),
        }
        i = i + 1;
    }
    let offsets = OffsetsJson {
        version: 1,
        placeholder_prefix: prefix.clone(),
        slots: st.slots,
    };
    let mask = MaskJson {
        version: 2,
        placeholder_prefix: prefix,
        blobs_file: Some(owned(blobs_file)),
        entries: st.entries,
    };
    Ok(MaskedDocx { mask, offsets, blobs: st.blobs })
}

/// The texts in the slots of a sequence of entries, after `out`.
pub open spec fn slot_texts_of_entries(out: Seq<Seq<char>>, entries: Seq<EntryV>) -> Result<
    Seq<Seq<char>>,
    DocxErrorV,
>
    decreases entries.len(),
{
    if entries.len() == 0 {
        Ok(out)
    } else {
        let e = entries[0];
        if dir_entry(e) || !xml_entry(e) {
            slot_texts_of_entries(out, entries.drop_first())
        } else {
            match parsed(e.data) {
                Err(error) => Err(DocxErrorV::Xml { part: e.name, error }),
                Ok(events) => slot_texts_of_entries(
                    out + slot_texts_of(events),
                    entries.drop_first(),
                ),
            }
        }
    }
}

/// The tag of a document's placeholders, and the texts in its slots.
pub open spec fn slot_texts_of_docx(docx: Seq<u8>) -> Result<
    (Seq<char>, Seq<Seq<char>>),
    DocxErrorV,
> {
    match package_of(docx) {
        Err(e) => Err(e),
        Ok(entries) => match slot_texts_of_entries(Seq::empty(), entries) {
            Err(e) => Err(e),
            Ok(texts) => Ok((file_prefix(docx), texts)),
        },
    }
}

fn add_slot_texts(out: &mut Vec<String>, events: &Vec<XmlEvent>)
    ensures
        final(out).deep_view() == old(out).deep_view() + slot_texts_of(events.deep_view()),
{
    let ghost start = out.deep_view();
    let ghost model = events.deep_view();
    let mut i: usize = 0;
    assert(model.take(0) =~= Seq::<EventV>::empty());
    assert(start + slot_texts_of(model.take(0)) =~= start);
    while i < events.len()
        invariant
            i <= events@.len(),
            model == events.deep_view(),
            out.deep_view() == start + slot_texts_of(model.take(i as int)),
        decreases events@.len() - i,
    {
        let ghost before = slot_texts_of(model.take(i as int));
        assert(model[i as int] == events@[i as int].deep_view());
        assert(model.take(i + 1).drop_last() =~= model.take(i as int));
        if let Some(t) = slot_text_ref(&events[i]) {
            push_deep(out, owned(t));
            assert((start + before).push(t@) =~= start + before.push(t@));
        }
        i = i + 1;
    }
    assert(model.take(i as int) =~= model);
}

/// The tag of a document's placeholders, which has ten hexadecimal digits, and the texts in its slots
/// in the order of the slots. Of a document that was filled with texts, these are the texts, where its
/// XML parts are shaped and plain with them.
pub fn extract_slot_texts(docx: &[u8]) -> (r: Result<(String, Vec<String>), DocxError>)
    ensures
        result_view(r) == slot_texts_of_docx(docx@),
        r matches Ok((prefix, _)) ==> prefix@ == file_prefix(docx@) && prefix@.len() == 10 && hex_tag(
            prefix@,
        ),
        forall|es: Seq<EntryV>, texts: Seq<Seq<char>>|
            refills_of(es, texts) && reads_back(
                Seq::empty(),
                #[trigger] entries_refilled(es, texts),
                package_of(docx@),
            ) ==> result_view(r) == Ok::<_, DocxErrorV>((file_prefix(docx@), texts)),
{
    let pkg: DocxPackage = match DocxPackage::read(docx) {
        Ok(p) => p,
        Err(e) => return Err(e),
    };
    let prefix: String = hash_file_prefix(docx);
    let mut out: Vec<String> = Vec::new();
    let ghost model = pkg.entries.deep_view();
    let mut i: usize = 0;
    assert(model.skip(0) =~= model);
    assert(out.deep_view() =~= Seq::<Seq<char>>::empty());
    while i < pkg.entries.len()
        invariant
            i <= pkg.entries@.len(),
            model == pkg.entries.deep_view(),
            package_of(docx@) == Ok::<_, DocxErrorV>(model),
            prefix@ == file_prefix(docx@),
            prefix@.len() == 10,
            hex_tag(prefix@),
            forall|k: int|
                0 <= k < i && #[trigger] part_with_content(model, k) ==> reads_own(model[k].data),
            slot_texts_of_entries(out.deep_view(), model.skip(i as int)) == slot_texts_of_entries(
                Seq::empty(),
                model,
            ),
        decreases pkg.entries@.len() - i,
    {
        let e: &DocxEntry = &pkg.entries[i];
        assert(model.skip(i as int)[0] == e.deep_view());
        assert(model.skip(i as int).drop_first() =~= model.skip(i + 1));
        if !is_dir_entry(e) && e.data.len() > 0 && is_xml_name(e.name.as_str()) {
            match parse_xml_part(e.name.as_str(), e.data.as_slice()) {
                Ok(part) => add_slot_texts(&mut out, &part.events),
                Err(error) => {
                    proof {
                        assert forall|es: Seq<EntryV>, texts: Seq<Seq<char>>|
                            refills_of(es, texts) && reads_back(
                                Seq::empty(),
                                #[trigger] entries_refilled(es, texts),
                                package_of(docx@),
                            ) implies false by {
                            lemma_filled_part_read(es, texts, model, i as int);
                        }
                    }
                    return Err(DocxError::Xml { part: e.name.clone(), error })
                },
            }
        }
        i = i + 1;
    }
    proof {
        assert forall|es: Seq<EntryV>, texts: Seq<Seq<char>>|
            refills_of(es, texts) && reads_back(
                Seq::empty(),
                #[trigger] entries_refilled(es, texts),
                package_of(docx@),
            ) implies slot_texts_of_entries(Seq::empty(), model) == Ok::<_, DocxErrorV>(texts) by {
            lemma_texts_of_read(es, texts, model);
        }
    }
    Ok((prefix, out))
}


/// The bytes that a Base64 text stands for, or what is wrong with it.
pub uninterp spec fn base64_decoded(s: Seq<char>) -> Result<Seq<u8>, Seq<char>>;

/// What `base64_decode` returns, given what the text stands for.
pub open spec fn base64_read(
    decoded: Result<Seq<u8>, Seq<char>>,
    r: Result<Vec<u8>, String>,
) -> bool {
    match r {
        Ok(b) => decoded == Ok::<_, Seq<char>>(b@),
        Err(e) => decoded == Err::<Seq<u8>, _>(e@),
    }
}

/// `base64::engine::general_purpose::STANDARD.decode`.
#[verifier::external_body]
fn base64_decode(s: &str) -> (r: Result<Vec<u8>, String>)
    ensures
        base64_read(base64_decoded(s@), r),
{
    STANDARD.decode(s.as_bytes()).map_err(|e| e.to_string())
}

/// The bytes of a masked entry.
pub open spec fn decoded(data: MaskDataV, blobs: Option<Seq<u8>>) -> Result<Seq<u8>, DataFaultV> {
    match data {
        MaskDataV::Empty => Ok(Seq::empty()),
        MaskDataV::Utf8(s) => Ok(encode_utf8(s)),
        MaskDataV::Base64(s) => match base64_decoded(s) {
            Ok(b) => Ok(b),
            Err(m) => Err(DataFaultV::Base64(m)),
        },
        MaskDataV::External { offset, length, sha256 } => match blobs {
            None => Err(DataFaultV::NoBlobs),
            Some(b) => {
                let start = (offset as usize) as int;
                let end = start + (length as usize);
                if end > b.len() {
                    Err(
                        DataFaultV::OutOfRange {
                            offset: offset as nat,
                            length: length as nat,
                            blobs: b.len(),
                        },
                    )
                } else if sha256_hex_of(b.subrange(start, end)) != sha256 {
                    Err(
                        DataFaultV::Digest {
                            expected: sha256,
                            got: sha256_hex_of(b.subrange(start, end)),
                        },
                    )
                } else {
                    Ok(b.subrange(start, end))
                }
            },
        },
    }
}

/// The view of an optional byte vector.
pub open spec fn opt_bytes(o: Option<&Vec<u8>>) -> Option<Seq<u8>> {
    match o {
        Some(b) => Some(b@),
        None => None,
    }
}

fn decode_entry_data(data: &MaskEntryData, blobs: Option<&Vec<u8>>) -> (r: Result<
    Vec<u8>,
    DataFault,
>)
    ensures
        match r {
            Ok(b) => decoded(data.deep_view(), opt_bytes(blobs)) == Ok::<_, DataFaultV>(b@),
            Err(e) => decoded(data.deep_view(), opt_bytes(blobs)) == Err::<Seq<u8>, _>(
                e.deep_view(),
            ),
        },
{
    match data {
        MaskEntryData::Empty => Ok(Vec::new()),
        MaskEntryData::Utf8(s) => {
            let mut out: Vec<u8> = Vec::new();
            out.extend_from_slice(s.as_str().as_bytes());
            assert(out@ =~= encode_utf8(s@));
            Ok(out)
        },
        MaskEntryData::Base64(s) => match base64_decode(s.as_str()) {
            Ok(b) => Ok(b),
            Err(m) => Err(DataFault::Base64(m)),
        },
        MaskEntryData::External(x) => {
            let b: &Vec<u8> = match blobs {
                Some(b) => b,
                None => return Err(DataFault::NoBlobs),
            };
            let start: usize = x.offset as usize;
            let length: usize = x.length as usize;
            if start > b.len() || length > b.len() - start {
                return Err(
                    DataFault::OutOfRange { offset: x.offset, length: x.length, blobs: b.len() },
                );
            }
            let slice: &[u8] = vstd::slice::slice_subrange(b.as_slice(), start, start + length);
            let got: String = sha256_hex_bytes(slice);
            if !str_eq(got.as_str(), x.sha256.as_str()) {
                return Err(DataFault::Digest { expected: x.sha256.clone(), got });
            }
            let mut out: Vec<u8> = Vec::new();
            out.extend_from_slice(slice);
            assert(out@ =~= slice@);
            Ok(out)
        },
    }
}

/// The entries of a masked package with their bytes, after `out`.
pub open spec fn decoded_entries(
    blobs: Option<Seq<u8>>,
    out: Seq<EntryV>,
    entries: Seq<MaskEntryV>,
) -> Result<Seq<EntryV>, DocxErrorV>
    decreases entries.len(),
{
    if entries.len() == 0 {
        Ok(out)
    } else {
        let e = entries[0];
        match decoded(e.data, blobs) {
            Err(fault) => Err(DocxErrorV::EntryData { entry: e.name, fault }),
            Ok(data) => decoded_entries(
                blobs,
                out.push(
                    EntryV {
                        name: e.name,
                        data,
                        compression: e.compression,
                        last_modified: e.last_modified,
                        unix_mode: e.unix_mode,
                        is_dir: e.is_dir,
                    },
                ),
                entries.drop_first(),
            ),
        }
    }
}

fn decode_entries(mask: &MaskJson, blobs: Option<&Vec<u8>>) -> (r: Result<Vec<DocxEntry>, DocxError>)
    ensures
        result_view(r) == decoded_entries(
            opt_bytes(blobs),
            Seq::empty(),
            mask.entries.deep_view(),
        ),
{
    let ghost model = mask.entries.deep_view();
    let mut out: Vec<DocxEntry> = Vec::new();
    let mut i: usize = 0;
    assert(model.skip(0) =~= model);
    assert(out.deep_view() =~= Seq::<EntryV>::empty());
    while i < mask.entries.len()
        invariant
            i <= mask.entries@.len(),
            model == mask.entries.deep_view(),
            decoded_entries(opt_bytes(blobs), out.deep_view(), model.skip(i as int))
                == decoded_entries(opt_bytes(blobs), Seq::empty(), model),
        decreases mask.entries@.len() - i,
    {
        let e: &MaskEntryJson = &mask.entries[i];
        assert(model.skip(i as int)[0] == e.deep_view());
        assert(model.skip(i as int).drop_first() =~= model.skip(i + 1));
        match decode_entry_data(&e.data, blobs) {
            Ok(data) => push_deep(
                &mut out,
                DocxEntry {
                    name: e.name.clone(),
                    data,
                    compression: e.compression,
                    last_modified: e.last_modified,
                    unix_mode: e.unix_mode,
                    is_dir: e.is_dir,
                },
            ),
            Err(fault) => return Err(DocxError::EntryData { entry: e.name.clone(), fault }),
        }
        i = i + 1;
    }
    Ok(out)
}

/// A part of a masked package, and the entry that it was read from.
#[verifier::ext_equal]
pub struct MergePartV {
    pub name: Seq<char>,
    pub entry: nat,
    pub events: Seq<EventV>,
}

struct MergePart {
    entry: usize,
    part: XmlPart,
}

impl DeepView for MergePart {
    type V = MergePartV;

    closed spec fn deep_view(&self) -> MergePartV {
        MergePartV {
            name: self.part.name@,
            entry: self.entry as nat,
            events: self.part.events.deep_view(),
        }
    }
}

/// The position of the part with the name `name`.
pub open spec fn part_position(parts: Seq<MergePartV>, name: Seq<char>) -> Option<int>
    decreases parts.len(),
{
    if parts.len() == 0 {
        None
    } else if parts.last().name == name {
        Some(parts.len() - 1)
    } else {
        part_position(parts.drop_last(), name)
    }
}

/// The parts with one more, which takes the place of an earlier one of its name.
pub open spec fn with_part(parts: Seq<MergePartV>, p: MergePartV) -> Seq<MergePartV> {
    match part_position(parts, p.name) {
        Some(i) => parts.update(i, p),
        None => parts.push(p),
    }
}

/// The XML parts among the entries from `i` on, after `parts`.
pub open spec fn merge_parts(parts: Seq<MergePartV>, entries: Seq<EntryV>, i: nat) -> Result<
    Seq<MergePartV>,
    DocxErrorV,
>
    decreases entries.len() - i,
{
    if i >= entries.len() {
        Ok(parts)
    } else {
        let e = entries[i as int];
        if !xml_entry(e) {
            merge_parts(parts, entries, i + 1)
        } else {
            match parsed(e.data) {
                Err(error) => Err(DocxErrorV::Xml { part: e.name, error }),
                Ok(events) => merge_parts(
                    with_part(parts, MergePartV { name: e.name, entry: i, events }),
                    entries,
                    i + 1,
                ),
            }
        }
    }
}

fn find_part(parts: &Vec<MergePart>, name: &str) -> (r: Option<usize>)
    ensures
        match r {
            Some(i) => i < parts@.len() && part_position(parts.deep_view(), name@) == Some(i as int),
            None => part_position(parts.deep_view(), name@) is None,
        },
{
    let ghost model = parts.deep_view();
    let mut i: usize = parts.len();
    assert(model.take(i as int) =~= model);
    while i > 0
        invariant
            i <= parts@.len(),
            model == parts.deep_view(),
            part_position(model.take(i as int), name@) == part_position(model, name@),
        decreases i,
    {
        assert(model.take(i as int).last() == parts@[i - 1].deep_view());
        assert(model.take(i as int).drop_last() =~= model.take(i - 1));
        if str_eq(parts[i - 1].part.name.as_str(), name) {
            return Some(i - 1);
        }
        i = i - 1;
    }
    None
}

/// The XML parts among the entries. They are read as what they were written for, also the one that
/// cannot be read, if there is one.
fn read_parts(entries: &Vec<DocxEntry>) -> (r: Result<Vec<MergePart>, DocxError>)
    ensures
        result_view(r) == merge_parts(Seq::empty(), entries.deep_view(), 0),
        r is Ok ==> forall|k: int|
            0 <= k < entries@.len() && xml_entry(#[trigger] entries.deep_view()[k]) ==> reads_own(
                entries.deep_view()[k].data,
            ),
        r is Err ==> exists|k: int|
            0 <= k < entries@.len() && xml_entry(#[trigger] entries.deep_view()[k]) && reads_own(
                entries.deep_view()[k].data,
            ) && parsed(entries.deep_view()[k].data) is Err,
{
    let ghost model = entries.deep_view();
    let mut parts: Vec<MergePart> = Vec::new();
    let mut i: usize = 0;
    assert(parts.deep_view() =~= Seq::<MergePartV>::empty());
    while i < entries.len()
        invariant
            i <= entries@.len(),
            model == entries.deep_view(),
            merge_parts(parts.deep_view(), model, i as nat) == merge_parts(Seq::empty(), model, 0),
            forall|k: int|
                0 <= k < i && xml_entry(#[trigger] model[k]) ==> reads_own(model[k].data),
        decreases entries@.len() - i,
    {
        let e: &DocxEntry = &entries[i];
        assert(model[i as int] == e.deep_view());
        if is_xml_name(e.name.as_str()) && e.data.len() > 0 {
            match parse_xml_part(e.name.as_str(), e.data.as_slice()) {
                Err(error) => return Err(DocxError::Xml { part: e.name.clone(), error }),
                Ok(part) => {
                    let ghost before = parts.deep_view();
                    let p = MergePart { entry: i, part };
                    let ghost pv = p.deep_view();
                    match find_part(&parts, e.name.as_str()) {
                        Some(k) => {
                            parts.set(k, p);
                            assert(parts.deep_view() =~= before.update(k as int, pv));
                        },
                        None => push_deep(&mut parts, p),
                    }
                },
            }
        }
        i = i + 1;
    }
    Ok(parts)
}


/// An event with the text `t` in place of the placeholder `ph`, or why it does not fit the slot.
pub open spec fn filled_event(
    ev: EventV,
    kind: SlotKind,
    attr_name: Option<Seq<char>>,
    ph: Seq<char>,
    t: Seq<char>,
) -> Result<EventV, SlotFault> {
    match kind {
        SlotKind::Text => match ev {
            EventV::Text { text } => if text == ph {
                Ok(EventV::Text { text: t })
            } else {
                Err(SlotFault::NotPlaceholder)
            },
            _ => Err(SlotFault::WrongEvent),
        },
        SlotKind::CData => match ev {
            EventV::CData { text } => if text == ph {
                Ok(EventV::CData { text: t })
            } else {
                Err(SlotFault::NotPlaceholder)
            },
            _ => Err(SlotFault::WrongEvent),
        },
        SlotKind::Attr => match attr_name {
            None => Err(SlotFault::NoAttrName),
            Some(key) => match ev {
                EventV::Start { name, attrs } => match attr(attrs, key) {
                    None => Err(SlotFault::NoAttr),
                    Some(v) => if v == ph {
                        Ok(EventV::Start { name, attrs: attrs_with(attrs, key, t) })
                    } else {
                        Err(SlotFault::NotPlaceholder)
                    },
                },
                EventV::Empty { name, attrs } => match attr(attrs, key) {
                    None => Err(SlotFault::NoAttr),
                    Some(v) => if v == ph {
                        Ok(EventV::Empty { name, attrs: attrs_with(attrs, key, t) })
                    } else {
                        Err(SlotFault::NotPlaceholder)
                    },
                },
                _ => Err(SlotFault::WrongEvent),
            },
        },
    }
}

/// The parts with the text of one slot put in place.
pub open spec fn filled_slot(
    prefix: Seq<char>,
    texts: Seq<Seq<char>>,
    parts: Seq<MergePartV>,
    slot: SlotV,
) -> Result<Seq<MergePartV>, SlotFault> {
    let n = if slot.id > 0 {
        slot.id - 1
    } else {
        0
    };
    if n >= texts.len() {
        Err(SlotFault::NoText)
    } else {
        match part_position(parts, slot.part_name) {
            None => Err(SlotFault::NoPart),
            Some(k) => if slot.event_index >= parts[k].events.len() {
                Err(SlotFault::NoEvent)
            } else {
                let i = slot.event_index as int;
                match filled_event(
                    parts[k].events[i],
                    slot.kind,
                    slot.attr_name,
                    placeholder_of(prefix, slot.id),
                    texts[n],
                ) {
                    Err(why) => Err(why),
                    Ok(ev) => Ok(
                        parts.update(
                            k,
                            MergePartV { events: parts[k].events.update(i, ev), ..parts[k] },
                        ),
                    ),
                }
            },
        }
    }
}

/// The parts with the texts of a sequence of slots put in place.
pub open spec fn filled_slots(
    prefix: Seq<char>,
    texts: Seq<Seq<char>>,
    parts: Seq<MergePartV>,
    slots: Seq<SlotV>,
) -> Result<Seq<MergePartV>, DocxErrorV>
    decreases slots.len(),
{
    if slots.len() == 0 {
        Ok(parts)
    } else {
        let slot = slots[0];
        match filled_slot(prefix, texts, parts, slot) {
            Err(why) => Err(
                DocxErrorV::Slot {
                    id: slot.id,
                    part: slot.part_name,
                    event_index: slot.event_index,
                    why,
                },
            ),
            Ok(next) => filled_slots(prefix, texts, next, slots.drop_first()),
        }
    }
}

fn fill_attr(attrs: &mut Vec<(String, String)>, key: &str, ph: &str, t: String) -> (r: Result<
    (),
    SlotFault,
>)
    ensures
        match r {
            Ok(_) => attr(old(attrs).deep_view(), key@) == Some(ph@) && final(attrs).deep_view()
                == attrs_with(old(attrs).deep_view(), key@, t@),
            Err(why) => match attr(old(attrs).deep_view(), key@) {
                None => why is NoAttr,
                Some(v) => v != ph@ && why is NotPlaceholder,
            },
        },
{
    match attr_position(attrs, key) {
        None => Err(SlotFault::NoAttr),
        Some(i) => {
            if !str_eq(attrs[i].1.as_str(), ph) {
                return Err(SlotFault::NotPlaceholder);
            }
            set_attr_at(attrs, key, i, t);
            Ok(())
        },
    }
}

fn fill_event(
    ev: &mut XmlEvent,
    kind: SlotKind,
    attr_name: &Option<String>,
    ph: &str,
    t: String,
) -> (r: Result<(), SlotFault>)
    ensures
        match r {
            Ok(_) => filled_event(
                old(ev).deep_view(),
                kind,
                attr_name.deep_view(),
                ph@,
                t@,
            ) == Ok::<_, SlotFault>(final(ev).deep_view()),
            Err(why) => filled_event(
                old(ev).deep_view(),
                kind,
                attr_name.deep_view(),
                ph@,
                t@,
            ) == Err::<EventV, _>(why),
        },
{
    match kind {
        SlotKind::Text => match ev {
            XmlEvent::Text { text } => {
                if !str_eq(text.as_str(), ph) {
                    return Err(SlotFault::NotPlaceholder);
                }
                *text = t;
                Ok(())
            },
            _ => Err(SlotFault::WrongEvent),
        },
        SlotKind::CData => match ev {
            XmlEvent::CData { text } => {
                if !str_eq(text.as_str(), ph) {
                    return Err(SlotFault::NotPlaceholder);
                }
                *text = t;
                Ok(())
            },
            _ => Err(SlotFault::WrongEvent),
        },
        SlotKind::Attr => {
            let key: &str = match attr_name {
                Some(k) => k.as_str(),
                None => return Err(SlotFault::NoAttrName),
            };
            match ev {
                XmlEvent::Start { name, attrs } => fill_attr(attrs, key, ph, t),
                XmlEvent::Empty { name, attrs } => fill_attr(attrs, key, ph, t),
                _ => Err(SlotFault::WrongEvent),
            }
        },
    }
}

proof fn lemma_part_position(parts: Seq<MergePartV>, name: Seq<char>)
    ensures
        match part_position(parts, name) {
            Some(k) => 0 <= k < parts.len() && parts[k].name == name,
            None => forall|k: int| 0 <= k < parts.len() ==> (#[trigger] parts[k]).name != name,
        },
    decreases parts.len(),
{
    if parts.len() > 0 && parts.last().name != name {
        lemma_part_position(parts.drop_last(), name);
        assert forall|k: int|
            part_position(parts, name) is None && 0 <= k < parts.len() implies (
        #[trigger] parts[k]).name != name by {
            if k < parts.len() - 1 {
                assert(parts.drop_last()[k] == parts[k]);
            }
        }
    }
}

fn fill_slot(prefix: &str, texts: &Vec<String>, parts: &mut Vec<MergePart>, slot: &TextSlot) -> (r:
    Result<(), SlotFault>)
    ensures
        match r {
            Ok(_) => filled_slot(
                prefix@,
                texts.deep_view(),
                old(parts).deep_view(),
                slot.deep_view(),
            ) == Ok::<_, SlotFault>(final(parts).deep_view()),
            Err(why) => filled_slot(
                prefix@,
                texts.deep_view(),
                old(parts).deep_view(),
                slot.deep_view(),
            ) == Err::<Seq<MergePartV>, _>(why),
        },
{
    let ph: String = placeholder(prefix, slot.id);
    let n: usize = if slot.id > 0 {
        slot.id - 1
    } else {
        0
    };
    if n >= texts.len() {
        return Err(SlotFault::NoText);
    }
    let t: String = texts[n].clone();
    let k: usize = match find_part(parts, slot.part_name.as_str()) {
        Some(k) => k,
        None => return Err(SlotFault::NoPart),
    };
    let i: usize = slot.event_index;
    if i >= parts[k].part.events.len() {
        return Err(SlotFault::NoEvent);
    }
    let ghost before = parts.deep_view();
    let ghost was = parts@[k as int];
    assert(before[k as int] == was.deep_view());
    assert(was.part.events.deep_view()[i as int] == was.part.events@[i as int].deep_view());
    match fill_event(&mut parts[k].part.events[i], slot.kind, &slot.attr_name, ph.as_str(), t) {
        Ok(_) => {
            proof {
                let now = parts@[k as int];
                assert(now.part.events.deep_view() =~= was.part.events.deep_view().update(
                    i as int,
                    now.part.events@[i as int].deep_view(),
                ));
                assert(parts.deep_view() =~= before.update(k as int, now.deep_view()));
            }
            Ok(())
        },
        Err(why) => Err(why),
    }
}

fn fill_slots(prefix: &str, texts: &Vec<String>, masked: Vec<MergePart>, slots: &Vec<TextSlot>) -> (r:
    Result<Vec<MergePart>, DocxError>)
    ensures
        result_view(r) == filled_slots(
            prefix@,
            texts.deep_view(),
            masked.deep_view(),
            slots.deep_view(),
        ),
{
    let ghost start = masked.deep_view();
    let ghost model = slots.deep_view();
    let mut parts = masked;
    let mut i: usize = 0;
    assert(model.skip(0) =~= model);
    while i < slots.len()
        invariant
            i <= slots@.len(),
            model == slots.deep_view(),
            start == masked.deep_view(),
            filled_slots(prefix@, texts.deep_view(), parts.deep_view(), model.skip(i as int))
                == filled_slots(prefix@, texts.deep_view(), start, model),
        decreases slots@.len() - i,
    {
        let slot: &TextSlot = &slots[i];
        assert(model.skip(i as int)[0] == slot.deep_view());
        assert(model.skip(i as int).drop_first() =~= model.skip(i + 1));
        match fill_slot(prefix, texts, &mut parts, slot) {
            Ok(_) => {},
            Err(why) => {
                let part: String = slot.part_name.clone();
                return Err(
                    DocxError::Slot { id: slot.id, part, event_index: slot.event_index, why },
                );
            },
        }
        i = i + 1;
    }
    Ok(parts)
}

/// The first attribute value that holds `prefix`.
pub open spec fn leftover_attr(prefix: Seq<char>, attrs: AttrsV) -> Option<Seq<char>>
    decreases attrs.len(),
{
    if attrs.len() == 0 {
        None
    } else if has(attrs[0].1, prefix) {
        Some(attrs[0].1)
    } else {
        leftover_attr(prefix, attrs.drop_first())
    }
}

/// The text or attribute value of an event that holds `prefix`.
pub open spec fn leftover_event(prefix: Seq<char>, ev: EventV) -> Option<Seq<char>> {
    match ev {
        EventV::Text { text } => if has(text, prefix) {
            Some(text)
        } else {
            None
        },
        EventV::CData { text } => if has(text, prefix) {
            Some(text)
        } else {
            None
        },
        EventV::Start { attrs, .. } => leftover_attr(prefix, attrs),
        EventV::Empty { attrs, .. } => leftover_attr(prefix, attrs),
        _ => None,
    }
}

/// The first text or attribute value of a part that holds `prefix`.
pub open spec fn leftover_events(prefix: Seq<char>, events: Seq<EventV>) -> Option<Seq<char>>
    decreases events.len(),
{
    if events.len() == 0 {
        None
    } else {
        match leftover_event(prefix, events[0]) {
            Some(t) => Some(t),
            None => leftover_events(prefix, events.drop_first()),
        }
    }
}

/// The first part that holds `prefix` in a text or an attribute value.
pub open spec fn leftover_parts(prefix: Seq<char>, parts: Seq<MergePartV>) -> Option<
    (Seq<char>, Seq<char>),
>
    decreases parts.len(),
{
    if parts.len() == 0 {
        None
    } else {
        match leftover_events(prefix, parts[0].events) {
            Some(t) => Some((parts[0].name, t)),
            None => leftover_parts(prefix, parts.drop_first()),
        }
    }
}

fn find_leftover_attr<'a>(prefix: &str, attrs: &'a Vec<(String, String)>) -> (r: Option<&'a str>)
    ensures
        r.deep_view() == leftover_attr(prefix@, attrs.deep_view()),
{
    let ghost model = attrs.deep_view();
    let mut i: usize = 0;
    assert(model.skip(0) =~= model);
    while i < attrs.len()
        invariant
            i <= attrs@.len(),
            model == attrs.deep_view(),
            leftover_attr(prefix@, model.skip(i as int)) == leftover_attr(prefix@, model),
        decreases attrs@.len() - i,
    {
        assert(model.skip(i as int)[0] == attrs@[i as int].deep_view());
        assert(model.skip(i as int).drop_first() =~= model.skip(i + 1));
        if contains(attrs[i].1.as_str(), prefix) {
            return Some(attrs[i].1.as_str());
        }
        i = i + 1;
    }
    None
}

fn find_leftover_event<'a>(prefix: &str, ev: &'a XmlEvent) -> (r: Option<&'a str>)
    ensures
        r.deep_view() == leftover_event(prefix@, ev.deep_view()),
{
    match ev {
        XmlEvent::Text { text } => if contains(text.as_str(), prefix) {
            Some(text.as_str())
        } else {
            None
        },
        XmlEvent::CData { text } => if contains(text.as_str(), prefix) {
            Some(text.as_str())
        } else {
            None
        },
        XmlEvent::Start { name, attrs } => find_leftover_attr(prefix, attrs),
        XmlEvent::Empty { name, attrs } => find_leftover_attr(prefix, attrs),
        _ => None,
    }
}

fn find_leftover<'a>(prefix: &str, events: &'a Vec<XmlEvent>) -> (r: Option<&'a str>)
    ensures
        r.deep_view() == leftover_events(prefix@, events.deep_view()),
{
    let ghost model = events.deep_view();
    let mut i: usize = 0;
    assert(model.skip(0) =~= model);
    while i < events.len()
        invariant
            i <= events@.len(),
            model == events.deep_view(),
            leftover_events(prefix@, model.skip(i as int)) == leftover_events(prefix@, model),
        decreases events@.len() - i,
    {
        assert(model.skip(i as int)[0] == events@[i as int].deep_view());
        assert(model.skip(i as int).drop_first() =~= model.skip(i + 1));
        if let Some(t) = find_leftover_event(prefix, &events[i]) {
            return Some(t);
        }
        i = i + 1;
    }
    None
}

fn check_leftovers(prefix: &str, parts: &Vec<MergePart>) -> (r: Result<(), DocxError>)
    ensures
        match r {
            Ok(_) => leftover_parts(prefix@, parts.deep_view()) is None,
            Err(e) => match leftover_parts(prefix@, parts.deep_view()) {
                Some((part, text)) => e.deep_view() == (DocxErrorV::Leftover { part, text }),
                None => false,
            },
        },
{
    let ghost model = parts.deep_view();
    let mut i: usize = 0;
    assert(model.skip(0) =~= model);
    while i < parts.len()
        invariant
            i <= parts@.len(),
            model == parts.deep_view(),
            leftover_parts(prefix@, model.skip(i as int)) == leftover_parts(prefix@, model),
        decreases parts@.len() - i,
    {
        assert(model.skip(i as int)[0] == parts@[i as int].deep_view());
        assert(model.skip(i as int).drop_first() =~= model.skip(i + 1));
        if let Some(t) = find_leftover(prefix, &parts[i].part.events) {
            return Err(
                DocxError::Leftover { part: parts[i].part.name.clone(), text: owned(t) },
            );
        }
        i = i + 1;
    }
    Ok(())
}

/// The entries with the data of those that parts were read from replaced by what the parts are
/// written as.
pub open spec fn restored(entries: Seq<EntryV>, parts: Seq<MergePartV>) -> Seq<EntryV>
    decreases parts.len(),
{
    if parts.len() == 0 {
        entries
    } else {
        let p = parts[0];
        let k = p.entry as int;
        restored(
            entries.update(
                k,
                EntryV { data: encode_utf8(events_written(p.events)), ..entries[k] },
            ),
            parts.drop_first(),
        )
    }
}

/// Whether each part comes from one of `n` entries.
pub open spec fn parts_within(parts: Seq<MergePartV>, n: nat) -> bool {
    forall|k: int| 0 <= k < parts.len() ==> (#[trigger] parts[k]).entry < n
}

fn restore_entries(entries: Vec<DocxEntry>, parts: &Vec<MergePart>) -> (r: Vec<DocxEntry>)
    requires
        parts_within(parts.deep_view(), entries@.len()),
    ensures
        r.deep_view() == restored(entries.deep_view(), parts.deep_view()),
{
    let ghost start = entries.deep_view();
    let ghost model = parts.deep_view();
    let mut entries = entries;
    let mut i: usize = 0;
    assert(model.skip(0) =~= model);
    while i < parts.len()
        invariant
            i <= parts@.len(),
            model == parts.deep_view(),
            parts_within(model, entries@.len()),
            restored(entries.deep_view(), model.skip(i as int)) == restored(start, model),
        decreases parts@.len() - i,
    {
        assert(model.skip(i as int)[0] == parts@[i as int].deep_view());
        assert(model.skip(i as int).drop_first() =~= model.skip(i + 1));
        assert(model[i as int].entry < entries@.len());
        let ghost before = entries.deep_view();
        let k: usize = parts[i].entry;
        if let Ok(bytes) = write_xml_part(&parts[i].part) {
            let ghost b = bytes@;
            entries[k].data = bytes;
            assert(entries.deep_view() =~= before.update(
                k as int,
                EntryV { data: b, ..before[k as int] },
            ));
        }
        i = i + 1;
    }
    entries
}

proof fn lemma_parts_within(parts: Seq<MergePartV>, entries: Seq<EntryV>, i: nat)
    requires
        parts_within(parts, entries.len()),
    ensures
        merge_parts(parts, entries, i) matches Ok(p) ==> parts_within(p, entries.len()),
    decreases entries.len() - i,
{
    if i < entries.len() {
        let e = entries[i as int];
        if xml_entry(e) {
            if let Ok(events) = parsed(e.data) {
                let p = MergePartV { name: e.name, entry: i, events };
                lemma_part_position(parts, e.name);
                assert(parts_within(with_part(parts, p), entries.len()));
                lemma_parts_within(with_part(parts, p), entries, i + 1);
            }
        } else {
            lemma_parts_within(parts, entries, i + 1);
        }
    }
}

proof fn lemma_filled_within(
    prefix: Seq<char>,
    texts: Seq<Seq<char>>,
    parts: Seq<MergePartV>,
    slots: Seq<SlotV>,
    n: nat,
)
    requires
        parts_within(parts, n),
    ensures
        filled_slots(prefix, texts, parts, slots) matches Ok(p) ==> parts_within(p, n),
    decreases slots.len(),
{
    if slots.len() > 0 {
        lemma_part_position(parts, slots[0].part_name);
        if let Ok(next) = filled_slot(prefix, texts, parts, slots[0]) {
            lemma_filled_within(prefix, texts, next, slots.drop_first(), n);
        }
    }
}

/// The largest slot id.
pub open spec fn max_slot_id(slots: Seq<SlotV>) -> nat
    decreases slots.len(),
{
    if slots.len() == 0 {
        0
    } else {
        let m = max_slot_id(slots.drop_last());
        if slots.last().id > m {
            slots.last().id
        } else {
            m
        }
    }
}

/// The smallest slot id, or 0 where there are no slots.
pub open spec fn min_slot_id(slots: Seq<SlotV>) -> nat
    decreases slots.len(),
{
    if slots.len() == 0 {
        0
    } else if slots.len() == 1 {
        slots[0].id
    } else {
        let m = min_slot_id(slots.drop_last());
        if slots.last().id < m {
            slots.last().id
        } else {
            m
        }
    }
}

/// Why the three files do not belong together, if they do not.
pub open spec fn merge_fault(mask: MaskV, offsets: OffsetsV, text: PureTextV) -> Option<DocxErrorV> {
    let max_id = max_slot_id(offsets.slots);
    let min_id = min_slot_id(offsets.slots);
    if mask.placeholder_prefix != offsets.placeholder_prefix {
        Some(
            DocxErrorV::PrefixMismatch {
                left: mask.placeholder_prefix,
                right: offsets.placeholder_prefix,
            },
        )
    } else if text.placeholder_prefix != offsets.placeholder_prefix {
        Some(
            DocxErrorV::PrefixMismatch {
                left: text.placeholder_prefix,
                right: offsets.placeholder_prefix,
            },
        )
    } else if offsets.slots.len() > 0 && min_id != 1 {
        Some(DocxErrorV::SlotIdsStart { min_id })
    } else if offsets.slots.len() > 0 && max_id != offsets.slots.len() {
        Some(DocxErrorV::SlotIdsGap { max_id, slots: offsets.slots.len() })
    } else if text.slot_texts.len() != max_id {
        Some(DocxErrorV::SlotTextCount { texts: text.slot_texts.len(), expected: max_id })
    } else {
        None
    }
}

fn slot_id_range(slots: &Vec<TextSlot>) -> (r: (usize, usize))
    ensures
        r.0 == min_slot_id(slots.deep_view()),
        r.1 == max_slot_id(slots.deep_view()),
{
    let ghost model = slots.deep_view();
    let mut min_id: usize = 0;
    let mut max_id: usize = 0;
    let mut i: usize = 0;
    assert(model.take(0) =~= Seq::<SlotV>::empty());
    while i < slots.len()
        invariant
            i <= slots@.len(),
            model == slots.deep_view(),
            min_id == min_slot_id(model.take(i as int)),
            max_id == max_slot_id(model.take(i as int)),
        decreases slots@.len() - i,
    {
        assert(model.take(i + 1).drop_last() =~= model.take(i as int));
        assert(model.take(i + 1).last() == slots@[i as int].deep_view());
        let id: usize = slots[i].id;
        if i == 0 || id < min_id {
            min_id = id;
        }
        if id > max_id {
            max_id = id;
        }
        i = i + 1;
    }
    assert(model.take(i as int) =~= model);
    (min_id, max_id)
}

/// Succeeds where a masked package, its slots and a list of texts belong together.
pub fn check_merge_inputs(mask: &MaskJson, offsets: &OffsetsJson, text: &PureTextJson) -> (r: Result<
    (),
    DocxError,
>)
    ensures
        match r {
            Ok(_) => merge_fault(mask.deep_view(), offsets.deep_view(), text.deep_view()) is None,
            Err(e) => merge_fault(mask.deep_view(), offsets.deep_view(), text.deep_view()) == Some(
                e.deep_view(),
            ),
        },
{
    if !str_eq(mask.placeholder_prefix.as_str(), offsets.placeholder_prefix.as_str()) {
        return Err(
            DocxError::PrefixMismatch {
                left: mask.placeholder_prefix.clone(),
                right: offsets.placeholder_prefix.clone(),
            },
        );
    }
    if !str_eq(text.placeholder_prefix.as_str(), offsets.placeholder_prefix.as_str()) {
        return Err(
            DocxError::PrefixMismatch {
                left: text.placeholder_prefix.clone(),
                right: offsets.placeholder_prefix.clone(),
            },
        );
    }
    let (min_id, max_id) = slot_id_range(&offsets.slots);
    if offsets.slots.len() > 0 {
        if min_id != 1 {
            return Err(DocxError::SlotIdsStart { min_id });
        }
        if max_id != offsets.slots.len() {
            return Err(DocxError::SlotIdsGap { max_id, slots: offsets.slots.len() });
        }
    }
    if text.slot_texts.len() != max_id {
        return Err(
            DocxError::SlotTextCount { texts: text.slot_texts.len(), expected: max_id },
        );
    }
    Ok(())
}

/// The entries of the document that results from putting texts into a masked package.
pub open spec fn merged_entries(
    mask: MaskV,
    offsets: OffsetsV,
    text: PureTextV,
    blobs: Option<Seq<u8>>,
) -> Result<Seq<EntryV>, DocxErrorV> {
    let prefix = offsets.placeholder_prefix;
    match merge_fault(mask, offsets, text) {
        Some(e) => Err(e),
        None => match decoded_entries(blobs, Seq::empty(), mask.entries) {
            Err(e) => Err(e),
            Ok(entries) => match merge_parts(Seq::empty(), entries, 0) {
                Err(e) => Err(e),
                Ok(parts) => match filled_slots(prefix, text.slot_texts, parts, offsets.slots) {
                    Err(e) => Err(e),
                    Ok(filled) => match leftover_parts(prefix, filled) {
                        Some((part, t)) => Err(DocxErrorV::Leftover { part, text: t }),
                        None => Ok(restored(entries, filled)),
                    },
                },
            },
        },
    }
}

fn merge_entries(
    mask: &MaskJson,
    offsets: &OffsetsJson,
    text: &PureTextJson,
    blobs: Option<&Vec<u8>>,
) -> (r: Result<Vec<DocxEntry>, DocxError>)
    ensures
        result_view(r) == merged_entries(
            mask.deep_view(),
            offsets.deep_view(),
            text.deep_view(),
            opt_bytes(blobs),
        ),
        forall|es: Seq<EntryV>, file: Seq<char>| #[trigger]
            taken_from(es, file, mask.deep_view(), offsets.deep_view(), opt_bytes(blobs))
                && texts_for(offsets.deep_view(), text.deep_view()) ==> merged_from(
                es,
                offsets.placeholder_prefix@,
                text.deep_view().slot_texts,
                result_view(r),
            ),
{
    let ghost m = mask.deep_view();
    let ghost o = offsets.deep_view();
    let ghost t = text.deep_view();
    let ghost b = opt_bytes(blobs);
    proof {
        if let Some(v) = blobs {
            assert(v.len() == v@.len());
        }
        assert forall|es: Seq<EntryV>, file: Seq<char>| #[trigger]
            taken_from(es, file, m, o, b) && texts_for(o, t) implies merge_fault(m, o, t) is None
            && decoded_entries(b, Seq::empty(), m.entries) == Ok::<_, DocxErrorV>(
            masked_list(o.placeholder_prefix, es),
        ) by {
            law_masked_package(o.placeholder_prefix, file, es, t);
        }
    }
    match check_merge_inputs(mask, offsets, text) {
        Ok(_) => {},
        Err(e) => return Err(e),
    }
    let entries: Vec<DocxEntry> = match decode_entries(mask, blobs) {
        Ok(v) => v,
        Err(e) => return Err(e),
    };
    let ghost model = entries.deep_view();
    let parts: Vec<MergePart> = match read_parts(&entries) {
        Ok(v) => v,
        Err(e) => {
            proof {
                let k = choose|k: int|
                    0 <= k < entries@.len() && xml_entry(#[trigger] entries.deep_view()[k])
                        && reads_own(entries.deep_view()[k].data) && parsed(
                        entries.deep_view()[k].data,
                    ) is Err;
                assert forall|es: Seq<EntryV>, file: Seq<char>| #[trigger]
                    taken_from(es, file, m, o, b) && texts_for(o, t) implies false by {
                    lemma_masked_part_read(o.placeholder_prefix, es, k);
                }
            }
            return Err(e)
        },
    };
    proof {
        assert forall|es: Seq<EntryV>, file: Seq<char>| #[trigger]
            taken_from(es, file, m, o, b) && texts_for(o, t) implies merged_from(
            es,
            o.placeholder_prefix,
            t.slot_texts,
            merged_entries(m, o, t, b),
        ) by {
            lemma_merge_of_read(es, file, m, o, t, b);
        }
    }
    let ghost parts_model = parts.deep_view();
    let prefix: &str = offsets.placeholder_prefix.as_str();
    let filled: Vec<MergePart> = match fill_slots(prefix, &text.slot_texts, parts, &offsets.slots) {
        Ok(v) => v,
        Err(e) => return Err(e),
    };
    match check_leftovers(prefix, &filled) {
        Ok(_) => {},
        Err(e) => return Err(e),
    }
    proof {
        lemma_parts_within(Seq::empty(), model, 0);
        lemma_filled_within(
            prefix@,
            text.slot_texts.deep_view(),
            parts_model,
            offsets.slots.deep_view(),
            model.len(),
        );
    }
    Ok(restore_entries(entries, &filled))
}

/// Puts texts into a masked package and packs the document. Where the masked package was taken from a
/// document with shaped and plain XML parts that have names of their own, what is packed is that
/// document with the texts in its slots, unless these hold the tag of its placeholders.
pub fn merge_mask_json_and_offsets(
    mask: &MaskJson,
    offsets: &OffsetsJson,
    text: &PureTextJson,
    blobs: Option<&Vec<u8>>,
) -> (r: Result<Vec<u8>, DocxError>)
    ensures
        bytes_result(r) == match merged_entries(
            mask.deep_view(),
            offsets.deep_view(),
            text.deep_view(),
            opt_bytes(blobs),
        ) {
            Err(e) => Err(e),
            Ok(entries) => packed(Seq::empty(), entries),
        },
        r matches Ok(b) ==> match merged_entries(
            mask.deep_view(),
            offsets.deep_view(),
            text.deep_view(),
            opt_bytes(blobs),
        ) {
            Err(_) => false,
            Ok(entries) => reads_back(Seq::empty(), entries, package_of(b@)),
        },
        forall|es: Seq<EntryV>, file: Seq<char>| #[trigger]
            taken_from(es, file, mask.deep_view(), offsets.deep_view(), opt_bytes(blobs))
                && texts_for(offsets.deep_view(), text.deep_view()) ==> {
                let texts = text.deep_view().slot_texts;
                let free = refills_free_of(offsets.placeholder_prefix@, es, texts);
                &&& free ==> bytes_result(r) == packed(Seq::empty(), entries_refilled(es, texts))
                &&& r matches Ok(b) ==> free && reads_back(
                    Seq::empty(),
                    entries_refilled(es, texts),
                    package_of(b@),
                )
            },
{
    match merge_entries(mask, offsets, text, blobs) {
        Err(e) => Err(e),
        Ok(entries) => {
            let none: Vec<(String, Vec<u8>)> = Vec::new();
            let pkg = DocxPackage { entries };
            assert(crate::docx::package::replacements_view(none) =~= Seq::<
                (Seq<char>, Seq<u8>),
            >::empty());
            pkg.write_with_replacements(&none)
        },
    }
}


/// In what two entries differ first, if they do: in their fields, in their bytes, or, where they
/// are XML parts, in the full hash of their events.
pub open spec fn entry_difference(a: EntryV, b: EntryV) -> Option<DocxErrorV> {
    if a.name != b.name {
        Some(DocxErrorV::Differs { entry: a.name, what: Difference::Name })
    } else if a.compression != b.compression {
        Some(DocxErrorV::Differs { entry: a.name, what: Difference::Compression })
    } else if a.last_modified != b.last_modified {
        Some(DocxErrorV::Differs { entry: a.name, what: Difference::Timestamp })
    } else if a.is_dir != b.is_dir {
        Some(DocxErrorV::Differs { entry: a.name, what: Difference::IsDir })
    } else if !xml_name(a.name) {
        if a.data != b.data {
            Some(DocxErrorV::Differs { entry: a.name, what: Difference::Bytes })
        } else {
            None
        }
    } else if a.data.len() == 0 && b.data.len() == 0 {
        None
    } else {
        match parsed(a.data) {
            Err(error) => Some(DocxErrorV::Xml { part: a.name, error }),
            Ok(x) => match parsed(b.data) {
                Err(error) => Some(DocxErrorV::Xml { part: b.name, error }),
                Ok(y) => if full_hash_of(x) != full_hash_of(y) {
                    Some(DocxErrorV::Differs { entry: a.name, what: Difference::Xml })
                } else {
                    None
                },
            },
        }
    }
}

/// The first difference between two sequences of entries of the same length.
pub open spec fn entries_difference(a: Seq<EntryV>, b: Seq<EntryV>) -> Option<DocxErrorV>
    decreases a.len(),
{
    if a.len() == 0 || b.len() == 0 {
        None
    } else {
        match entry_difference(a[0], b[0]) {
            Some(e) => Some(e),
            None => entries_difference(a.drop_first(), b.drop_first()),
        }
    }
}

/// In what two documents differ first, if they do.
pub open spec fn docx_difference(original: Seq<u8>, restored: Seq<u8>) -> Option<DocxErrorV> {
    match package_of(original) {
        Err(e) => Some(e),
        Ok(a) => match package_of(restored) {
            Err(e) => Some(e),
            Ok(b) => if a.len() != b.len() {
                Some(DocxErrorV::Differs { entry: Seq::empty(), what: Difference::Count })
            } else {
                entries_difference(a, b)
            },
        },
    }
}

fn bytes_eq(a: &Vec<u8>, b: &Vec<u8>) -> (r: bool)
    ensures
        r == (a@ == b@),
{
    if a.len() != b.len() {
        return false;
    }
    let mut i: usize = 0;
    while i < a.len()
        invariant
            i <= a@.len(),
            a@.len() == b@.len(),
            forall|j: int| 0 <= j < i ==> a@[j] == b@[j],
        decreases a@.len() - i,
    {
        if a[i] != b[i] {
            return false;
        }
        i = i + 1;
    }
    assert(a@ =~= b@);
    true
}

/// Succeeds where two entries are the same. So are an entry with plain names and its normal form, once
/// written and read.
fn compare_entries(a: &DocxEntry, b: &DocxEntry) -> (r: Result<(), DocxError>)
    ensures
        match r {
            Ok(_) => entry_difference(a.deep_view(), b.deep_view()) is None,
            Err(e) => entry_difference(a.deep_view(), b.deep_view()) == Some(e.deep_view()),
        },
        entry_plain(a.deep_view()) && entry_reads_back(
            Seq::empty(),
            normal(a.deep_view()),
            b.deep_view(),
        ) ==> r is Ok,
{
    proof {
        if entry_plain(a.deep_view()) && entry_reads_back(
            Seq::empty(),
            normal(a.deep_view()),
            b.deep_view(),
        ) {
            law_plain_entry_kept(a.deep_view(), b.deep_view());
        }
    }
    let differs = if !str_eq(a.name.as_str(), b.name.as_str()) {
        Some(Difference::Name)
    } else if a.compression != b.compression {
        Some(Difference::Compression)
    } else if a.last_modified.0 != b.last_modified.0 || a.last_modified.1 != b.last_modified.1 {
        Some(Difference::Timestamp)
    } else if a.is_dir != b.is_dir {
        Some(Difference::IsDir)
    } else if !is_xml_name(a.name.as_str()) {
        if !bytes_eq(&a.data, &b.data) {
            Some(Difference::Bytes)
        } else {
            None
        }
    } else if a.data.len() == 0 && b.data.len() == 0 {
        None
    } else {
        let pa: XmlPart = match parse_xml_part(a.name.as_str(), a.data.as_slice()) {
            Ok(p) => p,
            Err(error) => return Err(DocxError::Xml { part: a.name.clone(), error }),
        };
        let pb: XmlPart = match parse_xml_part(b.name.as_str(), b.data.as_slice()) {
            Ok(p) => p,
            Err(error) => return Err(DocxError::Xml { part: b.name.clone(), error }),
        };
        let ha: String = full_hash(&pa.events);
        let hb: String = full_hash(&pb.events);
        if !str_eq(ha.as_str(), hb.as_str()) {
            Some(Difference::Xml)
        } else {
            None
        }
    };
    match differs {
        Some(what) => Err(DocxError::Differs { entry: a.name.clone(), what }),
        None => Ok(()),
    }
}

/// Succeeds where two documents are the same: the same entries in the same order, with the same
/// bytes, or with the same events where they are XML. A document with plain directories and plain XML
/// parts is the same as its normal form, once written and read.
pub fn verify_docx_roundtrip(original: &[u8], restored: &[u8]) -> (r: Result<(), DocxError>)
    ensures
        match r {
            Ok(_) => docx_difference(original@, restored@) is None,
            Err(e) => docx_difference(original@, restored@) == Some(e.deep_view()),
        },
        package_of(original@) matches Ok(entries) && plain_directories(entries) && parts_plain(entries)
            && reads_back(Seq::empty(), normalized(entries), package_of(restored@)) ==> r is Ok,
{
    let a: DocxPackage = match DocxPackage::read(original) {
        Ok(p) => p,
        Err(e) => return Err(e),
    };
    let b: DocxPackage = match DocxPackage::read(restored) {
        Ok(p) => p,
        Err(e) => return Err(e),
    };
    if a.entries.len() != b.entries.len() {
        let entry: String = String::new();
        return Err(DocxError::Differs { entry, what: Difference::Count });
    }
    let ghost x = a.entries.deep_view();
    let ghost y = b.entries.deep_view();
    let mut i: usize = 0;
    assert(x.skip(0) =~= x);
    assert(y.skip(0) =~= y);
    while i < a.entries.len()
        invariant
            i <= a.entries@.len() == b.entries@.len(),
            x == a.entries.deep_view(),
            y == b.entries.deep_view(),
            package_of(original@) == Ok::<_, DocxErrorV>(x),
            package_of(restored@) == Ok::<_, DocxErrorV>(y),
            entries_read(x),
            entries_difference(x.skip(i as int), y.skip(i as int)) == docx_difference(
                original@,
                restored@,
            ),
        decreases a.entries@.len() - i,
    {
        assert(x.skip(i as int)[0] == a.entries@[i as int].deep_view());
        assert(y.skip(i as int)[0] == b.entries@[i as int].deep_view());
        assert(x.skip(i as int).drop_first() =~= x.skip(i + 1));
        assert(y.skip(i as int).drop_first() =~= y.skip(i + 1));
        proof {
            if plain_directories(x) && parts_plain(x) && reads_back(
                Seq::empty(),
                normalized(x),
                package_of(restored@),
            ) {
                assert(entry_read(x[i as int]));
                let e = x[i as int];
                assert(part_with_content(x, i as int) == (!dir_entry(e) && xml_entry(e)));
                assert(entry_plain(e));
                assert(entry_reads_back(Seq::empty(), normalized(x)[i as int], y[i as int]));
                assert(a.entries@[i as int].deep_view() == x[i as int]);
                assert(b.entries@[i as int].deep_view() == y[i as int]);
            }
        }
        match compare_entries(&a.entries[i], &b.entries[i]) {
            Ok(_) => {},
            Err(e) => return Err(e),
        }
        i = i + 1;
    }
    Ok(())
}

/// `stem` followed by `suffix`, where a file without a stem counts as `docx`.
pub open spec fn output_name(stem: Option<Seq<char>>, suffix: Seq<char>) -> Seq<char> {
    match stem {
        Some(s) => s + suffix,
        None => "docx"@ + suffix,
    }
}

/// `stem` followed by `suffix`, where a file without a stem counts as `docx`.
pub fn output_file_name(stem: Option<&str>, suffix: &str) -> (r: String)
    ensures
        r@ == output_name(stem.deep_view(), suffix@),
{
    let mut s: String = match stem {
        Some(x) => owned(x),
        None => owned("docx"),
    };
    append(&mut s, suffix);
    s
}

/// The names of the files that a masked document is written to, beside the document. `stem` is the
/// name of the document without its extension.
pub fn default_outputs_for(stem: Option<&str>) -> (r: MaskOutputs)
    ensures
        r.mask_json_path@ == output_name(stem.deep_view(), ".mask.json"@),
        r.offsets_json_path@ == output_name(stem.deep_view(), ".offsets.json"@),
        r.blobs_bin_path@ == output_name(stem.deep_view(), ".mask.blobs.bin"@),
{
    MaskOutputs {
        mask_json_path: output_file_name(stem, ".mask.json"),
        offsets_json_path: output_file_name(stem, ".offsets.json"),
        blobs_bin_path: output_file_name(stem, ".mask.blobs.bin"),
    }
}

} // verus!
