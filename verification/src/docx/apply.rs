//! Writing translations into the parts that hold their sources.

use crate::chars::{begins, byte_len, byte_length, ends, ends_with, owned, starts_with, str_eq};
use crate::docx::allocate::total_of;
use crate::docx::decompose::attrs_with;
use crate::docx::project::{
    distribute_span_text_to_nodes, distributed, node_weights, project_translation_to_spans,
    projected, span_weights, ProjectError, SliceV, SpanSlice,
};
use crate::docx::pure_text::{attr, attr_position};
use crate::docx::xml::{
    hashed_attrs, law_set_text_keeps_structure, law_structure_hash_ignores_text, open_tags,
    same_structure, structure_hash_of, text_tag, top, AttrsV, EventV, PartV, XmlEvent, XmlPart,
};
use crate::ir::{NodeV, SpanV, TextNodeKind, TextNodeRef, TranslationUnit, UnitV};
use crate::vecs::push_deep;
use vstd::prelude::*;

verus! {

/// Why a translation cannot be written into its parts.
#[derive(Clone, Copy, Debug, PartialEq, Eq, Structural)]
pub enum ApplyError {
    /// The translation does not fit the spans of its source.
    Project(ProjectError),
    /// A node refers to a part that is not there.
    MissingPart,
    /// A node of an attribute does not name the attribute.
    NoAttrName,
    /// A node of a text does not name the event of the text.
    NoTextIndex,
    /// The event of an element is not there.
    ElemIndex,
    /// The event of a text is not there, or is no text.
    NotText,
    /// The text of a span, with its markers resolved, has 2^53 bytes or more.
    TooLong,
}

/// Attributes with the value of `key` set to `v`: the first attribute of that key is changed, or a new
/// one is added.
pub open spec fn attrs_set(attrs: AttrsV, key: Seq<char>, v: Seq<char>) -> AttrsV {
    if attr(attrs, key) is Some {
        attrs_with(attrs, key, v)
    } else {
        attrs.push((key, v))
    }
}

/// A tag with an attribute set. Other events stay as they are.
pub open spec fn event_with_attr(ev: EventV, key: Seq<char>, v: Seq<char>) -> EventV {
    match ev {
        EventV::Start { name, attrs } => EventV::Start { name, attrs: attrs_set(attrs, key, v) },
        EventV::Empty { name, attrs } => EventV::Empty { name, attrs: attrs_set(attrs, key, v) },
        _ => ev,
    }
}

/// What writing a text into a node does to the events of its part, and whether it failed. A text that
/// begins or ends with a space is marked to keep its white space.
pub open spec fn node_applied(events: Seq<EventV>, node: NodeV, text: Seq<char>) -> (
    Seq<EventV>,
    Result<(), ApplyError>,
) {
    let elem = node.elem_event_index as int;
    match node.kind {
        TextNodeKind::Attr => match node.attr_name {
            None => (events, Err(ApplyError::NoAttrName)),
            Some(key) => if elem >= events.len() {
                (events, Err(ApplyError::ElemIndex))
            } else {
                (events.update(elem, event_with_attr(events[elem], key, text)), Ok(()))
            },
        },
        _ => match node.text_event_index {
            None => (events, Err(ApplyError::NoTextIndex)),
            Some(i) => if i >= events.len() || !(events[i as int] is Text) {
                (events, Err(ApplyError::NotText))
            } else {
                let a = events.update(i as int, EventV::Text { text });
                if !begins(text, " "@) && !ends(text, " "@) {
                    (a, Ok(()))
                } else if elem >= a.len() {
                    (a, Err(ApplyError::ElemIndex))
                } else {
                    (
                        a.update(elem, event_with_attr(a[elem], "xml:space"@, "preserve"@)),
                        Ok(()),
                    )
                }
            },
        },
    }
}

proof fn lemma_attr_first(attrs: AttrsV, key: Seq<char>, v: Seq<char>, i: int)
    requires
        0 <= i < attrs.len(),
        attrs[i].0 == key,
        forall|j: int| 0 <= j < i ==> (#[trigger] attrs[j]).0 != key,
    ensures
        attrs_with(attrs, key, v) == attrs.update(i, (key, v)),
    decreases attrs.len(),
{
    if i > 0 {
        assert(attrs[0].0 != key);
        let rest = attrs.drop_first();
        assert forall|j: int| 0 <= j < i - 1 implies (#[trigger] rest[j]).0 != key by {
            assert(rest[j] == attrs[j + 1]);
        }
        lemma_attr_first(rest, key, v, i - 1);
        assert(attrs_with(attrs, key, v) =~= attrs.update(i, (key, v)));
    }
}

fn set_attr(attrs: &mut Vec<(String, String)>, key: &str, value: &str)
    ensures
        final(attrs).deep_view() == attrs_set(old(attrs).deep_view(), key@, value@),
{
    let ghost model = attrs.deep_view();
    match attr_position(attrs, key) {
        Some(i) => {
            proof {
                assert forall|j: int| 0 <= j < i implies (#[trigger] model[j]).0 != key@ by {
                    assert(attrs@[j].0@ != key@);
                }
                lemma_attr_first(model, key@, value@, i as int);
            }
            attrs[i].1 = owned(value);
            assert(attrs.deep_view() =~= model.update(i as int, (key@, value@)));
        },
        None => push_deep(attrs, (owned(key), owned(value))),
    }
}

fn set_attr_value(ev: &mut XmlEvent, key: &str, value: &str)
    ensures
        final(ev).deep_view() == event_with_attr(old(ev).deep_view(), key@, value@),
{
    match ev {
        XmlEvent::Start { name, attrs } => set_attr(attrs, key, value),
        XmlEvent::Empty { name, attrs } => set_attr(attrs, key, value),
        _ => {},
    }
}

/// Writes a text into a node of a part.
pub fn apply_node_text(part: &mut XmlPart, node_ref: &TextNodeRef, node_text: &str) -> (r: Result<
    (),
    ApplyError,
>)
    ensures
        final(part).events.deep_view() == node_applied(
            old(part).events.deep_view(),
            node_ref.deep_view(),
            node_text@,
        ).0,
        r == node_applied(old(part).events.deep_view(), node_ref.deep_view(), node_text@).1,
        final(part).name == old(part).name,
        final(part).baseline_hash == old(part).baseline_hash,
{
    let ghost model = part.events.deep_view();
    match node_ref.kind {
        TextNodeKind::Attr => {
            let key: &str = match &node_ref.attr_name {
                Some(k) => k.as_str(),
                None => return Err(ApplyError::NoAttrName),
            };
            let elem: usize = node_ref.elem_event_index;
            if elem >= part.events.len() {
                return Err(ApplyError::ElemIndex);
            }
            assert(model[elem as int] == part.events@[elem as int].deep_view());
            set_attr_value(&mut part.events[elem], key, node_text);
            assert(part.events.deep_view() =~= model.update(
                elem as int,
                event_with_attr(model[elem as int], key@, node_text@),
            ));
            Ok(())
        },
        _ => {
            let i: usize = match node_ref.text_event_index {
                Some(i) => i,
                None => return Err(ApplyError::NoTextIndex),
            };
            if i >= part.events.len() {
                return Err(ApplyError::NotText);
            }
            assert(model[i as int] == part.events@[i as int].deep_view());
            let is_text: bool = match &part.events[i] {
                XmlEvent::Text { .. } => true,
                _ => false,
            };
            if !is_text {
                return Err(ApplyError::NotText);
            }
            part.events.set(i, XmlEvent::Text { text: owned(node_text) });
            let ghost a = model.update(i as int, EventV::Text { text: node_text@ });
            assert(part.events.deep_view() =~= a);
            if starts_with(node_text, " ") || ends_with(node_text, " ") {
                let elem: usize = node_ref.elem_event_index;
                if elem >= part.events.len() {
                    return Err(ApplyError::ElemIndex);
                }
                assert(a[elem as int] == part.events@[elem as int].deep_view());
                set_attr_value(&mut part.events[elem], "xml:space", "preserve");
                assert(part.events.deep_view() =~= a.update(
                    elem as int,
                    event_with_attr(a[elem as int], "xml:space"@, "preserve"@),
                ));
            }
            Ok(())
        },
    }
}

/// The position of the part with the name `name`.
pub open spec fn part_at(parts: Seq<PartV>, name: Seq<char>) -> Option<int>
    decreases parts.len(),
{
    if parts.len() == 0 {
        None
    } else if parts.last().name == name {
        Some(parts.len() - 1)
    } else {
        part_at(parts.drop_last(), name)
    }
}

fn find_part(parts: &Vec<XmlPart>, name: &str) -> (r: Option<usize>)
    ensures
        match r {
            Some(i) => i < parts@.len() && part_at(parts.deep_view(), name@) == Some(i as int),
            None => part_at(parts.deep_view(), name@) is None,
        },
{
    let ghost model = parts.deep_view();
    let mut i: usize = parts.len();
    assert(model.take(i as int) =~= model);
    while i > 0
        invariant
            i <= parts@.len(),
            model == parts.deep_view(),
            part_at(model.take(i as int), name@) == part_at(model, name@),
        decreases i,
    {
        assert(model.take(i as int).last() == parts@[i - 1].deep_view());
        assert(model.take(i as int).drop_last() =~= model.take(i - 1));
        if str_eq(parts[i - 1].name.as_str(), name) {
            return Some(i - 1);
        }
        i = i - 1;
    }
    None
}

/// What writing texts into nodes does to the parts, and whether it failed. What was written before a
/// failure stays.
pub open spec fn nodes_applied(parts: Seq<PartV>, nodes: Seq<(NodeV, Seq<char>)>) -> (
    Seq<PartV>,
    Result<(), ApplyError>,
)
    decreases nodes.len(),
{
    if nodes.len() == 0 {
        (parts, Ok(()))
    } else {
        let (node, text) = nodes[0];
        match part_at(parts, node.part_name) {
            None => (parts, Err(ApplyError::MissingPart)),
            Some(k) => {
                let (events, r) = node_applied(parts[k].events, node, text);
                let next = parts.update(k, PartV { events, ..parts[k] });
                match r {
                    Err(e) => (next, Err(e)),
                    Ok(_) => nodes_applied(next, nodes.drop_first()),
                }
            },
        }
    }
}

/// What writing slices into their nodes does to the parts, and whether it failed.
pub open spec fn slices_applied(parts: Seq<PartV>, slices: Seq<SliceV>) -> (
    Seq<PartV>,
    Result<(), ApplyError>,
)
    decreases slices.len(),
{
    if slices.len() == 0 {
        (parts, Ok(()))
    } else if byte_len(slices[0].text) >= 0x20_0000_0000_0000 {
        (parts, Err(ApplyError::TooLong))
    } else {
        let (next, r) = nodes_applied(parts, distributed(slices[0].span, slices[0].text));
        match r {
            Err(e) => (next, Err(e)),
            Ok(_) => slices_applied(next, slices.drop_first()),
        }
    }
}

/// What writing a translation into its nodes does to the parts, and whether it failed.
pub open spec fn unit_applied(parts: Seq<PartV>, tu: UnitV, translated: Seq<char>) -> (
    Seq<PartV>,
    Result<(), ApplyError>,
) {
    match projected(tu.spans, tu.frozen_surface, translated, tu.nt_map) {
        Err(e) => (parts, Err(ApplyError::Project(e))),
        Ok(slices) => slices_applied(parts, slices),
    }
}

fn apply_nodes(parts: &mut Vec<XmlPart>, nodes: &Vec<(TextNodeRef, String)>) -> (r: Result<
    (),
    ApplyError,
>)
    ensures
        final(parts).deep_view() == nodes_applied(old(parts).deep_view(), nodes.deep_view()).0,
        r == nodes_applied(old(parts).deep_view(), nodes.deep_view()).1,
{
    let ghost start = parts.deep_view();
    let ghost model = nodes.deep_view();
    let mut i: usize = 0;
    assert(model.skip(0) =~= model);
    while i < nodes.len()
        invariant
            i <= nodes@.len(),
            model == nodes.deep_view(),
            start == old(parts).deep_view(),
            nodes_applied(parts.deep_view(), model.skip(i as int)) == nodes_applied(start, model),
        decreases nodes@.len() - i,
    {
        let ghost before = parts.deep_view();
        assert(model.skip(i as int)[0] == nodes@[i as int].deep_view());
        assert(model.skip(i as int).drop_first() =~= model.skip(i + 1));
        let k: usize = match find_part(parts, nodes[i].0.part_name.as_str()) {
            Some(k) => k,
            None => return Err(ApplyError::MissingPart),
        };
        assert(before[k as int] == parts@[k as int].deep_view());
        let r = apply_node_text(&mut parts[k], &nodes[i].0, nodes[i].1.as_str());
        proof {
            let (events, res) = node_applied(
                before[k as int].events,
                model[i as int].0,
                model[i as int].1,
            );
            assert(parts.deep_view() =~= before.update(
                k as int,
                PartV { events, ..before[k as int] },
            ));
        }
        match r {
            Ok(_) => {},
            Err(e) => return Err(e),
        }
        i = i + 1;
    }
    Ok(())
}

/// Whether all spans are short enough to be shared out among their nodes.
pub open spec fn spans_fit(spans: Seq<SpanV>) -> bool {
    forall|i: int|
        0 <= i < spans.len() ==> total_of(node_weights((#[trigger] spans[i]).node_refs))
            < 0x20_0000_0000_0000
}

/// Writes a translation into the nodes that held its source.
pub fn apply_translation_unit(
    parts: &mut Vec<XmlPart>,
    tu: &TranslationUnit,
    translated_frozen: &str,
) -> (r: Result<(), ApplyError>)
    requires
        byte_len(translated_frozen@) < 0x20_0000_0000_0000,
        total_of(span_weights(tu.spans.deep_view())) < 0x20_0000_0000_0000,
        spans_fit(tu.spans.deep_view()),
    ensures
        final(parts).deep_view() == unit_applied(
            old(parts).deep_view(),
            tu.deep_view(),
            translated_frozen@,
        ).0,
        r == unit_applied(old(parts).deep_view(), tu.deep_view(), translated_frozen@).1,
{
    let ghost start = parts.deep_view();
    let slices: Vec<SpanSlice> = match project_translation_to_spans(
        &tu.spans,
        tu.frozen_surface.as_str(),
        translated_frozen,
        &tu.nt_map,
    ) {
        Ok(v) => v,
        Err(e) => return Err(ApplyError::Project(e)),
    };
    let ghost model = slices.deep_view();
    proof {
        crate::docx::project::law_projected_spans(
            tu.spans.deep_view(),
            tu.frozen_surface@,
            translated_frozen@,
            tu.nt_map.deep_view(),
        );
    }
    let mut i: usize = 0;
    assert(model.skip(0) =~= model);
    while i < slices.len()
        invariant
            i <= slices@.len(),
            model == slices.deep_view(),
            start == old(parts).deep_view(),
            slices_applied(parts.deep_view(), model.skip(i as int)) == unit_applied(
                start,
                tu.deep_view(),
                translated_frozen@,
            ),
            spans_fit(tu.spans.deep_view()),
            model.len() == tu.spans@.len(),
            forall|j: int|
                0 <= j < model.len() ==> (#[trigger] model[j]).span == tu.spans.deep_view()[j],
        decreases slices@.len() - i,
    {
        assert(model.skip(i as int)[0] == slices@[i as int].deep_view());
        assert(model.skip(i as int).drop_first() =~= model.skip(i + 1));
        if byte_length(slices[i].text.as_str()) as u64 >= 0x20_0000_0000_0000 {
            return Err(ApplyError::TooLong);
        }
        assert(model[i as int].span == tu.spans.deep_view()[i as int]);
        let nodes: Vec<(TextNodeRef, String)> = distribute_span_text_to_nodes(
            &slices[i].span,
            slices[i].text.as_str(),
        );
        match apply_nodes(parts, &nodes) {
            Ok(_) => {},
            Err(e) => return Err(e),
        }
        i = i + 1;
    }
    Ok(())
}


/// Setting the value of a key that is there changes one attribute of that key.
proof fn lemma_attrs_with_at(attrs: AttrsV, key: Seq<char>, v: Seq<char>) -> (i: int)
    requires
        attr(attrs, key) is Some,
    ensures
        0 <= i < attrs.len(),
        attrs[i].0 == key,
        attrs_with(attrs, key, v) == attrs.update(i, (key, v)),
    decreases attrs.len(),
{
    if attrs[0].0 == key {
        0
    } else {
        let i = lemma_attrs_with_at(attrs.drop_first(), key, v);
        assert(attrs_with(attrs, key, v) =~= attrs.update(i + 1, (key, v)));
        i + 1
    }
}

/// Whether the value of a key does not enter the structure hash.
spec fn unhashed(name: Seq<char>, key: Seq<char>) -> bool {
    key == "xml:space"@ || (name == "w:lvlText"@ && key == "w:val"@)
}

proof fn lemma_unhashed_update(name: Seq<char>, attrs: AttrsV, i: int, v: Seq<char>)
    requires
        0 <= i < attrs.len(),
        unhashed(name, attrs[i].0),
    ensures
        hashed_attrs(false, name, attrs.update(i, (attrs[i].0, v))) == hashed_attrs(
            false,
            name,
            attrs,
        ),
    decreases attrs.len(),
{
    let b = attrs.update(i, (attrs[i].0, v));
    if i == attrs.len() - 1 {
        assert(b.drop_last() =~= attrs.drop_last());
    } else {
        lemma_unhashed_update(name, attrs.drop_last(), i, v);
        assert(b.drop_last() =~= attrs.drop_last().update(i, (attrs[i].0, v)));
    }
}

proof fn lemma_set_unhashed(name: Seq<char>, attrs: AttrsV, key: Seq<char>, v: Seq<char>)
    requires
        key == "xml:space"@ || (name == "w:lvlText"@ && key == "w:val"@ && attr(attrs, key) is Some),
    ensures
        hashed_attrs(false, name, attrs_set(attrs, key, v)) == hashed_attrs(false, name, attrs),
{
    if attr(attrs, key) is Some {
        let i = lemma_attrs_with_at(attrs, key, v);
        lemma_unhashed_update(name, attrs, i, v);
    } else {
        assert(attrs.push((key, v)).drop_last() =~= attrs);
    }
}

/// Whether a node refers to text of a document: to a text inside a text tag, or to the text of a list
/// level.
pub open spec fn node_fits(events: Seq<EventV>, node: NodeV) -> bool {
    let elem = node.elem_event_index as int;
    match node.kind {
        TextNodeKind::Attr => {
            &&& node.attr_name == Some("w:val"@)
            &&& elem < events.len()
            &&& match events[elem] {
                EventV::Start { name, attrs } => name == "w:lvlText"@ && attr(attrs, "w:val"@) is Some,
                EventV::Empty { name, attrs } => name == "w:lvlText"@ && attr(attrs, "w:val"@) is Some,
                _ => false,
            }
        },
        _ => match node.text_event_index {
            Some(i) => i < events.len() && elem < events.len() && events[i as int] is Text
                && text_tag(top(open_tags(events.take(i as int)))),
            None => false,
        },
    }
}

/// Writing a text into a node of a document succeeds and keeps the structure of the part.
pub proof fn law_apply_keeps_structure(events: Seq<EventV>, node: NodeV, text: Seq<char>)
    requires
        node_fits(events, node),
    ensures
        node_applied(events, node, text).1 is Ok,
        structure_hash_of(node_applied(events, node, text).0) == structure_hash_of(events),
{
    let elem = node.elem_event_index as int;
    let out = node_applied(events, node, text).0;
    match node.kind {
        TextNodeKind::Attr => {
            lemma_tag_attr_structure(events, elem, "w:val"@, text);
        },
        _ => {
            let i = node.text_event_index->0 as int;
            let a = events.update(i, EventV::Text { text });
            law_set_text_keeps_structure(events, i, text);
            if begins(text, " "@) || ends(text, " "@) {
                lemma_tag_attr_structure(a, elem, "xml:space"@, "preserve"@);
            }
        },
    }
}

proof fn lemma_tag_attr_structure(events: Seq<EventV>, elem: int, key: Seq<char>, v: Seq<char>)
    requires
        0 <= elem < events.len(),
        key == "xml:space"@ || match events[elem] {
            EventV::Start { name, attrs } => name == "w:lvlText"@ && key == "w:val"@ && attr(
                attrs,
                key,
            ) is Some,
            EventV::Empty { name, attrs } => name == "w:lvlText"@ && key == "w:val"@ && attr(
                attrs,
                key,
            ) is Some,
            _ => false,
        },
    ensures
        structure_hash_of(events.update(elem, event_with_attr(events[elem], key, v)))
            == structure_hash_of(events),
{
    let b = events.update(elem, event_with_attr(events[elem], key, v));
    match events[elem] {
        EventV::Start { name, attrs } => lemma_set_unhashed(name, attrs, key, v),
        EventV::Empty { name, attrs } => lemma_set_unhashed(name, attrs, key, v),
        _ => {
            assert(b =~= events);
        },
    }
    assert(same_structure(events, b));
    law_structure_hash_ignores_text(events, b);
}

/// An attribute that is there stays there when one is set.
proof fn lemma_attr_stays(attrs: AttrsV, key: Seq<char>, v: Seq<char>, other: Seq<char>)
    requires
        attr(attrs, other) is Some,
    ensures
        attr(attrs_set(attrs, key, v), other) is Some,
    decreases attrs.len(),
{
    let out = attrs_set(attrs, key, v);
    if attrs[0].0 == other {
        assert(out[0].0 == attrs[0].0);
    } else {
        let rest = attrs.drop_first();
        if attrs[0].0 == key {
            assert(out.drop_first() =~= rest);
        } else {
            lemma_attr_stays(rest, key, v, other);
            assert(out[0].0 == attrs[0].0);
            assert(out.drop_first() =~= attrs_set(rest, key, v));
        }
    }
}

/// Whether two events are of one kind and, as tags, have one name.
spec fn same_tag(a: EventV, b: EventV) -> bool {
    match a {
        EventV::Start { name, .. } => b matches EventV::Start { name: other, .. } && name == other,
        EventV::End { .. } => b is End,
        EventV::Empty { name, .. } => b matches EventV::Empty { name: other, .. } && name == other,
        EventV::Text { .. } => b is Text,
        _ => a == b,
    }
}

proof fn lemma_same_open_tags(a: Seq<EventV>, b: Seq<EventV>)
    requires
        a.len() == b.len(),
        forall|i: int| 0 <= i < a.len() ==> same_tag(#[trigger] a[i], b[i]),
    ensures
        open_tags(a) == open_tags(b),
    decreases a.len(),
{
    if a.len() > 0 {
        let (x, y) = (a.drop_last(), b.drop_last());
        assert forall|i: int| 0 <= i < x.len() implies same_tag(#[trigger] x[i], y[i]) by {
            assert(x[i] == a[i]);
        }
        lemma_same_open_tags(x, y);
        assert(same_tag(a[a.len() - 1], b[a.len() - 1]));
    }
}

proof fn lemma_tag_kept(ev: EventV, key: Seq<char>, v: Seq<char>)
    ensures
        same_tag(ev, event_with_attr(ev, key, v)),
        match ev {
            EventV::Start { name, attrs } => attr(attrs, "w:val"@) is Some ==> attr(
                attrs_set(attrs, key, v),
                "w:val"@,
            ) is Some,
            EventV::Empty { name, attrs } => attr(attrs, "w:val"@) is Some ==> attr(
                attrs_set(attrs, key, v),
                "w:val"@,
            ) is Some,
            _ => true,
        },
{
    match ev {
        EventV::Start { attrs, .. } => if attr(attrs, "w:val"@) is Some {
            lemma_attr_stays(attrs, key, v, "w:val"@);
        },
        EventV::Empty { attrs, .. } => if attr(attrs, "w:val"@) is Some {
            lemma_attr_stays(attrs, key, v, "w:val"@);
        },
        _ => {},
    }
}

/// Nodes that refer to text of a document still do after a text was written into one of them.
proof fn lemma_still_fits(events: Seq<EventV>, node: NodeV, text: Seq<char>, other: NodeV)
    requires
        node_fits(events, node),
        node_fits(events, other),
    ensures
        node_fits(node_applied(events, node, text).0, other),
{
    let out = node_applied(events, node, text).0;
    let elem = node.elem_event_index as int;
    lemma_tag_kept(events[elem], "w:val"@, text);
    lemma_tag_kept(events[elem], "xml:space"@, "preserve"@);
    assert forall|i: int| 0 <= i < events.len() implies same_tag(#[trigger] events[i], out[i]) by {}
    match other.kind {
        TextNodeKind::Attr => {
            assert(same_tag(events[other.elem_event_index as int], out[other.elem_event_index as int]));
        },
        _ => {
            let i = other.text_event_index->0 as int;
            let (x, y) = (events.take(i), out.take(i));
            assert forall|k: int| 0 <= k < x.len() implies same_tag(#[trigger] x[k], y[k]) by {
                assert(x[k] == events[k]);
            }
            lemma_same_open_tags(x, y);
            assert(same_tag(events[i], out[i]));
        },
    }
}

/// The events of a part after texts were written into nodes, one after the other.
pub open spec fn series_applied(events: Seq<EventV>, writes: Seq<(NodeV, Seq<char>)>) -> Seq<EventV>
    decreases writes.len(),
{
    if writes.len() == 0 {
        events
    } else {
        let (node, text) = writes.last();
        node_applied(series_applied(events, writes.drop_last()), node, text).0
    }
}

/// Any number of texts can be written into nodes of a document, in any order and as often as one likes:
/// each time it succeeds, and the structure of the part is kept.
pub proof fn law_series_keeps_structure(events: Seq<EventV>, writes: Seq<(NodeV, Seq<char>)>)
    requires
        forall|k: int| 0 <= k < writes.len() ==> node_fits(events, (#[trigger] writes[k]).0),
    ensures
        structure_hash_of(series_applied(events, writes)) == structure_hash_of(events),
        forall|k: int|
            0 <= k < writes.len() ==> node_applied(
                series_applied(events, writes.take(k)),
                (#[trigger] writes[k]).0,
                writes[k].1,
            ).1 is Ok,
        forall|node: NodeV| #[trigger]
            node_fits(events, node) ==> node_fits(series_applied(events, writes), node),
    decreases writes.len(),
{
    if writes.len() > 0 {
        let front = writes.drop_last();
        assert forall|k: int| 0 <= k < front.len() implies node_fits(
            events,
            (#[trigger] front[k]).0,
        ) by {
            assert(front[k] == writes[k]);
        }
        law_series_keeps_structure(events, front);
        let before = series_applied(events, front);
        let (node, text) = writes.last();
        assert(writes[writes.len() - 1].0 == node);
        law_apply_keeps_structure(before, node, text);
        assert forall|other: NodeV| #[trigger] node_fits(events, other) implies node_fits(
            series_applied(events, writes),
            other,
        ) by {
            lemma_still_fits(before, node, text, other);
        }
        assert forall|k: int| 0 <= k < writes.len() implies node_applied(
            series_applied(events, writes.take(k)),
            (#[trigger] writes[k]).0,
            writes[k].1,
        ).1 is Ok by {
            if k < front.len() {
                assert(front.take(k) =~= writes.take(k));
                assert(front[k] == writes[k]);
            } else {
                assert(writes.take(k) =~= front);
            }
        }
    }
}

} // verus!
