//! How paragraphs are styled, and which headers and footers the sections of a document have.

use crate::chars::{
    begins, is_blank, is_ws, law_trimmed, lemma_trimmed_empty, occurs_at, trimmed,
};
use crate::docx::package::EntryV;
use crate::docx::pure_text::{
    attr, attr_trimmed, body_run, direct_run, entry_data, i32_attr, law_margin_paragraphs,
    margin_place, new_capture, rel_target, section_run, section_step, section_tag,
    with_header_footer, with_paragraph, with_sections, CaptureV, ParaContainer, ParaV, PlaceV,
    SectionV, SectionsV,
};
use crate::docx::shape::closes;
use crate::docx::shown::{
    added, around, balanced, begins_from, first_attr_is, gathered, lacks_attr,
    law_margin_paragraphs_show_their_runs, lemma_around_step, lemma_attr, lemma_body_gathers,
    lemma_body_out, lemma_lengths, opens_para_in, shown, spans, was_read_in, within_tag,
};
use crate::docx::xml::{parsed, top, AttrsV, EventV};
use crate::pipeline::text::lemma_nothing_replaced;
use vstd::prelude::*;

verus! {

/// Whether a way leads from a paragraph into its own properties.
pub open spec fn own_props(way: Seq<Seq<char>>) -> bool {
    way.len() > 0 && way[0] == "w:pPr"@
}

/// The attributes of the tag at `k`, where it has the name `tag` and stands directly in a tag `parent`
/// among the properties of the paragraph that the event at `s` opens.
pub open spec fn property_at(
    events: Seq<EventV>,
    s: int,
    k: int,
    tag: Seq<char>,
    parent: Seq<char>,
) -> Option<AttrsV> {
    let way = within_tag(events, s, k);
    if !own_props(way) || way.last() != parent {
        None
    } else {
        match events[k] {
            EventV::Start { name, attrs } if name == tag => Some(attrs),
            EventV::Empty { name, attrs } if name == tag => Some(attrs),
            _ => None,
        }
    }
}

/// The last style that is not blank among the properties of a paragraph, before the event at `n`.
pub open spec fn style_in(events: Seq<EventV>, s: int, n: int) -> Option<Seq<char>>
    decreases n - s,
{
    if n <= s + 1 {
        None
    } else {
        match property_at(events, s, n - 1, "w:pStyle"@, "w:pPr"@) {
            Some(attrs) => match attr(attrs, "w:val"@) {
                Some(v) if !is_blank(v) => Some(trimmed(v)),
                _ => style_in(events, s, n - 1),
            },
            None => style_in(events, s, n - 1),
        }
    }
}

/// The first number that a tag holds among the properties of a paragraph, before the event at `n`.
pub open spec fn number_in(
    events: Seq<EventV>,
    s: int,
    n: int,
    tag: Seq<char>,
    parent: Seq<char>,
) -> Option<int>
    decreases n - s,
{
    if n <= s + 1 {
        None
    } else {
        let before = number_in(events, s, n - 1, tag, parent);
        if before is Some {
            before
        } else {
            match property_at(events, s, n - 1, tag, parent) {
                Some(attrs) => i32_attr(attrs, "w:val"@),
                None => None,
            }
        }
    }
}

/// Whether no tag of properties that closes itself stands directly in the paragraph that the event at
/// `s` opens, before the event at `n`.
pub open spec fn props_open(events: Seq<EventV>, s: int, n: int) -> bool {
    forall|k: int|
        s < k < n ==> !(#[trigger] events[k] is Empty && events[k]->Empty_name == "w:pPr"@
            && within_tag(events, s, k).len() == 0)
}

/// Whether what was gathered of the style of a paragraph before the event at `n` is what its properties
/// say.
spec fn styled(events: Seq<EventV>, n: int, cap: CaptureV) -> bool {
    let s = cap.start as int;
    let way = within_tag(events, s, n);
    &&& cap.ppr == (if own_props(way) {
        Some((cap.p + 1) as nat)
    } else {
        None
    })
    &&& cap.p_style == style_in(events, s, n)
    &&& cap.num_id == number_in(events, s, n, "w:numId"@, "w:numPr"@)
    &&& cap.num_ilvl == number_in(events, s, n, "w:ilvl"@, "w:numPr"@)
    &&& cap.outline_lvl == number_in(events, s, n, "w:outlineLvl"@, "w:pPr"@)
}

proof fn lemma_num_names()
    ensures
        "w:numPr"@.len() == 7,
        "w:numPr"@[5] == 'P',
        "w:numId"@[5] == 'I',
        "w:pPr"@[2] == 'p',
{
    reveal_strlit("w:numPr");
    reveal_strlit("w:numId");
    reveal_strlit("w:pPr");
}

proof fn lemma_styled_step(events: Seq<EventV>, n: int, cap: CaptureV)
    requires
        balanced(events),
        gathered(events, n, cap),
        styled(events, n, cap),
        n < events.len(),
        events[n] is End ==> around(events, n).len() > cap.p,
        props_open(events, cap.start as int, n + 1),
    ensures
        styled(events, n + 1, added(cap, around(events, n), events[n])),
{
    let s = cap.start as int;
    let p = cap.p as int;
    let stack = around(events, n);
    let way = within_tag(events, s, n);
    let now = around(events, n + 1);
    lemma_around_step(events, n);
    assert(closes(events, n));
    lemma_lengths();
    lemma_num_names();
    assert(way == stack.skip(p));
    assert(around(events, n).len() >= p);
    assert(stack.len() == p + way.len());
    assert(top(stack) == (if way.len() > 0 {
        way.last()
    } else {
        "w:p"@
    })) by {
        if way.len() == 0 {
            assert(stack.take(p) =~= stack);
        }
    }
    let next = added(cap, stack, events[n]);
    match events[n] {
        EventV::Start { name, attrs } => {
            assert(now.skip(p) =~= way.push(name));
            if let Some(v) = attr(attrs, "w:val"@) {
                lemma_trimmed_empty(v);
            }
            assert(own_props(way.push(name)) <==> own_props(way) || (way.len() == 0 && name
                == "w:pPr"@));
        },
        EventV::Empty { name, attrs } => {
            assert(!(events[n] is Empty && events[n]->Empty_name == "w:pPr"@ && within_tag(
                events,
                s,
                n,
            ).len() == 0));
            if let Some(v) = attr(attrs, "w:val"@) {
                lemma_trimmed_empty(v);
            }
        },
        EventV::End { name } => {
            assert(now.skip(p) =~= way.drop_last());
            assert(own_props(way.drop_last()) <==> own_props(way) && way.len() > 1);
        },
        _ => {},
    }
}

proof fn lemma_styled(part_name: Seq<char>, events: Seq<EventV>, n: int)
    requires
        balanced(events),
        0 <= n <= events.len(),
    ensures
        body_run(part_name, events.take(n)).capturing matches Some(c) ==> (props_open(
            events,
            c.cap.start as int,
            n,
        ) ==> styled(events, n, c.cap)),
    decreases n,
{
    if n == 0 {
        assert(events.take(0) =~= Seq::empty());
    } else {
        let m = n - 1;
        let before = body_run(part_name, events.take(m));
        let st = body_run(part_name, events.take(n));
        lemma_styled(part_name, events, m);
        lemma_body_gathers(part_name, events, m);
        lemma_body_gathers(part_name, events, n);
        lemma_around_step(events, m);
        lemma_lengths();
        if let Some(c) = st.capturing {
            match before.capturing {
                Some(b) => {
                    assert(around(events, m).len() >= b.cap.p);
                    if props_open(events, c.cap.start as int, n) {
                        crate::docx::shown::lemma_same_start(b.cap, around(events, m), events[m]);
                        assert(c.cap == added(b.cap, around(events, m), events[m]));
                        assert(c.cap.start == b.cap.start);
                        if events[m] is End {
                            assert(around(events, n).len() >= c.cap.p);
                        }
                        lemma_styled_step(events, m, b.cap);
                    }
                },
                None => {
                    let new = new_capture(m as nat, around(events, m).len() + 1);
                    assert(c.cap == new);
                    assert(within_tag(events, m, n) =~= Seq::<Seq<char>>::empty());
                },
            }
        }
    }
}

/// Whether a paragraph has the style, the list and the level that its properties say, up to the event
/// at `e`.
pub open spec fn styled_by(events: Seq<EventV>, para: ParaV, e: int) -> bool {
    let s = para.xml_event_index as int;
    &&& spans(events, s, e)
    &&& props_open(events, s, e) ==> {
        &&& para.p_style == style_in(events, s, e)
        &&& para.num_id == number_in(events, s, e, "w:numId"@, "w:numPr"@)
        &&& para.num_ilvl == number_in(events, s, e, "w:ilvl"@, "w:numPr"@)
        &&& para.outline_lvl == number_in(events, s, e, "w:outlineLvl"@, "w:pPr"@)
    }
}

/// Whether a paragraph has the style, the list and the level that its properties say.
pub open spec fn has_its_style(events: Seq<EventV>, para: ParaV) -> bool {
    exists|e: int| #[trigger] styled_by(events, para, e)
}

proof fn lemma_body_styled(part_name: Seq<char>, events: Seq<EventV>, n: int)
    requires
        balanced(events),
        0 <= n <= events.len(),
    ensures
        ({
            let out = body_run(part_name, events.take(n)).out;
            forall|i: int| 0 <= i < out.len() ==> has_its_style(events, #[trigger] out[i])
        }),
    decreases n,
{
    if n == 0 {
        assert(events.take(0) =~= Seq::empty());
    } else {
        let m = n - 1;
        let st = body_run(part_name, events.take(m));
        lemma_body_styled(part_name, events, m);
        lemma_body_out(part_name, events, m);
        lemma_styled(part_name, events, m);
        match st.capturing {
            Some(c) if events[m] is End && around(events, m).len() == c.cap.p => {
                let out = with_paragraph(st.out, part_name, c.cap, c.place);
                assert forall|i: int| 0 <= i < out.len() implies has_its_style(
                    events,
                    #[trigger] out[i],
                ) by {
                    if i < st.out.len() {
                        assert(out[i] == st.out[i]);
                    } else {
                        assert(styled_by(events, out[i], m));
                    }
                }
            },
            _ => {},
        }
    }
}

/// The paragraphs of the body have the style, the list number and level, and the outline level that
/// their own properties say: of styles the last that is not blank, and of numbers the first.
pub proof fn law_paragraphs_have_their_styles(part_name: Seq<char>, events: Seq<EventV>)
    requires
        balanced(events),
    ensures
        forall|i: int|
            0 <= i < body_run(part_name, events).out.len() ==> has_its_style(
                events,
                #[trigger] body_run(part_name, events).out[i],
            ),
{
    let n = events.len() as int;
    assert(events.take(n) =~= events);
    lemma_body_styled(part_name, events, n);
}

/// Whether the event at `k` is the tag of the properties of a section: directly in the body, or in the
/// properties of a paragraph there.
pub open spec fn opens_section(events: Seq<EventV>, k: int) -> bool {
    let tags = around(events, k);
    let n = tags.len() as int;
    &&& match events[k] {
        EventV::Start { name, .. } => name == "w:sectPr"@,
        EventV::Empty { name, .. } => name == "w:sectPr"@,
        _ => false,
    }
    &&& n > 0 && tags[n - 1] == "w:body"@ || n > 2 && tags[n - 1] == "w:pPr"@ && tags[n - 2]
        == "w:p"@ && tags[n - 3] == "w:body"@
}

/// The last reference of a kind, for all pages, between the events at `s` and `n`.
pub open spec fn reference_in(events: Seq<EventV>, s: int, n: int, tag: Seq<char>) -> Option<
    Seq<char>,
>
    decreases n - s,
{
    if n <= s + 1 {
        None
    } else {
        let found = match events[n - 1] {
            EventV::Start { name, attrs } if name == tag => Some(attrs),
            EventV::Empty { name, attrs } if name == tag => Some(attrs),
            _ => None,
        };
        match found {
            Some(attrs) if (lacks_attr(attrs, "w:type"@) || first_attr_is(
                attrs,
                "w:type"@,
                "default"@,
            )) && attr_trimmed(attrs, "r:id"@).len() > 0 => Some(attr_trimmed(attrs, "r:id"@)),
            _ => reference_in(events, s, n - 1, tag),
        }
    }
}

/// What is gathered of a section before the event at `n`.
spec fn in_section(events: Seq<EventV>, s: int, n: int, start: SectionsV, st: SectionsV) -> bool {
    &&& st.stack == around(events, n)
    &&& st.sectpr == Some(around(events, s).len())
    &&& st.sections == start.sections
    &&& st.cur == start.cur
    &&& st.pending.header == reference_in(events, s, n, "w:headerReference"@)
    &&& st.pending.footer == reference_in(events, s, n, "w:footerReference"@)
}

proof fn lemma_section_names()
    ensures
        "w:headerReference"@.len() == 17,
        "w:footerReference"@.len() == 17,
        "w:headerReference"@[2] == 'h',
        "w:footerReference"@[2] == 'f',
        "w:sectPr"@.len() == 8,
        "w:body"@.len() == 6,
        "w:pPr"@.len() == 5,
{
    reveal_strlit("w:headerReference");
    reveal_strlit("w:footerReference");
    reveal_strlit("w:sectPr");
    reveal_strlit("w:body");
    reveal_strlit("w:pPr");
}

proof fn lemma_section_stack(events: Seq<EventV>, n: int)
    requires
        0 <= n <= events.len(),
    ensures
        section_run(events.take(n)).stack == around(events, n),
    decreases n,
{
    if n == 0 {
        assert(events.take(0) =~= Seq::empty());
    } else {
        lemma_section_stack(events, n - 1);
        lemma_around_step(events, n - 1);
    }
}

proof fn lemma_section_tag(events: Seq<EventV>, k: int)
    requires
        0 <= k < events.len(),
    ensures
        events[k] matches EventV::Start { name, .. } ==> (section_tag(name, around(events, k))
            <==> opens_section(events, k)),
        events[k] matches EventV::Empty { name, .. } ==> (section_tag(name, around(events, k))
            <==> opens_section(events, k)),
{
    lemma_section_names();
}

proof fn lemma_in_section(events: Seq<EventV>, s: int, n: int)
    requires
        balanced(events),
        0 <= s < n <= events.len(),
        events[s] is Start,
        opens_section(events, s),
        forall|k: int| s < k < n ==> !#[trigger] opens_section(events, k),
        forall|k: int| s < k <= n ==> #[trigger] around(events, k).len() > around(events, s).len(),
    ensures
        in_section(
            events,
            s,
            n,
            section_run(events.take(s)),
            section_run(events.take(n)),
        ),
    decreases n,
{
    let m = n - 1;
    let start = section_run(events.take(s));
    let before = section_run(events.take(m));
    let now = section_run(events.take(n));
    lemma_section_stack(events, m);
    lemma_section_stack(events, n);
    lemma_around_step(events, m);
    lemma_section_tag(events, m);
    lemma_section_names();
    assert(now == section_step(before, events[m]));
    if m > s {
        lemma_in_section(events, s, m);
        assert(closes(events, m));
        assert(!opens_section(events, m));
        match events[m] {
            EventV::Start { name, attrs } => {
                lemma_attr(attrs, "w:type"@);
                assert(first_attr_is(attrs, "w:type"@, "default"@) <==> attr(attrs, "w:type"@)
                    == Some("default"@));
            },
            EventV::Empty { name, attrs } => {
                lemma_attr(attrs, "w:type"@);
                assert(first_attr_is(attrs, "w:type"@, "default"@) <==> attr(attrs, "w:type"@)
                    == Some("default"@));
            },
            EventV::End { name } => {
                assert(around(events, n).len() > around(events, s).len());
            },
            _ => {},
        }
    }
}

/// A section has the header and the footer that its own properties refer to for all pages, the last of
/// each kind, and where they refer to none, those of the section before it. It comes behind the
/// sections before it.
pub proof fn law_section_has_its_margins(events: Seq<EventV>, s: int, e: int)
    requires
        balanced(events),
        spans(events, s, e),
        opens_section(events, s),
        forall|k: int| s < k < e ==> !#[trigger] opens_section(events, k),
    ensures
        ({
            let before = section_run(events.take(s));
            let after = section_run(events.take(e + 1));
            let own = after.sections.last();
            &&& after.sections == before.sections.push(own)
            &&& own.header == (match reference_in(events, s, e, "w:headerReference"@) {
                Some(id) => Some(id),
                None => before.cur.header,
            })
            &&& own.footer == (match reference_in(events, s, e, "w:footerReference"@) {
                Some(id) => Some(id),
                None => before.cur.footer,
            })
            &&& after.cur == own
        }),
{
    lemma_in_section(events, s, e);
    lemma_around_step(events, e);
    lemma_section_stack(events, e);
    assert(closes(events, e));
    crate::docx::shown::lemma_spans_prefix(events, s, e);
    let tags = around(events, e);
    assert(tags.take(tags.len() as int) =~= tags);
    let before = section_run(events.take(e));
    let now = section_run(events.take(e + 1));
    assert(now == section_step(before, events[e]));
    assert(now.sections.drop_last() =~= before.sections);
    assert(now.sections =~= section_run(events.take(s)).sections.push(now.sections.last()));
}

/// A relationship gives the part that its target names, in the directory of the document, and the last
/// one of an id counts.
pub proof fn law_relationship_names_its_part(
    rels: Seq<EventV>,
    attrs: AttrsV,
    id: Seq<char>,
    target: Seq<char>,
)
    requires
        first_attr_is(attrs, "Id"@, id),
        first_attr_is(attrs, "Target"@, target),
        id.len() > 0 && !is_ws(id[0]) && !is_ws(id.last()),
        target.len() > 0 && !is_ws(target[0]) && !is_ws(target.last()),
        target[0] != '/' && target[0] != '.',
        forall|i: int| 0 <= i < target.len() ==> #[trigger] target[i] != '\\',
    ensures
        rel_target(rels.push(EventV::Empty { name: "Relationship"@, attrs }), id) == Some(
            "word/"@ + target,
        ),
        forall|other: Seq<char>|
            other != id ==> #[trigger] rel_target(
                rels.push(EventV::Empty { name: "Relationship"@, attrs }),
                other,
            ) == rel_target(rels, other),
{
    let ev = EventV::Empty { name: "Relationship"@, attrs };
    assert(rels.push(ev).drop_last() =~= rels);
    lemma_attr(attrs, "Id"@);
    lemma_attr(attrs, "Target"@);
    assert(attr(attrs, "Id"@) == Some(id));
    assert(attr(attrs, "Target"@) == Some(target));
    let none = Seq::<char>::empty();
    law_trimmed(none, id, none);
    law_trimmed(none, target, none);
    assert(none + id + none =~= id);
    assert(none + target + none =~= target);
    let b = "\\"@;
    reveal_strlit("\\");
    reveal_strlit("/");
    reveal_strlit("../");
    assert forall|k: int| 0 <= k implies !#[trigger] occurs_at(target, b, k) by {
        if occurs_at(target, b, k) {
            assert(target.subrange(k, k + 1)[0] == b[0]);
        }
    }
    lemma_nothing_replaced(target, b, "/"@, 0);
    assert(target.skip(0) =~= target);
    assert(!begins(target, "/"@)) by {
        if begins(target, "/"@) {
            assert(target.subrange(0, 1)[0] == "/"@[0]);
        }
    }
    assert(!begins(target, "../"@)) by {
        if begins(target, "../"@) {
            assert(target.subrange(0, 3)[0] == "../"@[0]);
        }
    }
}

proof fn lemma_margin_keeps(
    entries: Seq<EntryV>,
    rels: Seq<EventV>,
    out: Seq<ParaV>,
    rid: Option<Seq<char>>,
    root: Seq<char>,
    place: PlaceV,
)
    ensures
        with_header_footer(entries, rels, out, rid, root, place) matches Ok(r) ==> out.len()
            <= r.len() && forall|k: int| 0 <= k < out.len() ==> #[trigger] r[k] == out[k],
{
    if let Some(id) = rid {
        if let Some(name) = rel_target(rels, id) {
            if let Some(data) = entry_data(entries, name) {
                if let Ok(events) = parsed(data) {
                    law_margin_paragraphs(name, root, place, out, events);
                    let r = direct_run(name, root, place, out, events).out;
                    assert forall|k: int| 0 <= k < out.len() implies #[trigger] r[k] == out[k] by {
                        assert(r.take(out.len() as int)[k] == r[k]);
                    }
                }
            }
        }
    }
}

proof fn lemma_sections_keep(
    entries: Seq<EntryV>,
    rels: Seq<EventV>,
    out: Seq<ParaV>,
    sections: Seq<SectionV>,
    i: nat,
)
    ensures
        with_sections(entries, rels, out, sections, i) matches Ok(r) ==> out.len() <= r.len()
            && forall|k: int| 0 <= k < out.len() ==> #[trigger] r[k] == out[k],
    decreases sections.len() - i,
{
    if i < sections.len() {
        let s = sections[i as int];
        let hp = margin_place(ParaContainer::Header, i + 1);
        let fp = margin_place(ParaContainer::Footer, i + 1);
        lemma_margin_keeps(entries, rels, out, s.header, "w:hdr"@, hp);
        if let Ok(a) = with_header_footer(entries, rels, out, s.header, "w:hdr"@, hp) {
            lemma_margin_keeps(entries, rels, a, s.footer, "w:ftr"@, fp);
            if let Ok(b) = with_header_footer(entries, rels, a, s.footer, "w:ftr"@, fp) {
                lemma_sections_keep(entries, rels, b, sections, i + 1);
                if let Ok(r) = with_sections(entries, rels, b, sections, i + 1) {
                    assert forall|k: int| 0 <= k < out.len() implies #[trigger] r[k] == out[k] by {
                        assert(a[k] == out[k]);
                        assert(b[k] == a[k]);
                    }
                }
            }
        }
    }
}

/// Whether the events at `s` and `e` are the tags of a paragraph directly in a tag, in which no other
/// such begins.
pub open spec fn whole_para_in(events: Seq<EventV>, root: Seq<char>, s: int, e: int) -> bool {
    &&& spans(events, s, e)
    &&& opens_para_in(events, root, s)
    &&& forall|j: int| s < j < e ==> !#[trigger] opens_para_in(events, root, j)
}

/// Whether one of the paragraphs was read from a part, at an event, for a section.
pub open spec fn is_read(
    paras: Seq<ParaV>,
    name: Seq<char>,
    container: ParaContainer,
    section: nat,
    s: int,
) -> bool {
    exists|k: int|
        0 <= k < paras.len() && (#[trigger] paras[k]).part_name == name && paras[k].container
            == container && paras[k].section_index == Some(section) && paras[k].xml_event_index == s
}

proof fn lemma_margin_is_read(
    entries: Seq<EntryV>,
    rels: Seq<EventV>,
    out: Seq<ParaV>,
    id: Seq<char>,
    root: Seq<char>,
    place: PlaceV,
    name: Seq<char>,
    data: Seq<u8>,
    events: Seq<EventV>,
    section: nat,
    s: int,
    e: int,
)
    requires
        rel_target(rels, id) == Some(name),
        entry_data(entries, name) == Some(data),
        data.len() > 0,
        parsed(data) matches Ok(found) && found == events,
        place.section == Some(section),
        balanced(events),
        whole_para_in(events, root, s, e),
        !is_blank(shown(events, s, s + 1, e)),
    ensures
        with_header_footer(entries, rels, out, Some(id), root, place) matches Ok(r) && is_read(
            r,
            name,
            place.container,
            section,
            s,
        ),
{
    law_margin_paragraphs_show_their_runs(name, root, place, out, events);
    law_margin_paragraphs(name, root, place, out, events);
    let r = direct_run(name, root, place, out, events).out;
    assert(spans(events, s, e));
    assert(begins_from(r, out.len(), s));
    let k = choose|k: int| out.len() <= k < r.len() && (#[trigger] r[k]).xml_event_index == s;
    assert(was_read_in(events, root, place, r[k]));
    assert(r[k].part_name == name);
}

/// Every paragraph directly in the header or the footer of a section that shows anything but white
/// space is read, for that section, whatever else is read before it and after it.
pub proof fn law_margins_are_read(
    entries: Seq<EntryV>,
    rels: Seq<EventV>,
    out: Seq<ParaV>,
    sections: Seq<SectionV>,
    i: nat,
    n: nat,
    footer: bool,
    name: Seq<char>,
    data: Seq<u8>,
    events: Seq<EventV>,
    s: int,
    e: int,
)
    requires
        i <= n < sections.len(),
        ({
            let id = if footer {
                sections[n as int].footer
            } else {
                sections[n as int].header
            };
            id matches Some(id) && rel_target(rels, id) == Some(name)
        }),
        entry_data(entries, name) == Some(data),
        data.len() > 0,
        parsed(data) matches Ok(found) && found == events,
        balanced(events),
        whole_para_in(
            events,
            if footer {
                "w:ftr"@
            } else {
                "w:hdr"@
            },
            s,
            e,
        ),
        !is_blank(shown(events, s, s + 1, e)),
    ensures
        with_sections(entries, rels, out, sections, i) matches Ok(r) ==> is_read(
            r,
            name,
            if footer {
                ParaContainer::Footer
            } else {
                ParaContainer::Header
            },
            n + 1,
            s,
        ),
    decreases sections.len() - i,
{
    let c = sections[i as int];
    let hp = margin_place(ParaContainer::Header, i + 1);
    let fp = margin_place(ParaContainer::Footer, i + 1);
    if let Ok(a) = with_header_footer(entries, rels, out, c.header, "w:hdr"@, hp) {
        if let Ok(b) = with_header_footer(entries, rels, a, c.footer, "w:ftr"@, fp) {
            if i < n {
                law_margins_are_read(
                    entries,
                    rels,
                    b,
                    sections,
                    i + 1,
                    n,
                    footer,
                    name,
                    data,
                    events,
                    s,
                    e,
                );
            } else {
                lemma_sections_keep(entries, rels, b, sections, i + 1);
                lemma_margin_keeps(entries, rels, a, c.footer, "w:ftr"@, fp);
                if let Ok(r) = with_sections(entries, rels, b, sections, i + 1) {
                    if footer {
                        let id = c.footer->Some_0;
                        lemma_margin_is_read(
                            entries,
                            rels,
                            a,
                            id,
                            "w:ftr"@,
                            fp,
                            name,
                            data,
                            events,
                            i + 1,
                            s,
                            e,
                        );
                        let k = choose|k: int|
                            0 <= k < b.len() && (#[trigger] b[k]).part_name == name
                                && b[k].container == ParaContainer::Footer && b[k].section_index
                                == Some(i + 1) && b[k].xml_event_index == s;
                        assert(r[k] == b[k]);
                    } else {
                        let id = c.header->Some_0;
                        lemma_margin_is_read(
                            entries,
                            rels,
                            out,
                            id,
                            "w:hdr"@,
                            hp,
                            name,
                            data,
                            events,
                            i + 1,
                            s,
                            e,
                        );
                        let k = choose|k: int|
                            0 <= k < a.len() && (#[trigger] a[k]).part_name == name
                                && a[k].container == ParaContainer::Header && a[k].section_index
                                == Some(i + 1) && a[k].xml_event_index == s;
                        assert(b[k] == a[k]);
                        assert(r[k] == b[k]);
                    }
                }
            }
        }
    }
}

} // verus!
