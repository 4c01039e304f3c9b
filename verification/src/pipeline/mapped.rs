//! Which slots the units of paragraphs hold: those of the texts that the paragraphs show.

use crate::docx::decompose::{
    file_prefix, mask_entries, mask_entry, mask_run, mask_start, masked_of, slot_texts_of,
    slot_texts_of_entries, xml_entry, MaskStateV, SlotKind, SlotV,
};
use crate::docx::package::{dir_entry, package_of, xml_name, xml_only, EntryV};
use crate::docx::pure_text::ParaV;
use crate::docx::shape::closes;
use crate::docx::shown::{
    around, balanced, count_of, lemma_around_step, lemma_spans_prefix, spans, within_tag,
};
use crate::docx::xml::{parsed, EventV};
use crate::pipeline::docmap::{
    bare_unit, map_entries, map_events, map_step, para_at, shown_in_paragraph, slot_at, slot_units_of,
    slots_rise, unit_closed, MapV, SlotUnitV,
};
use vstd::prelude::*;

verus! {

/// Whether the event at `r` opens a paragraph.
pub open spec fn opens_para(events: Seq<EventV>, r: int) -> bool {
    0 <= r < events.len() && events[r] is Start && events[r]->Start_name == "w:p"@
}

/// Whether the tag that the event at `r` opens is open before the event at `n`.
pub open spec fn open_at(events: Seq<EventV>, r: int, n: int) -> bool {
    &&& 0 <= r < n <= events.len()
    &&& events[r] is Start
    &&& forall|k: int| r < k <= n ==> #[trigger] around(events, k).len() > around(events, r).len()
}

/// Whether a paragraph is on record for the event at `r` of a part.
pub open spec fn on_record(paras: Seq<ParaV>, part: Seq<char>, r: int) -> bool {
    exists|i: int|
        0 <= i < paras.len() && (#[trigger] paras[i]).part_name == part && paras[i].xml_event_index
            == r
}

/// Whether a way leads from a paragraph to a text of one of its own runs, or of a run of one of its
/// own links.
pub open spec fn to_text(way: Seq<Seq<char>>) -> bool {
    way == seq!["w:r"@, "w:t"@] || way == seq!["w:hyperlink"@, "w:r"@, "w:t"@]
}

/// Whether a slot is that of a text which the paragraph between the events at `s` and `e` of a part
/// shows.
pub open spec fn slot_shown(
    events: Seq<EventV>,
    part: Seq<char>,
    s: int,
    e: int,
    slot: SlotV,
) -> bool {
    let k = slot.event_index as int;
    &&& slot.part_name == part
    &&& s < k < e
    &&& events[k] is Text && slot.kind == SlotKind::Text || events[k] is CData && slot.kind
        == SlotKind::CData
    &&& to_text(within_tag(events, s, k))
}

proof fn lemma_para_at(paras: Seq<ParaV>, part: Seq<char>, event: nat)
    ensures
        match para_at(paras, part, event) {
            Some(i) => i < paras.len() && paras[i as int].part_name == part
                && paras[i as int].xml_event_index == event,
            None => !on_record(paras, part, event as int),
        },
    decreases paras.len(),
{
    if paras.len() > 0 {
        let front = paras.drop_last();
        lemma_para_at(front, part, event);
        if para_at(paras, part, event) is None && on_record(paras, part, event as int) {
            let i = choose|i: int|
                0 <= i < paras.len() && (#[trigger] paras[i]).part_name == part
                    && paras[i].xml_event_index == event;
            assert(front[i] == paras[i]);
        }
    }
}

proof fn lemma_slot_at(slots: Seq<SlotV>, part: Seq<char>, event: nat, kind: SlotKind)
    ensures
        match slot_at(slots, part, event, kind) {
            Some(id) => exists|a: int|
                0 <= a < slots.len() && (#[trigger] slots[a]).id == id && slots[a].part_name == part
                    && slots[a].event_index == event && slots[a].kind == kind,
            None => forall|a: int|
                0 <= a < slots.len() ==> !((#[trigger] slots[a]).part_name == part
                    && slots[a].event_index == event && slots[a].kind == kind),
        },
    decreases slots.len(),
{
    if slots.len() > 0 {
        let front = slots.drop_last();
        lemma_slot_at(front, part, event, kind);
        let z = slots.len() - 1;
        if slots.last().part_name == part && slots.last().event_index == event && slots.last().kind
            == kind {
            assert(slots[z].id == slots.last().id);
        } else {
            match slot_at(front, part, event, kind) {
                Some(id) => {
                    let a = choose|a: int|
                        0 <= a < front.len() && (#[trigger] front[a]).id == id && front[a].part_name
                            == part && front[a].event_index == event && front[a].kind == kind;
                    assert(slots[a] == front[a]);
                },
                None => {
                    assert forall|a: int| 0 <= a < slots.len() implies !((
                    #[trigger] slots[a]).part_name == part && slots[a].event_index == event
                        && slots[a].kind == kind) by {
                        if a < front.len() {
                            assert(front[a] == slots[a]);
                        }
                    }
                },
            }
        }
    }
}

/// Which paragraph is open: the outermost that is on record, at `at`, and how many paragraphs are open
/// in it.
spec fn followed(
    paras: Seq<ParaV>,
    part: Seq<char>,
    events: Seq<EventV>,
    n: int,
    st: MapV,
    at: Option<int>,
) -> bool {
    &&& st.stack == around(events, n)
    &&& match at {
        None => st.para is None && forall|r: int| #[trigger]
            open_at(events, r, n) && opens_para(events, r) ==> !on_record(paras, part, r),
        Some(r) => {
            &&& open_at(events, r, n)
            &&& opens_para(events, r)
            &&& st.para is Some
            &&& st.para == para_at(paras, part, r as nat)
            &&& st.nested == count_of(within_tag(events, r, n), "w:p"@)
            &&& forall|q: int| #[trigger]
                open_at(events, q, r) && opens_para(events, q) ==> !on_record(paras, part, q)
        },
    }
}

proof fn lemma_open_before(events: Seq<EventV>, r: int, n: int, m: int)
    requires
        open_at(events, r, n),
        r < m <= n,
    ensures
        open_at(events, r, m),
{
}

/// What stands last in the tags round an event in a tag.
proof fn lemma_last_within(events: Seq<EventV>, r: int, n: int)
    requires
        open_at(events, r, n),
    ensures
        ({
            let way = within_tag(events, r, n);
            let tags = around(events, n);
            &&& tags.len() == around(events, r).len() + 1 + way.len()
            &&& tags[around(events, r).len() as int] == events[r]->Start_name
            &&& forall|k: int|
                0 <= k < way.len() ==> #[trigger] way[k] == tags[around(events, r).len() + 1 + k]
            &&& tags.last() == (if way.len() > 0 {
                way.last()
            } else {
                events[r]->Start_name
            })
        }),
{
    lemma_spans_prefix(events, r, n);
    let p = around(events, r).len() as int;
    assert(around(events, n).len() > p);
    assert(around(events, n).take(p + 1)[p] == around(events, n)[p]);
}

proof fn lemma_followed_step(
    paras: Seq<ParaV>,
    texts: Seq<Seq<char>>,
    slots: Seq<SlotV>,
    part: Seq<char>,
    events: Seq<EventV>,
    n: int,
    st: MapV,
    at: Option<int>,
) -> (next: Option<int>)
    requires
        balanced(events),
        0 <= n < events.len(),
        followed(paras, part, events, n, st, at),
        map_step(paras, texts, slots, part, st, n as nat, events[n]) is Ok,
    ensures
        followed(
            paras,
            part,
            events,
            n + 1,
            map_step(paras, texts, slots, part, st, n as nat, events[n])->Ok_0,
            next,
        ),
{
    let now = map_step(paras, texts, slots, part, st, n as nat, events[n])->Ok_0;
    lemma_around_step(events, n);
    assert(closes(events, n));
    lemma_para_at(paras, part, n as nat);
    let tags = around(events, n);
    let after = around(events, n + 1);
    assert forall|r: int| #[trigger] open_at(events, r, n + 1) && r < n implies open_at(
        events,
        r,
        n,
    ) by {
        lemma_open_before(events, r, n + 1, n);
    }
    match at {
        None => {
            let next: Option<int> = if opens_para(events, n) && now.para is Some {
                Some(n)
            } else {
                None
            };
            if next is Some {
                assert(open_at(events, n, n + 1));
                assert(within_tag(events, n, n + 1) =~= Seq::<Seq<char>>::empty());
            } else {
                assert forall|r: int| #[trigger]
                    open_at(events, r, n + 1) && opens_para(events, r) implies !on_record(
                    paras,
                    part,
                    r,
                ) by {
                    if r < n {
                        assert(open_at(events, r, n));
                    }
                }
            }
            next
        },
        Some(r) => {
            let way = within_tag(events, r, n);
            let p = around(events, r).len() as int + 1;
            lemma_last_within(events, r, n);
            assert(around(events, n).len() >= p);
            match events[n] {
                EventV::Start { name, .. } => {
                    assert(open_at(events, r, n + 1));
                    assert(within_tag(events, r, n + 1) =~= way.push(name));
                    assert(way.push(name).drop_last() =~= way);
                    at
                },
                EventV::End { name } => {
                    if way.len() == 0 {
                        assert(name == "w:p"@);
                        assert(st.nested == 0);
                        assert forall|q: int| #[trigger]
                            open_at(events, q, n + 1) && opens_para(events, q) implies !on_record(
                            paras,
                            part,
                            q,
                        ) by {
                            assert(around(events, n + 1).len() > around(events, q).len());
                            if q < r {
                                lemma_open_before(events, q, n + 1, r);
                                assert(open_at(events, q, r));
                            } else if r < q {
                                assert(around(events, q).len() > around(events, r).len());
                            }
                        }
                        None
                    } else {
                        assert(open_at(events, r, n + 1));
                        assert(within_tag(events, r, n + 1) =~= way.drop_last());
                        at
                    }
                },
                _ => {
                    assert(open_at(events, r, n + 1));
                    at
                },
            }
        },
    }
}

/// Whether a text is one that the open paragraph shows.
proof fn lemma_shows(events: Seq<EventV>, r: int, n: int)
    requires
        open_at(events, r, n),
        opens_para(events, r),
    ensures
        to_text(within_tag(events, r, n)) <==> count_of(within_tag(events, r, n), "w:p"@) == 0
            && shown_in_paragraph(around(events, n)),
{
    let way = within_tag(events, r, n);
    let tags = around(events, n);
    let p = around(events, r).len() as int + 1;
    lemma_last_within(events, r, n);
    reveal_strlit("w:p");
    reveal_strlit("w:r");
    reveal_strlit("w:t");
    reveal_strlit("w:hyperlink");
    assert("w:p"@[2] != "w:r"@[2]);
    assert("w:p"@[2] != "w:t"@[2]);
    assert("w:r"@[2] != "w:t"@[2]);
    assert("w:hyperlink"@.len() != "w:p"@.len());
    let two = seq!["w:r"@, "w:t"@];
    let three = seq!["w:hyperlink"@, "w:r"@, "w:t"@];
    if to_text(way) {
        if way == two {
            assert(way[0] == two[0] && way[1] == two[1]);
            lemma_none(way, "w:p"@);
        } else {
            assert(way[0] == three[0] && way[1] == three[1] && way[2] == three[2]);
            lemma_none(way, "w:p"@);
        }
        assert(tags[p - 1] == "w:p"@);
    }
    if count_of(way, "w:p"@) == 0 && shown_in_paragraph(tags) {
        lemma_none(way, "w:p"@);
        let z = tags.len() as int;
        assert(tags[p - 1] == "w:p"@);
        assert(z == p + way.len());
        assert(forall|k: int| 0 <= k < way.len() ==> #[trigger] tags[p + k] == way[k]);
        if way.len() == 0 {
            assert(tags[z - 1] == "w:p"@);
        } else if way.len() == 1 {
            assert(tags[z - 2] == "w:p"@);
        } else if way.len() == 2 {
            assert(tags[p] == way[0] && tags[p + 1] == way[1]);
            assert(way =~= two);
        } else if way.len() == 3 {
            assert(tags[p] == way[0] && tags[p + 1] == way[1] && tags[p + 2] == way[2]);
            assert(way =~= three);
        } else {
            let w = way.len() as int;
            assert(way[w - 3] == tags[z - 3]);
            assert(way[w - 4] == tags[z - 4]);
        }
    }
}

proof fn lemma_none(way: Seq<Seq<char>>, name: Seq<char>)
    ensures
        count_of(way, name) == 0 <==> forall|k: int| 0 <= k < way.len() ==> #[trigger] way[k] != name,
    decreases way.len(),
{
    if way.len() > 0 {
        let front = way.drop_last();
        lemma_none(front, name);
        assert(forall|k: int| 0 <= k < front.len() ==> #[trigger] front[k] == way[k]);
        if count_of(way, name) != 0 {
            if way.last() == name {
                assert(way[way.len() - 1] == name);
            } else {
                let k = choose|k: int| 0 <= k < front.len() && #[trigger] front[k] == name;
                assert(way[k] == name);
            }
        } else {
            assert forall|k: int| 0 <= k < way.len() implies #[trigger] way[k] != name by {
                if k < front.len() {
                    assert(front[k] != name);
                }
            }
        }
    }
}

/// What is given of the paragraph `i`: it is on record once, at the event at `s` of a part, no other
/// that is on record is open there, and it ends at `e`.
pub open spec fn para_between(
    paras: Seq<ParaV>,
    part: Seq<char>,
    events: Seq<EventV>,
    i: int,
    s: int,
    e: int,
) -> bool {
    &&& 0 <= i < paras.len()
    &&& paras[i].part_name == part
    &&& paras[i].xml_event_index == s
    &&& forall|j: int|
        0 <= j < paras.len() && j != i ==> !((#[trigger] paras[j]).part_name == part
            && paras[j].xml_event_index == s)
    &&& opens_para(events, s)
    &&& spans(events, s, e)
    &&& forall|r: int| #[trigger]
        open_at(events, r, s) && opens_para(events, r) ==> !on_record(paras, part, r)
}

/// Whether `ids` are those of the slots before the event at `n` that the paragraph between the events
/// at `s` and `e` shows.
spec fn holds_slots(
    events: Seq<EventV>,
    part: Seq<char>,
    slots: Seq<SlotV>,
    s: int,
    e: int,
    n: int,
    ids: Seq<nat>,
) -> bool {
    &&& forall|a: int|
        0 <= a < slots.len() && slot_shown(events, part, s, e, #[trigger] slots[a])
            && slots[a].event_index < n ==> ids.contains(slots[a].id)
    &&& forall|m: int|
        0 <= m < ids.len() ==> 1 <= #[trigger] ids[m] <= slots.len() && slot_shown(
            events,
            part,
            s,
            e,
            slots[ids[m] - 1],
        )
}

/// Between its tags a paragraph that is on record is the one that is open, and nowhere else.
proof fn lemma_open_between(
    paras: Seq<ParaV>,
    part: Seq<char>,
    events: Seq<EventV>,
    n: int,
    st: MapV,
    at: Option<int>,
    i: int,
    s: int,
    e: int,
)
    requires
        para_between(paras, part, events, i, s, e),
        followed(paras, part, events, n, st, at),
        0 <= n <= events.len(),
    ensures
        s < n <= e <==> at == Some(s),
        st.para == Some(i as nat) <==> at == Some(s),
{
    lemma_para_at(paras, part, s as nat);
    assert(on_record(paras, part, s)) by {
        assert(paras[i].part_name == part);
    }
    lemma_around_step(events, e);
    if s < n <= e {
        assert(open_at(events, s, n)) by {
            assert forall|k: int| s < k <= n implies #[trigger] around(events, k).len() > around(
                events,
                s,
            ).len() by {}
        }
        match at {
            None => {},
            Some(r) => {
                lemma_para_at(paras, part, r as nat);
                assert(on_record(paras, part, r));
                if r < s {
                    lemma_open_before(events, r, n, s);
                    assert(open_at(events, r, s));
                } else if s < r {
                    lemma_open_before(events, s, n, r);
                    assert(open_at(events, s, r));
                }
            },
        }
    }
    if let Some(r) = at {
        lemma_para_at(paras, part, r as nat);
        if r == s {
            if n > e {
                assert(around(events, e + 1).len() > around(events, s).len());
            }
        }
    }
}

proof fn lemma_map_from(
    paras: Seq<ParaV>,
    texts: Seq<Seq<char>>,
    slots: Seq<SlotV>,
    part: Seq<char>,
    events: Seq<EventV>,
    n: int,
    st: MapV,
    at: Option<int>,
    i: int,
    s: int,
    e: int,
)
    requires
        balanced(events),
        0 <= n <= events.len(),
        slots_rise(slots),
        para_between(paras, part, events, i, s, e),
        followed(paras, part, events, n, st, at),
        st.units.len() == paras.len(),
        holds_slots(events, part, slots, s, e, n, st.units[i].slot_ids),
        map_events(paras, texts, slots, part, st, n as nat, events.skip(n)) is Ok,
    ensures
        ({
            let units = map_events(paras, texts, slots, part, st, n as nat, events.skip(n))->Ok_0;
            &&& units.len() == paras.len()
            &&& holds_slots(events, part, slots, s, e, events.len() as int, units[i].slot_ids)
        }),
    decreases events.len() - n,
{
    if n < events.len() {
        assert(events.skip(n)[0] == events[n]);
        assert(events.skip(n).drop_first() =~= events.skip(n + 1));
        let now = map_step(paras, texts, slots, part, st, n as nat, events[n])->Ok_0;
        let next = lemma_followed_step(paras, texts, slots, part, events, n, st, at);
        lemma_open_between(paras, part, events, n, st, at, i, s, e);
        lemma_holds_step(paras, texts, slots, part, events, n, st, at, i, s, e);
        lemma_map_from(paras, texts, slots, part, events, n + 1, now, next, i, s, e);
    }
}

proof fn lemma_holds_step(
    paras: Seq<ParaV>,
    texts: Seq<Seq<char>>,
    slots: Seq<SlotV>,
    part: Seq<char>,
    events: Seq<EventV>,
    n: int,
    st: MapV,
    at: Option<int>,
    i: int,
    s: int,
    e: int,
)
    requires
        0 <= n < events.len(),
        slots_rise(slots),
        para_between(paras, part, events, i, s, e),
        followed(paras, part, events, n, st, at),
        s < n <= e <==> at == Some(s),
        st.para == Some(i as nat) <==> at == Some(s),
        st.units.len() == paras.len(),
        holds_slots(events, part, slots, s, e, n, st.units[i].slot_ids),
        map_step(paras, texts, slots, part, st, n as nat, events[n]) is Ok,
    ensures
        ({
            let now = map_step(paras, texts, slots, part, st, n as nat, events[n])->Ok_0;
            &&& now.units.len() == paras.len()
            &&& holds_slots(events, part, slots, s, e, n + 1, now.units[i].slot_ids)
        }),
{
    let now = map_step(paras, texts, slots, part, st, n as nat, events[n])->Ok_0;
    let ids = st.units[i].slot_ids;
    let after = now.units[i].slot_ids;
    let kind = if events[n] is Text {
        SlotKind::Text
    } else {
        SlotKind::CData
    };
    lemma_slot_at(slots, part, n as nat, kind);
    if let Some(r) = at {
        lemma_para_at(paras, part, r as nat);
    }
    let found = slot_at(slots, part, n as nat, kind);
    if at == Some(s) {
        lemma_shows(events, s, n);
    }
    if at == Some(s) && (events[n] is Text || events[n] is CData) && found is Some && to_text(
        within_tag(events, s, n),
    ) {
        let id = found->Some_0;
        assert(after == ids.push(id));
        let a = choose|a: int|
            0 <= a < slots.len() && (#[trigger] slots[a]).id == id && slots[a].part_name == part
                && slots[a].event_index == n && slots[a].kind == kind;
        assert(slots[a].id == a + 1);
        assert(slot_shown(events, part, s, e, slots[a]));
        assert(after[ids.len() as int] == id);
        assert forall|b: int|
            0 <= b < slots.len() && slot_shown(events, part, s, e, #[trigger] slots[b])
                && slots[b].event_index < n + 1 implies after.contains(slots[b].id) by {
            if slots[b].event_index < n {
                let m = ids.index_of(slots[b].id);
                assert(ids.contains(slots[b].id));
                assert(after[m] == slots[b].id);
            } else {
                if a < b {
                    assert(slots[a].event_index < slots[b].event_index);
                } else if b < a {
                    assert(slots[b].event_index < slots[a].event_index);
                }
            }
        }
        assert forall|m: int| 0 <= m < after.len() implies 1 <= #[trigger] after[m] <= slots.len()
            && slot_shown(events, part, s, e, slots[after[m] - 1]) by {
            if m < ids.len() {
                assert(after[m] == ids[m]);
            }
        }
    } else {
        assert(after == ids);
        assert forall|b: int|
            0 <= b < slots.len() && slot_shown(events, part, s, e, #[trigger] slots[b])
                && slots[b].event_index < n + 1 implies after.contains(slots[b].id) by {
            if slots[b].event_index == n {
                assert(slots[b].kind == kind);
            }
        }
    }
}

/// What is mapped from a part changes no unit of another part.
proof fn lemma_other_part(
    paras: Seq<ParaV>,
    texts: Seq<Seq<char>>,
    slots: Seq<SlotV>,
    part: Seq<char>,
    st: MapV,
    n: nat,
    events: Seq<EventV>,
    i: int,
)
    requires
        0 <= i < paras.len() == st.units.len(),
        paras[i].part_name != part,
        st.para matches Some(q) ==> q < paras.len() && q != i,
        map_events(paras, texts, slots, part, st, n, events) is Ok,
    ensures
        ({
            let units = map_events(paras, texts, slots, part, st, n, events)->Ok_0;
            units.len() == paras.len() && units[i] == st.units[i]
        }),
    decreases events.len(),
{
    if events.len() > 0 {
        let now = map_step(paras, texts, slots, part, st, n, events[0])->Ok_0;
        lemma_para_at(paras, part, n);
        lemma_other_part(paras, texts, slots, part, now, n + 1, events.drop_first(), i);
    }
}

proof fn lemma_entries_map(
    paras: Seq<ParaV>,
    texts: Seq<Seq<char>>,
    slots: Seq<SlotV>,
    units: Seq<SlotUnitV>,
    entries: Seq<EntryV>,
    j: int,
    events: Seq<EventV>,
    i: int,
    s: int,
    e: int,
)
    requires
        j < entries.len(),
        0 <= i < paras.len() == units.len(),
        forall|a: int, b: int|
            0 <= a < b < entries.len() ==> (#[trigger] entries[a]).name != (
            #[trigger] entries[b]).name,
        map_entries(paras, texts, slots, units, entries) is Ok,
        j < 0 ==> forall|a: int|
            0 <= a < entries.len() ==> (#[trigger] entries[a]).name != paras[i].part_name,
        j >= 0 ==> {
            &&& balanced(events)
            &&& slots_rise(slots)
            &&& para_between(paras, entries[j].name, events, i, s, e)
            &&& entries[j].data.len() > 0
            &&& parsed(entries[j].data) matches Ok(found) && found == events
            &&& units[i].slot_ids.len() == 0
        },
    ensures
        ({
            let after = map_entries(paras, texts, slots, units, entries)->Ok_0;
            &&& after.len() == paras.len()
            &&& j < 0 ==> after[i] == units[i]
            &&& j >= 0 ==> holds_slots(
                events,
                paras[i].part_name,
                slots,
                s,
                e,
                events.len() as int,
                after[i].slot_ids,
            )
        }),
    decreases entries.len(),
{
    if entries.len() > 0 {
        let rest = entries.drop_first();
        assert forall|a: int, b: int| 0 <= a < b < rest.len() implies (#[trigger] rest[a]).name != (
        #[trigger] rest[b]).name by {
            assert(rest[a] == entries[a + 1] && rest[b] == entries[b + 1]);
        }
        let first = entries[0];
        let st = MapV { units, stack: Seq::empty(), para: None, nested: 0 };
        let part = first.name;
        if j != 0 {
            if j > 0 {
                assert(entries[0].name != entries[j].name);
                assert(rest[j - 1] == entries[j]);
            } else {
                assert forall|a: int| 0 <= a < rest.len() implies (#[trigger] rest[a]).name
                    != paras[i].part_name by {
                    assert(rest[a] == entries[a + 1]);
                }
            }
            assert(paras[i].part_name != part);
            let next = if first.data.len() == 0 {
                units
            } else {
                let found = parsed(first.data)->Ok_0;
                lemma_other_part(paras, texts, slots, part, st, 0, found, i);
                map_events(paras, texts, slots, part, st, 0, found)->Ok_0
            };
            lemma_entries_map(paras, texts, slots, next, rest, j - 1, events, i, s, e);
        } else {
            assert(events.skip(0) =~= events);
            assert(events.take(0) =~= Seq::empty());
            lemma_map_from(paras, texts, slots, part, events, 0, st, None, i, s, e);
            let next = map_events(paras, texts, slots, part, st, 0, events)->Ok_0;
            assert forall|a: int| 0 <= a < rest.len() implies (#[trigger] rest[a]).name
                != paras[i].part_name by {
                assert(rest[a] == entries[a + 1]);
                assert(entries[0].name != entries[a + 1].name);
            }
            lemma_entries_map(paras, texts, slots, next, rest, -1, events, i, s, e);
        }
    }
}

/// The slots of the unit of a paragraph are those whose texts the paragraph shows, and no others: a
/// text in one of its own runs, or in a run of one of its links, however deep the paragraph stands in
/// the part. The parts have names of their own, and the paragraph is on record once and stands in no
/// other that is on record.
pub proof fn law_unit_holds_its_slots(
    docx: Seq<u8>,
    paras: Seq<ParaV>,
    texts: Seq<Seq<char>>,
    slots: Seq<SlotV>,
    entry: EntryV,
    events: Seq<EventV>,
    i: int,
    s: int,
    e: int,
)
    requires
        slots_rise(slots),
        slot_units_of(docx, paras, texts, slots) is Ok,
        ({
            let entries = xml_only(package_of(docx)->Ok_0);
            forall|a: int, b: int|
                0 <= a < b < entries.len() ==> (#[trigger] entries[a]).name != (
                #[trigger] entries[b]).name
        }),
        xml_only(package_of(docx)->Ok_0).contains(entry),
        entry.data.len() > 0,
        parsed(entry.data) matches Ok(found) && found == events,
        balanced(events),
        para_between(paras, entry.name, events, i, s, e),
    ensures
        ({
            let u = slot_units_of(docx, paras, texts, slots)->Ok_0[i];
            &&& forall|a: int|
                0 <= a < slots.len() && slot_shown(events, entry.name, s, e, #[trigger] slots[a])
                    ==> u.slot_ids.contains(slots[a].id)
            &&& forall|m: int|
                0 <= m < u.slot_ids.len() ==> 1 <= #[trigger] u.slot_ids[m] <= slots.len()
                    && slot_shown(events, entry.name, s, e, slots[u.slot_ids[m] - 1])
        }),
{
    let entries = xml_only(package_of(docx)->Ok_0);
    let j = entries.index_of(entry);
    let first = paras.map_values(|p: ParaV| bare_unit(p));
    assert(first[i] == bare_unit(paras[i]));
    lemma_entries_map(paras, texts, slots, first, entries, j, events, i, s, e);
    let open = map_entries(paras, texts, slots, first, entries)->Ok_0;
    let units = slot_units_of(docx, paras, texts, slots)->Ok_0;
    assert(units[i] == unit_closed(open[i]));
    assert forall|a: int|
        0 <= a < slots.len() && slot_shown(events, entry.name, s, e, #[trigger] slots[a]) implies
        units[i].slot_ids.contains(slots[a].id) by {
        assert(slots[a].event_index < events.len());
        assert(open[i].slot_ids.contains(slots[a].id));
    }
}

/// The text of an event that is a text or a CDATA section.
pub open spec fn event_text(ev: EventV) -> Option<Seq<char>> {
    match ev {
        EventV::Text { text } => Some(text),
        EventV::CData { text } => Some(text),
        _ => None,
    }
}

/// Whether the slot at `a` is that of the text in the event at `k` of a part, and the text at `a` that
/// text.
pub open spec fn slot_of_text(
    slots: Seq<SlotV>,
    texts: Seq<Seq<char>>,
    part: Seq<char>,
    events: Seq<EventV>,
    k: int,
    a: int,
) -> bool {
    &&& 0 <= a < slots.len() && a < texts.len()
    &&& slots[a].id == a + 1
    &&& slots[a].part_name == part
    &&& slots[a].event_index == k
    &&& slots[a].kind == (if events[k] is Text {
        SlotKind::Text
    } else {
        SlotKind::CData
    })
    &&& event_text(events[k]) == Some(texts[a])
}

/// The slots of a part: one for each text, with that text.
proof fn lemma_mask_run_texts(
    prefix: Seq<char>,
    part: Seq<char>,
    before: Seq<SlotV>,
    events: Seq<EventV>,
    out: Seq<Seq<char>>,
    k: int,
) -> (a: int)
    requires
        before.len() == out.len(),
    ensures
        ({
            let st = mask_run(prefix, part, before, events);
            &&& st.events.len() == events.len()
            &&& st.slots.len() == (out + slot_texts_of(events)).len()
            &&& before.len() <= st.slots.len()
            &&& forall|b: int| 0 <= b < before.len() ==> #[trigger] st.slots[b] == before[b]
            &&& 0 <= k < events.len() && event_text(events[k]) is Some ==> slot_of_text(
                st.slots,
                out + slot_texts_of(events),
                part,
                events,
                k,
                a,
            )
        }),
    decreases events.len(),
{
    if events.len() == 0 {
        0
    } else {
        let front = events.drop_last();
        let a = lemma_mask_run_texts(prefix, part, before, front, out, k);
        let st = mask_run(prefix, part, before, front);
        if k == events.len() - 1 {
            st.slots.len() as int
        } else {
            if 0 <= k < front.len() {
                assert(front[k] == events[k]);
            }
            a
        }
    }
}

proof fn lemma_mask_entries_texts(
    prefix: Seq<char>,
    st: MaskStateV,
    out: Seq<Seq<char>>,
    entries: Seq<EntryV>,
    j: int,
    events: Seq<EventV>,
    k: int,
) -> (a: int)
    requires
        st.slots.len() == out.len(),
        mask_entries(prefix, st, entries) is Ok,
        slot_texts_of_entries(out, entries) is Ok,
        0 <= j < entries.len() ==> !dir_entry(entries[j]) && xml_entry(entries[j]) && (parsed(
            entries[j].data,
        ) matches Ok(found) && found == events),
        0 <= k < events.len(),
        event_text(events[k]) is Some,
    ensures
        ({
            let slots = mask_entries(prefix, st, entries)->Ok_0.slots;
            let texts = slot_texts_of_entries(out, entries)->Ok_0;
            &&& slots.len() == texts.len()
            &&& st.slots.len() <= slots.len()
            &&& forall|b: int| 0 <= b < st.slots.len() ==> #[trigger] slots[b] == st.slots[b]
            &&& forall|b: int| 0 <= b < out.len() ==> #[trigger] texts[b] == out[b]
            &&& 0 <= j < entries.len() ==> slot_of_text(slots, texts, entries[j].name, events, k, a)
        }),
    decreases entries.len(),
{
    if entries.len() == 0 {
        0
    } else {
        let e = entries[0];
        let rest = entries.drop_first();
        let next = mask_entry(prefix, st, e)->Ok_0;
        if j > 0 && j < entries.len() {
            assert(rest[j - 1] == entries[j]);
        }
        if dir_entry(e) || !xml_entry(e) {
            lemma_mask_entries_texts(prefix, next, out, rest, j - 1, events, k)
        } else {
            let found = parsed(e.data)->Ok_0;
            let a = lemma_mask_run_texts(prefix, e.name, st.slots, found, out, k);
            let more = out + slot_texts_of(found);
            let b = lemma_mask_entries_texts(prefix, next, more, rest, j - 1, events, k);
            let slots = mask_entries(prefix, st, entries)->Ok_0.slots;
            let texts = slot_texts_of_entries(out, entries)->Ok_0;
            assert(slots == mask_entries(prefix, next, rest)->Ok_0.slots);
            assert forall|c: int| 0 <= c < st.slots.len() implies #[trigger] slots[c]
                == st.slots[c] by {
                assert(next.slots[c] == st.slots[c]);
            }
            assert forall|c: int| 0 <= c < out.len() implies #[trigger] texts[c] == out[c] by {
                assert(more[c] == out[c]);
            }
            if j == 0 {
                assert(slots[a] == next.slots[a]);
                assert(texts[a] == more[a]);
                a
            } else {
                b
            }
        }
    }
}

/// Every text in a part of a package, and every CDATA section, has a slot of its own, and is the text
/// of that slot.
pub proof fn law_every_text_has_a_slot(
    prefix: Seq<char>,
    blobs_file: Seq<char>,
    entries: Seq<EntryV>,
    j: int,
    events: Seq<EventV>,
    k: int,
)
    requires
        masked_of(prefix, blobs_file, entries) is Ok,
        slot_texts_of_entries(Seq::empty(), entries) is Ok,
        0 <= j < entries.len(),
        !dir_entry(entries[j]),
        xml_name(entries[j].name),
        entries[j].data.len() > 0,
        parsed(entries[j].data) matches Ok(found) && found == events,
        0 <= k < events.len(),
        event_text(events[k]) is Some,
    ensures
        exists|a: int| #[trigger]
            slot_of_text(
                masked_of(prefix, blobs_file, entries)->Ok_0.offsets.slots,
                slot_texts_of_entries(Seq::empty(), entries)->Ok_0,
                entries[j].name,
                events,
                k,
                a,
            ),
{
    let a = lemma_mask_entries_texts(prefix, mask_start(), Seq::empty(), entries, j, events, k);
    assert(slot_of_text(
        masked_of(prefix, blobs_file, entries)->Ok_0.offsets.slots,
        slot_texts_of_entries(Seq::empty(), entries)->Ok_0,
        entries[j].name,
        events,
        k,
        a,
    ));
}

proof fn lemma_xml_only(entries: Seq<EntryV>, j: int)
    requires
        0 <= j < entries.len(),
        xml_name(entries[j].name),
    ensures
        xml_only(entries).contains(entries[j]),
    decreases entries.len(),
{
    let front = entries.drop_last();
    let more = xml_only(entries);
    if j == entries.len() - 1 {
        assert(more[more.len() - 1] == entries[j]);
    } else {
        lemma_xml_only(front, j);
        assert(front[j] == entries[j]);
        let a = xml_only(front).index_of(entries[j]);
        assert(more[a] == entries[j]);
    }
}

/// Every text in a run of a paragraph, or in a run of a link in it, is the text of a slot of the unit
/// of that paragraph, for the slots and the texts that the document is taken apart into.
pub proof fn law_texts_of_runs_are_in_the_unit(
    docx: Seq<u8>,
    blobs_file: Seq<char>,
    entries: Seq<EntryV>,
    paras: Seq<ParaV>,
    j: int,
    events: Seq<EventV>,
    i: int,
    s: int,
    e: int,
    k: int,
)
    requires
        package_of(docx) matches Ok(found) && found == entries,
        masked_of(file_prefix(docx), blobs_file, entries) is Ok,
        slot_texts_of_entries(Seq::empty(), entries) is Ok,
        ({
            let slots = masked_of(file_prefix(docx), blobs_file, entries)->Ok_0.offsets.slots;
            let texts = slot_texts_of_entries(Seq::empty(), entries)->Ok_0;
            slots_rise(slots) && slot_units_of(docx, paras, texts, slots) is Ok
        }),
        forall|a: int, b: int|
            0 <= a < b < xml_only(entries).len() ==> (#[trigger] xml_only(entries)[a]).name != (
            #[trigger] xml_only(entries)[b]).name,
        0 <= j < entries.len(),
        !dir_entry(entries[j]),
        xml_name(entries[j].name),
        entries[j].data.len() > 0,
        parsed(entries[j].data) matches Ok(found) && found == events,
        balanced(events),
        para_between(paras, entries[j].name, events, i, s, e),
        s < k < e,
        to_text(within_tag(events, s, k)),
        event_text(events[k]) is Some,
    ensures
        ({
            let slots = masked_of(file_prefix(docx), blobs_file, entries)->Ok_0.offsets.slots;
            let texts = slot_texts_of_entries(Seq::empty(), entries)->Ok_0;
            let u = slot_units_of(docx, paras, texts, slots)->Ok_0[i];
            exists|m: int|
                0 <= m < u.slot_ids.len() && 1 <= #[trigger] u.slot_ids[m] <= texts.len()
                    && event_text(events[k]) == Some(texts[u.slot_ids[m] - 1])
        }),
{
    let slots = masked_of(file_prefix(docx), blobs_file, entries)->Ok_0.offsets.slots;
    let texts = slot_texts_of_entries(Seq::empty(), entries)->Ok_0;
    let u = slot_units_of(docx, paras, texts, slots)->Ok_0[i];
    law_every_text_has_a_slot(file_prefix(docx), blobs_file, entries, j, events, k);
    let a = choose|a: int| #[trigger]
        slot_of_text(slots, texts, entries[j].name, events, k, a);
    lemma_xml_only(entries, j);
    law_unit_holds_its_slots(docx, paras, texts, slots, entries[j], events, i, s, e);
    assert(slot_shown(events, entries[j].name, s, e, slots[a]));
    let m = u.slot_ids.index_of(slots[a].id);
    assert(u.slot_ids.contains(slots[a].id));
    assert(u.slot_ids[m] == a + 1);
}

} // verus!
