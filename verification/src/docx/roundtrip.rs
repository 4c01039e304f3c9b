//! Documents that are read and written again, with or without being taken apart in between.

use crate::docx::decompose::{
    decoded, decoded_entries, docx_difference, extract_mask_json_and_offsets, file_prefix,
    filled_event, filled_slot, filled_slots, law_slot_text_set, leftover_events, leftover_parts,
    mask_entries, mask_entry, mask_run, mask_start, masked_docx, masked_of, max_slot_id, merge_fault,
    merge_mask_json_and_offsets, merge_parts, merged_entries, min_slot_id, part_position,
    placeholder_of, placeholder_start, restored, slot_attr, slot_kind, slot_text, slot_texts_of,
    verify_docx_roundtrip, with_bytes, with_part, with_slot_text, xml_entry, MaskStateV, MaskedDocx,
    MergePartV, SlotV,
};
use crate::docx::error::{DocxError, DocxErrorV};
use crate::docx::package::{
    bytes_result, dir_entry, entry_read, entry_reads_back, package_of, packed, reads_back,
    replaced_data, replacements_view, xml_name, xml_only, DocxEntry, DocxPackage, EntryV,
};
use crate::docx::pure_text::{extract_pure_text, pure_text_of, PureTextJson, PureTextV};
use crate::docx::refilled::{
    law_own_slots, law_own_texts_change_nothing, parts_plain, refills_free_of, taken_from,
    texts_for,
};
use crate::docx::shape::plain;
use crate::docx::xml::{
    escaped, escaped_char, event_written, events_written, parse_xml_part, parsed, write_xml_part,
    EventV, XmlErrorV,
};
use vstd::prelude::*;
use vstd::utf8::*;

verus! {

/// An entry as it is after it was read and written: the data of a directory is gone, and that of an
/// XML part is as its events are written.
pub open spec fn normal(e: EntryV) -> EntryV {
    if dir_entry(e) {
        EntryV { data: Seq::empty(), ..e }
    } else if xml_entry(e) {
        EntryV { data: encode_utf8(events_written(parsed(e.data)->Ok_0)), ..e }
    } else {
        e
    }
}

/// Entries as they are after they were read and written.
pub open spec fn normalized(entries: Seq<EntryV>) -> Seq<EntryV> {
    Seq::new(entries.len(), |i: int| normal(entries[i]))
}

/// Whether the entry at `i` is an XML part with content.
pub open spec fn part_with_content(entries: Seq<EntryV>, i: int) -> bool {
    !dir_entry(entries[i]) && xml_entry(entries[i])
}

/// Whether the XML parts of a package have names of their own.
pub open spec fn names_apart(entries: Seq<EntryV>) -> bool {
    forall|i: int, j: int|
        0 <= i < j < entries.len() && part_with_content(entries, i) && part_with_content(entries, j)
            ==> (#[trigger] entries[i]).name != (#[trigger] entries[j]).name
}

/// Whether the masked form of each XML part, once written, is read back as it was, if there is
/// anything to read.
pub open spec fn masks_read_back(prefix: Seq<char>, entries: Seq<EntryV>) -> bool {
    forall|i: int|
        0 <= i < entries.len() && #[trigger] part_with_content(entries, i) ==> match mask_entries(
            prefix,
            mask_start(),
            entries.take(i),
        ) {
            Ok(st) => {
                let events = mask_run(
                    prefix,
                    entries[i].name,
                    st.slots,
                    parsed(entries[i].data)->Ok_0,
                ).events;
                let data = encode_utf8(events_written(events));
                data.len() > 0 ==> parsed(data) == Ok::<_, XmlErrorV>(events)
            },
            Err(_) => true,
        }
}

/// Whether no XML part holds `prefix` in a text or an attribute value.
pub open spec fn free_of(prefix: Seq<char>, entries: Seq<EntryV>) -> bool {
    forall|i: int|
        0 <= i < entries.len() && #[trigger] part_with_content(entries, i) ==> leftover_events(
            prefix,
            parsed(entries[i].data)->Ok_0,
        ) is None
}

/// What masking the first `i` entries gives.
pub open spec fn state_at(p: Seq<char>, es: Seq<EntryV>, i: int) -> MaskStateV {
    mask_entries(p, mask_start(), es.take(i))->Ok_0
}

/// The events of the part at `i`.
pub open spec fn events_at(es: Seq<EntryV>, i: int) -> Seq<EventV> {
    parsed(es[i].data)->Ok_0
}

/// The events of the part at `i` with placeholders in their slots.
pub open spec fn masked_events(p: Seq<char>, es: Seq<EntryV>, i: int) -> Seq<EventV> {
    mask_run(p, es[i].name, state_at(p, es, i).slots, events_at(es, i)).events
}

/// The masked data of the entry at `i`.
pub open spec fn masked_bytes(p: Seq<char>, es: Seq<EntryV>, i: int) -> Seq<u8> {
    if dir_entry(es[i]) {
        Seq::empty()
    } else if xml_entry(es[i]) {
        encode_utf8(events_written(masked_events(p, es, i)))
    } else {
        es[i].data
    }
}

/// The entries with their masked data.
pub open spec fn masked_list(p: Seq<char>, es: Seq<EntryV>) -> Seq<EntryV> {
    Seq::new(es.len(), |i: int| EntryV { data: masked_bytes(p, es, i), ..es[i] })
}

spec fn is_part(p: Seq<char>, es: Seq<EntryV>, i: int) -> bool {
    part_with_content(es, i) && masked_bytes(p, es, i).len() > 0
}

/// The part of the entry at `i`: with the events in `want` for the entries before `j`, else masked.
spec fn part_at(p: Seq<char>, es: Seq<EntryV>, want: Seq<Seq<EventV>>, i: int, j: int) -> MergePartV {
    MergePartV {
        name: es[i].name,
        entry: i as nat,
        events: if i < j {
            want[i]
        } else {
            masked_events(p, es, i)
        },
    }
}

spec fn parts_from(p: Seq<char>, es: Seq<EntryV>, want: Seq<Seq<EventV>>, i: int, j: int) -> Seq<MergePartV>
    decreases es.len() - i,
{
    if i < 0 || i >= es.len() {
        Seq::empty()
    } else if is_part(p, es, i) {
        seq![part_at(p, es, want, i, j)] + parts_from(p, es, want, i + 1, j)
    } else {
        parts_from(p, es, want, i + 1, j)
    }
}

proof fn lemma_split(p: Seq<char>, st: MaskStateV, a: Seq<EntryV>, b: Seq<EntryV>)
    ensures
        mask_entries(p, st, a + b) == match mask_entries(p, st, a) {
            Err(e) => Err(e),
            Ok(s) => mask_entries(p, s, b),
        },
    decreases a.len(),
{
    if a.len() == 0 {
        assert(a + b =~= b);
    } else {
        assert((a + b)[0] == a[0]);
        assert((a + b).drop_first() =~= a.drop_first() + b);
        if let Ok(next) = mask_entry(p, st, a[0]) {
            lemma_split(p, next, a.drop_first(), b);
        }
    }
}

proof fn lemma_state(p: Seq<char>, es: Seq<EntryV>, i: int)
    requires
        mask_entries(p, mask_start(), es) is Ok,
        0 <= i < es.len(),
    ensures
        mask_entries(p, mask_start(), es.take(i)) == Ok::<_, DocxErrorV>(state_at(p, es, i)),
        mask_entries(p, mask_start(), es.take(i + 1)) == Ok::<_, DocxErrorV>(state_at(p, es, i + 1)),
        mask_entry(p, state_at(p, es, i), es[i]) == Ok::<_, DocxErrorV>(state_at(p, es, i + 1)),
        part_with_content(es, i) ==> parsed(es[i].data) is Ok,
{
    lemma_split(p, mask_start(), es.take(i), es.skip(i));
    assert(es.take(i) + es.skip(i) =~= es);
    lemma_split(p, mask_start(), es.take(i + 1), es.skip(i + 1));
    assert(es.take(i + 1) + es.skip(i + 1) =~= es);
    lemma_split(p, mask_start(), es.take(i), seq![es[i]]);
    assert(es.take(i) + seq![es[i]] =~= es.take(i + 1));
    reveal_with_fuel(mask_entries, 2);
    assert(seq![es[i]].drop_first() =~= Seq::<EntryV>::empty());
}

proof fn lemma_run(p: Seq<char>, name: Seq<char>, before: Seq<SlotV>, events: Seq<EventV>)
    ensures
        ({
            let r = mask_run(p, name, before, events);
            &&& r.events.len() == events.len()
            &&& r.slots.len() == before.len() + slot_texts_of(events).len()
            &&& r.slots.take(before.len() as int) == before
        }),
        (forall|k: int| 0 <= k < before.len() ==> (#[trigger] before[k]).id == k + 1) ==> (forall|
            k: int,
        |
            0 <= k < mask_run(p, name, before, events).slots.len() ==> (#[trigger] mask_run(
                p,
                name,
                before,
                events,
            ).slots[k]).id == k + 1),
    decreases events.len(),
{
    if events.len() == 0 {
        assert(before.take(before.len() as int) =~= before);
    } else {
        lemma_run(p, name, before, events.drop_last());
        let a = mask_run(p, name, before, events.drop_last());
        let r = mask_run(p, name, before, events);
        assert(r.slots.take(before.len() as int) =~= a.slots.take(before.len() as int));
    }
}

/// What one more entry adds to the state.
proof fn lemma_step(p: Seq<char>, es: Seq<EntryV>, i: int)
    requires
        mask_entries(p, mask_start(), es) is Ok,
        0 <= i < es.len(),
    ensures
        ({
            let a = state_at(p, es, i);
            let b = state_at(p, es, i + 1);
            let m = masked_bytes(p, es, i);
            &&& b.entries.len() == a.entries.len() + 1
            &&& b.entries.take(a.entries.len() as int) == a.entries
            &&& b.entries.last() == with_bytes(a, es[i], m).entries.last()
            &&& b.blobs == a.blobs + m
            &&& b.slots.take(a.slots.len() as int) == a.slots
            &&& part_with_content(es, i) ==> b.slots == mask_run(
                p,
                es[i].name,
                a.slots,
                events_at(es, i),
            ).slots
            &&& !part_with_content(es, i) ==> b.slots == a.slots
        }),
{
    lemma_state(p, es, i);
    let a = state_at(p, es, i);
    let b = state_at(p, es, i + 1);
    let m = masked_bytes(p, es, i);
    if part_with_content(es, i) {
        lemma_run(p, es[i].name, a.slots, events_at(es, i));
    } else {
        assert(a.slots.take(a.slots.len() as int) =~= a.slots);
    }
    assert(b.entries.take(a.entries.len() as int) =~= a.entries);
    assert(b.blobs =~= a.blobs + m);
}

/// A state is the beginning of every later one.
proof fn lemma_grow(p: Seq<char>, es: Seq<EntryV>, i: int, k: int)
    requires
        mask_entries(p, mask_start(), es) is Ok,
        0 <= i <= k <= es.len(),
    ensures
        state_at(p, es, i).entries.len() == i,
        state_at(p, es, k).entries.len() == k,
        state_at(p, es, k).entries.take(i) == state_at(p, es, i).entries,
        state_at(p, es, i).blobs.len() <= state_at(p, es, k).blobs.len(),
        state_at(p, es, k).blobs.take(state_at(p, es, i).blobs.len() as int) == state_at(p, es, i).blobs,
        state_at(p, es, i).slots.len() <= state_at(p, es, k).slots.len(),
        state_at(p, es, k).slots.take(state_at(p, es, i).slots.len() as int) == state_at(p, es, i).slots,
        forall|s: int|
            0 <= s < state_at(p, es, k).slots.len() ==> (#[trigger] state_at(p, es, k).slots[s]).id == s
                + 1,
    decreases k,
{
    if k == 0 {
        assert(es.take(0) =~= Seq::<EntryV>::empty());
        assert(state_at(p, es, 0) == mask_start());
        let a = state_at(p, es, 0);
        assert(a.entries.take(0) =~= a.entries);
        assert(a.blobs.take(0) =~= a.blobs);
        assert(a.slots.take(0) =~= a.slots);
    } else {
        let j = if i < k {
            i
        } else {
            k - 1
        };
        lemma_grow(p, es, j, k - 1);
        lemma_step(p, es, k - 1);
        let a = state_at(p, es, k - 1);
        let b = state_at(p, es, k);
        if part_with_content(es, k - 1) {
            lemma_run(p, es[k - 1].name, a.slots, events_at(es, k - 1));
        }
        if i < k {
            let c = state_at(p, es, i);
            assert(b.entries.take(i) =~= b.entries.take(a.entries.len() as int).take(i));
            assert(b.blobs.take(c.blobs.len() as int) =~= a.blobs.take(c.blobs.len() as int));
            assert(b.slots.take(c.slots.len() as int) =~= b.slots.take(a.slots.len() as int).take(
                c.slots.len() as int,
            ));
        } else {
            assert(b.entries.take(k) =~= b.entries);
            assert(b.blobs.take(b.blobs.len() as int) =~= b.blobs);
            assert(b.slots.take(b.slots.len() as int) =~= b.slots);
        }
    }
}

proof fn lemma_decode(p: Seq<char>, es: Seq<EntryV>, out: Seq<EntryV>, i: int)
    requires
        mask_entries(p, mask_start(), es) is Ok,
        state_at(p, es, es.len() as int).blobs.len() <= usize::MAX,
        0 <= i <= es.len(),
    ensures
        ({
            let end = state_at(p, es, es.len() as int);
            decoded_entries(Some(end.blobs), out, end.entries.skip(i)) == Ok::<_, DocxErrorV>(
                out + masked_list(p, es).skip(i),
            )
        }),
    decreases es.len() - i,
{
    let n = es.len() as int;
    let end = state_at(p, es, n);
    lemma_grow(p, es, i, n);
    if i == n {
        assert(end.entries.skip(i) =~= Seq::empty());
        assert(out + masked_list(p, es).skip(i) =~= out);
    } else {
        lemma_grow(p, es, i + 1, n);
        lemma_step(p, es, i);
        let a = state_at(p, es, i);
        let b = state_at(p, es, i + 1);
        let m = masked_bytes(p, es, i);
        assert(end.entries[i] == end.entries.take(i + 1)[i]);
        assert(end.entries[i] == b.entries.last());
        let rest = end.entries.skip(i);
        assert(rest[0] == end.entries[i]);
        assert(rest.drop_first() =~= end.entries.skip(i + 1));
        if m.len() > 0 {
            assert(end.blobs.take(b.blobs.len() as int).subrange(
                a.blobs.len() as int,
                b.blobs.len() as int,
            ) =~= end.blobs.subrange(a.blobs.len() as int, b.blobs.len() as int));
            assert((a.blobs + m).subrange(a.blobs.len() as int, b.blobs.len() as int) =~= m);
        } else {
            assert(m =~= Seq::<u8>::empty());
        }
        assert(decoded(rest[0].data, Some(end.blobs)) == Ok::<
            Seq<u8>,
            crate::docx::error::DataFaultV,
        >(m));
        let e = masked_list(p, es)[i];
        lemma_decode(p, es, out.push(e), i + 1);
        assert(out.push(e) + masked_list(p, es).skip(i + 1) =~= out + masked_list(p, es).skip(i));
    }
}

/// What the list of parts holds: one for each entry that is one, in their order.
proof fn lemma_parts(p: Seq<char>, es: Seq<EntryV>, want: Seq<Seq<EventV>>, i: int, j: int)
    requires
        0 <= i <= es.len(),
    ensures
        ({
            let ps = parts_from(p, es, want, i, j);
            &&& forall|k: int|
                0 <= k < ps.len() ==> i <= (#[trigger] ps[k]).entry < es.len() && is_part(
                    p,
                    es,
                    ps[k].entry as int,
                ) && ps[k] == part_at(p, es, want, ps[k].entry as int, j)
            &&& forall|k: int, l: int|
                0 <= k < l < ps.len() ==> (#[trigger] ps[k]).entry < (#[trigger] ps[l]).entry
        }),
    decreases es.len() - i,
{
    if i < es.len() {
        lemma_parts(p, es, want, i + 1, j);
        let ps = parts_from(p, es, want, i, j);
        let rest = parts_from(p, es, want, i + 1, j);
        if is_part(p, es, i) {
            assert forall|k: int| 0 <= k < ps.len() implies i <= (#[trigger] ps[k]).entry
                < es.len() && is_part(p, es, ps[k].entry as int) && ps[k] == part_at(
                p,
                es,
                want,
                ps[k].entry as int,
                j,
            ) by {
                if k > 0 {
                    assert(ps[k] == rest[k - 1]);
                }
            }
            assert forall|k: int, l: int| 0 <= k < l < ps.len() implies (#[trigger] ps[k]).entry < (
            #[trigger] ps[l]).entry by {
                assert(ps[l] == rest[l - 1]);
                if k > 0 {
                    assert(ps[k] == rest[k - 1]);
                }
            }
        }
    }
}

/// The place of the part of the entry at `k` in the list of parts.
proof fn lemma_part_of(p: Seq<char>, es: Seq<EntryV>, want: Seq<Seq<EventV>>, i: int, j: int, k: int) -> (q: int)
    requires
        0 <= i <= k < es.len(),
        is_part(p, es, k),
    ensures
        0 <= q < parts_from(p, es, want, i, j).len(),
        parts_from(p, es, want, i, j)[q] == part_at(p, es, want, k, j),
    decreases es.len() - i,
{
    let ps = parts_from(p, es, want, i, j);
    if i == k {
        assert(ps[0] == part_at(p, es, want, k, j));
        0
    } else {
        let q = lemma_part_of(p, es, want, i + 1, j, k);
        if is_part(p, es, i) {
            assert(ps[q + 1] == parts_from(p, es, want, i + 1, j)[q]);
            q + 1
        } else {
            q
        }
    }
}

proof fn lemma_position(ps: Seq<MergePartV>, q: int)
    requires
        0 <= q < ps.len(),
        forall|k: int| 0 <= k < ps.len() && k != q ==> (#[trigger] ps[k]).name != ps[q].name,
    ensures
        part_position(ps, ps[q].name) == Some(q),
    decreases ps.len(),
{
    if q < ps.len() - 1 {
        assert(ps.last() == ps[ps.len() - 1]);
        let front = ps.drop_last();
        assert forall|k: int| 0 <= k < front.len() && k != q implies (#[trigger] front[k]).name
            != front[q].name by {
            assert(front[k] == ps[k]);
        }
        lemma_position(front, q);
    }
}

proof fn lemma_no_position(ps: Seq<MergePartV>, name: Seq<char>)
    requires
        forall|k: int| 0 <= k < ps.len() ==> (#[trigger] ps[k]).name != name,
    ensures
        part_position(ps, name) is None,
    decreases ps.len(),
{
    if ps.len() > 0 {
        assert(ps.last() == ps[ps.len() - 1]);
        let front = ps.drop_last();
        assert forall|k: int| 0 <= k < front.len() implies (#[trigger] front[k]).name != name by {
            assert(front[k] == ps[k]);
        }
        lemma_no_position(front, name);
    }
}

proof fn lemma_merge_parts(
    p: Seq<char>,
    es: Seq<EntryV>,
    want: Seq<Seq<EventV>>,
    ps: Seq<MergePartV>,
    i: int,
)
    requires
        mask_entries(p, mask_start(), es) is Ok,
        names_apart(es),
        masks_read_back(p, es),
        0 <= i <= es.len(),
        forall|k: int|
            0 <= k < ps.len() ==> (#[trigger] ps[k]).entry < i && part_with_content(
                es,
                ps[k].entry as int,
            ) && ps[k].name == es[ps[k].entry as int].name,
    ensures
        merge_parts(ps, masked_list(p, es), i as nat) == Ok::<_, DocxErrorV>(
            ps + parts_from(p, es, want, i, 0),
        ),
    decreases es.len() - i,
{
    let m = masked_list(p, es);
    if i == es.len() {
        assert(ps + parts_from(p, es, want, i, 0) =~= ps);
    } else {
        lemma_state(p, es, i);
        if is_part(p, es, i) {
            let part = part_at(p, es, want, i, 0);
            assert forall|k: int| 0 <= k < ps.len() implies (#[trigger] ps[k]).name
                != part.name by {
                assert(es[ps[k].entry as int].name != es[i].name);
            }
            lemma_no_position(ps, part.name);
            let next = ps.push(part);
            lemma_merge_parts(p, es, want, next, i + 1);
            assert(next + parts_from(p, es, want, i + 1, 0) =~= ps + parts_from(p, es, want, i, 0));
            assert(with_part(ps, part) == next);
            assert(parsed(m[i].data) == Ok::<_, XmlErrorV>(part.events));
        } else {
            lemma_merge_parts(p, es, want, ps, i + 1);
            assert(!xml_entry(m[i]));
        }
    }
}

proof fn lemma_restored(es: Seq<EntryV>, ps: Seq<MergePartV>)
    requires
        forall|k: int| 0 <= k < ps.len() ==> (#[trigger] ps[k]).entry < es.len(),
        forall|k: int, l: int|
            0 <= k < l < ps.len() ==> (#[trigger] ps[k]).entry < (#[trigger] ps[l]).entry,
    ensures
        restored(es, ps).len() == es.len(),
        forall|q: int|
            0 <= q < ps.len() ==> restored(es, ps)[(#[trigger] ps[q]).entry as int] == (EntryV {
                data: encode_utf8(events_written(ps[q].events)),
                ..es[ps[q].entry as int]
            }),
        forall|e: int|
            0 <= e < es.len() && (forall|k: int|
                0 <= k < ps.len() ==> (#[trigger] ps[k]).entry != e) ==> #[trigger] restored(
                es,
                ps,
            )[e] == es[e],
    decreases ps.len(),
{
    if ps.len() > 0 {
        let k0 = ps[0].entry as int;
        let next = es.update(
            k0,
            EntryV { data: encode_utf8(events_written(ps[0].events)), ..es[k0] },
        );
        let rest = ps.drop_first();
        assert forall|k: int, l: int| 0 <= k < l < rest.len() implies (#[trigger] rest[k]).entry < (
        #[trigger] rest[l]).entry by {
            assert(rest[k] == ps[k + 1] && rest[l] == ps[l + 1]);
        }
        assert forall|k: int| 0 <= k < rest.len() implies (#[trigger] rest[k]).entry < next.len()
            && rest[k].entry != k0 by {
            assert(rest[k] == ps[k + 1]);
            assert(ps[0].entry < ps[k + 1].entry);
        }
        lemma_restored(next, rest);
        assert forall|q: int| 0 <= q < ps.len() implies restored(es, ps)[(
        #[trigger] ps[q]).entry as int] == (EntryV {
            data: encode_utf8(events_written(ps[q].events)),
            ..es[ps[q].entry as int]
        }) by {
            if q > 0 {
                assert(rest[q - 1] == ps[q]);
            } else {
                assert(restored(next, rest)[k0] == next[k0]);
            }
        }
        assert forall|e: int|
            0 <= e < es.len() && (forall|k: int|
                0 <= k < ps.len() ==> (#[trigger] ps[k]).entry != e) implies #[trigger] restored(
            es,
            ps,
        )[e] == es[e] by {
            assert(ps[0].entry != e);
            assert forall|k: int| 0 <= k < rest.len() implies (#[trigger] rest[k]).entry != e by {
                assert(rest[k] == ps[k + 1]);
            }
            assert(restored(next, rest)[e] == next[e]);
        }
    }
}

proof fn lemma_same_entries(p: Seq<char>, es: Seq<EntryV>, want: Seq<Seq<EventV>>, i: int, j: int, l: int)
    requires
        0 <= i <= es.len(),
    ensures
        parts_from(p, es, want, i, j).len() == parts_from(p, es, want, i, l).len(),
        forall|k: int|
            0 <= k < parts_from(p, es, want, i, j).len() ==> (#[trigger] parts_from(p, es, want, i, j)[k]).entry
                == parts_from(p, es, want, i, l)[k].entry,
    decreases es.len() - i,
{
    if i < es.len() {
        lemma_same_entries(p, es, want, i + 1, j, l);
        let a = parts_from(p, es, want, i, j);
        let b = parts_from(p, es, want, i, l);
        if is_part(p, es, i) {
            assert forall|k: int| 0 <= k < a.len() implies (#[trigger] a[k]).entry
                == b[k].entry by {
                if k > 0 {
                    assert(a[k] == parts_from(p, es, want, i + 1, j)[k - 1]);
                    assert(b[k] == parts_from(p, es, want, i + 1, l)[k - 1]);
                }
            }
        }
    }
}

proof fn lemma_parts_next(p: Seq<char>, es: Seq<EntryV>, want: Seq<Seq<EventV>>, j: int, q: int)
    requires
        0 <= j < es.len(),
        is_part(p, es, j) ==> 0 <= q < parts_from(p, es, want, 0, j).len() && parts_from(p, es, want, 0, j)[q]
            == part_at(p, es, want, j, j),
    ensures
        parts_from(p, es, want, 0, j + 1) == if is_part(p, es, j) {
            parts_from(p, es, want, 0, j).update(q, part_at(p, es, want, j, j + 1))
        } else {
            parts_from(p, es, want, 0, j)
        },
{
    let a = parts_from(p, es, want, 0, j);
    let b = parts_from(p, es, want, 0, j + 1);
    lemma_same_entries(p, es, want, 0, j, j + 1);
    lemma_parts(p, es, want, 0, j);
    lemma_parts(p, es, want, 0, j + 1);
    assert forall|k: int| 0 <= k < a.len() implies #[trigger] b[k] == (if is_part(p, es, j) && k
        == q {
        part_at(p, es, want, j, j + 1)
    } else {
        a[k]
    }) by {
        assert(a[k].entry == b[k].entry);
        if is_part(p, es, j) {
            if k < q {
                assert(a[k].entry < a[q].entry);
            } else if q < k {
                assert(a[q].entry < a[k].entry);
            }
        }
        assert(b[k] == part_at(p, es, want, b[k].entry as int, j + 1));
        assert(a[k] == part_at(p, es, want, a[k].entry as int, j));
    }
    if is_part(p, es, j) {
        assert(b =~= a.update(q, part_at(p, es, want, j, j + 1)));
    } else {
        assert(b =~= a);
    }
}

/// The run over the first events is the beginning of the whole run.
proof fn lemma_run_prefix(
    p: Seq<char>,
    name: Seq<char>,
    before: Seq<SlotV>,
    events: Seq<EventV>,
    j: int,
)
    requires
        0 <= j < events.len(),
    ensures
        ({
            let all = mask_run(p, name, before, events);
            let a = mask_run(p, name, before, events.take(j));
            let b = mask_run(p, name, before, events.take(j + 1));
            &&& all.events[j] == b.events[j]
            &&& a.events.len() == j
            &&& b == mask_run(p, name, before, events.take(j).push(events[j]))
            &&& slot_texts_of(events.take(j)).len() == a.slots.len() - before.len()
            &&& slot_text(events[j]) is Some ==> slot_texts_of(events.take(j)).len()
                < slot_texts_of(events).len() && slot_texts_of(events)[slot_texts_of(
                events.take(j),
            ).len() as int] == slot_text(events[j])->0
        }),
    decreases events.len(),
{
    lemma_run(p, name, before, events.take(j));
    assert(events.take(j + 1) =~= events.take(j).push(events[j]));
    assert(events.take(j + 1).drop_last() =~= events.take(j));
    if j == events.len() - 1 {
        assert(events.take(j + 1) =~= events);
    } else {
        let front = events.drop_last();
        lemma_run_prefix(p, name, before, front, j);
        lemma_run(p, name, before, front);
        assert(front.take(j) =~= events.take(j));
        assert(front.take(j + 1) =~= events.take(j + 1));
        let f = mask_run(p, name, before, front);
        assert(mask_run(p, name, before, events).events[j] == f.events[j]);
    }
}

/// Filling the slots of the first `j` events of a part.
proof fn lemma_fill_part(
    p: Seq<char>,
    texts: Seq<Seq<char>>,
    ps: Seq<MergePartV>,
    q: int,
    before: Seq<SlotV>,
    events: Seq<EventV>,
    j: int,
    rest: Seq<SlotV>,
)
    requires
        0 <= q < ps.len(),
        forall|k: int| 0 <= k < ps.len() && k != q ==> (#[trigger] ps[k]).name != ps[q].name,
        ps[q].events == mask_run(p, ps[q].name, before, events).events,
        0 <= j <= events.len(),
        before.len() + slot_texts_of(events).len() <= texts.len(),
        texts.subrange(
            before.len() as int,
            (before.len() + slot_texts_of(events).len()) as int,
        ) == slot_texts_of(events),
    ensures
        filled_slots(
            p,
            texts,
            ps,
            mask_run(p, ps[q].name, before, events.take(j)).slots.skip(before.len() as int) + rest,
        ) == filled_slots(
            p,
            texts,
            ps.update(
                q,
                MergePartV { events: events.take(j) + ps[q].events.skip(j), ..ps[q] },
            ),
            rest,
        ),
    decreases j,
{
    let name = ps[q].name;
    let masked = ps[q].events;
    lemma_run(p, name, before, events);
    if j == 0 {
        assert(events.take(0) =~= Seq::<EventV>::empty());
        assert(before.skip(before.len() as int) + rest =~= rest);
        assert(events.take(0) + masked.skip(0) =~= masked);
        assert(ps.update(q, MergePartV { events: masked, ..ps[q] }) =~= ps);
    } else {
        let i = j - 1;
        let ev = events[i];
        lemma_run_prefix(p, name, before, events, i);
        let a = mask_run(p, name, before, events.take(i));
        let b = mask_run(p, name, before, events.take(j));
        lemma_run(p, name, before, events.take(i));
        assert(events.take(i).push(ev).drop_last() =~= events.take(i));
        let cur = ps.update(
            q,
            MergePartV { events: events.take(i) + masked.skip(i), ..ps[q] },
        );
        let next = ps.update(
            q,
            MergePartV { events: events.take(j) + masked.skip(j), ..ps[q] },
        );
        if slot_text(ev) is Some {
            let slot = b.slots.last();
            let ph = placeholder_of(p, slot.id);
            assert(b.slots.skip(before.len() as int) + rest =~= a.slots.skip(before.len() as int)
                + (seq![slot] + rest));
            lemma_fill_part(p, texts, ps, q, before, events, i, seq![slot] + rest);
            lemma_position(cur, q);
            law_slot_text_set(ev, ph, slot_text(ev)->0);
            assert(masked[i] == with_slot_text(ev, ph));
            assert(cur[q].events[i] == masked[i]);
            let n = a.slots.len() as int;
            assert(slot.id == n + 1);
            assert(texts[n] == slot_texts_of(events)[n - before.len()]) by {
                assert(texts.subrange(
                    before.len() as int,
                    (before.len() + slot_texts_of(events).len()) as int,
                )[n - before.len()] == texts[n]);
            }
            assert(filled_event(
                with_slot_text(ev, ph),
                slot.kind,
                slot.attr_name,
                ph,
                slot_text(ev)->0,
            ) == Ok::<EventV, crate::docx::error::SlotFault>(ev)) by {
                assert(slot.kind == slot_kind(ev));
                assert(slot.attr_name == slot_attr(ev));
                assert(with_slot_text(with_slot_text(ev, ph), slot_text(ev)->0) == ev);
                assert(slot_text(with_slot_text(ev, ph)) == Some(ph));
            }
            assert(cur[q].events.update(i, ev) =~= events.take(j) + masked.skip(j));
            assert(cur.update(
                q,
                MergePartV { events: cur[q].events.update(i, ev), ..cur[q] },
            ) =~= next);
            assert(filled_slot(p, texts, cur, slot) == Ok::<
                Seq<MergePartV>,
                crate::docx::error::SlotFault,
            >(next));
            assert((seq![slot] + rest)[0] == slot);
            assert((seq![slot] + rest).drop_first() =~= rest);
        } else {
            assert(b.slots == a.slots);
            lemma_fill_part(p, texts, ps, q, before, events, i, rest);
            assert(masked[i] == ev);
            assert(events.take(i) + masked.skip(i) =~= events.take(j) + masked.skip(j));
        }
    }
}

proof fn lemma_escaped_some(t: Seq<char>)
    requires
        t.len() > 0,
    ensures
        escaped(t).len() > 0,
{
    reveal_strlit("&amp;");
    reveal_strlit("&lt;");
    reveal_strlit("&gt;");
    assert(escaped_char(t.last()).len() > 0);
}

/// An event that is not an empty text is written as something.
pub(crate) proof fn lemma_event_written_some(ev: EventV)
    ensures
        ev matches EventV::Text { text } && text.len() == 0 || event_written(ev).len() > 0,
{
    reveal_strlit("<");
    reveal_strlit("</");
    reveal_strlit("<![CDATA[");
    reveal_strlit("<!--");
    reveal_strlit("<?");
    reveal_strlit("<!DOCTYPE ");
    reveal_strlit("<?xml version=\"");
    if let EventV::Text { text } = ev {
        if text.len() > 0 {
            lemma_escaped_some(text);
        }
    }
}

/// A masked part that is written as nothing has no events.
proof fn lemma_empty_part(p: Seq<char>, name: Seq<char>, before: Seq<SlotV>, events: Seq<EventV>)
    requires
        encode_utf8(events_written(mask_run(p, name, before, events).events)).len() == 0,
    ensures
        events.len() == 0,
{
    lemma_run(p, name, before, events);
    let r = mask_run(p, name, before, events).events;
    let w = events_written(r);
    if events.len() > 0 {
        let ev = events.last();
        let last = r.last();
        if let EventV::Text { text } = last {
            reveal_strlit("__MT_MASK_");
            assert(placeholder_start(p).len() > 0);
            assert(text.len() > 0);
        }
        lemma_event_written_some(last);
        assert(event_written(last).len() > 0);
        assert(w.len() > 0);
        encode_utf8_first_scalar(w);
        assert(false);
    }
}

/// Whether the events in `want` for the part at `i` are masked as its own are, and hold the texts of
/// its slots.
pub open spec fn fits_slots(
    p: Seq<char>,
    es: Seq<EntryV>,
    want: Seq<Seq<EventV>>,
    texts: Seq<Seq<char>>,
    i: int,
) -> bool {
    let before = state_at(p, es, i).slots;
    let after = state_at(p, es, i + 1).slots;
    &&& mask_run(p, es[i].name, before, want[i]) == mask_run(
        p,
        es[i].name,
        before,
        parsed(es[i].data)->Ok_0,
    )
    &&& after.len() <= texts.len()
    &&& texts.subrange(before.len() as int, after.len() as int) == slot_texts_of(want[i])
}

/// Whether there are events for each part that fit its slots and their texts.
pub open spec fn wanted(
    p: Seq<char>,
    es: Seq<EntryV>,
    want: Seq<Seq<EventV>>,
    texts: Seq<Seq<char>>,
) -> bool {
    &&& want.len() == es.len()
    &&& forall|i: int|
        0 <= i < es.len() && part_with_content(es, i) ==> #[trigger] fits_slots(
            p,
            es,
            want,
            texts,
            i,
        )
}

/// Whether the events for each part do not hold the tag of the placeholders.
pub open spec fn no_leftovers(p: Seq<char>, es: Seq<EntryV>, want: Seq<Seq<EventV>>) -> bool {
    forall|i: int|
        0 <= i < es.len() && #[trigger] part_with_content(es, i) ==> leftover_events(p, want[i]) is None
}

/// The entries with the events in `want` in their parts, and no data in directories.
pub open spec fn entries_with(es: Seq<EntryV>, want: Seq<Seq<EventV>>) -> Seq<EntryV> {
    Seq::new(
        es.len(),
        |i: int|
            if dir_entry(es[i]) {
                EntryV { data: Seq::empty(), ..es[i] }
            } else if xml_entry(es[i]) {
                EntryV { data: encode_utf8(events_written(want[i])), ..es[i] }
            } else {
                es[i]
            },
    )
}

proof fn lemma_fill(
    p: Seq<char>,
    es: Seq<EntryV>,
    want: Seq<Seq<EventV>>,
    texts: Seq<Seq<char>>,
    j: int,
)
    requires
        mask_entries(p, mask_start(), es) is Ok,
        names_apart(es),
        wanted(p, es, want, texts),
        0 <= j <= es.len(),
    ensures
        filled_slots(
            p,
            texts,
            parts_from(p, es, want, 0, j),
            state_at(p, es, es.len() as int).slots.skip(state_at(p, es, j).slots.len() as int),
        ) == Ok::<_, DocxErrorV>(parts_from(p, es, want, 0, es.len() as int)),
    decreases es.len() - j,
{
    let n = es.len() as int;
    let slots = state_at(p, es, n).slots;
    let ps = parts_from(p, es, want, 0, j);
    if j == n {
        assert(slots.skip(slots.len() as int) =~= Seq::<SlotV>::empty());
    } else {
        lemma_fill(p, es, want, texts, j + 1);
        lemma_step(p, es, j);
        lemma_grow(p, es, j + 1, n);
        let before = state_at(p, es, j).slots;
        let after = state_at(p, es, j + 1).slots;
        let events = want[j];
        if is_part(p, es, j) {
            let q = lemma_part_of(p, es, want, 0, j, j);
            lemma_parts_next(p, es, want, j, q);
            lemma_parts(p, es, want, 0, j);
            lemma_run(p, es[j].name, before, events);
            assert(fits_slots(p, es, want, texts, j));
            assert forall|k: int| 0 <= k < ps.len() && k != q implies (#[trigger] ps[k]).name
                != ps[q].name by {
                if k < q {
                    assert(ps[k].entry < ps[q].entry);
                    assert(es[ps[k].entry as int].name != es[ps[q].entry as int].name);
                } else {
                    assert(ps[q].entry < ps[k].entry);
                    assert(es[ps[q].entry as int].name != es[ps[k].entry as int].name);
                }
            }
            let rest = slots.skip(after.len() as int);
            assert(slots.skip(before.len() as int) =~= slots.take(after.len() as int).skip(
                before.len() as int,
            ) + rest);
            assert(events.take(events.len() as int) =~= events);
            lemma_fill_part(p, texts, ps, q, before, events, events.len() as int, rest);
            assert(events + ps[q].events.skip(events.len() as int) =~= events);
        } else {
            lemma_parts_next(p, es, want, j, 0);
            if part_with_content(es, j) {
                lemma_empty_part(p, es[j].name, before, events_at(es, j));
                assert(after == before);
            }
        }
    }
}

proof fn lemma_no_leftovers(p: Seq<char>, ps: Seq<MergePartV>)
    requires
        forall|k: int| 0 <= k < ps.len() ==> leftover_events(p, (#[trigger] ps[k]).events) is None,
    ensures
        leftover_parts(p, ps) is None,
    decreases ps.len(),
{
    if ps.len() > 0 {
        let rest = ps.drop_first();
        assert forall|k: int| 0 <= k < rest.len() implies leftover_events(
            p,
            (#[trigger] rest[k]).events,
        ) is None by {
            assert(rest[k] == ps[k + 1]);
        }
        lemma_no_leftovers(p, rest);
    }
}

/// Where no part holds the tag, none of those in the list does.
proof fn lemma_part_free(p: Seq<char>, ps: Seq<MergePartV>, k: int)
    requires
        leftover_parts(p, ps) is None,
        0 <= k < ps.len(),
    ensures
        leftover_events(p, ps[k].events) is None,
    decreases ps.len(),
{
    if k > 0 {
        assert(ps.drop_first()[k - 1] == ps[k]);
        lemma_part_free(p, ps.drop_first(), k - 1);
    }
}

proof fn lemma_slot_ids(slots: Seq<SlotV>)
    requires
        forall|s: int| 0 <= s < slots.len() ==> (#[trigger] slots[s]).id == s + 1,
    ensures
        max_slot_id(slots) == slots.len(),
        slots.len() > 0 ==> min_slot_id(slots) == 1,
    decreases slots.len(),
{
    if slots.len() > 0 {
        let front = slots.drop_last();
        assert forall|s: int| 0 <= s < front.len() implies (#[trigger] front[s]).id == s + 1 by {
            assert(front[s] == slots[s]);
        }
        lemma_slot_ids(front);
        assert(slots.last() == slots[slots.len() - 1]);
    }
}

/// A part that is masked to nothing is to have no events.
proof fn lemma_empty_want(
    p: Seq<char>,
    es: Seq<EntryV>,
    want: Seq<Seq<EventV>>,
    texts: Seq<Seq<char>>,
    i: int,
)
    requires
        wanted(p, es, want, texts),
        0 <= i < es.len(),
        part_with_content(es, i),
        !is_part(p, es, i),
    ensures
        want[i] == Seq::<EventV>::empty(),
{
    let before = state_at(p, es, i).slots;
    lemma_empty_part(p, es[i].name, before, events_at(es, i));
    assert(fits_slots(p, es, want, texts, i));
    lemma_run(p, es[i].name, before, want[i]);
    lemma_run(p, es[i].name, before, events_at(es, i));
    assert(want[i] =~= Seq::<EventV>::empty());
}

/// The filled parts, put back, are the entries with the events in `want`.
proof fn lemma_put_back(
    p: Seq<char>,
    es: Seq<EntryV>,
    want: Seq<Seq<EventV>>,
    texts: Seq<Seq<char>>,
)
    requires
        mask_entries(p, mask_start(), es) is Ok,
        wanted(p, es, want, texts),
    ensures
        restored(masked_list(p, es), parts_from(p, es, want, 0, es.len() as int)) == entries_with(
            es,
            want,
        ),
{
    let n = es.len() as int;
    let list = masked_list(p, es);
    let filled = parts_from(p, es, want, 0, n);
    lemma_parts(p, es, want, 0, n);
    lemma_restored(list, filled);
    let back = restored(list, filled);
    let all = entries_with(es, want);
    assert forall|i: int| 0 <= i < n implies #[trigger] back[i] == all[i] by {
        if is_part(p, es, i) {
            let q = lemma_part_of(p, es, want, 0, n, i);
            assert(filled[q].entry == i);
        } else {
            assert forall|k: int| 0 <= k < filled.len() implies (#[trigger] filled[k]).entry
                != i by {
                assert(is_part(p, es, filled[k].entry as int));
            }
            assert(back[i] == list[i]);
            if part_with_content(es, i) {
                lemma_empty_want(p, es, want, texts, i);
                assert(masked_bytes(p, es, i) =~= Seq::<u8>::empty());
                assert(all[i].data =~= Seq::<u8>::empty());
            }
        }
    }
    assert(back =~= all);
}

/// A masked package belongs together with its slots and as many texts, and holds the masked data of
/// each entry.
pub proof fn law_masked_package(
    prefix: Seq<char>,
    blobs_file: Seq<char>,
    entries: Seq<EntryV>,
    text: PureTextV,
)
    requires
        masked_of(prefix, blobs_file, entries) is Ok,
        masked_of(prefix, blobs_file, entries)->Ok_0.blobs.len() <= usize::MAX,
        text.placeholder_prefix == prefix,
        text.slot_texts.len() == masked_of(prefix, blobs_file, entries)->Ok_0.offsets.slots.len(),
    ensures
        ({
            let m = masked_of(prefix, blobs_file, entries)->Ok_0;
            &&& merge_fault(m.mask, m.offsets, text) is None
            &&& decoded_entries(Some(m.blobs), Seq::empty(), m.mask.entries) == Ok::<_, DocxErrorV>(
                masked_list(prefix, entries),
            )
        }),
{
    let n = entries.len() as int;
    assert(entries.take(n) =~= entries);
    let end = state_at(prefix, entries, n);
    lemma_grow(prefix, entries, n, n);
    lemma_slot_ids(end.slots);
    lemma_decode(prefix, entries, Seq::empty(), 0);
    let list = masked_list(prefix, entries);
    assert(end.entries.skip(0) =~= end.entries);
    assert(Seq::<EntryV>::empty() + list.skip(0) =~= list);
}

/// A document that is masked and filled is the document with other events in its XML parts, entry by
/// entry: those that have the texts in their slots and are masked as its own events are. It is refused
/// where one of these holds the tag of its placeholders. Its XML parts have names of their own, and the
/// masked parts are read back as they were written.
pub proof fn law_mask_and_merge_fill(
    prefix: Seq<char>,
    blobs_file: Seq<char>,
    entries: Seq<EntryV>,
    want: Seq<Seq<EventV>>,
    text: PureTextV,
)
    requires
        masked_of(prefix, blobs_file, entries) is Ok,
        masked_of(prefix, blobs_file, entries)->Ok_0.blobs.len() <= usize::MAX,
        names_apart(entries),
        masks_read_back(prefix, entries),
        wanted(prefix, entries, want, text.slot_texts),
        text.placeholder_prefix == prefix,
        text.slot_texts.len() == masked_of(prefix, blobs_file, entries)->Ok_0.offsets.slots.len(),
    ensures
        ({
            let m = masked_of(prefix, blobs_file, entries)->Ok_0;
            let merged = merged_entries(m.mask, m.offsets, text, Some(m.blobs));
            &&& merged is Ok <==> no_leftovers(prefix, entries, want)
            &&& merged is Ok ==> merged->Ok_0 == entries_with(entries, want)
        }),
{
    let m = masked_of(prefix, blobs_file, entries)->Ok_0;
    let n = entries.len() as int;
    let p = prefix;
    let es = entries;
    let texts = text.slot_texts;
    assert(entries.take(n) =~= entries);
    let end = state_at(p, es, n);
    law_masked_package(prefix, blobs_file, entries, text);
    lemma_merge_parts(p, es, want, Seq::empty(), 0);
    let masked = parts_from(p, es, want, 0, 0);
    assert(Seq::<MergePartV>::empty() + masked =~= masked);
    lemma_fill(p, es, want, texts, 0);
    assert(es.take(0) =~= Seq::<EntryV>::empty());
    assert(end.slots.skip(0) =~= end.slots);
    let filled = parts_from(p, es, want, 0, n);
    lemma_parts(p, es, want, 0, n);
    if no_leftovers(p, es, want) {
        assert forall|k: int| 0 <= k < filled.len() implies leftover_events(
            p,
            (#[trigger] filled[k]).events,
        ) is None by {
            assert(part_with_content(es, filled[k].entry as int));
        }
        lemma_no_leftovers(p, filled);
    }
    if leftover_parts(p, filled) is None {
        assert forall|i: int| 0 <= i < n && #[trigger] part_with_content(es, i) implies leftover_events(
            p,
            want[i],
        ) is None by {
            if is_part(p, es, i) {
                let q = lemma_part_of(p, es, want, 0, n, i);
                lemma_part_free(p, filled, q);
            } else {
                lemma_empty_want(p, es, want, texts, i);
            }
        }
    }
    lemma_put_back(p, es, want, texts);
}

/// Whether the directories are as an archive keeps them: without data, and not packed.
pub open spec fn plain_directories(entries: Seq<EntryV>) -> bool {
    forall|i: int|
        0 <= i < entries.len() && dir_entry(#[trigger] entries[i]) ==> entries[i].data.len() == 0
            && entries[i].compression == 0
}

/// Whether an entry is as an archive keeps it, and, if it is an XML part, can be read and has plain
/// names.
pub open spec fn entry_plain(e: EntryV) -> bool {
    &&& entry_read(e)
    &&& dir_entry(e) ==> e.data.len() == 0 && e.compression == 0
    &&& !dir_entry(e) && xml_entry(e) ==> (parsed(e.data) matches Ok(events) && plain(events))
}

/// A plain entry and its normal form, once written and read, differ in nothing but the bytes of an XML
/// part: these are the ones that its events are written as.
pub proof fn law_plain_entry_kept(e: EntryV, back: EntryV)
    requires
        entry_plain(e),
        entry_reads_back(Seq::empty(), normal(e), back),
    ensures
        back.name == e.name,
        back.compression == e.compression,
        back.last_modified == e.last_modified,
        back.is_dir == e.is_dir,
        dir_entry(e) || !xml_entry(e) ==> back.data == e.data,
        !dir_entry(e) && xml_entry(e) ==> back.data == encode_utf8(
            events_written(parsed(e.data)->Ok_0),
        ),
{
    assert(back.data =~= normal(e).data);
    if dir_entry(e) {
        assert(e.data =~= Seq::<u8>::empty());
    }
}

/// The data of the XML entries as their events are written, the last of them first, before what is
/// in `done`. An entry without data keeps it.
pub open spec fn parts_rewritten(entries: Seq<EntryV>, done: Seq<(Seq<char>, Seq<u8>)>) -> Result<
    Seq<(Seq<char>, Seq<u8>)>,
    DocxErrorV,
>
    decreases entries.len(),
{
    if entries.len() == 0 {
        Ok(done)
    } else {
        let e = entries[0];
        if e.data.len() == 0 {
            parts_rewritten(entries.drop_first(), done)
        } else {
            match parsed(e.data) {
                Err(error) => Err(DocxErrorV::Xml { part: e.name, error }),
                Ok(events) => parts_rewritten(
                    entries.drop_first(),
                    seq![(e.name, encode_utf8(events_written(events)))] + done,
                ),
            }
        }
    }
}

/// Whether the entries whose names end in `.xml` have names of their own.
pub open spec fn xml_names_apart(entries: Seq<EntryV>) -> bool {
    forall|i: int, j: int|
        0 <= i < j < entries.len() && xml_name(entries[i].name) ==> (#[trigger] entries[i]).name != (
        #[trigger] entries[j]).name
}

/// Whether the entries have names of their own.
spec fn all_apart(entries: Seq<EntryV>) -> bool {
    forall|i: int, j: int|
        0 <= i < j < entries.len() ==> (#[trigger] entries[i]).name != (#[trigger] entries[j]).name
}

/// The data that rewriting the parts puts under a name: that of the entry at `k`, if it has the name,
/// and else what was there before.
proof fn lemma_rewritten_at(
    entries: Seq<EntryV>,
    done: Seq<(Seq<char>, Seq<u8>)>,
    name: Seq<char>,
    data: Seq<u8>,
    k: int,
)
    requires
        parts_rewritten(entries, done) is Ok,
        all_apart(entries),
        k == -1 ==> forall|i: int| 0 <= i < entries.len() ==> (#[trigger] entries[i]).name != name,
        k != -1 ==> 0 <= k < entries.len() && entries[k].name == name,
    ensures
        ({
            let r = replaced_data(parts_rewritten(entries, done)->Ok_0, name, data);
            if k != -1 && entries[k].data.len() > 0 {
                r == encode_utf8(events_written(parsed(entries[k].data)->Ok_0))
            } else {
                r == replaced_data(done, name, data)
            }
        }),
    decreases entries.len(),
{
    if entries.len() > 0 {
        let e = entries[0];
        let rest = entries.drop_first();
        let next = if e.data.len() == 0 {
            done
        } else {
            seq![(e.name, encode_utf8(events_written(parsed(e.data)->Ok_0)))] + done
        };
        assert forall|i: int, j: int| 0 <= i < j < rest.len() implies (#[trigger] rest[i]).name != (
        #[trigger] rest[j]).name by {
            assert(rest[i] == entries[i + 1] && rest[j] == entries[j + 1]);
        }
        let l = if k > 0 {
            k - 1
        } else {
            -1
        };
        assert forall|i: int| 0 <= i < rest.len() && l == -1 implies (#[trigger] rest[i]).name
            != name by {
            assert(rest[i] == entries[i + 1]);
            if k == 0 {
                assert(entries[0].name != entries[i + 1].name);
            }
        }
        lemma_rewritten_at(rest, next, name, data, l);
        if k > 0 {
            assert(rest[k - 1] == entries[k]);
            assert(entries[0].name != entries[k].name);
        }
        if e.data.len() > 0 {
            assert(next[0] == (e.name, encode_utf8(events_written(parsed(e.data)->Ok_0))));
            assert(next.drop_first() =~= done);
        }
    }
}

/// What the list of XML entries holds: the entries with such names, each of them in a place of its own.
proof fn lemma_xml_only(entries: Seq<EntryV>, k: int) -> (q: int)
    requires
        xml_names_apart(entries),
        0 <= k < entries.len() || k == -1,
    ensures
        all_apart(xml_only(entries)),
        forall|i: int|
            0 <= i < xml_only(entries).len() ==> xml_name((#[trigger] xml_only(entries)[i]).name)
                && entries.contains(xml_only(entries)[i]),
        k != -1 && xml_name(entries[k].name) ==> 0 <= q < xml_only(entries).len() && xml_only(
            entries,
        )[q] == entries[k],
    decreases entries.len(),
{
    if entries.len() == 0 {
        -1
    } else {
        let n = entries.len() - 1;
        let front = entries.drop_last();
        let last = entries.last();
        let all = xml_only(entries);
        let some = xml_only(front);
        assert forall|i: int, j: int|
            0 <= i < j < front.len() && xml_name(front[i].name) implies (#[trigger] front[i]).name != (
        #[trigger] front[j]).name by {
            assert(front[i] == entries[i] && front[j] == entries[j]);
        }
        let q = lemma_xml_only(
            front,
            if k < n {
                k
            } else {
                -1
            },
        );
        assert forall|i: int| 0 <= i < all.len() implies xml_name((#[trigger] all[i]).name)
            && entries.contains(all[i]) && (i < some.len() ==> all[i] == some[i] && all[i].name
            != last.name) by {
            if i < some.len() {
                assert(all[i] == some[i]);
                let m = front.index_of(some[i]);
                assert(front[m] == entries[m]);
                assert(entries[m].name != entries[n].name);
            } else {
                assert(entries[n] == all[i]);
            }
        }
        assert forall|i: int, j: int| 0 <= i < j < all.len() implies (#[trigger] all[i]).name != (
        #[trigger] all[j]).name by {
            assert(all[i] == some[i]);
            if j < some.len() {
                assert(all[j] == some[j]);
            }
        }
        if k == n {
            all.len() - 1
        } else {
            q
        }
    }
}

/// An entry of a document that was read and written is in its normal form.
proof fn lemma_entry_rewritten(entries: Seq<EntryV>, k: int)
    requires
        xml_names_apart(entries),
        parts_rewritten(xml_only(entries), Seq::empty()) is Ok,
        0 <= k < entries.len(),
        !dir_entry(entries[k]),
    ensures
        replaced_data(
            parts_rewritten(xml_only(entries), Seq::empty())->Ok_0,
            entries[k].name,
            entries[k].data,
        ) == normal(entries[k]).data,
{
    let e = entries[k];
    let only = xml_only(entries);
    let q = lemma_xml_only(entries, k);
    if xml_name(e.name) {
        lemma_rewritten_at(only, Seq::empty(), e.name, e.data, q);
    } else {
        lemma_rewritten_at(only, Seq::empty(), e.name, e.data, -1);
    }
}

/// A document that was read and written.
pub open spec fn docx_rewritten(docx: Seq<u8>) -> Result<Seq<u8>, DocxErrorV> {
    match package_of(docx) {
        Err(fault) => Err(fault),
        Ok(entries) => match parts_rewritten(xml_only(entries), Seq::empty()) {
            Err(fault) => Err(fault),
            Ok(replacements) => packed(replacements, entries),
        },
    }
}

fn rewrite_entry(e: &DocxEntry) -> (r: Result<Vec<u8>, DocxError>)
    ensures
        bytes_result(r) == match parsed(e.data@) {
            Err(error) => Err(DocxErrorV::Xml { part: e.name@, error }),
            Ok(events) => Ok(encode_utf8(events_written(events))),
        },
{
    match parse_xml_part(e.name.as_str(), e.data.as_slice()) {
        Ok(part) => match write_xml_part(&part) {
            Ok(data) => Ok(data),
            Err(error) => Err(DocxError::Xml { part: e.name.clone(), error }),
        },
        Err(error) => Err(DocxError::Xml { part: e.name.clone(), error }),
    }
}

/// Reads a document and its XML parts, and writes them again. Where the XML entries have names of their
/// own, what is written is read as the normal form of the document.
pub fn rewrite_docx(docx: &[u8]) -> (r: Result<Vec<u8>, DocxError>)
    ensures
        bytes_result(r) == docx_rewritten(docx@),
        r matches Ok(b) ==> package_of(docx@) is Ok && (xml_names_apart(package_of(docx@)->Ok_0)
            ==> reads_back(Seq::empty(), normalized(package_of(docx@)->Ok_0), package_of(b@))),
{
    let pkg: DocxPackage = match DocxPackage::read(docx) {
        Ok(pkg) => pkg,
        Err(fault) => {
            return Err(fault);
        },
    };
    let entries: Vec<&DocxEntry> = pkg.xml_entries();
    let ghost model = entries.deep_view();
    let mut replacements: Vec<(String, Vec<u8>)> = Vec::new();
    let mut i: usize = 0;
    assert(model.skip(0) =~= model);
    assert(replacements_view(replacements) =~= Seq::<(Seq<char>, Seq<u8>)>::empty());
    while i < entries.len()
        invariant
            i <= entries@.len(),
            model == entries.deep_view(),
            package_of(docx@) == Ok::<_, DocxErrorV>(pkg.deep_view()),
            model == xml_only(pkg.deep_view()),
            parts_rewritten(model.skip(i as int), replacements_view(replacements))
                == parts_rewritten(model, Seq::empty()),
        decreases entries@.len() - i,
    {
        let e: &DocxEntry = entries[i];
        assert(model[i as int] == e.deep_view());
        assert(model.skip(i as int).drop_first() =~= model.skip(i + 1));
        assert(model.skip(i as int)[0] == model[i as int]);
        if e.data.len() > 0 {
            let data: Vec<u8> = match rewrite_entry(e) {
                Ok(data) => data,
                Err(fault) => {
                    return Err(fault);
                },
            };
            let ghost before = replacements_view(replacements);
            let ghost kv = (e.name@, data@);
            replacements.insert(0, (e.name.clone(), data));
            assert(replacements_view(replacements) =~= seq![kv] + before);
        }
        i = i + 1;
    }
    assert(model.skip(i as int) =~= Seq::<EntryV>::empty());
    let r: Result<Vec<u8>, DocxError> = pkg.write_with_replacements(&replacements);
    proof {
        let es = pkg.deep_view();
        if let Ok(b) = &r {
            if xml_names_apart(es) {
                let back = package_of(b@)->Ok_0;
                assert forall|k: int| 0 <= k < es.len() implies entry_reads_back(
                    Seq::empty(),
                    normalized(es)[k],
                    #[trigger] back[k],
                ) by {
                    assert(entry_reads_back(replacements_view(replacements), es[k], back[k]));
                    if !dir_entry(es[k]) {
                        lemma_entry_rewritten(es, k);
                    }
                }
            }
        }
    }
    r
}

/// What comes of a document that is taken apart, put together with its own texts and packed: the
/// packed document, or the first fault, which may be a difference from what it was taken from.
pub open spec fn docx_rejoined(docx: Seq<u8>, blobs_file: Seq<char>) -> Result<Seq<u8>, DocxErrorV> {
    match pure_text_of(docx) {
        Err(fault) => Err(fault),
        Ok(text) => match masked_docx(docx, blobs_file) {
            Err(fault) => Err(fault),
            Ok(m) => match merged_entries(m.mask, m.offsets, text, Some(m.blobs)) {
                Err(fault) => Err(fault),
                Ok(entries) => match packed(Seq::empty(), entries) {
                    Err(fault) => Err(fault),
                    Ok(merged) => match docx_difference(docx, merged) {
                        Some(fault) => Err(fault),
                        None => Ok(merged),
                    },
                },
            },
        },
    }
}

/// Whether a document comes back when it is taken apart and put together: its directories are plain, its
/// XML parts have names of their own and plain names in them, and do not hold the tag of its
/// placeholders.
pub open spec fn rejoinable(docx: Seq<u8>) -> bool {
    package_of(docx) matches Ok(entries) && plain_directories(entries) && names_apart(entries)
        && parts_plain(entries) && free_of(file_prefix(docx), entries)
}

/// Takes a document apart, puts it together with its own texts, packs it and compares it with what it
/// was taken from. A document that can be taken apart comes back in its normal form and passes the
/// comparison, unless the archive refuses it.
pub fn rejoin_docx(docx: &[u8], blobs_file: &str) -> (r: Result<Vec<u8>, DocxError>)
    ensures
        bytes_result(r) == docx_rejoined(docx@, blobs_file@),
        pure_text_of(docx@) is Ok && masked_docx(docx@, blobs_file@) is Ok && rejoinable(docx@)
            ==> bytes_result(r) == packed(Seq::empty(), normalized(package_of(docx@)->Ok_0)),
{
    let text: PureTextJson = match extract_pure_text(docx) {
        Ok(text) => text,
        Err(fault) => return Err(fault),
    };
    let m: MaskedDocx = match extract_mask_json_and_offsets(docx, blobs_file) {
        Ok(m) => m,
        Err(fault) => return Err(fault),
    };
    proof {
        let entries = package_of(docx@)->Ok_0;
        law_own_texts_change_nothing(entries, text.deep_view().slot_texts);
        if names_apart(entries) && parts_plain(entries) && free_of(file_prefix(docx@), entries) {
            law_own_slots(file_prefix(docx@), blobs_file@, entries);
            assert(refills_free_of(file_prefix(docx@), entries, text.deep_view().slot_texts));
            assert(taken_from(
                entries,
                blobs_file@,
                m.mask.deep_view(),
                m.offsets.deep_view(),
                Some(m.blobs@),
            ));
            assert(texts_for(m.offsets.deep_view(), text.deep_view()));
        }
    }
    let merged: Vec<u8> = match merge_mask_json_and_offsets(
        &m.mask,
        &m.offsets,
        &text,
        Some(&m.blobs),
    ) {
        Ok(merged) => merged,
        Err(fault) => return Err(fault),
    };
    match verify_docx_roundtrip(docx, merged.as_slice()) {
        Ok(_) => Ok(merged),
        Err(fault) => Err(fault),
    }
}

} // verus!
