//! A document that is filled with other texts.

use crate::docx::decompose::{
    law_slot_text_set, mask_entries, mask_entry, mask_run, mask_start, masked_of,
    merged_entries, placeholder_of, slot_text, slot_texts_of, slot_texts_of_entries, with_slot_text,
    xml_entry, MaskStateV, MaskV, MaskedV, OffsetsV, SlotV,
};
use crate::docx::error::DocxErrorV;
use crate::docx::package::{dir_entry, entries_read, entry_read, entry_reads_back, reads_back, EntryV};
use crate::docx::pure_text::PureTextV;
use crate::docx::roundtrip::{
    entries_with, events_at, fits_slots, law_mask_and_merge_fill, lemma_event_written_some,
    masked_events, masked_list, masks_read_back, names_apart, no_leftovers, normalized,
    part_with_content, state_at,
};
use crate::docx::shape::{
    event_shaped, fillable, hex_tag, law_filled_parts_fit, law_masked_parts_fit, marked, plain, shaped,
};
use crate::docx::xml::{events_written, parsed, reads_own, EventV, XmlErrorV};
use vstd::prelude::*;
use vstd::utf8::*;

verus! {

/// Events with other texts in their slots.
pub open spec fn refilled(events: Seq<EventV>, texts: Seq<Seq<char>>) -> Seq<EventV>
    decreases events.len(),
{
    if events.len() == 0 {
        Seq::empty()
    } else if slot_text(events.last()) is Some {
        refilled(events.drop_last(), texts.drop_last()).push(
            with_slot_text(events.last(), texts.last()),
        )
    } else {
        refilled(events.drop_last(), texts).push(events.last())
    }
}

/// How many slots the first `i` entries have.
#[verifier::opaque]
pub open spec fn slots_before(entries: Seq<EntryV>, i: int) -> nat
    decreases i,
{
    if i <= 0 {
        0
    } else {
        slots_before(entries, i - 1) + if part_with_content(entries, i - 1) {
            slot_texts_of(parsed(entries[i - 1].data)->Ok_0).len()
        } else {
            0
        }
    }
}

/// The events of the part at `i` with other texts in their slots, out of the texts of all slots.
pub open spec fn refilled_at(entries: Seq<EntryV>, texts: Seq<Seq<char>>, i: int) -> Seq<EventV> {
    refilled(
        parsed(entries[i].data)->Ok_0,
        texts.subrange(slots_before(entries, i) as int, slots_before(entries, i + 1) as int),
    )
}

/// The events of each part with other texts in their slots.
pub open spec fn events_refilled(entries: Seq<EntryV>, texts: Seq<Seq<char>>) -> Seq<Seq<EventV>> {
    Seq::new(entries.len(), |i: int| refilled_at(entries, texts, i))
}

/// The entries with other texts in the slots of their XML parts, and no data in directories.
pub open spec fn entries_refilled(entries: Seq<EntryV>, texts: Seq<Seq<char>>) -> Seq<EntryV> {
    entries_with(entries, events_refilled(entries, texts))
}

/// Whether each XML part with other texts is read back as it is written, and none of the texts is
/// lost by being written as nothing.
pub open spec fn refills_read_back(entries: Seq<EntryV>, texts: Seq<Seq<char>>) -> bool {
    forall|i: int|
        0 <= i < entries.len() && #[trigger] part_with_content(entries, i) ==> {
            let events = refilled_at(entries, texts, i);
            let data = encode_utf8(events_written(events));
            &&& events.len() == 0 || data.len() > 0
            &&& data.len() > 0 ==> parsed(data) == Ok::<_, XmlErrorV>(events)
        }
}

/// Whether no XML part with other texts holds `prefix` in a text or an attribute value.
pub open spec fn refills_free_of(
    prefix: Seq<char>,
    entries: Seq<EntryV>,
    texts: Seq<Seq<char>>,
) -> bool {
    no_leftovers(prefix, entries, events_refilled(entries, texts))
}

/// The masked form does not depend on the texts, and the texts are those that were put in.
proof fn lemma_refilled(
    prefix: Seq<char>,
    name: Seq<char>,
    before: Seq<SlotV>,
    events: Seq<EventV>,
    texts: Seq<Seq<char>>,
)
    requires
        texts.len() == slot_texts_of(events).len(),
    ensures
        refilled(events, texts).len() == events.len(),
        slot_texts_of(refilled(events, texts)) == texts,
        mask_run(prefix, name, before, refilled(events, texts)) == mask_run(
            prefix,
            name,
            before,
            events,
        ),
    decreases events.len(),
{
    let out = refilled(events, texts);
    if events.len() == 0 {
        assert(texts =~= Seq::<Seq<char>>::empty());
    } else {
        let ev = events.last();
        let front = events.drop_last();
        if slot_text(ev) is Some {
            lemma_refilled(prefix, name, before, front, texts.drop_last());
            assert(out.drop_last() =~= refilled(front, texts.drop_last()));
            let id = mask_run(prefix, name, before, front).slots.len() + 1;
            law_slot_text_set(
                ev,
                texts.last(),
                placeholder_of(prefix, id),
            );
            assert(texts.drop_last().push(texts.last()) =~= texts);
        } else {
            lemma_refilled(prefix, name, before, front, texts);
            assert(out.drop_last() =~= refilled(front, texts));
        }
    }
}

proof fn lemma_slots_at(entries: Seq<EntryV>, i: int)
    ensures
        i <= 0 ==> slots_before(entries, i) == 0,
        i > 0 ==> slots_before(entries, i) == slots_before(entries, i - 1) + if part_with_content(
            entries,
            i - 1,
        ) {
            slot_texts_of(parsed(entries[i - 1].data)->Ok_0).len()
        } else {
            0
        },
{
    reveal(slots_before);
}

proof fn lemma_slots_rise(entries: Seq<EntryV>, i: int, j: int)
    requires
        0 <= i <= j,
    ensures
        slots_before(entries, i) <= slots_before(entries, j),
    decreases j - i,
{
    if i < j {
        lemma_slots_rise(entries, i, j - 1);
        lemma_slots_at(entries, j);
    }
}

/// What is known of a package and of the texts for its slots.
spec fn fits_texts(entries: Seq<EntryV>, texts: Seq<Seq<char>>) -> bool {
    &&& slots_before(entries, entries.len() as int) == texts.len()
    &&& refills_read_back(entries, texts)
}

/// What the part at `i` holds with other texts in its slots.
proof fn lemma_part_refilled(
    prefix: Seq<char>,
    entries: Seq<EntryV>,
    texts: Seq<Seq<char>>,
    i: int,
    before: Seq<SlotV>,
)
    requires
        slots_before(entries, entries.len() as int) == texts.len(),
        0 <= i < entries.len(),
        part_with_content(entries, i),
    ensures
        ({
            let own = texts.subrange(
                slots_before(entries, i) as int,
                slots_before(entries, i + 1) as int,
            );
            &&& slot_texts_of(refilled_at(entries, texts, i)) == own
            &&& mask_run(prefix, entries[i].name, before, refilled_at(entries, texts, i))
                == mask_run(prefix, entries[i].name, before, parsed(entries[i].data)->Ok_0)
            &&& refilled_at(entries, texts, i).len() == parsed(entries[i].data)->Ok_0.len()
        }),
{
    let n = entries.len() as int;
    lemma_slots_at(entries, i + 1);
    lemma_slots_rise(entries, i + 1, n);
    let own = texts.subrange(slots_before(entries, i) as int, slots_before(entries, i + 1) as int);
    lemma_refilled(prefix, entries[i].name, before, parsed(entries[i].data)->Ok_0, own);
}

/// The texts of an entry come after those of the entries before it.
proof fn lemma_texts_step(entries: Seq<EntryV>, texts: Seq<Seq<char>>, i: int)
    requires
        fits_texts(entries, texts),
        0 <= i < entries.len(),
        part_with_content(entries, i) ==> parsed(entries[i].data) is Ok,
    ensures
        ({
            let all = entries_refilled(entries, texts);
            slot_texts_of_entries(
                texts.take(slots_before(entries, i) as int),
                all.skip(i),
            ) == slot_texts_of_entries(
                texts.take(slots_before(entries, i + 1) as int),
                all.skip(i + 1),
            )
        }),
{
    let n = entries.len() as int;
    let all = entries_refilled(entries, texts);
    let rest = all.skip(i);
    let a = slots_before(entries, i) as int;
    let b = slots_before(entries, i + 1) as int;
    lemma_slots_at(entries, i + 1);
    lemma_slots_rise(entries, i + 1, n);
    if part_with_content(entries, i) {
        lemma_part_refilled(Seq::empty(), entries, texts, i, Seq::empty());
    }
    assert(rest[0] == all[i]);
    assert(rest.drop_first() =~= all.skip(i + 1));
    assert(texts.take(a) + texts.subrange(a, b) =~= texts.take(b));
    if part_with_content(entries, i) {
        if all[i].data.len() == 0 {
            assert(refilled_at(entries, texts, i) =~= Seq::<EventV>::empty());
            assert(texts.subrange(a, b).len() == 0);
        }
    }
}

/// In a package that can be masked the XML parts are read.
proof fn lemma_parts_parse(prefix: Seq<char>, st: MaskStateV, entries: Seq<EntryV>, k: int)
    requires
        mask_entries(prefix, st, entries) is Ok,
        0 <= k < entries.len(),
        part_with_content(entries, k),
    ensures
        parsed(entries[k].data) is Ok,
    decreases entries.len(),
{
    if k > 0 {
        let rest = entries.drop_first();
        assert(rest[k - 1] == entries[k]);
        assert(part_with_content(rest, k - 1));
        lemma_parts_parse(prefix, mask_entry(prefix, st, entries[0])->Ok_0, rest, k - 1);
    }
}

/// The slots of a package are as many as its masked form has.
proof fn lemma_slot_count(prefix: Seq<char>, entries: Seq<EntryV>, i: int)
    requires
        mask_entries(prefix, mask_start(), entries) is Ok,
        0 <= i <= entries.len(),
    ensures
        mask_entries(prefix, mask_start(), entries.take(i)) is Ok,
        mask_entries(prefix, mask_start(), entries.take(i))->Ok_0.slots.len() == slots_before(
            entries,
            i,
        ),
    decreases i,
{
    lemma_slots_at(entries, i);
    if i > 0 {
        lemma_slot_count(prefix, entries, i - 1);
        let front = entries.take(i - 1);
        let st = mask_entries(prefix, mask_start(), front)->Ok_0;
        lemma_masks_push(prefix, mask_start(), front, entries[i - 1]);
        assert(front.push(entries[i - 1]) =~= entries.take(i));
        if part_with_content(entries, i - 1) {
            lemma_parts_parse(prefix, mask_start(), entries, i - 1);
            lemma_run_count(
                prefix,
                entries[i - 1].name,
                st.slots,
                parsed(entries[i - 1].data)->Ok_0,
            );
        }
    } else {
        assert(entries.take(0) =~= Seq::<EntryV>::empty());
    }
}

proof fn lemma_masks_push(prefix: Seq<char>, st: MaskStateV, entries: Seq<EntryV>, e: EntryV)
    ensures
        mask_entries(prefix, st, entries.push(e)) == match mask_entries(prefix, st, entries) {
            Ok(s) => mask_entry(prefix, s, e),
            Err(x) => Err(x),
        },
    decreases entries.len(),
{
    let more = entries.push(e);
    if entries.len() == 0 {
        reveal_with_fuel(mask_entries, 2);
        assert(more.drop_first() =~= Seq::<EntryV>::empty());
    } else {
        assert(more[0] == entries[0]);
        assert(more.drop_first() =~= entries.drop_first().push(e));
        if let Ok(next) = mask_entry(prefix, st, entries[0]) {
            lemma_masks_push(prefix, next, entries.drop_first(), e);
        }
    }
}

proof fn lemma_run_count(
    prefix: Seq<char>,
    name: Seq<char>,
    before: Seq<SlotV>,
    events: Seq<EventV>,
)
    ensures
        mask_run(prefix, name, before, events).slots.len() == before.len() + slot_texts_of(
            events,
        ).len(),
    decreases events.len(),
{
    if events.len() > 0 {
        lemma_run_count(prefix, name, before, events.drop_last());
    }
}

/// The texts in the slots are those that were put in.
proof fn lemma_texts_in(entries: Seq<EntryV>, texts: Seq<Seq<char>>, i: int)
    requires
        fits_texts(entries, texts),
        0 <= i <= entries.len(),
        forall|k: int|
            0 <= k < entries.len() && #[trigger] part_with_content(entries, k) ==> parsed(
                entries[k].data,
            ) is Ok,
    ensures
        slot_texts_of_entries(
            texts.take(slots_before(entries, i) as int),
            entries_refilled(entries, texts).skip(i),
        ) == Ok::<_, DocxErrorV>(texts),
    decreases entries.len() - i,
{
    if i == entries.len() {
        let rest = entries_refilled(entries, texts).skip(i);
        assert(rest =~= Seq::<EntryV>::empty());
        assert(texts.take(texts.len() as int) =~= texts);
    } else {
        lemma_texts_step(entries, texts, i);
        lemma_texts_in(entries, texts, i + 1);
    }
}

/// A document that is masked and filled with other texts is the document with those texts in its
/// slots, entry by entry, and is refused where a part with these texts holds the tag of its
/// placeholders. Its XML parts have names of their own, and its masked parts are read back as they were
/// written.
pub proof fn law_other_texts_fill(
    prefix: Seq<char>,
    blobs_file: Seq<char>,
    entries: Seq<EntryV>,
    text: PureTextV,
)
    requires
        masked_of(prefix, blobs_file, entries) is Ok,
        masked_of(prefix, blobs_file, entries)->Ok_0.blobs.len() <= usize::MAX,
        names_apart(entries),
        masks_read_back(prefix, entries),
        text.placeholder_prefix == prefix,
        text.slot_texts.len() == masked_of(prefix, blobs_file, entries)->Ok_0.offsets.slots.len(),
    ensures
        ({
            let m = masked_of(prefix, blobs_file, entries)->Ok_0;
            let merged = merged_entries(m.mask, m.offsets, text, Some(m.blobs));
            &&& merged is Ok <==> refills_free_of(prefix, entries, text.slot_texts)
            &&& merged is Ok ==> merged->Ok_0 == entries_refilled(entries, text.slot_texts)
        }),
{
    let n = entries.len() as int;
    let texts = text.slot_texts;
    let want = events_refilled(entries, texts);
    assert(entries.take(n) =~= entries);
    lemma_slot_count(prefix, entries, n);
    assert forall|i: int| 0 <= i < entries.len() && part_with_content(entries, i) implies #[trigger] fits_slots(
        prefix,
        entries,
        want,
        texts,
        i,
    ) by {
        lemma_slot_count(prefix, entries, i);
        lemma_slot_count(prefix, entries, i + 1);
        lemma_slots_rise(entries, i + 1, n);
        lemma_part_refilled(prefix, entries, texts, i, state_at(prefix, entries, i).slots);
    }
    law_mask_and_merge_fill(prefix, blobs_file, entries, want, text);
}

/// The texts that were put into the slots of a document are those in its slots, where each XML part
/// is read back as it is written.
pub proof fn law_other_texts_are_read_back(entries: Seq<EntryV>, texts: Seq<Seq<char>>)
    requires
        forall|k: int|
            0 <= k < entries.len() && #[trigger] part_with_content(entries, k) ==> parsed(
                entries[k].data,
            ) is Ok,
        texts.len() == slots_before(entries, entries.len() as int),
        refills_read_back(entries, texts),
    ensures
        slot_texts_of_entries(Seq::empty(), entries_refilled(entries, texts)) == Ok::<_, DocxErrorV>(
            texts,
        ),
{
    let all = entries_refilled(entries, texts);
    assert(all.skip(0) =~= all);
    lemma_slots_at(entries, 0);
    assert(texts.take(0) =~= Seq::<Seq<char>>::empty());
    lemma_texts_in(entries, texts, 0);
}

/// Whether the events of each XML part have their shape.
pub open spec fn parts_shaped(entries: Seq<EntryV>) -> bool {
    forall|i: int|
        0 <= i < entries.len() && #[trigger] part_with_content(entries, i) ==> (parsed(
            entries[i].data,
        ) matches Ok(events) ==> shaped(events))
}

/// Whether each XML part can be read, and the names in it are plain.
pub open spec fn parts_plain(entries: Seq<EntryV>) -> bool {
    forall|i: int|
        0 <= i < entries.len() && #[trigger] part_with_content(entries, i) ==> (parsed(
            entries[i].data,
        ) matches Ok(events) && plain(events))
}

/// Whether each XML part with other texts in its slots is shaped and plain.
pub open spec fn refills_fit(entries: Seq<EntryV>, texts: Seq<Seq<char>>) -> bool {
    forall|i: int|
        0 <= i < entries.len() && #[trigger] part_with_content(entries, i) ==> shaped(
            refilled_at(entries, texts, i),
        ) && plain(refilled_at(entries, texts, i))
}

/// Whether a masked package, its slots and its blobs were taken from a package with the given entries:
/// XML parts with names of their own, whose events are shaped and plain.
pub open spec fn taken_from(
    entries: Seq<EntryV>,
    blobs_file: Seq<char>,
    mask: MaskV,
    offsets: OffsetsV,
    blobs: Option<Seq<u8>>,
) -> bool {
    &&& hex_tag(offsets.placeholder_prefix)
    &&& blobs matches Some(b) && masked_of(offsets.placeholder_prefix, blobs_file, entries) == Ok::<
        _,
        DocxErrorV,
    >(MaskedV { mask, offsets, blobs: b })
    &&& names_apart(entries)
    &&& parts_shaped(entries)
    &&& parts_plain(entries)
}

/// Whether texts are as many as there are slots, under the tag of their placeholders.
pub open spec fn texts_for(offsets: OffsetsV, text: PureTextV) -> bool {
    &&& text.placeholder_prefix == offsets.placeholder_prefix
    &&& text.slot_texts.len() == offsets.slots.len()
}

/// Whether the merged entries are those of a package with the texts in their slots: they are, unless a
/// part with these texts holds the tag of the placeholders, which is a fault.
pub open spec fn merged_from(
    entries: Seq<EntryV>,
    prefix: Seq<char>,
    texts: Seq<Seq<char>>,
    merged: Result<Seq<EntryV>, DocxErrorV>,
) -> bool {
    &&& merged is Ok <==> refills_free_of(prefix, entries, texts)
    &&& merged is Ok ==> merged->Ok_0 == entries_refilled(entries, texts)
}

/// A masked part that is read as what it was written for is read as what was masked.
pub(crate) proof fn lemma_masked_part_read(prefix: Seq<char>, entries: Seq<EntryV>, k: int)
    requires
        hex_tag(prefix),
        mask_entries(prefix, mask_start(), entries) is Ok,
        parts_shaped(entries),
        parts_plain(entries),
        0 <= k < entries.len(),
        xml_entry(masked_list(prefix, entries)[k]),
        reads_own(masked_list(prefix, entries)[k].data),
    ensures
        part_with_content(entries, k),
        parsed(masked_list(prefix, entries)[k].data) == Ok::<_, XmlErrorV>(
            masked_events(prefix, entries, k),
        ),
{
    assert(part_with_content(entries, k));
    let st = state_at(prefix, entries, k);
    law_masked_parts_fit(prefix, entries[k].name, st.slots, events_at(entries, k));
}

/// Where the masked parts are read as what they were written for, the merged entries are those of the
/// package with the texts in their slots.
pub(crate) proof fn lemma_merge_of_read(
    entries: Seq<EntryV>,
    blobs_file: Seq<char>,
    mask: MaskV,
    offsets: OffsetsV,
    text: PureTextV,
    blobs: Option<Seq<u8>>,
)
    requires
        taken_from(entries, blobs_file, mask, offsets, blobs),
        texts_for(offsets, text),
        blobs matches Some(b) ==> b.len() <= usize::MAX,
        forall|k: int|
            0 <= k < entries.len() && xml_entry(
                #[trigger] masked_list(offsets.placeholder_prefix, entries)[k],
            ) ==> reads_own(masked_list(offsets.placeholder_prefix, entries)[k].data),
    ensures
        merged_from(
            entries,
            offsets.placeholder_prefix,
            text.slot_texts,
            merged_entries(mask, offsets, text, blobs),
        ),
{
    let prefix = offsets.placeholder_prefix;
    let n = entries.len() as int;
    assert forall|i: int| 0 <= i < n && #[trigger] part_with_content(entries, i) implies match mask_entries(
        prefix,
        mask_start(),
        entries.take(i),
    ) {
        Ok(st) => {
            let events = mask_run(prefix, entries[i].name, st.slots, parsed(entries[i].data)->Ok_0).events;
            let data = encode_utf8(events_written(events));
            data.len() > 0 ==> parsed(data) == Ok::<_, XmlErrorV>(events)
        },
        Err(_) => true,
    } by {
        let list = masked_list(prefix, entries);
        if list[i].data.len() > 0 {
            assert(xml_entry(list[i]));
            lemma_masked_part_read(prefix, entries, i);
        }
    }
    law_other_texts_fill(prefix, blobs_file, entries, text);
}

/// Whether texts fit the slots of a package that was read: as many as there are slots, with shaped and
/// plain parts that hold them.
pub open spec fn refills_of(entries: Seq<EntryV>, texts: Seq<Seq<char>>) -> bool {
    &&& entries_read(entries)
    &&& parts_plain(entries)
    &&& texts.len() == slots_before(entries, entries.len() as int)
    &&& refills_fit(entries, texts)
}

/// A part of a filled document is read as the events that it was filled to, if it is read as what it was
/// written for.
pub(crate) proof fn lemma_filled_part_read(
    entries: Seq<EntryV>,
    texts: Seq<Seq<char>>,
    back: Seq<EntryV>,
    k: int,
)
    requires
        refills_of(entries, texts),
        reads_back(Seq::empty(), entries_refilled(entries, texts), Ok(back)),
        0 <= k < back.len(),
        part_with_content(back, k),
        reads_own(back[k].data),
    ensures
        part_with_content(entries, k),
        back[k].data == encode_utf8(events_written(refilled_at(entries, texts, k))),
        parsed(back[k].data) == Ok::<_, XmlErrorV>(refilled_at(entries, texts, k)),
{
    let all = entries_refilled(entries, texts);
    assert(entry_reads_back(Seq::empty(), all[k], back[k]));
    assert(entry_read(entries[k]));
    lemma_back_entry(entries, texts, back, k);
    assert(part_with_content(entries, k));
}

/// An entry of a filled document is read with the data that it was filled with.
proof fn lemma_back_entry(
    entries: Seq<EntryV>,
    texts: Seq<Seq<char>>,
    back: Seq<EntryV>,
    k: int,
)
    requires
        entries_read(entries),
        reads_back(Seq::empty(), entries_refilled(entries, texts), Ok(back)),
        0 <= k < back.len(),
    ensures
        entries.len() == back.len(),
        back[k].name == entries[k].name,
        back[k].data == entries_refilled(entries, texts)[k].data,
        dir_entry(back[k]) == dir_entry(entries[k]),
{
    let all = entries_refilled(entries, texts);
    assert(entry_reads_back(Seq::empty(), all[k], back[k]));
    assert(entry_read(entries[k]));
    assert(back[k].data =~= all[k].data);
}

/// Shaped events are written as nothing only where there are none.
proof fn lemma_written_some(events: Seq<EventV>)
    requires
        shaped(events),
        events.len() > 0,
    ensures
        encode_utf8(events_written(events)).len() > 0,
{
    lemma_event_written_some(events.last());
    assert(event_shaped(events[events.len() - 1]));
    encode_utf8_first_scalar(events_written(events));
}

/// The texts in the slots of a filled document, where its parts are read as what they were written for.
pub(crate) proof fn lemma_texts_of_read(
    entries: Seq<EntryV>,
    texts: Seq<Seq<char>>,
    back: Seq<EntryV>,
)
    requires
        refills_of(entries, texts),
        reads_back(Seq::empty(), entries_refilled(entries, texts), Ok(back)),
        forall|k: int|
            0 <= k < back.len() && #[trigger] part_with_content(back, k) ==> reads_own(back[k].data),
    ensures
        slot_texts_of_entries(Seq::empty(), back) == Ok::<_, DocxErrorV>(texts),
{
    let all = entries_refilled(entries, texts);
    assert forall|i: int| 0 <= i < entries.len() && #[trigger] part_with_content(entries, i) implies {
        let events = refilled_at(entries, texts, i);
        let data = encode_utf8(events_written(events));
        &&& events.len() == 0 || data.len() > 0
        &&& data.len() > 0 ==> parsed(data) == Ok::<_, XmlErrorV>(events)
    } by {
        let events = refilled_at(entries, texts, i);
        lemma_back_entry(entries, texts, back, i);
        if events.len() > 0 {
            lemma_written_some(events);
        }
        if back[i].data.len() > 0 {
            assert(part_with_content(back, i));
            lemma_filled_part_read(entries, texts, back, i);
        }
    }
    law_other_texts_are_read_back(entries, texts);
    assert forall|i: int| 0 <= i < all.len() implies (#[trigger] all[i]).name == back[i].name
        && all[i].data == back[i].data && dir_entry(all[i]) == dir_entry(back[i]) by {
        lemma_back_entry(entries, texts, back, i);
    }
    lemma_same_texts(Seq::empty(), all, back);
}

/// Entries that are alike in names and data hold the same texts.
proof fn lemma_same_texts(out: Seq<Seq<char>>, a: Seq<EntryV>, b: Seq<EntryV>)
    requires
        a.len() == b.len(),
        forall|i: int|
            0 <= i < a.len() ==> (#[trigger] a[i]).name == b[i].name && a[i].data == b[i].data
                && dir_entry(a[i]) == dir_entry(b[i]),
    ensures
        slot_texts_of_entries(out, a) == slot_texts_of_entries(out, b),
    decreases a.len(),
{
    if a.len() > 0 {
        let (c, d) = (a.drop_first(), b.drop_first());
        assert(a[0].name == b[0].name);
        assert forall|i: int| 0 <= i < c.len() implies (#[trigger] c[i]).name == d[i].name
            && c[i].data == d[i].data && dir_entry(c[i]) == dir_entry(d[i]) by {
            assert(c[i] == a[i + 1] && d[i] == b[i + 1]);
        }
        if dir_entry(a[0]) || !xml_entry(a[0]) {
            lemma_same_texts(out, c, d);
        } else if let Ok(events) = parsed(a[0].data) {
            lemma_same_texts(out + slot_texts_of(events), c, d);
        }
    }
}

/// Events with their own texts in their slots are themselves.
proof fn lemma_own_refilled(events: Seq<EventV>)
    ensures
        refilled(events, slot_texts_of(events)) == events,
    decreases events.len(),
{
    if events.len() > 0 {
        let front = events.drop_last();
        let texts = slot_texts_of(events);
        lemma_own_refilled(front);
        if let Some(t) = slot_text(events.last()) {
            law_slot_text_set(events.last(), t, t);
            assert(texts.drop_last() =~= slot_texts_of(front));
        }
        assert(refilled(events, texts) =~= events);
    } else {
        assert(events =~= Seq::<EventV>::empty());
    }
}

/// Where the texts of each part stand among the texts of all slots.
proof fn lemma_own_texts(entries: Seq<EntryV>, out: Seq<Seq<char>>, i: int, k: int)
    requires
        0 <= i <= entries.len(),
        out.len() == slots_before(entries, i),
        slot_texts_of_entries(out, entries.skip(i)) is Ok,
        i <= k < entries.len() || k == -1,
    ensures
        ({
            let r = slot_texts_of_entries(out, entries.skip(i))->Ok_0;
            &&& r.len() == slots_before(entries, entries.len() as int)
            &&& out.len() <= r.len()
            &&& r.take(out.len() as int) == out
            &&& i <= k && part_with_content(entries, k) ==> {
                &&& parsed(entries[k].data) is Ok
                &&& slots_before(entries, k + 1) <= r.len()
                &&& r.subrange(
                    slots_before(entries, k) as int,
                    slots_before(entries, k + 1) as int,
                ) == slot_texts_of(parsed(entries[k].data)->Ok_0)
            }
        }),
    decreases entries.len() - i,
{
    let rest = entries.skip(i);
    if i == entries.len() {
        assert(rest =~= Seq::<EntryV>::empty());
        assert(out.take(out.len() as int) =~= out);
    } else {
        lemma_slots_at(entries, i + 1);
        assert(rest[0] == entries[i]);
        assert(rest.drop_first() =~= entries.skip(i + 1));
        let l = if k == i {
            -1
        } else {
            k
        };
        if part_with_content(entries, i) {
            let more = slot_texts_of(parsed(entries[i].data)->Ok_0);
            let next = out + more;
            lemma_own_texts(entries, next, i + 1, l);
            let r = slot_texts_of_entries(next, entries.skip(i + 1))->Ok_0;
            assert(r.take(out.len() as int) =~= r.take(next.len() as int).take(out.len() as int));
            assert(next.take(out.len() as int) =~= out);
            assert(r.subrange(out.len() as int, next.len() as int) =~= r.take(
                next.len() as int,
            ).subrange(out.len() as int, next.len() as int));
            assert(next.subrange(out.len() as int, next.len() as int) =~= more);
        } else {
            lemma_own_texts(entries, out, i + 1, l);
        }
    }
}

/// A package that is filled with its own texts is in its normal form: each part keeps its events.
pub proof fn law_own_texts_change_nothing(entries: Seq<EntryV>, texts: Seq<Seq<char>>)
    requires
        slot_texts_of_entries(Seq::empty(), entries) == Ok::<_, DocxErrorV>(texts),
    ensures
        texts.len() == slots_before(entries, entries.len() as int),
        entries_refilled(entries, texts) == normalized(entries),
        forall|i: int|
            0 <= i < entries.len() && #[trigger] part_with_content(entries, i) ==> refilled_at(
                entries,
                texts,
                i,
            ) == parsed(entries[i].data)->Ok_0,
{
    assert(entries.skip(0) =~= entries);
    lemma_slots_at(entries, 0);
    lemma_own_texts(entries, Seq::empty(), 0, -1);
    assert forall|i: int| 0 <= i < entries.len() && #[trigger] part_with_content(entries, i) implies refilled_at(
        entries,
        texts,
        i,
    ) == parsed(entries[i].data)->Ok_0 by {
        lemma_own_texts(entries, Seq::empty(), 0, i);
        lemma_own_refilled(parsed(entries[i].data)->Ok_0);
    }
    let all = entries_refilled(entries, texts);
    assert forall|i: int| 0 <= i < all.len() implies #[trigger] all[i] == normalized(entries)[i] by {
        if !dir_entry(entries[i]) && xml_entry(entries[i]) {
            assert(part_with_content(entries, i));
        }
    }
    assert(all =~= normalized(entries));
}

/// Where the XML parts of a package are shaped and plain, they are so with other texts that can stand
/// in their slots: in a text any that is not empty, or the text that is there.
pub proof fn law_other_texts_fit(entries: Seq<EntryV>, texts: Seq<Seq<char>>)
    requires
        parts_shaped(entries),
        parts_plain(entries),
        texts.len() == slots_before(entries, entries.len() as int),
        forall|i: int|
            0 <= i < entries.len() && #[trigger] part_with_content(entries, i) ==> fillable(
                parsed(entries[i].data)->Ok_0,
                texts.subrange(slots_before(entries, i) as int, slots_before(entries, i + 1) as int),
            ) && !marked(refilled_at(entries, texts, i)),
    ensures
        refills_fit(entries, texts),
{
    assert forall|i: int| 0 <= i < entries.len() && #[trigger] part_with_content(entries, i) implies shaped(
        refilled_at(entries, texts, i),
    ) && plain(refilled_at(entries, texts, i)) by {
        lemma_slots_at(entries, i + 1);
        lemma_slots_rise(entries, i + 1, entries.len() as int);
        law_filled_parts_fit(
            parsed(entries[i].data)->Ok_0,
            texts.subrange(slots_before(entries, i) as int, slots_before(entries, i + 1) as int),
        );
    }
}

/// A masked package has as many slots as the package that it was taken from.
pub proof fn law_own_slots(prefix: Seq<char>, blobs_file: Seq<char>, entries: Seq<EntryV>)
    requires
        masked_of(prefix, blobs_file, entries) is Ok,
    ensures
        masked_of(prefix, blobs_file, entries)->Ok_0.offsets.slots.len() == slots_before(
            entries,
            entries.len() as int,
        ),
{
    assert(entries.take(entries.len() as int) =~= entries);
    lemma_slot_count(prefix, entries, entries.len() as int);
}

} // verus!
