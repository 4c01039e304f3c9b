//! How a translation is put into the slots of a document.

use crate::chars::{find_from, head, head_of, is_blank, lemma_trimmed_empty, trim, trimmed};
use crate::freezer::{unfreeze_text, unfrozen};
use crate::sentinels::{
    get_text, law_slots_come_back, parse_slot_output, slot_token_of, slots_of, slotted, texts_by_id,
    texts_view, MarkerError, TextsV,
};
use std::collections::HashMap;
use vstd::prelude::*;

verus! {

/// Why a translation cannot be put into its slots.
#[derive(Clone, Debug)]
pub enum SlotError {
    /// The slot marks are not as they should be.
    Marks(MarkerError),
    /// There is text after the closing slot mark. Holds its beginning.
    TextAfterEnd(String),
    /// A slot is not one of the document.
    OutOfRange { slot_id: usize, slot_texts: usize },
}

/// The model of a [`SlotError`].
#[verifier::ext_equal]
pub enum SlotErrorV {
    Marks(MarkerError),
    TextAfterEnd(Seq<char>),
    OutOfRange { slot_id: usize, slot_texts: nat },
}

impl DeepView for SlotError {
    type V = SlotErrorV;

    open spec fn deep_view(&self) -> SlotErrorV {
        match self {
            SlotError::Marks(e) => SlotErrorV::Marks(*e),
            SlotError::TextAfterEnd(t) => SlotErrorV::TextAfterEnd(t@),
            SlotError::OutOfRange { slot_id, slot_texts } => SlotErrorV::OutOfRange {
                slot_id: *slot_id,
                slot_texts: *slot_texts as nat,
            },
        }
    }
}

/// The text of a slot in a reply, or none.
pub open spec fn slot_piece(pieces: TextsV, id: usize) -> Seq<char> {
    if pieces.contains_key(id) {
        pieces[id]
    } else {
        Seq::empty()
    }
}

/// The slot texts after the pieces of a reply were put in their places, one after another, up to the
/// first slot that is not one of the document. The slot 0 is only a mark.
pub open spec fn pieces_put(
    texts: Seq<Seq<char>>,
    ids: Seq<usize>,
    pieces: TextsV,
    map: Seq<(Seq<char>, Seq<char>)>,
) -> (Seq<Seq<char>>, Result<(), SlotErrorV>)
    decreases ids.len(),
{
    if ids.len() == 0 {
        (texts, Ok(()))
    } else if ids[0] == 0 {
        pieces_put(texts, ids.drop_first(), pieces, map)
    } else if ids[0] > texts.len() {
        (texts, Err(SlotErrorV::OutOfRange { slot_id: ids[0], slot_texts: texts.len() }))
    } else {
        pieces_put(
            texts.update(ids[0] - 1, unfrozen(slot_piece(pieces, ids[0]), map)),
            ids.drop_first(),
            pieces,
            map,
        )
    }
}

/// The slot texts after a translation was put into its slots, and whether it could be.
pub open spec fn slots_applied(
    texts: Seq<Seq<char>>,
    ids: Seq<usize>,
    map: Seq<(Seq<char>, Seq<char>)>,
    translated: Seq<char>,
    preview: nat,
) -> (Seq<Seq<char>>, Result<(), SlotErrorV>) {
    if ids.len() == 0 {
        (texts, Ok(()))
    } else {
        match slots_of(translated, ids.push(0)) {
            Err(e) => (texts, Err(SlotErrorV::Marks(e))),
            Ok(pieces) => {
                let tail = trimmed(slot_piece(pieces, 0));
                if tail.len() > 0 {
                    (texts, Err(SlotErrorV::TextAfterEnd(head(tail, preview))))
                } else {
                    pieces_put(texts, ids, pieces, map)
                }
            },
        }
    }
}

/// The deep view of whether a translation could be put into its slots.
pub open spec fn slot_verdict(r: Result<(), SlotError>) -> Result<(), SlotErrorV> {
    match r {
        Ok(_) => Ok(()),
        Err(e) => Err(e.deep_view()),
    }
}

fn piece_of(pieces: &HashMap<usize, String>, id: usize) -> (r: String)
    ensures
        r@ == slot_piece(texts_view(*pieces), id),
{
    match get_text(pieces, id) {
        Some(t) => t.clone(),
        None => String::new(),
    }
}

fn put_pieces(
    texts: &mut Vec<String>,
    ids: &Vec<usize>,
    pieces: &HashMap<usize, String>,
    nt_map: &Vec<(String, String)>,
) -> (r: Result<(), SlotError>)
    ensures
        (final(texts).deep_view(), slot_verdict(r)) == pieces_put(
            old(texts).deep_view(),
            ids@,
            texts_view(*pieces),
            nt_map.deep_view(),
        ),
        final(texts)@.len() == old(texts)@.len(),
{
    let ghost p = texts_view(*pieces);
    let ghost map = nt_map.deep_view();
    let mut i: usize = 0;
    assert(ids@.skip(0) =~= ids@);
    while i < ids.len()
        invariant
            i <= ids@.len(),
            p == texts_view(*pieces),
            map == nt_map.deep_view(),
            texts@.len() == old(texts)@.len(),
            pieces_put(texts.deep_view(), ids@.skip(i as int), p, map) == pieces_put(
                old(texts).deep_view(),
                ids@,
                p,
                map,
            ),
        decreases ids@.len() - i,
    {
        let id: usize = ids[i];
        assert(ids@.skip(i as int)[0] == id);
        assert(ids@.skip(i as int).drop_first() =~= ids@.skip(i + 1));
        if id > 0 {
            if id > texts.len() {
                return Err(SlotError::OutOfRange { slot_id: id, slot_texts: texts.len() });
            }
            let ghost before = texts.deep_view();
            let piece: String = piece_of(pieces, id);
            let plain: String = unfreeze_text(piece.as_str(), nt_map);
            let ghost new = plain@;
            texts.set(id - 1, plain);
            assert(texts.deep_view() =~= before.update(id - 1, new));
        }
        i = i + 1;
    }
    Ok(())
}

/// Puts a translation into its slots. Of text after the closing mark at most `preview` characters
/// are reported.
pub fn apply_slot_translation(
    texts: &mut Vec<String>,
    slot_ids: &Vec<usize>,
    nt_map: &Vec<(String, String)>,
    translated: &str,
    preview: usize,
) -> (r: Result<(), SlotError>)
    ensures
        (final(texts).deep_view(), slot_verdict(r)) == slots_applied(
            old(texts).deep_view(),
            slot_ids@,
            nt_map.deep_view(),
            translated@,
            preview as nat,
        ),
        final(texts)@.len() == old(texts)@.len(),
{
    if slot_ids.len() == 0 {
        return Ok(());
    }
    let mut expected: Vec<usize> = Vec::new();
    expected.extend_from_slice(slot_ids.as_slice());
    expected.push(0);
    assert(expected@ =~= slot_ids@.push(0));
    let pieces: HashMap<usize, String> = match parse_slot_output(translated, &expected) {
        Ok(m) => m,
        Err(e) => {
            return Err(SlotError::Marks(e));
        },
    };
    let end: String = piece_of(&pieces, 0);
    let tail: String = trim(end.as_str());
    if !crate::chars::is_empty(tail.as_str()) {
        return Err(SlotError::TextAfterEnd(head_of(tail.as_str(), preview)));
    }
    put_pieces(texts, slot_ids, &pieces, nt_map)
}

/// The slot texts after one of them was set, and whether it is one of the document. The slot 0 is
/// only a mark.
pub open spec fn slot_set(texts: Seq<Seq<char>>, slot_id: usize, text: Seq<char>) -> (
    Seq<Seq<char>>,
    Result<(), SlotErrorV>,
) {
    if slot_id == 0 {
        (texts, Ok(()))
    } else if slot_id > texts.len() {
        (texts, Err(SlotErrorV::OutOfRange { slot_id, slot_texts: texts.len() }))
    } else {
        (texts.update(slot_id - 1, text), Ok(()))
    }
}

/// Sets the text of a slot.
pub fn apply_slot_text(texts: &mut Vec<String>, slot_id: usize, translated: &str) -> (r: Result<
    (),
    SlotError,
>)
    ensures
        (final(texts).deep_view(), slot_verdict(r)) == slot_set(
            old(texts).deep_view(),
            slot_id,
            translated@,
        ),
        final(texts)@.len() == old(texts)@.len(),
{
    if slot_id == 0 {
        return Ok(());
    }
    if slot_id > texts.len() {
        return Err(SlotError::OutOfRange { slot_id, slot_texts: texts.len() });
    }
    let ghost before = texts.deep_view();
    texts.set(slot_id - 1, crate::chars::owned(translated));
    assert(texts.deep_view() =~= before.update(slot_id - 1, translated@));
    Ok(())
}

/// Slots that a translation is not for keep their texts.
pub proof fn law_other_slots_kept(
    texts: Seq<Seq<char>>,
    ids: Seq<usize>,
    map: Seq<(Seq<char>, Seq<char>)>,
    translated: Seq<char>,
    preview: nat,
    k: int,
)
    requires
        0 <= k < texts.len(),
        forall|i: int| 0 <= i < ids.len() ==> #[trigger] ids[i] != k + 1,
    ensures
        slots_applied(texts, ids, map, translated, preview).0.len() == texts.len(),
        slots_applied(texts, ids, map, translated, preview).0[k] == texts[k],
{
    match slots_of(translated, ids.push(0)) {
        Ok(pieces) => lemma_others_kept(texts, ids, pieces, map, k),
        Err(_) => {},
    }
}

proof fn lemma_others_kept(
    texts: Seq<Seq<char>>,
    ids: Seq<usize>,
    pieces: TextsV,
    map: Seq<(Seq<char>, Seq<char>)>,
    k: int,
)
    requires
        0 <= k < texts.len(),
        forall|i: int| 0 <= i < ids.len() ==> #[trigger] ids[i] != k + 1,
    ensures
        pieces_put(texts, ids, pieces, map).0.len() == texts.len(),
        pieces_put(texts, ids, pieces, map).0[k] == texts[k],
    decreases ids.len(),
{
    if ids.len() > 0 {
        let rest = ids.drop_first();
        assert forall|i: int| 0 <= i < rest.len() implies #[trigger] rest[i] != k + 1 by {
            assert(rest[i] == ids[i + 1]);
        }
        if ids[0] == 0 {
            lemma_others_kept(texts, rest, pieces, map, k);
        } else if ids[0] <= texts.len() {
            let next = texts.update(ids[0] - 1, unfrozen(slot_piece(pieces, ids[0]), map));
            assert(ids[0] != k + 1);
            lemma_others_kept(next, rest, pieces, map, k);
        }
    }
}

/// The texts of slots by their ids.
pub(crate) proof fn lemma_by_id(ids: Seq<usize>, pieces: Seq<Seq<char>>, acc: TextsV, k: int)
    requires
        ids.len() == pieces.len(),
        ids.no_duplicates(),
    ensures
        0 <= k < ids.len() ==> texts_by_id(ids, pieces, acc).contains_key(ids[k]) && texts_by_id(
            ids,
            pieces,
            acc,
        )[ids[k]] == pieces[k],
        forall|id: usize|
            !ids.contains(id) && #[trigger] acc.contains_key(id) ==> texts_by_id(
                ids,
                pieces,
                acc,
            ).contains_key(id) && texts_by_id(ids, pieces, acc)[id] == acc[id],
    decreases ids.len(),
{
    if ids.len() > 0 {
        let more = acc.insert(ids[0], pieces[0]);
        let (ids1, pieces1) = (ids.drop_first(), pieces.drop_first());
        assert(ids1.no_duplicates()) by {
            assert forall|a: int, b: int|
                0 <= a < ids1.len() && 0 <= b < ids1.len() && a != b implies ids1[a] != ids1[b] by {
                assert(ids1[a] == ids[a + 1] && ids1[b] == ids[b + 1]);
            }
        }
        lemma_by_id(ids1, pieces1, more, k - 1);
        assert(!ids1.contains(ids[0])) by {
            if ids1.contains(ids[0]) {
                let a = ids1.index_of(ids[0]);
                assert(ids[a + 1] == ids[0]);
            }
        }
        assert(more.contains_key(ids[0]));
        if 0 < k < ids.len() {
            assert(ids1[k - 1] == ids[k]);
        }
        assert forall|id: usize|
            !ids.contains(id) && #[trigger] acc.contains_key(id) implies texts_by_id(
            ids,
            pieces,
            acc,
        ).contains_key(id) && texts_by_id(ids, pieces, acc)[id] == acc[id] by {
            assert(ids.contains(ids[0]));
            assert(more.contains_key(id));
            if ids1.contains(id) {
                let a = ids1.index_of(id);
                assert(ids[a + 1] == id);
            }
        }
    }
}

/// What is put into a slot stays there, where no slot comes twice.
proof fn lemma_piece_put(
    texts: Seq<Seq<char>>,
    ids: Seq<usize>,
    pieces: TextsV,
    map: Seq<(Seq<char>, Seq<char>)>,
    k: int,
)
    requires
        ids.no_duplicates(),
        forall|i: int| 0 <= i < ids.len() ==> 0 < #[trigger] ids[i] <= texts.len(),
    ensures
        pieces_put(texts, ids, pieces, map).1 is Ok,
        pieces_put(texts, ids, pieces, map).0.len() == texts.len(),
        0 <= k < ids.len() ==> pieces_put(texts, ids, pieces, map).0[ids[k] - 1] == unfrozen(
            slot_piece(pieces, ids[k]),
            map,
        ),
    decreases ids.len(),
{
    if ids.len() > 0 {
        let rest = ids.drop_first();
        let now = texts.update(ids[0] - 1, unfrozen(slot_piece(pieces, ids[0]), map));
        assert forall|i: int| 0 <= i < rest.len() implies 0 < #[trigger] rest[i] <= now.len() by {
            assert(rest[i] == ids[i + 1]);
        }
        assert forall|a: int, b: int|
            0 <= a < rest.len() && 0 <= b < rest.len() && a != b implies rest[a] != rest[b] by {
            assert(rest[a] == ids[a + 1] && rest[b] == ids[b + 1]);
        }
        lemma_piece_put(now, rest, pieces, map, k - 1);
        if k == 0 {
            let at = ids[0] - 1;
            assert forall|i: int| 0 <= i < rest.len() implies #[trigger] rest[i] != at + 1 by {
                assert(rest[i] == ids[i + 1]);
            }
            lemma_others_kept(now, rest, pieces, map, at);
        } else if 0 < k < ids.len() {
            assert(rest[k - 1] == ids[k]);
        }
    }
}

/// A reply that holds a text after the mark of each slot, and the closing mark at its end, is put
/// into the slots: each slot then holds its own text, with what was frozen in it put back. It does
/// not matter what the slots held before.
pub proof fn law_slots_take_the_reply(
    texts: Seq<Seq<char>>,
    ids: Seq<usize>,
    map: Seq<(Seq<char>, Seq<char>)>,
    pieces: Seq<Seq<char>>,
    tail: Seq<char>,
    preview: nat,
    k: int,
)
    requires
        ids.len() == pieces.len(),
        ids.no_duplicates(),
        forall|i: int| 0 <= i < ids.len() ==> 0 < #[trigger] ids[i] <= texts.len(),
        forall|i: int|
            0 <= i < ids.len() ==> find_from(
                #[trigger] pieces[i],
                slot_token_of(
                    if i + 1 < ids.len() {
                        ids[i + 1] as nat
                    } else {
                        0
                    },
                ),
                0,
            ) is None,
        is_blank(tail),
        0 <= k < ids.len(),
    ensures
        slots_applied(
            texts,
            ids,
            map,
            slotted(ids.push(0), pieces.push(tail)),
            preview,
        ).1 is Ok,
        slots_applied(
            texts,
            ids,
            map,
            slotted(ids.push(0), pieces.push(tail)),
            preview,
        ).0[ids[k] - 1] == unfrozen(pieces[k], map),
{
    let all = ids.push(0);
    let said = pieces.push(tail);
    assert forall|i: int| 0 <= i < all.len() - 1 implies find_from(
        #[trigger] said[i],
        slot_token_of(all[i + 1] as nat),
        0,
    ) is None by {
        assert(said[i] == pieces[i]);
    }
    law_slots_come_back(all, said);
    let found = texts_by_id(all, said, Map::empty());
    assert forall|a: int, b: int| 0 <= a < all.len() && 0 <= b < all.len() && a != b implies all[a]
        != all[b] by {
        if a < ids.len() {
            assert(ids[a] == all[a]);
        }
        if b < ids.len() {
            assert(ids[b] == all[b]);
        }
    }
    lemma_by_id(all, said, Map::empty(), ids.len() as int);
    lemma_by_id(all, said, Map::empty(), k);
    lemma_trimmed_empty(tail);
    assert(slot_piece(found, 0) == tail);
    lemma_piece_put(texts, ids, found, map, k);
    assert(slot_piece(found, ids[k]) == pieces[k]);
}

/// A reply with text behind the closing mark is refused, and so is one without the mark of its first
/// slot. Then no slot is changed.
pub proof fn law_bad_marks_are_refused(
    texts: Seq<Seq<char>>,
    ids: Seq<usize>,
    map: Seq<(Seq<char>, Seq<char>)>,
    pieces: Seq<Seq<char>>,
    tail: Seq<char>,
    preview: nat,
    translated: Seq<char>,
)
    requires
        ids.len() > 0,
        ids.len() == pieces.len(),
        ids.no_duplicates(),
        !ids.contains(0),
        forall|i: int|
            0 <= i < ids.len() ==> find_from(
                #[trigger] pieces[i],
                slot_token_of(
                    if i + 1 < ids.len() {
                        ids[i + 1] as nat
                    } else {
                        0
                    },
                ),
                0,
            ) is None,
        !is_blank(tail),
    ensures
        slots_applied(texts, ids, map, slotted(ids.push(0), pieces.push(tail)), preview).1 is Err,
        slots_applied(texts, ids, map, slotted(ids.push(0), pieces.push(tail)), preview).0 == texts,
        find_from(translated, slot_token_of(ids[0] as nat), 0) is None ==> slots_applied(
            texts,
            ids,
            map,
            translated,
            preview,
        ).1 is Err && slots_applied(texts, ids, map, translated, preview).0 == texts,
{
    let all = ids.push(0);
    let said = pieces.push(tail);
    assert forall|i: int| 0 <= i < all.len() - 1 implies find_from(
        #[trigger] said[i],
        slot_token_of(all[i + 1] as nat),
        0,
    ) is None by {
        assert(said[i] == pieces[i]);
    }
    law_slots_come_back(all, said);
    assert forall|a: int, b: int| 0 <= a < all.len() && 0 <= b < all.len() && a != b implies all[a]
        != all[b] by {
        if a < ids.len() {
            assert(ids[a] == all[a]);
            assert(ids.contains(ids[a]));
        }
        if b < ids.len() {
            assert(ids[b] == all[b]);
            assert(ids.contains(ids[b]));
        }
    }
    lemma_by_id(all, said, Map::empty(), ids.len() as int);
    lemma_trimmed_empty(tail);
    assert(all[0] == ids[0]);
}

/// A reply with text before the mark of its first slot is refused, and no slot is changed.
pub proof fn law_text_before_is_refused(
    texts: Seq<Seq<char>>,
    ids: Seq<usize>,
    map: Seq<(Seq<char>, Seq<char>)>,
    translated: Seq<char>,
    preview: nat,
    at: int,
)
    requires
        ids.len() > 0,
        find_from(translated, slot_token_of(ids[0] as nat), 0) == Some(at),
        0 <= at <= translated.len(),
        !is_blank(translated.subrange(0, at)),
    ensures
        slots_applied(texts, ids, map, translated, preview).1 is Err,
        slots_applied(texts, ids, map, translated, preview).0 == texts,
{
    assert(ids.push(0)[0] == ids[0]);
    lemma_trimmed_empty(translated.subrange(0, at));
}

} // verus!
