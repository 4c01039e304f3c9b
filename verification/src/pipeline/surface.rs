//! What the surface of a unit puts into its slots.

use crate::chars::{find_from, lemma_find_from, lemma_trimmed_empty, occurs_at};
use crate::freezer::{
    apart, frozen, frozen_bounds, frozen_stretch, lemma_frozen_cut, lemma_in_order,
    lemma_stretch_free, lemma_stretch_unfreezes, marker_map, unfrozen, with_markers,
};
use crate::pipeline::docmap::{ids as slot_numbers, surfaces};
use crate::pipeline::slots::{pieces_put, slot_piece, slots_applied, SlotErrorV};
use crate::sentinels::{
    bounds_ok, law_slots_come_back, lemma_bounds_at, lemma_slot_found, lemma_slot_token,
    slot_token_of, slotted, texts_by_id, tokens, TextsV, TokenClass,
};
use vstd::prelude::*;

verus! {

/// The texts of slots.
spec fn own_texts(ids: Seq<usize>, texts: Seq<Seq<char>>) -> Seq<Seq<char>> {
    ids.map_values(|id: usize| texts[id - 1])
}

proof fn lemma_slotted_push(ids: Seq<usize>, texts: Seq<Seq<char>>, id: usize, text: Seq<char>)
    requires
        ids.len() == texts.len(),
    ensures
        slotted(ids.push(id), texts.push(text)) == slotted(ids, texts) + slot_token_of(id as nat)
            + text,
    decreases ids.len(),
{
    let more = ids.push(id);
    let said = texts.push(text);
    if ids.len() == 0 {
        reveal_with_fuel(slotted, 2);
        assert(more.drop_first() =~= Seq::<usize>::empty());
        assert(slotted(more, said) =~= slotted(ids, texts) + slot_token_of(id as nat) + text);
    } else {
        lemma_slotted_push(ids.drop_first(), texts.drop_first(), id, text);
        assert(more.drop_first() =~= ids.drop_first().push(id));
        assert(said.drop_first() =~= texts.drop_first().push(text));
        assert(slotted(more, said) =~= slotted(ids, texts) + slot_token_of(id as nat) + text);
    }
}

proof fn lemma_surfaces(ids: Seq<usize>, texts: Seq<Seq<char>>)
    requires
        forall|j: int| 0 <= j < ids.len() ==> #[trigger] ids[j] > 0,
    ensures
        surfaces(slot_numbers(ids), texts) == slotted(ids, own_texts(ids, texts)),
    decreases ids.len(),
{
    let nats = slot_numbers(ids);
    if ids.len() > 0 {
        let front = ids.drop_last();
        assert forall|j: int| 0 <= j < front.len() implies #[trigger] front[j] > 0 by {
            assert(front[j] == ids[j]);
        }
        lemma_surfaces(front, texts);
        assert(ids[ids.len() - 1] > 0);
        assert(nats.drop_last() =~= slot_numbers(front));
        lemma_slotted_push(front, own_texts(front, texts), ids.last(), texts[ids.last() - 1]);
        assert(front.push(ids.last()) =~= ids);
        assert(own_texts(front, texts).push(texts[ids.last() - 1]) =~= own_texts(ids, texts));
    }
}

/// The first of the bounds from `k` on that does not begin before `c`.
spec fn first_from(b: Seq<(int, int)>, k: int, c: int) -> int
    decreases b.len() - k,
{
    if k < 0 || k >= b.len() || b[k].0 >= c {
        k
    } else {
        first_from(b, k + 1, c)
    }
}

proof fn lemma_first_from(b: Seq<(int, int)>, k: int, c: int)
    requires
        0 <= k <= b.len(),
    ensures
        k <= first_from(b, k, c) <= b.len(),
        first_from(b, k, c) < b.len() ==> b[first_from(b, k, c)].0 >= c,
        forall|i: int| k <= i < first_from(b, k, c) ==> (#[trigger] b[i]).0 < c,
    decreases b.len() - k,
{
    if k < b.len() && b[k].0 < c {
        lemma_first_from(b, k + 1, c);
    }
}

proof fn lemma_bounds_between(b: Seq<(int, int)>, n: int, k: int, m: int, from: int, to: int)
    requires
        bounds_ok(b, 0, n),
        0 <= k <= m <= b.len(),
        from <= to,
        forall|i: int| k <= i < m ==> from <= (#[trigger] b[i]).0 && b[i].1 <= to,
    ensures
        bounds_ok(b.subrange(k, m), from, to),
    decreases m - k,
{
    if k < m {
        lemma_bounds_at(b, 0, n, k);
        assert(b.subrange(k, m)[0] == b[k]);
        assert(b.subrange(k, m).drop_first() =~= b.subrange(k + 1, m));
        assert forall|i: int| k + 1 <= i < m implies b[k].1 <= (#[trigger] b[i]).0 && b[i].1 <= to by {
            lemma_in_order(b, n, k, i);
        }
        lemma_bounds_between(b, n, k + 1, m, b[k].1, to);
    }
}

/// A stretch that begins at a marker of a slot does not reach into it.
proof fn lemma_beside_slot(s: Seq<char>, b: Seq<(int, int)>, id: nat, q: int, i: int)
    requires
        id < 1000000,
        occurs_at(s, slot_token_of(id), q),
        apart(b, tokens(TokenClass::Sentinel, s)),
        0 <= i < b.len(),
    ensures
        b[i].1 <= q || q + 18 <= b[i].0,
{
    let all = tokens(TokenClass::Sentinel, s);
    lemma_slot_found(s, id, q, 0);
    let j = choose|j: int| 0 <= j < all.len() && all[j] == (q, q + 18);
    assert(b[i].1 <= all[j].0 || all[j].1 <= b[i].0);
}

/// What is known of a text with slots, of the bounds of what is frozen in it, and of the place in it
/// from which on it is made of slots.
spec fn slots_ahead(
    s: Seq<char>,
    b: Seq<(int, int)>,
    ids: Seq<usize>,
    texts: Seq<Seq<char>>,
    pos: int,
    k: int,
) -> bool {
    &&& ids.len() == texts.len()
    &&& 0 <= pos <= s.len()
    &&& s.skip(pos) == slotted(ids, texts)
    &&& 0 <= k <= b.len() < 10000
    &&& bounds_ok(b, 0, s.len() as int)
    &&& forall|i: int| 0 <= i < k ==> (#[trigger] b[i]).1 <= pos
    &&& k < b.len() ==> pos <= b[k].0
    &&& apart(b, tokens(TokenClass::Sentinel, s))
    &&& tokens(TokenClass::Nt, s).len() == 0
    &&& forall|j: int| 0 <= j < ids.len() ==> #[trigger] ids[j] < 1000000
    &&& forall|j: int, id: nat|
        0 <= j < texts.len() && id < 1000000 ==> #[trigger] find_from(
            texts[j],
            slot_token_of(id),
            0,
        ) is None
}

/// What holds of the pieces of a frozen text: each gives the text of its slot back.
spec fn pieces_hold(
    s: Seq<char>,
    b: Seq<(int, int)>,
    texts: Seq<Seq<char>>,
    pieces: Seq<Seq<char>>,
) -> bool {
    &&& pieces.len() == texts.len()
    &&& forall|j: int|
        0 <= j < texts.len() ==> {
            &&& unfrozen(#[trigger] pieces[j], marker_map(s, b)) == texts[j]
            &&& texts[j].len() == 0 ==> pieces[j].len() == 0
        }
    &&& forall|j: int, id: nat|
        0 <= j < pieces.len() && id < 1000000 ==> #[trigger] find_from(
            pieces[j],
            slot_token_of(id),
            0,
        ) is None
}

/// A piece of a frozen text holds no slot marker.
proof fn lemma_piece_free(
    s: Seq<char>,
    b: Seq<(int, int)>,
    k: int,
    m: int,
    pos: int,
    c: int,
    id: nat,
)
    requires
        id < 1000000,
        0 <= k <= m <= b.len() < 10000,
        0 <= pos <= c <= s.len(),
        bounds_ok(b.subrange(k, m), pos, c),
        find_from(s.subrange(pos, c), slot_token_of(id), 0) is None,
    ensures
        find_from(frozen_stretch(s, b, k, m, pos, c), slot_token_of(id), 0) is None,
{
    let mark = slot_token_of(id);
    let front = s.take(c);
    let piece = frozen_stretch(s, b, k, m, pos, c);
    lemma_slot_token(id);
    lemma_find_from(s.subrange(pos, c), mark, 0);
    lemma_find_from(piece, mark, 0);
    assert forall|q: int| pos <= q implies !#[trigger] occurs_at(front, mark, q) by {
        if occurs_at(front, mark, q) {
            assert(s.subrange(pos, c).subrange(q - pos, q - pos + 18) =~= front.subrange(q, q + 18));
            assert(occurs_at(s.subrange(pos, c), mark, q - pos));
        }
    }
    if let Some(i) = find_from(piece, mark, 0) {
        lemma_stretch_free(front, b.subrange(k, m), pos, k as nat, mark, i);
    }
}

proof fn lemma_pieces(
    s: Seq<char>,
    b: Seq<(int, int)>,
    ids: Seq<usize>,
    texts: Seq<Seq<char>>,
    pos: int,
    k: int,
) -> (pieces: Seq<Seq<char>>)
    requires
        slots_ahead(s, b, ids, texts, pos, k),
    ensures
        with_markers(s, b.skip(k), pos, k as nat) == slotted(ids, pieces),
        pieces_hold(s, b, texts, pieces),
    decreases ids.len(),
{
    let n = s.len() as int;
    if ids.len() == 0 {
        assert(s.skip(pos).len() == 0);
        if k < b.len() {
            lemma_bounds_at(b, 0, n, k);
        }
        assert(b.skip(k) =~= Seq::<(int, int)>::empty());
        assert(with_markers(s, b.skip(k), pos, k as nat) =~= Seq::<char>::empty());
        Seq::empty()
    } else {
        let tok = slot_token_of(ids[0] as nat);
        let (ids1, texts1) = (ids.drop_first(), texts.drop_first());
        let rest = slotted(ids1, texts1);
        assert(ids[0] < 1000000);
        lemma_slot_token(ids[0] as nat);
        let p = pos + 18;
        let c = p + texts[0].len();
        let ahead = s.skip(pos);
        assert(ahead =~= tok + texts[0] + rest);
        assert(s.subrange(pos, p) =~= tok) by {
            assert(s.subrange(pos, p) =~= ahead.take(18));
        }
        assert(s.subrange(p, c) =~= texts[0]) by {
            assert(s.subrange(p, c) =~= ahead.subrange(18, c - pos));
        }
        assert(s.skip(c) =~= rest) by {
            assert(s.skip(c) =~= ahead.skip(c - pos));
        }
        if k < b.len() {
            lemma_bounds_at(b, 0, n, k);
            lemma_beside_slot(s, b, ids[0] as nat, pos, k);
        }
        let m = first_from(b, k, c);
        lemma_first_from(b, k, c);
        assert forall|i: int| k <= i < m implies p <= (#[trigger] b[i]).0 && b[i].0 < b[i].1
            && b[i].1 <= c by {
            lemma_bounds_at(b, 0, n, i);
            if i > k {
                lemma_in_order(b, n, k, i);
            }
            if ids1.len() > 0 {
                let z = slot_token_of(ids[1] as nat);
                assert(ids1[0] == ids[1]);
                assert(ids[1] < 1000000);
                lemma_slot_token(ids[1] as nat);
                assert(s.subrange(c, c + 18) =~= z) by {
                    assert(s.subrange(c, c + 18) =~= rest.take(18));
                    assert(rest.take(18) =~= z);
                }
                lemma_beside_slot(s, b, ids[1] as nat, c, i);
            }
        }
        if m < b.len() {
            lemma_bounds_at(b, 0, n, m);
        }
        assert forall|i: int, j: int| k <= i < j < m implies (#[trigger] b[i]).1 <= (
        #[trigger] b[j]).0 by {
            lemma_in_order(b, n, i, j);
        }
        lemma_frozen_cut(s, b, k, k, pos, p);
        assert(b.subrange(k, k) =~= Seq::<(int, int)>::empty());
        assert(frozen_stretch(s, b, k, k, pos, p) =~= tok) by {
            assert(s.take(p).subrange(pos, p) =~= s.subrange(pos, p));
        }
        lemma_frozen_cut(s, b, k, m, p, c);
        let piece = frozen_stretch(s, b, k, m, p, c);
        lemma_bounds_between(b, n, k, m, p, c);
        assert forall|i: int| 0 <= i < m implies 0 <= (#[trigger] b[i]).0 && b[i].0 <= b[i].1
            && b[i].1 <= c by {
            lemma_bounds_at(b, 0, n, i);
        }
        lemma_stretch_unfreezes(s, b, k, m, p, c);
        assert forall|id: nat| id < 1000000 implies #[trigger] find_from(
            piece,
            slot_token_of(id),
            0,
        ) is None by {
            assert(find_from(texts[0], slot_token_of(id), 0) is None);
            lemma_piece_free(s, b, k, m, p, c, id);
        }
        if texts[0].len() == 0 {
            if k < m {
                assert(p <= b[k].0 && b[k].1 <= c);
            }
            assert(b.subrange(k, m) =~= Seq::<(int, int)>::empty());
            assert(piece =~= Seq::<char>::empty());
        }
        assert forall|j: int, id: nat| 0 <= j < texts1.len() && id < 1000000 implies
            #[trigger] find_from(texts1[j], slot_token_of(id), 0) is None by {
            assert(texts1[j] == texts[j + 1]);
            assert(find_from(texts[j + 1], slot_token_of(id), 0) is None);
        }
        let pieces1 = lemma_pieces(s, b, ids1, texts1, c, m);
        let pieces = seq![piece] + pieces1;
        assert(pieces.drop_first() =~= pieces1);
        assert(with_markers(s, b.skip(k), pos, k as nat) =~= tok + piece + slotted(ids1, pieces1));
        assert forall|j: int| 0 <= j < texts.len() implies {
            &&& unfrozen(#[trigger] pieces[j], marker_map(s, b)) == texts[j]
            &&& texts[j].len() == 0 ==> pieces[j].len() == 0
        } by {
            if j > 0 {
                assert(pieces[j] == pieces1[j - 1]);
                assert(texts[j] == texts1[j - 1]);
            }
        }
        assert forall|j: int, id: nat| 0 <= j < pieces.len() && id < 1000000 implies
            #[trigger] find_from(pieces[j], slot_token_of(id), 0) is None by {
            if j > 0 {
                assert(pieces[j] == pieces1[j - 1]);
            }
        }
        pieces
    }
}

/// Of texts under ids that differ, each is found under its id.
proof fn lemma_by_id(ids: Seq<usize>, texts: Seq<Seq<char>>, acc: TextsV, j: int)
    requires
        ids.len() == texts.len(),
        forall|a: int, c: int| 0 <= a < c < ids.len() ==> #[trigger] ids[a] != #[trigger] ids[c],
        0 <= j < ids.len(),
    ensures
        texts_by_id(ids, texts, acc).contains_key(ids[j]),
        texts_by_id(ids, texts, acc)[ids[j]] == texts[j],
    decreases ids.len(),
{
    let (ids1, texts1) = (ids.drop_first(), texts.drop_first());
    let more = acc.insert(ids[0], texts[0]);
    assert forall|a: int, c: int| 0 <= a < c < ids1.len() implies #[trigger] ids1[a]
        != #[trigger] ids1[c] by {
        assert(ids1[a] == ids[a + 1] && ids1[c] == ids[c + 1]);
    }
    if j > 0 {
        lemma_by_id(ids1, texts1, more, j - 1);
        assert(ids1[j - 1] == ids[j] && texts1[j - 1] == texts[j]);
    } else {
        assert forall|a: int| 0 <= a < ids1.len() implies #[trigger] ids1[a] != ids[0] by {
            assert(ids1[a] == ids[a + 1]);
        }
        lemma_id_kept(ids1, texts1, more, ids[0]);
    }
}

proof fn lemma_id_kept(ids: Seq<usize>, texts: Seq<Seq<char>>, acc: TextsV, id: usize)
    requires
        acc.contains_key(id),
        forall|a: int| 0 <= a < ids.len() ==> #[trigger] ids[a] != id,
    ensures
        texts_by_id(ids, texts, acc).contains_key(id),
        texts_by_id(ids, texts, acc)[id] == acc[id],
    decreases ids.len(),
{
    if ids.len() > 0 && texts.len() > 0 {
        assert(ids[0] != id);
        assert forall|a: int| 0 <= a < ids.drop_first().len() implies #[trigger] ids.drop_first()[a]
            != id by {
            assert(ids.drop_first()[a] == ids[a + 1]);
        }
        lemma_id_kept(ids.drop_first(), texts.drop_first(), acc.insert(ids[0], texts[0]), id);
    }
}

/// Slots that get the texts they have stay as they are.
proof fn lemma_put_same(
    texts: Seq<Seq<char>>,
    ids: Seq<usize>,
    pieces: TextsV,
    map: Seq<(Seq<char>, Seq<char>)>,
)
    requires
        forall|j: int|
            0 <= j < ids.len() ==> 0 < #[trigger] ids[j] <= texts.len() && unfrozen(
                slot_piece(pieces, ids[j]),
                map,
            ) == texts[ids[j] - 1],
    ensures
        pieces_put(texts, ids, pieces, map) == (texts, Ok::<(), SlotErrorV>(())),
    decreases ids.len(),
{
    if ids.len() > 0 {
        assert(0 < ids[0] <= texts.len());
        assert(texts.update(ids[0] - 1, texts[ids[0] - 1]) =~= texts);
        let rest = ids.drop_first();
        assert forall|j: int| 0 <= j < rest.len() implies 0 < #[trigger] rest[j] <= texts.len()
            && unfrozen(slot_piece(pieces, rest[j]), map) == texts[rest[j] - 1] by {
            assert(rest[j] == ids[j + 1]);
        }
        lemma_put_same(texts, rest, pieces, map);
    }
}

/// A unit's own frozen surface goes back into its slots and changes nothing, where no text of its
/// slots holds a marker of a slot or of frozen text, and fewer than ten thousand stretches are frozen.
pub proof fn law_own_surface_changes_nothing(
    texts: Seq<Seq<char>>,
    ids: Seq<usize>,
    surface: Seq<char>,
    preview: nat,
)
    requires
        ids.len() > 0,
        forall|j: int|
            0 <= j < ids.len() ==> 0 < #[trigger] ids[j] <= texts.len() && ids[j] < 1000000,
        forall|a: int, c: int| 0 <= a < c < ids.len() ==> #[trigger] ids[a] != #[trigger] ids[c],
        surface == surfaces(slot_numbers(ids), texts) + slot_token_of(0),
        forall|j: int, id: nat|
            0 <= j < ids.len() && id < 1000000 ==> #[trigger] find_from(
                texts[ids[j] - 1],
                slot_token_of(id),
                0,
            ) is None,
        tokens(TokenClass::Nt, surface).len() == 0,
        frozen_bounds(surface).len() < 10000,
        bounds_ok(frozen_bounds(surface), 0, surface.len() as int),
        apart(frozen_bounds(surface), tokens(TokenClass::Sentinel, surface)),
    ensures
        slots_applied(texts, ids, frozen(surface).nt_map, frozen(surface).text, preview) == (
            texts,
            Ok::<(), SlotErrorV>(()),
        ),
{
    let b = frozen_bounds(surface);
    let map = frozen(surface).nt_map;
    let none = Seq::<char>::empty();
    let own = own_texts(ids, texts);
    let all = ids.push(0);
    let said = own.push(none);
    lemma_surfaces(ids, texts);
    lemma_slotted_push(ids, own, 0, none);
    assert(slotted(all, said) =~= surface);
    assert(surface.skip(0) =~= surface);
    assert(b.skip(0) =~= b);
    assert forall|j: int| 0 <= j < all.len() implies #[trigger] all[j] < 1000000 by {
        if j < ids.len() {
            assert(all[j] == ids[j]);
        }
    }
    assert forall|j: int, id: nat| 0 <= j < said.len() && id < 1000000 implies
        #[trigger] find_from(said[j], slot_token_of(id), 0) is None by {
        lemma_slot_token(id);
        if j < ids.len() {
            assert(said[j] == texts[ids[j] - 1]);
            assert(find_from(texts[ids[j] - 1], slot_token_of(id), 0) is None);
        }
    }
    if b.len() > 0 {
        lemma_bounds_at(b, 0, surface.len() as int, 0);
    }
    let pieces = lemma_pieces(surface, b, all, said, 0, 0);
    assert(frozen(surface).text == slotted(all, pieces));
    assert forall|k: int| 0 <= k < all.len() - 1 implies find_from(
        #[trigger] pieces[k],
        slot_token_of(all[k + 1] as nat),
        0,
    ) is None by {
        assert(all[k + 1] < 1000000);
    }
    law_slots_come_back(all, pieces);
    let by_id = texts_by_id(all, pieces, Map::empty());
    assert forall|a: int, c: int| 0 <= a < c < all.len() implies #[trigger] all[a]
        != #[trigger] all[c] by {
        assert(all[a] == ids[a]);
        assert(ids[a] > 0);
        if c < ids.len() {
            assert(all[c] == ids[c]);
        }
    }
    lemma_by_id(all, pieces, Map::empty(), ids.len() as int);
    assert(pieces[ids.len() as int].len() == 0) by {
        assert(said[ids.len() as int].len() == 0);
        assert(unfrozen(pieces[ids.len() as int], marker_map(surface, b)) == said[ids.len() as int]);
    }
    assert(slot_piece(by_id, 0) =~= none);
    lemma_trimmed_empty(none);
    assert forall|j: int| 0 <= j < ids.len() implies 0 < #[trigger] ids[j] <= texts.len()
        && unfrozen(slot_piece(by_id, ids[j]), map) == texts[ids[j] - 1] by {
        lemma_by_id(all, pieces, Map::empty(), j);
        assert(all[j] == ids[j]);
        assert(unfrozen(pieces[j], marker_map(surface, b)) == said[j]);
    }
    lemma_put_same(texts, ids, by_id, map);
}

} // verus!
