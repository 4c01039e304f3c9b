//! What the stages of a run leave of its units and of the texts of the document.

use crate::chars::trimmed;
use crate::freezer::unfrozen;
use crate::ir::UnitV;
use crate::pipeline::config::PipelineMode;
use crate::pipeline::job::{
    job_ask, job_begun, job_fed, one_by_one, projected_job, unit_verdict, JobPhase, JobV, StageKind,
};
use crate::pipeline::run::{begun, full_steps, law_full_run, steps_from, RunModels, RunStep};
use crate::pipeline::slots::{law_other_slots_kept, pieces_put, slot_piece, slots_applied};
use crate::pipeline::stage::{
    all_below, chunk_ok, chunk_read, chunk_units, law_chunks_keep_units, law_plan_covers,
    lemma_halves_ok, stage_failed, stage_fed, stage_ok, stage_step, unit_kept, unit_settled, waiting,
    work_units, works_of, StageV, WorkV,
};
use crate::pipeline::text::cleaned;
use crate::pipeline::units::{drafts_kept, final_or_draft, finals_applied};
use crate::sentinels::{slots_of, TextsV};
use vstd::prelude::*;

verus! {

/// What may happen to a stage: it goes on, a reply comes, or none.
pub enum TurnV {
    Step,
    Reply(Seq<char>),
    Failure,
}

/// The stage after one thing happened to it.
pub open spec fn turned(st: StageV, t: TurnV) -> StageV {
    match t {
        TurnV::Step => stage_step(st).0,
        TurnV::Reply(raw) => stage_fed(st, raw),
        TurnV::Failure => match stage_failed(st) {
            Some(next) => next,
            None => st,
        },
    }
}

/// The stage after some things happened to it.
pub open spec fn stage_after(st: StageV, turns: Seq<TurnV>) -> StageV
    decreases turns.len(),
{
    if turns.len() == 0 {
        st
    } else {
        turned(stage_after(st, turns.drop_last()), turns.last())
    }
}

/// Whether the text at `k` is none of those that units of a stage go to.
pub open spec fn none_at(
    kind: StageKind,
    ids: Seq<usize>,
    places: Seq<nat>,
    slots: Seq<Seq<usize>>,
    k: int,
) -> bool {
    match kind {
        StageKind::Slots => forall|i: int| 0 <= i < ids.len() ==> #[trigger] ids[i] != k + 1,
        StageKind::Paragraphs => forall|i: int|
            0 <= i < places.len() ==> #[trigger] places[i] != k,
        _ => forall|i: int, j: int|
            0 <= i < slots.len() && 0 <= j < slots[i].len() ==> #[trigger] slots[i][j] != k + 1,
    }
}

/// Whether the text at `k` is none of those that a stage is for.
pub open spec fn apart_from(st: StageV, k: int) -> bool {
    none_at(st.cfg.kind, st.ids, st.places, st.slots, k)
}

/// What a stage keeps whatever happens: how it is set, and where its units go.
spec fn same_frame(a: StageV, b: StageV) -> bool {
    &&& a.cfg == b.cfg
    &&& a.ids == b.ids
    &&& a.slots == b.slots
    &&& a.places == b.places
    &&& a.units.len() == b.units.len()
    &&& a.texts.len() == b.texts.len()
    &&& a.works == b.works
}

/// Whether the units that a stage works on, and will work on, are its own.
spec fn in_range(st: StageV) -> bool {
    let n = st.units.len() as int;
    &&& st.ids.len() == n && st.slots.len() == n && st.places.len() == n
    &&& st.cfg.kind == StageKind::Paragraphs ==> forall|i: int|
        0 <= i < n ==> #[trigger] st.places[i] < st.texts.len()
    &&& forall|i: int|
        0 <= i < st.works.len() ==> match #[trigger] st.works[i] {
            WorkV::Keep(k) => k < n,
            WorkV::Chunk(c) => chunk_ok(c, n),
        }
    &&& forall|i: int| 0 <= i < st.chunks.len() ==> chunk_ok(#[trigger] st.chunks[i], n)
    &&& forall|i: int| 0 <= i < st.answers.len() ==> (#[trigger] st.answers[i]).0 < n
    &&& match st.job {
        Some((i, j)) => i < n && (one_by_one(st.cfg.kind) ==> j.phase != JobPhase::Refit),
        None => true,
    }
}

/// Whether the drafts and final texts are those that a stage may change.
spec fn units_kept(kind: StageKind, before: Seq<UnitV>, now: Seq<UnitV>) -> bool {
    &&& before.len() == now.len()
    &&& forall|i: int|
        0 <= i < now.len() ==> {
            let u = #[trigger] now[i];
            &&& u.nt_map == before[i].nt_map
            &&& kind != StageKind::Fuse ==> u.final_translation == before[i].final_translation
            &&& kind == StageKind::DraftB || kind == StageKind::Fuse ==> u.draft_translation
                == before[i].draft_translation
        }
}

spec fn kept(st: StageV, next: StageV, k: int) -> bool {
    &&& same_frame(st, next)
    &&& in_range(next)
    &&& units_kept(st.cfg.kind, st.units, next.units)
    &&& apart_from(st, k) && 0 <= k < st.texts.len() ==> next.texts[k] == st.texts[k]
}

proof fn lemma_applied(st: StageV, i: int, texts: Seq<Seq<char>>, text: Seq<char>, k: int)
    requires
        0 <= i < st.slots.len(),
        0 <= k < texts.len() && apart_from(st, k),
        st.cfg.kind != StageKind::Slots && st.cfg.kind != StageKind::Paragraphs,
    ensures
        ({
            let after = slots_applied(texts, st.slots[i], st.units[i].nt_map, text, st.cfg.preview).0;
            after.len() == texts.len() && after[k] == texts[k]
        }),
{
    law_other_slots_kept(texts, st.slots[i], st.units[i].nt_map, text, st.cfg.preview, k);
}

/// How many slot texts there are does not change.
proof fn lemma_as_many(
    texts: Seq<Seq<char>>,
    ids: Seq<usize>,
    map: Seq<(Seq<char>, Seq<char>)>,
    translated: Seq<char>,
    preview: nat,
)
    ensures
        slots_applied(texts, ids, map, translated, preview).0.len() == texts.len(),
{
    match slots_of(translated, ids.push(0)) {
        Ok(pieces) => lemma_as_many_put(texts, ids, pieces, map),
        Err(_) => {},
    }
}

proof fn lemma_as_many_put(
    texts: Seq<Seq<char>>,
    ids: Seq<usize>,
    pieces: TextsV,
    map: Seq<(Seq<char>, Seq<char>)>,
)
    ensures
        pieces_put(texts, ids, pieces, map).0.len() == texts.len(),
    decreases ids.len(),
{
    if ids.len() > 0 {
        if ids[0] == 0 {
            lemma_as_many_put(texts, ids.drop_first(), pieces, map);
        } else if ids[0] <= texts.len() {
            lemma_as_many_put(
                texts.update(ids[0] - 1, unfrozen(slot_piece(pieces, ids[0]), map)),
                ids.drop_first(),
                pieces,
                map,
            );
        }
    }
}

proof fn lemma_begun(st: StageV, i: int, text: Seq<char>, k: int)
    requires
        in_range(st),
        0 <= i < st.units.len(),
    ensures
        ({
            let texts = job_begun(st.cfg, st.units[i], st.slots[i], st.texts, text).1;
            &&& texts.len() == st.texts.len()
            &&& apart_from(st, k) && 0 <= k < st.texts.len() ==> texts[k] == st.texts[k]
        }),
{
    let u = st.units[i];
    lemma_as_many(st.texts, st.slots[i], u.nt_map, text, st.cfg.preview);
    if !one_by_one(st.cfg.kind) && apart_from(st, k) && 0 <= k < st.texts.len() {
        lemma_applied(st, i, st.texts, text, k);
    }
}

proof fn lemma_fed(st: StageV, i: int, j: JobV, raw: Seq<char>, k: int)
    requires
        in_range(st),
        0 <= i < st.units.len(),
        one_by_one(st.cfg.kind) ==> j.phase != JobPhase::Refit,
    ensures
        ({
            let (next, texts) = job_fed(st.cfg, st.units[i], st.slots[i], st.texts, j, raw);
            &&& texts.len() == st.texts.len()
            &&& apart_from(st, k) && 0 <= k < st.texts.len() ==> texts[k] == st.texts[k]
            &&& one_by_one(st.cfg.kind) ==> next.phase != JobPhase::Refit
        }),
{
    let u = st.units[i];
    let ids = st.slots[i];
    let t = cleaned(raw);
    let or_source = if unit_verdict(u, t) is Ok {
        t
    } else {
        u.frozen_surface
    };
    let after = slots_applied(st.texts, ids, u.nt_map, t, st.cfg.preview).0;
    lemma_as_many(st.texts, ids, u.nt_map, or_source, st.cfg.preview);
    lemma_as_many(st.texts, ids, u.nt_map, t, st.cfg.preview);
    lemma_as_many(after, ids, u.nt_map, u.frozen_surface, st.cfg.preview);
    lemma_as_many(st.texts, ids, u.nt_map, u.frozen_surface, st.cfg.preview);
    if !one_by_one(st.cfg.kind) && apart_from(st, k) && 0 <= k < st.texts.len() {
        lemma_applied(st, i, st.texts, or_source, k);
        lemma_applied(st, i, st.texts, t, k);
        lemma_applied(st, i, after, u.frozen_surface, k);
        lemma_applied(st, i, st.texts, u.frozen_surface, k);
    }
}

proof fn lemma_unit_kept(st: StageV, i: nat, k: int)
    requires
        in_range(st),
        i < st.units.len(),
    ensures
        kept(st, unit_kept(st, i).0, k),
{
    let u = st.units[i as int];
    lemma_as_many(
        st.texts,
        st.slots[i as int],
        u.nt_map,
        u.frozen_surface,
        st.cfg.preview,
    );
    if !one_by_one(st.cfg.kind) && apart_from(st, k) && 0 <= k < st.texts.len() {
        lemma_applied(st, i as int, st.texts, u.frozen_surface, k);
    }
}

proof fn lemma_unit_settled(st: StageV, i: nat, out: Seq<char>, k: int)
    requires
        in_range(st),
        i < st.units.len(),
    ensures
        kept(st, unit_settled(st, i, out).0, k),
{
}

proof fn lemma_stepped(st: StageV, k: int)
    requires
        in_range(st),
    ensures
        kept(st, stage_step(st).0, k),
{
    match st.job {
        Some((i, j)) => {
            if job_ask(st.cfg, st.units[i as int], st.hints[i as int], j) is Done {
                lemma_unit_settled(StageV { job: None, ..st }, i, j.out, k);
                assert(apart_from(st, k) == apart_from(StageV { job: None, ..st }, k));
            }
        },
        None => if st.answers.len() > 0 {
            let (i, text) = st.answers.last();
            assert(st.answers[st.answers.len() - 1].0 < st.units.len());
            lemma_begun(st, i as int, text, k);
        } else if st.chunks.len() > 0 {
        } else if st.at < st.works.len() {
            let next = StageV { at: st.at + 1, ..st };
            assert(apart_from(st, k) == apart_from(next, k));
            match st.works[st.at as int] {
                WorkV::Keep(i) => lemma_unit_kept(next, i, k),
                WorkV::Chunk(c) => {},
            }
        },
    }
}

proof fn lemma_replied(st: StageV, raw: Seq<char>, k: int)
    requires
        in_range(st),
    ensures
        kept(st, stage_fed(st, raw), k),
{
    let next = stage_fed(st, raw);
    match st.job {
        Some((i, j)) => lemma_fed(st, i as int, j, raw, k),
        None => if st.answers.len() == 0 && st.chunks.len() > 0 {
            let chunk = st.chunks.last();
            assert(chunk_ok(st.chunks[st.chunks.len() - 1], st.units.len() as int));
            match chunk_read(st.ids, chunk, raw) {
                Some(read) => {
                    assert forall|a: int| 0 <= a < next.answers.len() implies (
                    #[trigger] next.answers[a]).0 < st.units.len() by {
                        let b = read.len() - 1 - a;
                        assert(next.answers[a] == read[b]);
                        assert(read[b].0 == chunk[b]);
                    }
                },
                None => {
                    lemma_halves_ok(chunk, st.units.len() as int);
                },
            }
        },
    }
}

proof fn lemma_turned(st: StageV, turns: Seq<TurnV>, k: int)
    requires
        in_range(st),
    ensures
        kept(st, stage_after(st, turns), k),
    decreases turns.len(),
{
    if turns.len() > 0 {
        let before = stage_after(st, turns.drop_last());
        lemma_turned(st, turns.drop_last(), k);
        assert(apart_from(st, k) == apart_from(before, k));
        match turns.last() {
            TurnV::Step => lemma_stepped(before, k),
            TurnV::Reply(raw) => lemma_replied(before, raw, k),
            TurnV::Failure => {},
        }
        let now = stage_after(st, turns);
        assert forall|i: int| 0 <= i < now.units.len() implies {
            let u = #[trigger] now.units[i];
            let kind = st.cfg.kind;
            &&& u.nt_map == st.units[i].nt_map
            &&& kind != StageKind::Fuse ==> u.final_translation == st.units[i].final_translation
            &&& kind == StageKind::DraftB || kind == StageKind::Fuse ==> u.draft_translation
                == st.units[i].draft_translation
        } by {
            let b = before.units[i];
        }
    }
}

/// Whatever the model replies, a stage changes no text of the document but those that its units are
/// for: in a basic run the slots that are translated, and else the slots of its paragraphs.
pub proof fn law_stage_keeps_other_texts(st: StageV, turns: Seq<TurnV>, k: int)
    requires
        stage_ok(st),
        st.job is None,
        0 <= k < st.texts.len(),
        apart_from(st, k),
    ensures
        stage_after(st, turns).texts.len() == st.texts.len(),
        stage_after(st, turns).texts[k] == st.texts[k],
{
    lemma_turned(st, turns, k);
}

/// Whatever the model replies, the stage of the second drafts keeps the first ones, the stage that
/// fuses them keeps them too, and no stage but that one sets a final text.
pub proof fn law_stage_keeps_drafts(st: StageV, turns: Seq<TurnV>, i: int)
    requires
        stage_ok(st),
        st.job is None,
        0 <= i < st.units.len(),
    ensures
        ({
            let now = stage_after(st, turns);
            let kind = st.cfg.kind;
            &&& now.units.len() == st.units.len()
            &&& kind != StageKind::Fuse ==> now.units[i].final_translation
                == st.units[i].final_translation
            &&& kind == StageKind::DraftB || kind == StageKind::Fuse
                ==> now.units[i].draft_translation == st.units[i].draft_translation
        }),
{
    lemma_turned(st, turns, 0);
    assert(units_kept(st.cfg.kind, st.units, stage_after(st, turns).units));
    let u = stage_after(st, turns).units[i];
}

/// A full run without a controlling model takes no notes, fuses nothing and patches nothing: the
/// drafts are kept.
pub proof fn law_run_without_controller(m: RunModels, found: spec_fn(usize) -> bool, k: int)
    requires
        !m.controller,
        0 <= k < steps_from(PipelineMode::Full, m, begun(PipelineMode::Full, m), found).len(),
    ensures
        ({
            let step = steps_from(
                PipelineMode::Full,
                m,
                begun(PipelineMode::Full, m),
                found,
            )[k];
            step !is Notes && step !is Fuse && step !is Audit && step !is Patch
        }),
        steps_from(PipelineMode::Full, m, begun(PipelineMode::Full, m), found).contains(
            RunStep::KeepDrafts,
        ),
{
    law_full_run(m, found);
    let steps = full_steps(m, found);
    let at = if m.alt {
        5int
    } else {
        3
    };
    assert(steps[at] == RunStep::KeepDrafts);
}

/// Without a controlling model every final text is the first draft, whether there are second drafts
/// or not: `a` is the stage of the first drafts, `b` that of the second ones, and the drafts are kept
/// after one or both.
pub proof fn law_finals_are_first_drafts(
    a: StageV,
    replies_a: Seq<TurnV>,
    b: StageV,
    replies_b: Seq<TurnV>,
    i: int,
)
    requires
        stage_ok(a) && a.job is None && a.cfg.kind == StageKind::DraftA,
        stage_ok(b) && b.job is None && b.cfg.kind == StageKind::DraftB,
        b.units == stage_after(a, replies_a).units,
        0 <= i < a.units.len(),
        a.units[i].final_translation is None,
    ensures
        ({
            let first = stage_after(a, replies_a).units;
            let second = stage_after(b, replies_b).units;
            &&& drafts_kept(first)[i].final_translation == first[i].draft_translation
            &&& drafts_kept(second)[i].final_translation == first[i].draft_translation
        }),
{
    law_stage_keeps_drafts(a, replies_a, i);
    law_stage_keeps_drafts(b, replies_b, i);
}

/// Whether the text at `k` is that of one of the slots.
pub open spec fn has_slot(ids: Seq<usize>, k: int) -> bool {
    exists|i: int| 0 <= i < ids.len() && #[trigger] ids[i] == k + 1
}

/// Whether no text is that of slots of two units.
pub open spec fn slots_apart(slots: Seq<Seq<usize>>) -> bool {
    forall|i: int, l: int, k: int|
        0 <= i < slots.len() && 0 <= l < slots.len() && i != l && 0 <= k && #[trigger] has_slot(
            slots[i],
            k,
        ) ==> !(#[trigger] has_slot(slots[l], k))
}

/// Whether a text can be put into slots where there are `n` texts.
spec fn fits_in(n: nat, ids: Seq<usize>, t: Seq<char>) -> bool {
    ids.len() == 0 || match slots_of(t, ids.push(0)) {
        Err(_) => false,
        Ok(pieces) => trimmed(slot_piece(pieces, 0)).len() == 0 && ids_below(n, ids),
    }
}

spec fn ids_below(n: nat, ids: Seq<usize>) -> bool {
    forall|i: int| 0 <= i < ids.len() ==> #[trigger] ids[i] <= n
}

/// What a text puts at the place `k`.
spec fn put_at(ids: Seq<usize>, map: Seq<(Seq<char>, Seq<char>)>, t: Seq<char>, k: int) -> Seq<char> {
    unfrozen(slot_piece(slots_of(t, ids.push(0))->Ok_0, (k + 1) as usize), map)
}

proof fn lemma_pieces_at(
    texts: Seq<Seq<char>>,
    ids: Seq<usize>,
    pieces: TextsV,
    map: Seq<(Seq<char>, Seq<char>)>,
)
    requires
        texts.len() <= usize::MAX,
    ensures
        ({
            let r = pieces_put(texts, ids, pieces, map);
            &&& r.0.len() == texts.len()
            &&& r.1 is Ok <==> ids_below(texts.len(), ids)
            &&& r.1 is Ok ==> forall|k: int|
                0 <= k < texts.len() ==> #[trigger] r.0[k] == if has_slot(ids, k) {
                    unfrozen(slot_piece(pieces, (k + 1) as usize), map)
                } else {
                    texts[k]
                }
        }),
    decreases ids.len(),
{
    let r = pieces_put(texts, ids, pieces, map);
    if ids.len() > 0 {
        let rest = ids.drop_first();
        assert forall|i: int| 0 < i < ids.len() implies #[trigger] ids[i] == rest[i - 1] by {}
        if ids[0] > texts.len() {
            assert(!ids_below(texts.len(), ids));
        } else {
            let next = if ids[0] == 0 {
                texts
            } else {
                texts.update(ids[0] - 1, unfrozen(slot_piece(pieces, ids[0]), map))
            };
            lemma_pieces_at(next, rest, pieces, map);
            assert(ids_below(texts.len(), rest) == ids_below(texts.len(), ids)) by {
                if ids_below(texts.len(), rest) {
                    assert forall|i: int| 0 <= i < ids.len() implies #[trigger] ids[i] <= texts.len() by {
                        if i > 0 {
                            assert(rest[i - 1] <= texts.len());
                        }
                    }
                }
                if ids_below(texts.len(), ids) {
                    assert forall|i: int| 0 <= i < rest.len() implies #[trigger] rest[i] <= texts.len() by {
                        assert(ids[i + 1] <= texts.len());
                    }
                }
            }
            if r.1 is Ok {
                assert forall|k: int| 0 <= k < texts.len() implies #[trigger] r.0[k] == (if has_slot(
                    ids,
                    k,
                ) {
                    unfrozen(slot_piece(pieces, (k + 1) as usize), map)
                } else {
                    texts[k]
                }) by {
                    if has_slot(rest, k) {
                        let i = choose|i: int| 0 <= i < rest.len() && #[trigger] rest[i] == k + 1;
                        assert(ids[i + 1] == k + 1);
                    } else if has_slot(ids, k) {
                        let i = choose|i: int| 0 <= i < ids.len() && #[trigger] ids[i] == k + 1;
                        if i > 0 {
                            assert(rest[i - 1] == k + 1);
                        }
                    }
                }
            }
        }
    }
}

/// What putting a text into slots does to the texts.
proof fn lemma_applied_at(
    texts: Seq<Seq<char>>,
    ids: Seq<usize>,
    map: Seq<(Seq<char>, Seq<char>)>,
    t: Seq<char>,
    preview: nat,
)
    requires
        texts.len() <= usize::MAX,
    ensures
        ({
            let r = slots_applied(texts, ids, map, t, preview);
            &&& r.0.len() == texts.len()
            &&& r.1 is Ok <==> fits_in(texts.len(), ids, t)
            &&& r.1 is Ok ==> forall|k: int|
                0 <= k < texts.len() ==> #[trigger] r.0[k] == if has_slot(ids, k) {
                    put_at(ids, map, t, k)
                } else {
                    texts[k]
                }
        }),
{
    lemma_as_many(texts, ids, map, t, preview);
    if ids.len() > 0 {
        if let Ok(pieces) = slots_of(t, ids.push(0)) {
            lemma_pieces_at(texts, ids, pieces, map);
        }
    }
}

/// Whether texts hold `t` in the slots `ids`, if it fits there.
spec fn holds_text(
    texts: Seq<Seq<char>>,
    ids: Seq<usize>,
    map: Seq<(Seq<char>, Seq<char>)>,
    t: Seq<char>,
) -> bool {
    fits_in(texts.len(), ids, t) ==> forall|k: int|
        0 <= k < texts.len() && has_slot(ids, k) ==> #[trigger] texts[k] == put_at(ids, map, t, k)
}

/// What was put into slots is held there.
proof fn lemma_held(
    texts: Seq<Seq<char>>,
    ids: Seq<usize>,
    map: Seq<(Seq<char>, Seq<char>)>,
    t: Seq<char>,
    preview: nat,
)
    requires
        texts.len() <= usize::MAX,
    ensures
        holds_text(slots_applied(texts, ids, map, t, preview).0, ids, map, t),
{
    lemma_applied_at(texts, ids, map, t, preview);
}

/// What slots hold does not depend on other texts.
proof fn lemma_still_held(
    a: Seq<Seq<char>>,
    b: Seq<Seq<char>>,
    ids: Seq<usize>,
    map: Seq<(Seq<char>, Seq<char>)>,
    t: Seq<char>,
)
    requires
        a.len() == b.len(),
        holds_text(a, ids, map, t),
        forall|k: int| 0 <= k < a.len() && has_slot(ids, k) ==> #[trigger] b[k] == a[k],
    ensures
        holds_text(b, ids, map, t),
{
    if fits_in(b.len(), ids, t) {
        assert forall|k: int| 0 <= k < b.len() && has_slot(ids, k) implies #[trigger] b[k] == put_at(
            ids,
            map,
            t,
            k,
        ) by {
            assert(b[k] == a[k]);
        }
    }
}

/// Whether a unit is one of a work.
spec fn work_has(w: WorkV, i: nat) -> bool {
    match w {
        WorkV::Keep(k) => k == i,
        WorkV::Chunk(c) => c.contains(i),
    }
}

/// Whether a unit is still to be worked on, or is being worked on.
spec fn to_come(st: StageV, i: nat) -> bool {
    ||| st.job matches Some((k, _)) && k == i
    ||| waiting(st).contains(i)
    ||| exists|w: int| st.at <= w < st.works.len() && work_has(#[trigger] st.works[w], i)
}

/// Whether the texts hold the draft of a unit.
spec fn draft_held(st: StageV, i: int) -> bool {
    st.units[i].draft_translation matches Some(t) && holds_text(
        st.texts,
        st.slots[i],
        st.units[i].nt_map,
        t,
    )
}

/// Whether the texts hold what was made of a unit, where that is settled.
spec fn job_held(st: StageV) -> bool {
    st.job matches Some((i, j)) ==> (j.phase == JobPhase::Done ==> holds_text(
        st.texts,
        st.slots[i as int],
        st.units[i as int].nt_map,
        j.out,
    )) && j.phase != JobPhase::Normalize && j.phase != JobPhase::Force
}

/// What holds all through a stage of first drafts: the texts hold the draft of each unit that is no
/// more to come.
spec fn drafts_held(st: StageV) -> bool {
    &&& forall|i: int|
        0 <= i < st.units.len() ==> #[trigger] to_come(st, i as nat) || draft_held(st, i)
    &&& job_held(st)
}

/// Whether only the slots of the unit `i` got other texts, and no other unit changed.
spec fn only_unit(a: StageV, b: StageV, i: int) -> bool {
    &&& a.slots == b.slots
    &&& a.texts.len() == b.texts.len()
    &&& a.units.len() == b.units.len()
    &&& forall|l: int| 0 <= l < a.units.len() && l != i ==> #[trigger] b.units[l] == a.units[l]
    &&& forall|k: int|
        0 <= k < a.texts.len() && !has_slot(a.slots[i], k) ==> #[trigger] b.texts[k] == a.texts[k]
}

/// The drafts of other units are still held.
proof fn lemma_others_held(a: StageV, b: StageV, i: int, l: int)
    requires
        only_unit(a, b, i),
        slots_apart(a.slots),
        a.slots.len() == a.units.len(),
        0 <= i < a.units.len(),
        0 <= l < a.units.len(),
        l != i,
        draft_held(a, l),
    ensures
        draft_held(b, l),
{
    assert(b.units[l] == a.units[l]);
    let t = a.units[l].draft_translation->0;
    assert forall|k: int| 0 <= k < a.texts.len() && has_slot(a.slots[l], k) implies #[trigger] b.texts[k]
        == a.texts[k] by {
        assert(!has_slot(a.slots[i], k));
    }
    lemma_still_held(a.texts, b.texts, a.slots[l], a.units[l].nt_map, t);
}

/// Texts of slots that are none of a unit stay as they are when a text is put into its slots.
proof fn lemma_only_slots(
    texts: Seq<Seq<char>>,
    ids: Seq<usize>,
    map: Seq<(Seq<char>, Seq<char>)>,
    t: Seq<char>,
    preview: nat,
)
    ensures
        slots_applied(texts, ids, map, t, preview).0.len() == texts.len(),
        forall|k: int|
            0 <= k < texts.len() && !has_slot(ids, k) ==> #[trigger] slots_applied(
                texts,
                ids,
                map,
                t,
                preview,
            ).0[k] == texts[k],
{
    lemma_as_many(texts, ids, map, t, preview);
    assert forall|k: int| 0 <= k < texts.len() && !has_slot(ids, k) implies #[trigger] slots_applied(
        texts,
        ids,
        map,
        t,
        preview,
    ).0[k] == texts[k] by {
        law_other_slots_kept(texts, ids, map, t, preview, k);
    }
}

/// A unit whose turn did not come yet is still to come.
proof fn lemma_come_on(st: StageV, next: StageV, l: nat)
    requires
        to_come(st, l),
        st.job matches Some((k, _)) ==> k != l,
        waiting(st).contains(l) ==> waiting(next).contains(l),
        next.works == st.works,
        next.at == st.at,
    ensures
        to_come(next, l),
{
    if !waiting(st).contains(l) {
        let w = choose|w: int| st.at <= w < st.works.len() && work_has(#[trigger] st.works[w], l);
        assert(work_has(next.works[w], l));
    }
}

/// What a stage of first drafts is.
spec fn drafting(st: StageV) -> bool {
    &&& in_range(st)
    &&& st.cfg.kind == StageKind::DraftA
    &&& slots_apart(st.slots)
    &&& st.texts.len() <= usize::MAX
}

proof fn lemma_projected(st: StageV, i: int, j: JobV)
    requires
        drafting(st),
        0 <= i < st.units.len(),
    ensures
        ({
            let u = st.units[i];
            let (next, texts) = projected_job(st.cfg, u, st.slots[i], st.texts, j);
            &&& next.phase == JobPhase::Done || next.phase == JobPhase::Refit
            &&& next.phase == JobPhase::Done ==> holds_text(texts, st.slots[i], u.nt_map, next.out)
            &&& texts.len() == st.texts.len()
            &&& forall|k: int|
                0 <= k < texts.len() && !has_slot(st.slots[i], k) ==> #[trigger] texts[k]
                    == st.texts[k]
        }),
{
    let u = st.units[i];
    lemma_held(st.texts, st.slots[i], u.nt_map, j.out, st.cfg.preview);
    lemma_only_slots(st.texts, st.slots[i], u.nt_map, j.out, st.cfg.preview);
}

/// A reply to the work on a unit keeps the drafts of the others.
proof fn lemma_fed_held(st: StageV, i: nat, j: JobV, raw: Seq<char>)
    requires
        drafting(st),
        drafts_held(st),
        st.job == Some((i, j)),
        i < st.units.len(),
    ensures
        drafts_held(stage_fed(st, raw)),
{
    let u = st.units[i as int];
    let ids = st.slots[i as int];
    let t = cleaned(raw);
    let next = stage_fed(st, raw);
    let (now, texts) = job_fed(st.cfg, u, ids, st.texts, j, raw);
    match j.phase {
        JobPhase::Repair => {
            let out = if unit_verdict(u, t) is Ok {
                t
            } else {
                u.frozen_surface
            };
            lemma_projected(st, i as int, JobV { out, ..j });
        },
        JobPhase::Refit => {
            let after = slots_applied(st.texts, ids, u.nt_map, t, st.cfg.preview).0;
            lemma_held(st.texts, ids, u.nt_map, t, st.cfg.preview);
            lemma_only_slots(st.texts, ids, u.nt_map, t, st.cfg.preview);
            lemma_held(after, ids, u.nt_map, u.frozen_surface, st.cfg.preview);
            lemma_only_slots(after, ids, u.nt_map, u.frozen_surface, st.cfg.preview);
            lemma_held(st.texts, ids, u.nt_map, u.frozen_surface, st.cfg.preview);
            lemma_only_slots(st.texts, ids, u.nt_map, u.frozen_surface, st.cfg.preview);
        },
        _ => {},
    }
    assert(only_unit(st, next, i as int));
    assert(waiting(next) =~= waiting(st));
    assert forall|l: int| 0 <= l < next.units.len() implies #[trigger] to_come(next, l as nat)
        || draft_held(next, l) by {
        assert(to_come(st, l as nat) || draft_held(st, l));
        if l != i {
            if draft_held(st, l) {
                lemma_others_held(st, next, i as int, l);
            } else {
                lemma_come_on(st, next, l as nat);
            }
        }
    }
}

/// The next answer is taken up.
proof fn lemma_answer_held(st: StageV)
    requires
        drafting(st),
        drafts_held(st),
        st.job is None,
        st.answers.len() > 0,
    ensures
        drafts_held(stage_step(st).0),
{
    let (i, text) = st.answers.last();
    assert(st.answers[st.answers.len() - 1].0 < st.units.len());
    let u = st.units[i as int];
    let next = stage_step(st).0;
    let (j, texts) = job_begun(st.cfg, u, st.slots[i as int], st.texts, text);
    let fresh = JobV {
        phase: JobPhase::Normalize,
        out: text,
        reason: Seq::empty(),
        repairs_done: 0,
        max_repairs: 2,
        forced: Seq::empty(),
    };
    lemma_projected(st, i as int, fresh);
    assert(only_unit(st, next, i as int));
    let w = waiting(st);
    let front = st.answers.drop_last();
    assert(w =~= seq![i] + waiting(next)) by {
        assert(st.answers.reverse() =~= seq![st.answers.last()] + front.reverse());
    }
    assert forall|l: int| 0 <= l < next.units.len() implies #[trigger] to_come(next, l as nat)
        || draft_held(next, l) by {
        assert(to_come(st, l as nat) || draft_held(st, l));
        if l != i {
            if draft_held(st, l) {
                lemma_others_held(st, next, i as int, l);
            } else {
                if w.contains(l as nat) {
                    let p = w.index_of(l as nat);
                    assert(waiting(next)[p - 1] == l as nat);
                }
                lemma_come_on(st, next, l as nat);
            }
        }
    }
}

/// A unit keeps its source.
proof fn lemma_kept_held(st: StageV, i: nat)
    requires
        drafting(st),
        drafts_held(st),
        st.job is None,
        st.answers.len() == 0,
        st.chunks.len() == 0,
        st.at < st.works.len(),
        st.works[st.at as int] == WorkV::Keep(i),
    ensures
        drafts_held(stage_step(st).0),
{
    assert(match st.works[st.at as int] {
        WorkV::Keep(k) => k < st.units.len(),
        WorkV::Chunk(c) => true,
    });
    let u = st.units[i as int];
    let ids = st.slots[i as int];
    let next = stage_step(st).0;
    lemma_held(st.texts, ids, u.nt_map, u.frozen_surface, st.cfg.preview);
    lemma_only_slots(st.texts, ids, u.nt_map, u.frozen_surface, st.cfg.preview);
    assert(only_unit(st, next, i as int));
    assert(waiting(next) =~= waiting(st));
    assert(draft_held(next, i as int));
    assert forall|l: int| 0 <= l < next.units.len() implies #[trigger] to_come(next, l as nat)
        || draft_held(next, l) by {
        assert(to_come(st, l as nat) || draft_held(st, l));
        if l != i {
            if draft_held(st, l) {
                lemma_others_held(st, next, i as int, l);
            } else if exists|w: int|
                st.at <= w < st.works.len() && work_has(#[trigger] st.works[w], l as nat) {
                let w = choose|w: int|
                    st.at <= w < st.works.len() && work_has(#[trigger] st.works[w], l as nat);
                assert(work_has(next.works[w], l as nat));
            }
        }
    }
}

/// A chunk is taken up.
proof fn lemma_chunk_held(st: StageV, c: Seq<nat>)
    requires
        drafting(st),
        drafts_held(st),
        st.job is None,
        st.answers.len() == 0,
        st.chunks.len() == 0,
        st.at < st.works.len(),
        st.works[st.at as int] == WorkV::Chunk(c),
    ensures
        drafts_held(stage_step(st).0),
{
    let next = stage_step(st).0;
    assert(waiting(st) =~= Seq::<nat>::empty());
    reveal_with_fuel(chunk_units, 2);
    assert(seq![c].drop_last() =~= Seq::<Seq<nat>>::empty());
    assert(waiting(next) =~= c);
    assert forall|l: int| 0 <= l < next.units.len() implies #[trigger] to_come(next, l as nat)
        || draft_held(next, l) by {
        assert(to_come(st, l as nat) || draft_held(st, l));
        if to_come(st, l as nat) {
            let w = choose|w: int|
                st.at <= w < st.works.len() && work_has(#[trigger] st.works[w], l as nat);
            if w > st.at {
                assert(work_has(next.works[w], l as nat));
            }
        }
    }
}

/// A unit is settled.
proof fn lemma_settled_held(st: StageV, i: nat, j: JobV)
    requires
        drafting(st),
        drafts_held(st),
        st.job == Some((i, j)),
        i < st.units.len(),
        j.phase == JobPhase::Done,
    ensures
        drafts_held(stage_step(st).0),
{
    let next = stage_step(st).0;
    assert(only_unit(st, next, i as int));
    assert(waiting(next) =~= waiting(st));
    assert(draft_held(next, i as int));
    assert forall|l: int| 0 <= l < next.units.len() implies #[trigger] to_come(next, l as nat)
        || draft_held(next, l) by {
        assert(to_come(st, l as nat) || draft_held(st, l));
        if l != i {
            if draft_held(st, l) {
                lemma_others_held(st, next, i as int, l);
            } else {
                lemma_come_on(st, next, l as nat);
            }
        }
    }
}

/// A reply to a chunk is read.
proof fn lemma_read_held(st: StageV, raw: Seq<char>)
    requires
        drafting(st),
        drafts_held(st),
        st.job is None,
        st.answers.len() == 0,
    ensures
        drafts_held(stage_fed(st, raw)),
{
    let next = stage_fed(st, raw);
    law_chunks_keep_units(st, raw);
    assert forall|l: int| 0 <= l < next.units.len() implies #[trigger] to_come(next, l as nat)
        || draft_held(next, l) by {
        assert(to_come(st, l as nat) || draft_held(st, l));
        if to_come(st, l as nat) {
            lemma_come_on(st, next, l as nat);
        }
    }
}

/// Whatever happens to a stage of first drafts, the texts hold the drafts of the units that are done.
proof fn lemma_turn_held(st: StageV, t: TurnV)
    requires
        drafting(st),
        drafts_held(st),
    ensures
        drafts_held(turned(st, t)),
{
    match t {
        TurnV::Step => match st.job {
            Some((i, j)) => if j.phase == JobPhase::Done {
                lemma_settled_held(st, i, j);
            },
            None => if st.answers.len() > 0 {
                lemma_answer_held(st);
            } else if st.chunks.len() > 0 {
            } else if st.at < st.works.len() {
                match st.works[st.at as int] {
                    WorkV::Keep(i) => lemma_kept_held(st, i),
                    WorkV::Chunk(c) => lemma_chunk_held(st, c),
                }
            },
        },
        TurnV::Reply(raw) => match st.job {
            Some((i, j)) => lemma_fed_held(st, i, j, raw),
            None => if st.answers.len() == 0 {
                lemma_read_held(st, raw);
            },
        },
        TurnV::Failure => {},
    }
}

proof fn lemma_turns_held(st: StageV, turns: Seq<TurnV>)
    requires
        drafting(st),
        drafts_held(st),
    ensures
        drafts_held(stage_after(st, turns)),
    decreases turns.len(),
{
    if turns.len() > 0 {
        lemma_turns_held(st, turns.drop_last());
        lemma_turned(st, turns.drop_last(), 0);
        lemma_turn_held(stage_after(st, turns.drop_last()), turns.last());
    }
}

/// Whether a stage is at its start.
pub open spec fn at_start(st: StageV) -> bool {
    &&& st.works == works_of(st.cfg, st.units, st.notes)
    &&& st.at == 0 && st.chunks.len() == 0 && st.answers.len() == 0 && st.job is None
}

/// Whether a stage is at its end.
pub open spec fn at_end(st: StageV) -> bool {
    st.at >= st.works.len() && st.chunks.len() == 0 && st.answers.len() == 0 && st.job is None
}

proof fn lemma_below(n: int, i: nat)
    requires
        i < n,
    ensures
        all_below(n).count(i) > 0,
    decreases n,
{
    broadcast use vstd::multiset::group_multiset_axioms;

    if i < n - 1 {
        lemma_below(n - 1, i);
    }
}

proof fn lemma_in_works(works: Seq<WorkV>, i: nat) -> (w: int)
    requires
        work_units(works).contains(i),
    ensures
        0 <= w < works.len(),
        work_has(works[w], i),
    decreases works.len(),
{
    let front = works.drop_last();
    let k = work_units(works).index_of(i);
    if k < work_units(front).len() {
        assert(work_units(front)[k] == i);
        let w = lemma_in_works(front, i);
        assert(front[w] == works[w]);
        w
    } else {
        match works.last() {
            WorkV::Keep(_) => {},
            WorkV::Chunk(c) => {
                assert(c[k - work_units(front).len()] == i);
            },
        }
        works.len() - 1
    }
}

/// At its start all units of a stage are to come.
proof fn lemma_all_to_come(st: StageV, i: nat)
    requires
        at_start(st),
        i < st.units.len(),
    ensures
        to_come(st, i),
{
    law_plan_covers(st.cfg, st.units, st.notes);
    lemma_below(st.units.len() as int, i);
    work_units(st.works).to_multiset_ensures();
    let w = lemma_in_works(st.works, i);
    assert(work_has(st.works[w], i));
}

/// The texts after the final texts of the first `n` units were put into their slots.
proof fn lemma_finals_at(
    texts: Seq<Seq<char>>,
    units: Seq<UnitV>,
    slots: Seq<Seq<usize>>,
    preview: nat,
    n: int,
)
    requires
        texts.len() <= usize::MAX,
        0 <= n <= units.len(),
        units.len() == slots.len(),
        slots_apart(slots),
        finals_applied(texts, units, slots, preview, n).1 is None,
    ensures
        ({
            let r = finals_applied(texts, units, slots, preview, n).0;
            &&& r.len() == texts.len()
            &&& forall|i: int|
                0 <= i < n ==> fits_in(texts.len(), #[trigger] slots[i], final_or_draft(units[i]))
            &&& forall|i: int, k: int|
                0 <= i < n && 0 <= k < texts.len() && #[trigger] has_slot(slots[i], k) ==> r[k]
                    == put_at(slots[i], units[i].nt_map, final_or_draft(units[i]), k)
            &&& forall|k: int|
                0 <= k < texts.len() && (forall|i: int| 0 <= i < n ==> !has_slot(slots[i], k))
                    ==> #[trigger] r[k] == texts[k]
        }),
    decreases n,
{
    if n > 0 {
        lemma_finals_at(texts, units, slots, preview, n - 1);
        let before = finals_applied(texts, units, slots, preview, n - 1).0;
        let r = finals_applied(texts, units, slots, preview, n).0;
        let u = units[n - 1];
        lemma_applied_at(before, slots[n - 1], u.nt_map, final_or_draft(u), preview);
        assert forall|i: int, k: int| 0 <= i < n && 0 <= k < texts.len() && #[trigger] has_slot(
            slots[i],
            k,
        ) implies r[k] == put_at(slots[i], units[i].nt_map, final_or_draft(units[i]), k) by {
            if i < n - 1 {
                assert(!has_slot(slots[n - 1], k));
            }
        }
        assert forall|k: int|
            0 <= k < texts.len() && (forall|i: int| 0 <= i < n ==> !has_slot(slots[i], k)) implies #[trigger] r[k]
            == texts[k] by {
            assert(!has_slot(slots[n - 1], k));
            assert(before[k] == texts[k]);
        }
    }
}

/// Without a controlling model the texts of the document at the end are those that the stage of the
/// first drafts left: putting the final texts into the slots of the source comes to the same, where it
/// succeeds and no slot is one of two units. `a` is that stage, which goes on to its end, and `b` the
/// stage of the second drafts.
pub proof fn law_final_texts_are_first_drafts(
    a: StageV,
    replies_a: Seq<TurnV>,
    b: StageV,
    replies_b: Seq<TurnV>,
    preview: nat,
)
    requires
        stage_ok(a) && at_start(a) && a.cfg.kind == StageKind::DraftA,
        stage_ok(b) && b.job is None && b.cfg.kind == StageKind::DraftB,
        b.units == stage_after(a, replies_a).units,
        a.texts.len() <= usize::MAX,
        slots_apart(a.slots),
        at_end(stage_after(a, replies_a)),
        forall|i: int| 0 <= i < a.units.len() ==> (#[trigger] a.units[i]).final_translation is None,
    ensures
        ({
            let first = stage_after(a, replies_a);
            let second = stage_after(b, replies_b);
            let n = a.units.len() as int;
            let one = finals_applied(a.texts, drafts_kept(first.units), a.slots, preview, n);
            let two = finals_applied(a.texts, drafts_kept(second.units), a.slots, preview, n);
            &&& one.1 is None ==> one.0 == first.texts
            &&& two.1 is None ==> two.0 == first.texts
        }),
{
    let first = stage_after(a, replies_a);
    let second = stage_after(b, replies_b);
    lemma_turned(a, replies_a, 0);
    lemma_turned(b, replies_b, 0);
    assert forall|i: int| 0 <= i < a.units.len() implies #[trigger] to_come(a, i as nat) by {
        lemma_all_to_come(a, i as nat);
    }
    lemma_turns_held(a, replies_a);
    assert(waiting(first) =~= Seq::<nat>::empty());
    assert forall|i: int| 0 <= i < first.units.len() implies #[trigger] draft_held(first, i) by {
        assert(to_come(first, i as nat) || draft_held(first, i));
    }
    lemma_finals_first(a, replies_a, drafts_kept(first.units), preview);
    lemma_finals_first(a, replies_a, drafts_kept(second.units), preview);
}

proof fn lemma_finals_first(a: StageV, replies: Seq<TurnV>, units: Seq<UnitV>, preview: nat)
    requires
        in_range(a),
        a.cfg.kind == StageKind::DraftA,
        a.texts.len() <= usize::MAX,
        slots_apart(a.slots),
        units.len() == a.units.len(),
        ({
            let first = stage_after(a, replies);
            &&& first.units.len() == a.units.len()
            &&& forall|i: int| 0 <= i < units.len() ==> #[trigger] draft_held(first, i)
            &&& forall|i: int|
                0 <= i < units.len() ==> (#[trigger] units[i]).nt_map == first.units[i].nt_map
                    && units[i].final_translation == first.units[i].draft_translation
        }),
    ensures
        ({
            let one = finals_applied(a.texts, units, a.slots, preview, units.len() as int);
            one.1 is None ==> one.0 == stage_after(a, replies).texts
        }),
{
    let first = stage_after(a, replies);
    let n = units.len() as int;
    let one = finals_applied(a.texts, units, a.slots, preview, n);
    lemma_turned(a, replies, 0);
    if one.1 is None {
        lemma_finals_at(a.texts, units, a.slots, preview, n);
        assert forall|k: int| 0 <= k < a.texts.len() implies #[trigger] one.0[k] == first.texts[k] by {
            if exists|i: int| 0 <= i < n && has_slot(#[trigger] a.slots[i], k) {
                let i = choose|i: int| 0 <= i < n && has_slot(#[trigger] a.slots[i], k);
                assert(draft_held(first, i));
                assert(units[i].nt_map == first.units[i].nt_map);
                assert(fits_in(a.texts.len(), a.slots[i], final_or_draft(units[i])));
            } else {
                assert forall|i: int, j: int|
                    0 <= i < a.slots.len() && 0 <= j < a.slots[i].len() implies #[trigger] a.slots[i][j]
                    != k + 1 by {
                    assert(!has_slot(a.slots[i], k));
                }
                assert(apart_from(a, k));
                lemma_turned(a, replies, k);
                assert forall|i: int| 0 <= i < n implies !has_slot(a.slots[i], k) by {}
            }
        }
        assert(one.0 =~= first.texts);
    }
}

} // verus!
