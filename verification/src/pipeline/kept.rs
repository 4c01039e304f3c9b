//! What becomes of a reply: one that is good stands, and one that is not leaves the source.

use crate::chars::find_from;
use crate::freezer::unfrozen;
use crate::ir::UnitV;
use crate::pipeline::job::{
    force_pieces, forced_text, one_by_one, piece_read, speaking, unit_flags, unit_verdict, JobPhase,
    StageKind,
};
use crate::pipeline::slots::{law_slots_take_the_reply, slots_applied};
use crate::pipeline::stage::{
    chunk_asked, chunk_read, stage_fed, stage_step, unit_counted, ActionV, StageV, WorkV,
};
use crate::pipeline::text::cleaned;
use crate::quality::{forces, InvalidV};
use crate::sentinels::{slot_token_of, slotted};
use vstd::prelude::*;

verus! {

/// Whether the work on unit `i` of a stage is in a phase.
pub open spec fn at_work(st: StageV, i: int, phase: JobPhase) -> bool {
    &&& 0 <= i < st.units.len()
    &&& st.units.len() == st.slots.len()
    &&& st.job matches Some((at, j)) && at == i && j.phase == phase
}

/// The draft that a stage writes into a unit.
pub open spec fn own_draft(kind: StageKind, u: UnitV) -> Option<Seq<char>> {
    match kind {
        StageKind::DraftB => u.alt_translation,
        StageKind::Fuse => u.final_translation,
        _ => u.draft_translation,
    }
}

/// In a draft stage a reply to a repair, or to the request for one that fits, that passes the checks
/// and fits the slots of its unit stands: it is the draft of the unit, the slots hold its texts, and
/// the work on the unit is done.
pub proof fn law_good_repair_stands(st: StageV, i: int, raw: Seq<char>)
    requires
        st.cfg.kind == StageKind::DraftA || st.cfg.kind == StageKind::DraftB,
        at_work(st, i, JobPhase::Repair) || at_work(st, i, JobPhase::Refit),
        unit_verdict(st.units[i], cleaned(raw)) is Ok,
        slots_applied(
            st.texts,
            st.slots[i],
            st.units[i].nt_map,
            cleaned(raw),
            st.cfg.preview,
        ).1 is Ok,
    ensures
        stage_step(stage_fed(st, raw)).0.job is None,
        own_draft(st.cfg.kind, stage_step(stage_fed(st, raw)).0.units[i]) == Some(cleaned(raw)),
        stage_step(stage_fed(st, raw)).0.texts == slots_applied(
            st.texts,
            st.slots[i],
            st.units[i].nt_map,
            cleaned(raw),
            st.cfg.preview,
        ).0,
{
}

/// Where such a reply holds a text after the mark of each slot of the unit, and the closing mark at
/// its end, every slot holds its own text afterwards, with what was frozen put back.
pub proof fn law_good_repair_fills_slots(
    st: StageV,
    i: int,
    raw: Seq<char>,
    pieces: Seq<Seq<char>>,
    k: int,
)
    requires
        st.cfg.kind == StageKind::DraftA || st.cfg.kind == StageKind::DraftB,
        at_work(st, i, JobPhase::Repair) || at_work(st, i, JobPhase::Refit),
        unit_verdict(st.units[i], cleaned(raw)) is Ok,
        0 <= k < st.slots[i].len() == pieces.len(),
        st.slots[i].no_duplicates(),
        forall|a: int|
            0 <= a < st.slots[i].len() ==> 0 < #[trigger] st.slots[i][a] <= st.texts.len(),
        forall|a: int, id: nat|
            0 <= a < pieces.len() ==> find_from(
                #[trigger] pieces[a],
                #[trigger] slot_token_of(id),
                0,
            ) is None,
        cleaned(raw) == slotted(st.slots[i].push(0), pieces.push(Seq::empty())),
    ensures
        stage_step(stage_fed(st, raw)).0.job is None,
        own_draft(st.cfg.kind, stage_step(stage_fed(st, raw)).0.units[i]) == Some(cleaned(raw)),
        stage_step(stage_fed(st, raw)).0.texts[st.slots[i][k] - 1] == unfrozen(
            pieces[k],
            st.units[i].nt_map,
        ),
{
    law_slots_take_the_reply(
        st.texts,
        st.slots[i],
        st.units[i].nt_map,
        pieces,
        Seq::empty(),
        st.cfg.preview,
        k,
    );
    law_good_repair_stands(st, i, raw);
}

/// In a draft stage the source stands for a unit whose reply does not pass the checks, where the
/// source fits its slots.
pub proof fn law_bad_repair_leaves_the_source(st: StageV, i: int, raw: Seq<char>)
    requires
        st.cfg.kind == StageKind::DraftA || st.cfg.kind == StageKind::DraftB,
        at_work(st, i, JobPhase::Repair) || at_work(st, i, JobPhase::Refit),
        unit_verdict(st.units[i], cleaned(raw)) is Err,
        slots_applied(
            st.texts,
            st.slots[i],
            st.units[i].nt_map,
            st.units[i].frozen_surface,
            st.cfg.preview,
        ).1 is Ok,
    ensures
        stage_step(stage_fed(st, raw)).0.job is None,
        own_draft(st.cfg.kind, stage_step(stage_fed(st, raw)).0.units[i]) == Some(
            st.units[i].frozen_surface,
        ),
        stage_step(stage_fed(st, raw)).0.texts == slots_applied(
            st.texts,
            st.slots[i],
            st.units[i].nt_map,
            st.units[i].frozen_surface,
            st.cfg.preview,
        ).0,
{
}

/// In a draft stage a text that passes the checks but does not fit the slots of its unit is asked for
/// once more, and a second one that does not fit leaves the source.
pub proof fn law_misfit_is_asked_for_again(st: StageV, i: int, raw: Seq<char>)
    requires
        st.cfg.kind == StageKind::DraftA || st.cfg.kind == StageKind::DraftB,
        at_work(st, i, JobPhase::Repair) || at_work(st, i, JobPhase::Refit),
        unit_verdict(st.units[i], cleaned(raw)) is Ok,
        slots_applied(
            st.texts,
            st.slots[i],
            st.units[i].nt_map,
            cleaned(raw),
            st.cfg.preview,
        ).1 is Err,
    ensures
        at_work(st, i, JobPhase::Repair) ==> at_work(stage_fed(st, raw), i, JobPhase::Refit),
        at_work(st, i, JobPhase::Refit) ==> stage_step(stage_fed(st, raw)).0.job is None
            && own_draft(st.cfg.kind, stage_step(stage_fed(st, raw)).0.units[i]) == Some(
            st.units[i].frozen_surface,
        ),
{
}

/// In a draft stage the first text that is read for a unit stands, with no repair, where it passes
/// the checks, no mark against it forces a repair, and it fits the slots.
pub proof fn law_good_answer_stands(st: StageV, i: int, text: Seq<char>)
    requires
        st.cfg.kind == StageKind::DraftA || st.cfg.kind == StageKind::DraftB,
        0 <= i < st.units.len() == st.slots.len(),
        st.job is None,
        st.answers.len() > 0,
        st.answers.last() == (i as nat, text),
        unit_verdict(st.units[i], text) is Ok,
        !forces(unit_flags(st.cfg, st.units[i], text).hard),
        slots_applied(
            st.texts,
            st.slots[i],
            st.units[i].nt_map,
            text,
            st.cfg.preview,
        ).1 is Ok,
    ensures
        stage_step(stage_step(st).0).0.job is None,
        stage_step(stage_step(st).0).0.answers == st.answers.drop_last(),
        own_draft(st.cfg.kind, stage_step(stage_step(st).0).0.units[i]) == Some(text),
        stage_step(stage_step(st).0).0.texts == slots_applied(
            st.texts,
            st.slots[i],
            st.units[i].nt_map,
            text,
            st.cfg.preview,
        ).0,
{
}

/// In a draft stage the first text that is read for a unit is repaired where it fails the checks, or
/// a mark against it forces a repair.
pub proof fn law_bad_answer_is_repaired(st: StageV, i: int, text: Seq<char>)
    requires
        !one_by_one(st.cfg.kind),
        0 <= i < st.units.len() == st.slots.len(),
        st.job is None,
        st.answers.len() > 0,
        st.answers.last() == (i as nat, text),
        unit_verdict(st.units[i], text) is Err || forces(
            unit_flags(st.cfg, st.units[i], text).hard,
        ),
    ensures
        at_work(stage_step(st).0, i, JobPhase::Repair),
        stage_step(st).0.units == st.units,
        stage_step(st).0.texts == st.texts,
{
}

/// Where drafts are fused, the first text that is read for a unit stands where it passes the checks
/// and no mark against it forces a repair. A repair stands where it passes the checks; else the
/// first draft does, or the source where there is none.
pub proof fn law_fused_text_stands(st: StageV, i: int, text: Seq<char>)
    requires
        st.cfg.kind == StageKind::Fuse,
        0 <= i < st.units.len() == st.slots.len(),
    ensures
        st.job is None && st.answers.len() > 0 && st.answers.last() == (i as nat, text)
            && unit_verdict(st.units[i], text) is Ok && !forces(
            unit_flags(st.cfg, st.units[i], text).hard,
        ) ==> {
            let after = stage_step(stage_step(st).0).0;
            after.job is None && after.units[i].final_translation == Some(text)
        },
        at_work(st, i, JobPhase::Repair) && unit_verdict(st.units[i], cleaned(text)) is Ok ==> {
            let after = stage_step(stage_fed(st, text)).0;
            after.job is None && after.units[i].final_translation == Some(cleaned(text))
        },
        at_work(st, i, JobPhase::Repair) && unit_verdict(st.units[i], cleaned(text)) is Err ==> {
            let after = stage_step(stage_fed(st, text)).0;
            after.job is None && after.units[i].final_translation == Some(
                match st.units[i].draft_translation {
                    Some(d) => d,
                    None => st.units[i].frozen_surface,
                },
            )
        },
{
}

/// Where units are translated one by one, a text that passes the checks, with no mark against it that
/// forces a repair, stands: it goes to the slot or the paragraph of its unit, with what was frozen
/// put back, and is the draft of the unit.
pub proof fn law_good_text_goes_to_its_place(st: StageV, i: int, text: Seq<char>)
    requires
        st.cfg.kind == StageKind::Slots || st.cfg.kind == StageKind::Paragraphs,
        at_work(st, i, JobPhase::Normalize),
        st.units.len() == st.ids.len() == st.places.len(),
        unit_verdict(st.units[i], text) is Ok,
        !forces(unit_flags(st.cfg, st.units[i], text).hard),
        st.cfg.kind == StageKind::Slots ==> 0 < st.ids[i] <= st.texts.len(),
        st.cfg.kind == StageKind::Paragraphs ==> st.places[i] < st.texts.len(),
    ensures
        stage_step(stage_fed(st, text)).0.job is None,
        own_draft(st.cfg.kind, stage_step(stage_fed(st, text)).0.units[i]) == Some(
            unfrozen(text, st.units[i].nt_map),
        ),
        st.cfg.kind == StageKind::Slots ==> stage_step(stage_fed(st, text)).0.texts[st.ids[i] - 1]
            == unfrozen(text, st.units[i].nt_map),
        st.cfg.kind == StageKind::Paragraphs ==> stage_step(
            stage_fed(st, text),
        ).0.texts[st.places[i] as int] == unfrozen(text, st.units[i].nt_map),
{
}

/// Where units are translated one by one, a reply to a repair is judged as the first text was: it is
/// what is normalised next.
pub proof fn law_repair_is_judged_again(st: StageV, i: int, raw: Seq<char>)
    requires
        st.cfg.kind == StageKind::Slots || st.cfg.kind == StageKind::Paragraphs,
        at_work(st, i, JobPhase::Repair),
    ensures
        stage_step(stage_fed(st, raw)).1 == (ActionV::Normalize { unit: i as nat, text: cleaned(raw) }),
{
}

/// A unit that keeps its text has its source for a draft, and the texts of the document hold the
/// source: in its slot, in its paragraph, or in the slots of its paragraph. Where drafts are fused, the
/// first draft is the final text.
pub proof fn law_kept_unit_has_its_source(st: StageV, i: nat)
    requires
        st.job is None,
        st.answers.len() == 0,
        st.chunks.len() == 0,
        st.at < st.works.len(),
        st.works[st.at as int] == WorkV::Keep(i),
        i < st.units.len() == st.ids.len() == st.slots.len() == st.places.len(),
    ensures
        ({
            let u = st.units[i as int];
            let (now, _) = stage_step(st);
            &&& now.at == st.at + 1
            &&& st.cfg.kind == StageKind::Slots && 0 < st.ids[i as int] <= st.texts.len() ==> now.texts
                == st.texts.update(st.ids[i as int] - 1, u.source_surface)
                && now.units[i as int].draft_translation == Some(u.source_surface)
            &&& st.cfg.kind == StageKind::Paragraphs && st.places[i as int] < st.texts.len()
                ==> now.texts[st.places[i as int] as int] == u.source_surface
                && now.units[i as int].draft_translation == Some(u.source_surface)
            &&& st.cfg.kind == StageKind::DraftA || st.cfg.kind == StageKind::DraftB ==> own_draft(
                st.cfg.kind,
                now.units[i as int],
            ) == Some(u.frozen_surface) && now.texts == slots_applied(
                st.texts,
                st.slots[i as int],
                u.nt_map,
                u.frozen_surface,
                st.cfg.preview,
            ).0
            &&& st.cfg.kind == StageKind::Fuse ==> now.units[i as int].final_translation
                == u.draft_translation && now.texts == st.texts
        }),
{
}

/// A chunk is asked for before anything else is worked on, as soon as its turn comes.
pub proof fn law_chunk_is_asked_for(st: StageV, c: Seq<nat>)
    requires
        st.job is None,
        st.answers.len() == 0,
        st.chunks.len() == 0,
        st.at < st.works.len(),
        st.works[st.at as int] == WorkV::Chunk(c),
    ensures
        stage_step(st).0.units == st.units,
        stage_step(st).0.texts == st.texts,
        stage_step(stage_step(st).0).1 matches ActionV::Chat { prompt, .. } && prompt == chunk_asked(
            st.cfg,
            st.units,
            st.notes,
            c,
        ),
{
}

/// The texts that a reply holds for the units of a chunk are worked on in their order. A reply that
/// cannot be read for more than one unit has the two halves of the chunk asked for, the first before
/// the second.
pub proof fn law_reply_is_worked_through(st: StageV, raw: Seq<char>)
    requires
        st.job is None,
        st.answers.len() == 0,
        st.chunks.len() > 0,
    ensures
        ({
            let chunk = st.chunks.last();
            let now = stage_fed(st, raw);
            match chunk_read(st.ids, chunk, raw) {
                Some(read) => read.len() > 0 ==> now.answers.last() == read[0]
                    && now.answers.len() == read.len() && now.chunks == st.chunks.drop_last(),
                None => now.chunks.len() == st.chunks.len() + 1 && now.chunks.last() == chunk.take(
                    (chunk.len() / 2) as int,
                ) && now.chunks[now.chunks.len() - 2] == chunk.skip((chunk.len() / 2) as int)
                    && now.answers.len() == 0,
            }
        }),
{
}

/// Where units are translated one by one, a text that is to be repaired is, up to two times, or six
/// where its markers are wrong. After that one that passes the checks stands, and for one that does not
/// the pieces of the source are translated one by one.
pub proof fn law_repairs_are_limited(st: StageV, i: int, text: Seq<char>, done: nat)
    requires
        st.cfg.kind == StageKind::Slots || st.cfg.kind == StageKind::Paragraphs,
        at_work(st, i, JobPhase::Normalize),
        st.job->Some_0.1.repairs_done == done,
        st.job->Some_0.1.max_repairs == 2,
        unit_verdict(st.units[i], text) is Err || forces(
            unit_flags(st.cfg, st.units[i], text).hard,
        ),
    ensures
        done < 2 ==> at_work(stage_fed(st, text), i, JobPhase::Repair),
        unit_verdict(st.units[i], text) == Err::<(), InvalidV>(InvalidV::SentinelSequence) && done < 6
            ==> at_work(stage_fed(st, text), i, JobPhase::Repair),
        done >= 2 && unit_verdict(st.units[i], text) is Ok ==> at_work(
            stage_fed(st, text),
            i,
            JobPhase::Done,
        ) && stage_fed(st, text).job->Some_0.1.out == text,
        done >= 6 && unit_verdict(st.units[i], text) is Err && speaking(
            force_pieces(st.units[i].frozen_surface),
            force_pieces(st.units[i].frozen_surface).len() as int,
        ) > 0 ==> at_work(stage_fed(st, text), i, JobPhase::Force),
{
}

/// When the last piece of a source that is translated in pieces has come, what they make up stands
/// where it passes the checks, and else the source does.
pub proof fn law_pieces_stand(st: StageV, i: int, raw: Seq<char>)
    requires
        at_work(st, i, JobPhase::Force),
        st.job->Some_0.1.forced.len() + 1 == speaking(
            force_pieces(st.units[i].frozen_surface),
            force_pieces(st.units[i].frozen_surface).len() as int,
        ),
    ensures
        ({
            let all = st.job->Some_0.1.forced.push(piece_read(raw));
            let whole = forced_text(st.units[i].frozen_surface, all);
            &&& at_work(stage_fed(st, raw), i, JobPhase::Done)
            &&& stage_fed(st, raw).job->Some_0.1.out == (if unit_verdict(st.units[i], whole) is Ok {
                whole
            } else {
                st.units[i].frozen_surface
            })
        }),
{
}

/// The work is saved after every so many units, and never while paragraphs are translated one by one.
pub proof fn law_work_is_saved(st: StageV)
    requires
        st.processed < usize::MAX,
        st.cfg.autosave_every > 0,
    ensures
        unit_counted(st).0.processed == st.processed + 1,
        unit_counted(st).1 is Save <==> st.cfg.kind != StageKind::Paragraphs && (st.processed + 1)
            % (st.cfg.autosave_every) == 0,
        unit_counted(st).0.units == st.units,
        unit_counted(st).0.texts == st.texts,
{
}

} // verus!
