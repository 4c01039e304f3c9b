//! The run of a translation: which step comes after which.

use crate::chars::{append, dec, dec_usize, owned};
use crate::pipeline::config::{PipelineConfig, PipelineMode};
use vstd::prelude::*;

verus! {

/// Which models a run has besides the one that translates.
#[derive(Clone, Copy, Debug, PartialEq, Eq, Structural)]
pub struct RunModels {
    pub alt: bool,
    pub rewrite: bool,
    pub controller: bool,
}

impl RunModels {
    /// The models of a run.
    pub fn of(cfg: &PipelineConfig) -> (r: RunModels)
        ensures
            r.alt == cfg.alt_translate_backend is Some,
            r.rewrite == cfg.rewrite_backend is Some,
            r.controller == cfg.controller_backend is Some,
    {
        RunModels {
            alt: cfg.alt_translate_backend.is_some(),
            rewrite: cfg.rewrite_backend.is_some(),
            controller: cfg.controller_backend.is_some(),
        }
    }
}

/// When the records of the paragraphs are written.
#[derive(Clone, Copy, Debug, PartialEq, Eq, Structural)]
pub enum Snapshot {
    Start,
    AfterA,
    AfterB,
    AfterFuse,
    AfterPatch { round: usize },
    End,
    Basic,
}

/// A step of a run.
#[derive(Clone, Copy, Debug, PartialEq, Eq, Structural)]
pub enum RunStep {
    /// The slots of the document are translated.
    Slots,
    /// The paragraphs are translated, to be read beside the document.
    Paragraphs,
    /// The controlling model takes notes of the paragraphs.
    Notes,
    DraftA,
    DraftB,
    /// The controlling model makes one text of the two drafts.
    Fuse,
    /// The first drafts are the final texts.
    KeepDrafts,
    /// The final texts go into the slots.
    Finals,
    /// The controlling model looks for paragraphs that do not read well.
    Audit { round: usize },
    /// The paragraphs that were found are rewritten.
    Patch { round: usize },
    /// The document is saved as it stands. The run ends if it `must` be saved and is not.
    Save { done: usize, total: usize, must: bool },
    Record(Snapshot),
    /// The translated document is written.
    Write,
    Done,
}

/// How often the paragraphs are looked through.
pub const AUDIT_ROUNDS: usize = 2;

/// How the drafts become final texts.
pub open spec fn fusing(m: RunModels) -> RunStep {
    if m.controller {
        RunStep::Fuse
    } else {
        RunStep::KeepDrafts
    }
}

/// The first step of a run.
pub open spec fn begun(mode: PipelineMode, m: RunModels) -> RunStep {
    match mode {
        PipelineMode::Basic => RunStep::Slots,
        PipelineMode::Full => if m.controller {
            RunStep::Notes
        } else {
            RunStep::Record(Snapshot::Start)
        },
    }
}

/// The step after another; `found` says whether an audit found anything.
pub open spec fn after(mode: PipelineMode, m: RunModels, step: RunStep, found: bool) -> RunStep {
    match step {
        RunStep::Slots => RunStep::Write,
        RunStep::Paragraphs => RunStep::Record(Snapshot::Basic),
        RunStep::Notes => RunStep::Record(Snapshot::Start),
        RunStep::DraftA => RunStep::Record(Snapshot::AfterA),
        RunStep::DraftB => RunStep::Record(Snapshot::AfterB),
        RunStep::Fuse | RunStep::KeepDrafts => RunStep::Record(Snapshot::AfterFuse),
        RunStep::Finals => RunStep::Save { done: 1, total: 1, must: true },
        RunStep::Audit { round } => if found {
            RunStep::Patch { round }
        } else {
            RunStep::Write
        },
        RunStep::Patch { round } => RunStep::Record(Snapshot::AfterPatch { round }),
        RunStep::Save { done, total, must } => if must {
            if m.controller && m.rewrite {
                RunStep::Audit { round: 1 }
            } else {
                RunStep::Write
            }
        } else if done < AUDIT_ROUNDS {
            RunStep::Audit { round: (done + 1) as usize }
        } else {
            RunStep::Write
        },
        RunStep::Record(s) => match s {
            Snapshot::Start => RunStep::DraftA,
            Snapshot::AfterA => if m.alt {
                RunStep::DraftB
            } else {
                fusing(m)
            },
            Snapshot::AfterB => fusing(m),
            Snapshot::AfterFuse => RunStep::Finals,
            Snapshot::AfterPatch { round } => RunStep::Save {
                done: round,
                total: AUDIT_ROUNDS,
                must: false,
            },
            Snapshot::End | Snapshot::Basic => RunStep::Done,
        },
        RunStep::Write => match mode {
            PipelineMode::Basic => RunStep::Paragraphs,
            PipelineMode::Full => RunStep::Record(Snapshot::End),
        },
        RunStep::Done => RunStep::Done,
    }
}

/// The first step of a run.
pub fn first_step(mode: PipelineMode, m: RunModels) -> (r: RunStep)
    ensures
        r == begun(mode, m),
{
    match mode {
        PipelineMode::Basic => RunStep::Slots,
        PipelineMode::Full => if m.controller {
            RunStep::Notes
        } else {
            RunStep::Record(Snapshot::Start)
        },
    }
}

fn fuse_step(m: RunModels) -> (r: RunStep)
    ensures
        r == fusing(m),
{
    if m.controller {
        RunStep::Fuse
    } else {
        RunStep::KeepDrafts
    }
}

/// The step after another; `found` says whether an audit found anything.
pub fn next_step(mode: PipelineMode, m: RunModels, step: RunStep, found: bool) -> (r: RunStep)
    ensures
        r == after(mode, m, step, found),
{
    match step {
        RunStep::Slots => RunStep::Write,
        RunStep::Paragraphs => RunStep::Record(Snapshot::Basic),
        RunStep::Notes => RunStep::Record(Snapshot::Start),
        RunStep::DraftA => RunStep::Record(Snapshot::AfterA),
        RunStep::DraftB => RunStep::Record(Snapshot::AfterB),
        RunStep::Fuse | RunStep::KeepDrafts => RunStep::Record(Snapshot::AfterFuse),
        RunStep::Finals => RunStep::Save { done: 1, total: 1, must: true },
        RunStep::Audit { round } => if found {
            RunStep::Patch { round }
        } else {
            RunStep::Write
        },
        RunStep::Patch { round } => RunStep::Record(Snapshot::AfterPatch { round }),
        RunStep::Save { done, total: _, must } => if must {
            if m.controller && m.rewrite {
                RunStep::Audit { round: 1 }
            } else {
                RunStep::Write
            }
        } else if done < AUDIT_ROUNDS {
            RunStep::Audit { round: done + 1 }
        } else {
            RunStep::Write
        },
        RunStep::Record(s) => match s {
            Snapshot::Start => RunStep::DraftA,
            Snapshot::AfterA => if m.alt {
                RunStep::DraftB
            } else {
                fuse_step(m)
            },
            Snapshot::AfterB => fuse_step(m),
            Snapshot::AfterFuse => RunStep::Finals,
            Snapshot::AfterPatch { round } => RunStep::Save {
                done: round,
                total: AUDIT_ROUNDS,
                must: false,
            },
            Snapshot::End | Snapshot::Basic => RunStep::Done,
        },
        RunStep::Write => match mode {
            PipelineMode::Basic => RunStep::Paragraphs,
            PipelineMode::Full => RunStep::Record(Snapshot::End),
        },
        RunStep::Done => RunStep::Done,
    }
}

/// The translation of a document, at a step of its run.
pub struct TranslatorPipeline {
    pub mode: PipelineMode,
    pub models: RunModels,
    pub step: RunStep,
}

impl TranslatorPipeline {
    /// A translation at its first step.
    pub fn new(cfg: &PipelineConfig) -> (r: TranslatorPipeline)
        ensures
            r.mode == cfg.mode,
            r.models.alt == cfg.alt_translate_backend is Some,
            r.models.rewrite == cfg.rewrite_backend is Some,
            r.models.controller == cfg.controller_backend is Some,
            r.step == begun(r.mode, r.models),
    {
        let models: RunModels = RunModels::of(cfg);
        TranslatorPipeline { mode: cfg.mode, models, step: first_step(cfg.mode, models) }
    }

    /// Goes on when a step is done, and gives the next one; `found` says whether an audit found
    /// anything.
    pub fn translate_docx(&mut self, found: bool) -> (r: RunStep)
        ensures
            r == after(old(self).mode, old(self).models, old(self).step, found),
            *final(self) == (TranslatorPipeline { step: r, ..*old(self) }),
    {
        self.step = next_step(self.mode, self.models, self.step, found);
        self.step
    }
}

/// The name of the file with the records of the paragraphs.
pub open spec fn record_name(s: Snapshot) -> Seq<char> {
    "paragraph_memory."@ + snapshot_name(s) + ".json"@
}

/// How a snapshot is called.
pub open spec fn snapshot_name(s: Snapshot) -> Seq<char> {
    match s {
        Snapshot::Start => "stage0"@,
        Snapshot::AfterA => "afterA"@,
        Snapshot::AfterB => "afterB"@,
        Snapshot::AfterFuse => "afterFuse"@,
        Snapshot::AfterPatch { round } => "afterPatch"@ + dec(round as nat),
        Snapshot::End => "final"@,
        Snapshot::Basic => "basic"@,
    }
}

/// The name of the file with the records of the paragraphs.
pub fn record_file_name(s: Snapshot) -> (r: String)
    ensures
        r@ == record_name(s),
{
    let mut r: String = owned("paragraph_memory.");
    match s {
        Snapshot::Start => append(&mut r, "stage0"),
        Snapshot::AfterA => append(&mut r, "afterA"),
        Snapshot::AfterB => append(&mut r, "afterB"),
        Snapshot::AfterFuse => append(&mut r, "afterFuse"),
        Snapshot::AfterPatch { round } => {
            append(&mut r, "afterPatch");
            let n: String = dec_usize(round);
            append(&mut r, n.as_str());
        },
        Snapshot::End => append(&mut r, "final"),
        Snapshot::Basic => append(&mut r, "basic"),
    }
    append(&mut r, ".json");
    assert(r@ =~= record_name(s));
    r
}

/// How far a step is from the end of its run.
pub open spec fn distance(mode: PipelineMode, step: RunStep) -> nat {
    let n = distance_to_write(step);
    match mode {
        PipelineMode::Basic => if n > 0 {
            n + 4
        } else if step == RunStep::Write {
            4
        } else {
            distance_at_end(step)
        },
        PipelineMode::Full => if n > 0 {
            n + 4
        } else {
            distance_at_end(step)
        },
    }
}

/// How far a step is from the writing of the document, if that is to come.
pub open spec fn distance_to_write(step: RunStep) -> nat {
    match step {
        RunStep::Slots => 1,
        RunStep::Notes => 36,
        RunStep::Record(Snapshot::Start) => 35,
        RunStep::DraftA => 34,
        RunStep::Record(Snapshot::AfterA) => 33,
        RunStep::DraftB => 32,
        RunStep::Record(Snapshot::AfterB) => 31,
        RunStep::Fuse | RunStep::KeepDrafts => 30,
        RunStep::Record(Snapshot::AfterFuse) => 29,
        RunStep::Finals => 28,
        RunStep::Save { must: true, .. } => 27,
        RunStep::Audit { round } => 4 + rounds_left(round),
        RunStep::Patch { round } => 3 + rounds_left(round),
        RunStep::Record(Snapshot::AfterPatch { round }) => 2 + rounds_left(round),
        RunStep::Save { done, .. } => 1 + rounds_left(done),
        _ => 0,
    }
}

/// How far a step is from the end, where nothing more is to be written.
pub open spec fn distance_at_end(step: RunStep) -> nat {
    match step {
        RunStep::Paragraphs => 3,
        RunStep::Write => 2,
        RunStep::Record(_) => 1,
        _ => 0,
    }
}

/// A measure of the rounds after one.
pub open spec fn rounds_left(round: usize) -> nat {
    if round < AUDIT_ROUNDS {
        (10 * (AUDIT_ROUNDS - round)) as nat
    } else {
        0
    }
}

/// The steps of a run from one on; `found` says of each round whether its audit found anything.
pub open spec fn steps_from(
    mode: PipelineMode,
    m: RunModels,
    step: RunStep,
    found: spec_fn(usize) -> bool,
) -> Seq<RunStep>
    decreases distance(mode, step),
{
    if step == RunStep::Done {
        Seq::empty()
    } else {
        seq![step] + steps_from(mode, m, after(mode, m, step, found_at(step, found)), found)
    }
}

/// Whether a step is an audit that found anything.
pub open spec fn found_at(step: RunStep, found: spec_fn(usize) -> bool) -> bool {
    match step {
        RunStep::Audit { round } => found(round),
        _ => false,
    }
}

/// The steps of a round that looks for paragraphs that do not read well, if it finds any.
pub open spec fn round_steps(round: usize) -> Seq<RunStep> {
    seq![
        RunStep::Audit { round },
        RunStep::Patch { round },
        RunStep::Record(Snapshot::AfterPatch { round }),
        RunStep::Save { done: round, total: 2, must: false },
    ]
}

/// The steps that look for paragraphs that do not read well: until none is found, and twice at most.
pub open spec fn audit_steps(m: RunModels, found: spec_fn(usize) -> bool) -> Seq<RunStep> {
    if !(m.controller && m.rewrite) {
        Seq::empty()
    } else if !found(1) {
        seq![RunStep::Audit { round: 1 }]
    } else if !found(2) {
        round_steps(1) + seq![RunStep::Audit { round: 2 }]
    } else {
        round_steps(1) + round_steps(2)
    }
}

/// The steps of a full run: notes, one or two drafts, one text made of them, the slots filled with
/// it, the rounds that look for paragraphs that do not read well, and the document written.
pub open spec fn full_steps(m: RunModels, found: spec_fn(usize) -> bool) -> Seq<RunStep> {
    (if m.controller {
        seq![RunStep::Notes]
    } else {
        Seq::empty()
    }) + seq![
        RunStep::Record(Snapshot::Start),
        RunStep::DraftA,
        RunStep::Record(Snapshot::AfterA),
    ] + (if m.alt {
        seq![RunStep::DraftB, RunStep::Record(Snapshot::AfterB)]
    } else {
        Seq::empty()
    }) + seq![
        if m.controller {
            RunStep::Fuse
        } else {
            RunStep::KeepDrafts
        },
        RunStep::Record(Snapshot::AfterFuse),
        RunStep::Finals,
        RunStep::Save { done: 1, total: 1, must: true },
    ] + audit_steps(m, found) + seq![RunStep::Write, RunStep::Record(Snapshot::End)]
}

proof fn lemma_end(m: RunModels, found: spec_fn(usize) -> bool)
    ensures
        steps_from(PipelineMode::Full, m, RunStep::Write, found) == seq![
            RunStep::Write,
            RunStep::Record(Snapshot::End),
        ],
{
    reveal_with_fuel(steps_from, 3);
    assert(steps_from(PipelineMode::Full, m, RunStep::Write, found) =~= seq![
        RunStep::Write,
        RunStep::Record(Snapshot::End),
    ]);
}

/// A round that finds anything goes on as after the document was saved.
proof fn lemma_round(m: RunModels, found: spec_fn(usize) -> bool, round: usize)
    requires
        found(round),
    ensures
        steps_from(PipelineMode::Full, m, RunStep::Audit { round }, found) == round_steps(round)
            + steps_from(
            PipelineMode::Full,
            m,
            if round < AUDIT_ROUNDS {
                RunStep::Audit { round: (round + 1) as usize }
            } else {
                RunStep::Write
            },
            found,
        ),
{
    reveal_with_fuel(steps_from, 5);
    let next = if round < AUDIT_ROUNDS {
        RunStep::Audit { round: (round + 1) as usize }
    } else {
        RunStep::Write
    };
    assert(steps_from(PipelineMode::Full, m, RunStep::Audit { round }, found) =~= round_steps(round)
        + steps_from(PipelineMode::Full, m, next, found));
}

proof fn lemma_audits(m: RunModels, found: spec_fn(usize) -> bool)
    requires
        m.controller && m.rewrite,
    ensures
        steps_from(PipelineMode::Full, m, RunStep::Audit { round: 1 }, found) == audit_steps(
            m,
            found,
        ) + seq![RunStep::Write, RunStep::Record(Snapshot::End)],
{
    let end = seq![RunStep::Write, RunStep::Record(Snapshot::End)];
    let first = steps_from(PipelineMode::Full, m, RunStep::Audit { round: 1 }, found);
    let second = steps_from(PipelineMode::Full, m, RunStep::Audit { round: 2 }, found);
    lemma_end(m, found);
    if found(1) {
        lemma_round(m, found, 1);
        assert(first == round_steps(1) + second);
        if found(2) {
            lemma_round(m, found, 2);
            assert(second == round_steps(2) + end);
        } else {
            assert(second == seq![RunStep::Audit { round: 2 }] + end);
        }
    }
    assert(first =~= audit_steps(m, found) + end);
}

/// A full run goes through the steps of one, in their order, and ends.
pub proof fn law_full_run(m: RunModels, found: spec_fn(usize) -> bool)
    ensures
        steps_from(
            PipelineMode::Full,
            m,
            begun(PipelineMode::Full, m),
            found,
        ) == full_steps(m, found),
{
    let full = PipelineMode::Full;
    lemma_end(m, found);
    if m.controller && m.rewrite {
        lemma_audits(m, found);
    }
    let save = RunStep::Save { done: 1, total: 1, must: true };
    let tail = audit_steps(m, found) + seq![RunStep::Write, RunStep::Record(Snapshot::End)];
    assert(steps_from(full, m, save, found) =~= seq![save] + tail);
    let fused = steps_from(full, m, fusing(m), found);
    assert(fused =~= seq![fusing(m), RunStep::Record(Snapshot::AfterFuse), RunStep::Finals, save]
        + tail) by {
        reveal_with_fuel(steps_from, 4);
    }
    let second = steps_from(full, m, RunStep::DraftB, found);
    assert(second =~= seq![RunStep::DraftB, RunStep::Record(Snapshot::AfterB)] + fused) by {
        reveal_with_fuel(steps_from, 3);
    }
    let drafted = steps_from(full, m, RunStep::Record(Snapshot::Start), found);
    let next = if m.alt {
        second
    } else {
        fused
    };
    assert(drafted =~= seq![
        RunStep::Record(Snapshot::Start),
        RunStep::DraftA,
        RunStep::Record(Snapshot::AfterA),
    ] + next) by {
        reveal_with_fuel(steps_from, 4);
    }
    assert(steps_from(full, m, begun(full, m), found) =~= full_steps(m, found));
}

/// A basic run translates the slots, writes the document, and translates the paragraphs then.
pub proof fn law_basic_run(m: RunModels, found: spec_fn(usize) -> bool)
    ensures
        steps_from(
            PipelineMode::Basic,
            m,
            begun(PipelineMode::Basic, m),
            found,
        ) == seq![
            RunStep::Slots,
            RunStep::Write,
            RunStep::Paragraphs,
            RunStep::Record(Snapshot::Basic),
        ],
{
    reveal_with_fuel(steps_from, 5);
    assert(steps_from(PipelineMode::Basic, m, RunStep::Slots, found) =~= seq![
        RunStep::Slots,
        RunStep::Write,
        RunStep::Paragraphs,
        RunStep::Record(Snapshot::Basic),
    ]);
}


} // verus!
