//! A stage of the translation: the units go to the model in chunks, a chunk whose reply cannot be
//! taken apart is halved, and each unit is worked on until its text stands.

use crate::chars::{
    append, blank, byte_len, byte_length, contains, dec_pad, dec_padded, has, is_blank, owned, trim,
    trimmed,
};
use crate::freezer::{unfreeze_text, unfrozen};
use crate::ir::{TranslationUnit, UnitV};
use crate::pipeline::job::{
    clamp_u32, context_left, job_ask, job_begun, job_failed, job_fed, job_ok, less_u32, within,
    AskKind, HintsV, Job, JobV, StageConfig, StageConfigV, StageKind, UnitAsk, UnitAskV, UnitHints,
};
use crate::pipeline::slots::{
    apply_slot_text, apply_slot_translation, slot_set, slots_applied, SlotError, SlotErrorV,
};
use crate::pipeline::text::{
    after_first, before_first, cleaned, cleanup_model_text, cut_after, cut_before, render_template,
    rendered, vars_view,
};
use crate::sentinels::{
    get_text, parse_segmented_output, seg_end, seg_end_of, seg_start, seg_start_of, segments_from,
    texts_view, TextsV,
};
use crate::textutil::{is_trivial_sentinel_text, trivial_text};
use crate::vecs::push_deep;
use vstd::prelude::*;

verus! {

/// What is to be done with units.
pub enum Work {
    /// A unit keeps its text.
    Keep(usize),
    /// Units go to the model together.
    Chunk(Vec<usize>),
}

/// The model of [`Work`].
#[verifier::ext_equal]
pub enum WorkV {
    Keep(nat),
    Chunk(Seq<nat>),
}

/// Places as naturals.
pub open spec fn places(v: Seq<usize>) -> Seq<nat> {
    v.map_values(|i: usize| i as nat)
}

impl DeepView for Work {
    type V = WorkV;

    open spec fn deep_view(&self) -> WorkV {
        match self {
            Work::Keep(i) => WorkV::Keep(*i as nat),
            Work::Chunk(v) => WorkV::Chunk(places(v@)),
        }
    }
}

/// Whether a unit is a paragraph.
pub open spec fn paragraph_unit(u: UnitV) -> bool {
    has(u.scope_key, "#w:p"@) || has(u.scope_key, "#a:p"@)
}

/// Whether a unit is a paragraph.
pub fn is_paragraph_unit(u: &TranslationUnit) -> (r: bool)
    ensures
        r == paragraph_unit(u.deep_view()),
{
    contains(u.scope_key.as_str(), "#w:p") || contains(u.scope_key.as_str(), "#a:p")
}

/// Whether a unit keeps its text in a stage.
pub open spec fn unit_keeps(kind: StageKind, u: UnitV) -> bool {
    match kind {
        StageKind::Slots | StageKind::Paragraphs => trivial_text(u.frozen_surface),
        StageKind::DraftA | StageKind::DraftB => is_blank(u.frozen_surface) || trivial_text(
            u.source_surface,
        ),
        StageKind::Fuse => !paragraph_unit(u),
    }
}

/// The second draft of a unit, or the first, or its source.
pub open spec fn alt_or_draft(u: UnitV) -> Seq<char> {
    match u.alt_translation {
        Some(t) => t,
        None => crate::pipeline::job::draft_or_source(u),
    }
}

/// How much room a unit takes in a chunk.
pub open spec fn unit_room(kind: StageKind, u: UnitV, note: Seq<char>) -> nat {
    match kind {
        StageKind::Slots | StageKind::Paragraphs => byte_len(u.frozen_surface) + 64,
        StageKind::DraftA | StageKind::DraftB => byte_len(u.frozen_surface) + 96,
        StageKind::Fuse => byte_len(u.frozen_surface) + byte_len(
            crate::pipeline::job::draft_or_source(u),
        ) + byte_len(alt_or_draft(u)) + byte_len(note) + 160,
    }
}

/// How much room a chunk has.
pub open spec fn chunk_room(kind: StageKind, ctx: u32) -> nat {
    let (less, least) = if kind == StageKind::Fuse {
        (2200int, 6000int)
    } else {
        (1800int, 4000int)
    };
    if 2 * ctx - less < least {
        least as nat
    } else {
        (2 * ctx - less) as nat
    }
}

/// How many units a chunk holds at most.
pub open spec fn chunk_items(kind: StageKind) -> nat {
    match kind {
        StageKind::Slots | StageKind::Paragraphs => 64,
        StageKind::DraftA | StageKind::DraftB => 32,
        StageKind::Fuse => 20,
    }
}

/// A plan while it is made: what is to be done, and the chunk that is open, with the room it takes.
#[verifier::ext_equal]
pub struct PlanV {
    pub works: Seq<WorkV>,
    pub chunk: Seq<nat>,
    pub used: nat,
}

/// The plan with its chunk closed.
pub open spec fn plan_closed(p: PlanV) -> PlanV {
    if p.chunk.len() == 0 {
        p
    } else {
        PlanV { works: p.works.push(WorkV::Chunk(p.chunk)), chunk: Seq::empty(), used: 0 }
    }
}

/// The plan with one more unit: kept, or in the open chunk, or in a new one where that is full.
pub open spec fn plan_step(p: PlanV, i: nat, keep: bool, room: nat, max: nat, items: nat) -> PlanV {
    if keep {
        PlanV { works: p.works.push(WorkV::Keep(i)), ..p }
    } else {
        let q = if p.used + room > max || p.chunk.len() >= items {
            plan_closed(p)
        } else {
            p
        };
        PlanV { chunk: q.chunk.push(i), used: q.used + room, ..q }
    }
}

/// The plan for the first units.
pub open spec fn plan_of(cfg: StageConfigV, units: Seq<UnitV>, notes: Seq<Seq<char>>, n: int) -> PlanV
    decreases n,
{
    if n <= 0 {
        PlanV { works: Seq::empty(), chunk: Seq::empty(), used: 0 }
    } else {
        let i = n - 1;
        plan_step(
            plan_of(cfg, units, notes, i),
            i as nat,
            unit_keeps(cfg.kind, units[i]),
            unit_room(cfg.kind, units[i], notes[i]),
            chunk_room(cfg.kind, cfg.ctx_size),
            chunk_items(cfg.kind),
        )
    }
}

/// What is to be done with all units.
pub open spec fn works_of(cfg: StageConfigV, units: Seq<UnitV>, notes: Seq<Seq<char>>) -> Seq<WorkV> {
    plan_closed(plan_of(cfg, units, notes, units.len() as int)).works
}

/// The units that a list of works is about, in their order.
pub open spec fn work_units(works: Seq<WorkV>) -> Seq<nat>
    decreases works.len(),
{
    if works.len() == 0 {
        Seq::empty()
    } else {
        work_units(works.drop_last()) + match works.last() {
            WorkV::Keep(i) => seq![i],
            WorkV::Chunk(c) => c,
        }
    }
}

fn keeps(kind: StageKind, u: &TranslationUnit) -> (r: bool)
    ensures
        r == unit_keeps(kind, u.deep_view()),
{
    match kind {
        StageKind::Slots | StageKind::Paragraphs => is_trivial_sentinel_text(
            u.frozen_surface.as_str(),
        ),
        StageKind::DraftA | StageKind::DraftB => blank(u.frozen_surface.as_str())
            || is_trivial_sentinel_text(u.source_surface.as_str()),
        StageKind::Fuse => !is_paragraph_unit(u),
    }
}

fn draft_text(u: &TranslationUnit) -> (r: &str)
    ensures
        r@ == crate::pipeline::job::draft_or_source(u.deep_view()),
{
    match &u.draft_translation {
        Some(t) => t.as_str(),
        None => u.frozen_surface.as_str(),
    }
}

fn alt_text(u: &TranslationUnit) -> (r: &str)
    ensures
        r@ == alt_or_draft(u.deep_view()),
{
    match &u.alt_translation {
        Some(t) => t.as_str(),
        None => draft_text(u),
    }
}

fn room_of(kind: StageKind, u: &TranslationUnit, note: &str) -> (r: u128)
    ensures
        r == unit_room(kind, u.deep_view(), note@),
        r <= 0x10_0000_0000_0000_0000,
{
    let n: u128 = byte_length(u.frozen_surface.as_str()) as u128;
    match kind {
        StageKind::Slots | StageKind::Paragraphs => n + 64,
        StageKind::DraftA | StageKind::DraftB => n + 96,
        StageKind::Fuse => n + byte_length(draft_text(u)) as u128 + byte_length(alt_text(u)) as u128
            + byte_length(note) as u128 + 160,
    }
}

fn room_in_chunk(kind: StageKind, ctx: u32) -> (r: u128)
    ensures
        r == chunk_room(kind, ctx),
        r <= 0x2_0000_0000,
{
    let (less, least) = match kind {
        StageKind::Fuse => (2200u64, 6000u64),
        _ => (1800u64, 4000u64),
    };
    let double: u64 = 2 * (ctx as u64);
    if double < less + least {
        least as u128
    } else {
        (double - less) as u128
    }
}

fn items_in_chunk(kind: StageKind) -> (r: usize)
    ensures
        r == chunk_items(kind),
{
    match kind {
        StageKind::Slots | StageKind::Paragraphs => 64,
        StageKind::DraftA | StageKind::DraftB => 32,
        StageKind::Fuse => 20,
    }
}

struct Plan {
    works: Vec<Work>,
    chunk: Vec<usize>,
    used: u128,
}

impl DeepView for Plan {
    type V = PlanV;

    closed spec fn deep_view(&self) -> PlanV {
        PlanV {
            works: self.works.deep_view(),
            chunk: places(self.chunk@),
            used: self.used as nat,
        }
    }
}

impl Plan {
    fn close(&mut self)
        ensures
            final(self).deep_view() == plan_closed(old(self).deep_view()),
            final(self).used <= old(self).used,
            final(self).chunk@.len() == 0,
    {
        let ghost before = self.deep_view();
        if self.chunk.len() > 0 {
            let mut c: Vec<usize> = Vec::new();
            std::mem::swap(&mut c, &mut self.chunk);
            push_deep(&mut self.works, Work::Chunk(c));
            self.used = 0;
        }
        assert(self.deep_view() =~= plan_closed(before));
    }

    fn step(&mut self, i: usize, keep: bool, room: u128, max: u128, items: usize)
        requires
            old(self).used <= 0x10_0000_0000_0000_0000,
            room <= 0x10_0000_0000_0000_0000,
            max <= 0x2_0000_0000,
            old(self).chunk@.len() == 0 ==> old(self).used == 0,
        ensures
            final(self).deep_view() == plan_step(
                old(self).deep_view(),
                i as nat,
                keep,
                room as nat,
                max as nat,
                items as nat,
            ),
            final(self).used <= 0x10_0000_0000_0000_0000,
            final(self).chunk@.len() == 0 ==> final(self).used == 0,
    {
        let ghost before = self.deep_view();
        if keep {
            push_deep(&mut self.works, Work::Keep(i));
        } else {
            if self.used + room > max || self.chunk.len() >= items {
                self.close();
            }
            let ghost mid = self.deep_view();
            self.used = self.used + room;
            self.chunk.push(i);
            assert(places(self.chunk@) =~= mid.chunk.push(i as nat));
        }
        assert(self.deep_view() =~= plan_step(
            before,
            i as nat,
            keep,
            room as nat,
            max as nat,
            items as nat,
        ));
    }
}

/// What is to be done with units in a stage.
pub fn plan_works(cfg: &StageConfig, units: &Vec<TranslationUnit>, notes: &Vec<String>) -> (r: Vec<Work>)
    requires
        notes@.len() == units@.len(),
    ensures
        r.deep_view() == works_of(cfg.deep_view(), units.deep_view(), notes.deep_view()),
{
    let ghost model = units.deep_view();
    let ghost said = notes.deep_view();
    let max: u128 = room_in_chunk(cfg.kind, cfg.ctx_size);
    let items: usize = items_in_chunk(cfg.kind);
    let mut p = Plan { works: Vec::new(), chunk: Vec::new(), used: 0 };
    assert(p.deep_view() =~= plan_of(cfg.deep_view(), model, said, 0));
    let mut i: usize = 0;
    while i < units.len()
        invariant
            i <= units@.len() == notes@.len(),
            model == units.deep_view(),
            said == notes.deep_view(),
            max == chunk_room(cfg.kind, cfg.ctx_size),
            max <= 0x2_0000_0000,
            items == chunk_items(cfg.kind),
            p.used <= 0x10_0000_0000_0000_0000,
            p.chunk@.len() == 0 ==> p.used == 0,
            p.deep_view() == plan_of(cfg.deep_view(), model, said, i as int),
        decreases units@.len() - i,
    {
        assert(model[i as int] == units@[i as int].deep_view());
        assert(said[i as int] == notes@[i as int]@);
        let keep: bool = keeps(cfg.kind, &units[i]);
        let room: u128 = room_of(cfg.kind, &units[i], notes[i].as_str());
        p.step(i, keep, room, max, items);
        i = i + 1;
    }
    p.close();
    p.works
}

/// What is said of a unit in the text of a prompt: its source, and where drafts are fused those and
/// the note on it.
pub open spec fn unit_body(kind: StageKind, u: UnitV, note: Seq<char>) -> Seq<char> {
    if kind == StageKind::Fuse {
        "SOURCE:\n"@ + u.frozen_surface + "\n\nA:\n"@ + crate::pipeline::job::draft_or_source(u)
            + "\n\nB:\n"@ + alt_or_draft(u) + (if is_blank(note) {
            Seq::empty()
        } else {
            "\n\nNOTE:\n"@ + trimmed(note)
        })
    } else {
        u.frozen_surface
    }
}

/// A unit in the text of a prompt.
pub open spec fn unit_block(kind: StageKind, u: UnitV, note: Seq<char>) -> Seq<char> {
    seg_start_of(u.tu_id) + "\n"@ + unit_body(kind, u, note) + "\n"@ + seg_end_of(u.tu_id) + "\n\n"@
}

/// Units in the text of a prompt.
pub open spec fn chunk_block(
    kind: StageKind,
    units: Seq<UnitV>,
    notes: Seq<Seq<char>>,
    chunk: Seq<nat>,
) -> Seq<char>
    decreases chunk.len(),
{
    if chunk.len() == 0 {
        Seq::empty()
    } else {
        let i = chunk.last() as int;
        chunk_block(kind, units, notes, chunk.drop_last()) + unit_block(kind, units[i], notes[i])
    }
}

/// What the model is told for a chunk.
pub open spec fn chunk_asked(
    cfg: StageConfigV,
    units: Seq<UnitV>,
    notes: Seq<Seq<char>>,
    chunk: Seq<nat>,
) -> Seq<char> {
    let block = chunk_block(cfg.kind, units, notes, chunk);
    if cfg.kind == StageKind::Fuse {
        rendered(
            cfg.prompt,
            seq![("target_lang"@, cfg.target_label), ("tu_block"@, block)],
        )
    } else {
        rendered(
            cfg.prompt,
            seq![
                ("source_lang"@, cfg.source_label),
                ("target_lang"@, cfg.target_label),
                ("tu_block"@, block),
            ],
        )
    }
}

/// How long the reply for a chunk may be.
pub open spec fn chunk_tokens(kind: StageKind, ctx: u32) -> u32 {
    match kind {
        StageKind::Slots | StageKind::Paragraphs => within(context_left(ctx, 256), 512, 4096) as u32,
        StageKind::DraftA | StageKind::DraftB => within(
            context_left(ctx, 256),
            512,
            u32::MAX as int,
        ) as u32,
        StageKind::Fuse => 2600,
    }
}

/// What a stage is called.
pub open spec fn stage_name(kind: StageKind) -> Seq<char> {
    match kind {
        StageKind::Slots => "translate_a(slot_texts)"@,
        StageKind::Paragraphs => "translate_b(paragraphs)"@,
        StageKind::DraftA => "translate_a"@,
        StageKind::DraftB => "translate_b"@,
        StageKind::Fuse => "fuse"@,
    }
}

/// What a stage is called.
pub fn name_of_stage(kind: StageKind) -> (r: &'static str)
    ensures
        r@ == stage_name(kind),
{
    match kind {
        StageKind::Slots => "translate_a(slot_texts)",
        StageKind::Paragraphs => "translate_b(paragraphs)",
        StageKind::DraftA => "translate_a",
        StageKind::DraftB => "translate_b",
        StageKind::Fuse => "fuse",
    }
}

/// What a chunk is called: by the stage, and its first and last unit.
pub open spec fn chunk_name(kind: StageKind, units: Seq<UnitV>, chunk: Seq<nat>) -> Seq<char> {
    stage_name(kind) + ".chunk."@ + dec_padded(units[chunk[0] as int].tu_id, 6) + "-"@ + dec_padded(
        units[chunk.last() as int].tu_id,
        6,
    )
}

/// Whether a chunk is one of units.
pub open spec fn chunk_ok(chunk: Seq<nat>, n: int) -> bool {
    chunk.len() > 0 && forall|k: int| 0 <= k < chunk.len() ==> #[trigger] chunk[k] < n
}

fn append_body(out: &mut String, kind: StageKind, u: &TranslationUnit, note: &str)
    ensures
        final(out)@ == old(out)@ + unit_body(kind, u.deep_view(), note@),
{
    if kind == StageKind::Fuse {
        append(out, "SOURCE:\n");
        append(out, u.frozen_surface.as_str());
        append(out, "\n\nA:\n");
        append(out, draft_text(u));
        append(out, "\n\nB:\n");
        append(out, alt_text(u));
        if !blank(note) {
            let said: String = trim(note);
            append(out, "\n\nNOTE:\n");
            append(out, said.as_str());
        }
    } else {
        append(out, u.frozen_surface.as_str());
    }
    assert(out@ =~= old(out)@ + unit_body(kind, u.deep_view(), note@));
}

fn append_unit(out: &mut String, kind: StageKind, u: &TranslationUnit, note: &str)
    ensures
        final(out)@ == old(out)@ + unit_block(kind, u.deep_view(), note@),
{
    let start: String = seg_start(u.tu_id);
    let end: String = seg_end(u.tu_id);
    append(out, start.as_str());
    append(out, "\n");
    append_body(out, kind, u, note);
    append(out, "\n");
    append(out, end.as_str());
    append(out, "\n\n");
    assert(out@ =~= old(out)@ + unit_block(kind, u.deep_view(), note@));
}

fn block_of(kind: StageKind, units: &Vec<TranslationUnit>, notes: &Vec<String>, chunk: &Vec<usize>) -> (r:
    String)
    requires
        chunk_ok(places(chunk@), units@.len() as int),
        notes@.len() == units@.len(),
    ensures
        r@ == chunk_block(kind, units.deep_view(), notes.deep_view(), places(chunk@)),
{
    let ghost model = places(chunk@);
    let ghost (us, ns) = (units.deep_view(), notes.deep_view());
    let mut out: String = String::new();
    let mut k: usize = 0;
    assert(model.take(0) =~= Seq::<nat>::empty());
    while k < chunk.len()
        invariant
            k <= chunk@.len(),
            model == places(chunk@),
            chunk_ok(model, units@.len() as int),
            notes@.len() == units@.len(),
            us == units.deep_view(),
            ns == notes.deep_view(),
            out@ == chunk_block(kind, us, ns, model.take(k as int)),
        decreases chunk@.len() - k,
    {
        let i: usize = chunk[k];
        assert(model[k as int] == i as nat);
        assert(us[i as int] == units@[i as int].deep_view());
        assert(ns[i as int] == notes@[i as int]@);
        assert(model.take(k + 1).drop_last() =~= model.take(k as int));
        append_unit(&mut out, kind, &units[i], notes[i].as_str());
        k = k + 1;
    }
    assert(model.take(k as int) =~= model);
    out
}

fn chunk_prompt(
    cfg: &StageConfig,
    units: &Vec<TranslationUnit>,
    notes: &Vec<String>,
    chunk: &Vec<usize>,
) -> (r: String)
    requires
        chunk_ok(places(chunk@), units@.len() as int),
        notes@.len() == units@.len(),
    ensures
        r@ == chunk_asked(cfg.deep_view(), units.deep_view(), notes.deep_view(), places(chunk@)),
{
    let block: String = block_of(cfg.kind, units, notes, chunk);
    let mut vars: Vec<(&str, &str)> = Vec::new();
    if cfg.kind == StageKind::Fuse {
        vars.push(("target_lang", cfg.target_label.as_str()));
        vars.push(("tu_block", block.as_str()));
        assert(vars_view(vars@) =~= seq![
            ("target_lang"@, cfg.deep_view().target_label),
            ("tu_block"@, block@),
        ]);
    } else {
        vars.push(("source_lang", cfg.source_label.as_str()));
        vars.push(("target_lang", cfg.target_label.as_str()));
        vars.push(("tu_block", block.as_str()));
        assert(vars_view(vars@) =~= seq![
            ("source_lang"@, cfg.deep_view().source_label),
            ("target_lang"@, cfg.deep_view().target_label),
            ("tu_block"@, block@),
        ]);
    }
    render_template(cfg.prompt.as_str(), &vars)
}

fn chunk_max_tokens(kind: StageKind, ctx: u32) -> (r: u32)
    ensures
        r == chunk_tokens(kind, ctx),
{
    match kind {
        StageKind::Slots | StageKind::Paragraphs => clamp_u32(less_u32(ctx, 256), 512, 4096),
        StageKind::DraftA | StageKind::DraftB => clamp_u32(less_u32(ctx, 256), 512, u32::MAX),
        StageKind::Fuse => 2600,
    }
}

fn chunk_trace(kind: StageKind, units: &Vec<TranslationUnit>, chunk: &Vec<usize>) -> (r: String)
    requires
        chunk_ok(places(chunk@), units@.len() as int),
    ensures
        r@ == chunk_name(kind, units.deep_view(), places(chunk@)),
{
    let ghost model = places(chunk@);
    let n: usize = chunk.len();
    assert(model[0] == chunk@[0] as nat);
    assert(model[n - 1] == chunk@[n - 1] as nat);
    assert(model.last() == model[n - 1]);
    let first: String = dec_pad(units[chunk[0]].tu_id, 6);
    let last: String = dec_pad(units[chunk[n - 1]].tu_id, 6);
    let mut s: String = owned(name_of_stage(kind));
    append(&mut s, ".chunk.");
    append(&mut s, first.as_str());
    append(&mut s, "-");
    append(&mut s, last.as_str());
    s
}

/// The numbers of the units of a chunk.
pub open spec fn chunk_ids(ids: Seq<usize>, chunk: Seq<nat>) -> Seq<usize> {
    chunk.map_values(|i: nat| ids[i as int])
}

/// The numbers of units.
pub open spec fn unit_ids(units: Seq<TranslationUnit>) -> Seq<usize> {
    units.map_values(|u: TranslationUnit| u.tu_id)
}

/// The text of a segment in a reply, or none.
pub open spec fn segment_of(found: TextsV, id: usize) -> Seq<char> {
    if found.contains_key(id) {
        found[id]
    } else {
        Seq::empty()
    }
}

/// What stands between the marks of a segment, as far as they are there.
pub open spec fn between_marks(s: Seq<char>, id: usize) -> Seq<char> {
    before_first(after_first(s, seg_start_of(id as nat)), seg_end_of(id as nat))
}

/// What a reply to a chunk is read as: the texts of its units, or nothing, for which the chunk is to
/// be halved.
pub open spec fn chunk_read(ids: Seq<usize>, chunk: Seq<nat>, raw: Seq<char>) -> Option<
    Seq<(nat, Seq<char>)>,
> {
    let c = cleaned(raw);
    match segments_from(c, chunk_ids(ids, chunk), 0, Map::empty()) {
        Ok(found) => Some(
            chunk.map_values(|i: nat| (i, cleaned(segment_of(found, ids[i as int])))),
        ),
        Err(_) => if chunk.len() > 1 {
            None
        } else {
            Some(seq![(chunk[0], cleaned(between_marks(c, ids[chunk[0] as int])))])
        },
    }
}

/// Texts with the units they are for.
pub open spec fn answers_view(v: Seq<(usize, String)>) -> Seq<(nat, Seq<char>)> {
    v.map_values(|a: (usize, String)| (a.0 as nat, a.1@))
}

fn read_chunk(units: &Vec<TranslationUnit>, chunk: &Vec<usize>, raw: &str) -> (r: Option<
    Vec<(usize, String)>,
>)
    requires
        chunk_ok(places(chunk@), units@.len() as int),
    ensures
        match r {
            Some(v) => chunk_read(unit_ids(units@), places(chunk@), raw@) == Some(
                answers_view(v@).reverse(),
            ) && forall|k: int| 0 <= k < v@.len() ==> (#[trigger] v@[k]).0 < units@.len(),
            None => chunk_read(unit_ids(units@), places(chunk@), raw@) is None,
        },
{
    let ghost model = places(chunk@);
    let ghost all = unit_ids(units@);
    let c: String = cleanup_model_text(raw);
    let n: usize = chunk.len();
    let mut ids: Vec<usize> = Vec::new();
    let mut k: usize = 0;
    while k < n
        invariant
            k <= n == chunk@.len(),
            model == places(chunk@),
            all == unit_ids(units@),
            chunk_ok(model, units@.len() as int),
            ids@.len() == k,
            forall|j: int| 0 <= j < k ==> #[trigger] ids@[j] == all[model[j] as int],
        decreases n - k,
    {
        assert(model[k as int] == chunk@[k as int] as nat);
        ids.push(units[chunk[k]].tu_id);
        k = k + 1;
    }
    assert(ids@ =~= chunk_ids(all, model));
    let mut out: Vec<(usize, String)> = Vec::new();
    match parse_segmented_output(c.as_str(), &ids) {
        Ok(found) => {
            let ghost m = texts_view(found);
            let ghost want = model.map_values(
                |i: nat| (i, cleaned(segment_of(m, all[i as int]))),
            );
            let mut k: usize = n;
            while k > 0
                invariant
                    k <= n == chunk@.len() == ids@.len(),
                    model == places(chunk@),
                    all == unit_ids(units@),
                    chunk_ok(model, units@.len() as int),
                    m == texts_view(found),
                    ids@ == chunk_ids(all, model),
                    want == model.map_values(
                        |i: nat| (i, cleaned(segment_of(m, all[i as int]))),
                    ),
                    out@.len() == n - k,
                    forall|j: int|
                        0 <= j < n - k ==> answers_view(out@)[j] == #[trigger] want.reverse()[j],
                    forall|j: int| 0 <= j < out@.len() ==> (#[trigger] out@[j]).0 < units@.len(),
                decreases k,
            {
                k = k - 1;
                assert(model[k as int] == chunk@[k as int] as nat);
                assert(ids@[k as int] == all[model[k as int] as int]);
                let t: String = match get_text(&found, ids[k]) {
                    Some(t) => cleanup_model_text(t.as_str()),
                    None => {
                        let none: String = String::new();
                        assert(none@ =~= Seq::<char>::empty());
                        cleanup_model_text(none.as_str())
                    },
                };
                let ghost before = out@;
                out.push((chunk[k], t));
                proof {
                    assert(want.reverse()[n - k - 1] == want[k as int]);
                    assert forall|j: int| 0 <= j < n - k implies answers_view(out@)[j]
                        == #[trigger] want.reverse()[j] by {
                        if j < n - k - 1 {
                            assert(answers_view(before)[j] == want.reverse()[j]);
                            assert(out@[j] == before[j]);
                        }
                    }
                }
            }
            assert(answers_view(out@) =~= want.reverse());
            assert(answers_view(out@).reverse() =~= want);
            Some(out)
        },
        Err(_) => {
            if n > 1 {
                return None;
            }
            assert(model[0] == chunk@[0] as nat);
            assert(ids@[0] == all[model[0] as int]);
            let start: String = seg_start(ids[0]);
            let end: String = seg_end(ids[0]);
            let tail: String = cut_after(c.as_str(), start.as_str());
            let inner: String = cut_before(tail.as_str(), end.as_str());
            out.push((chunk[0], cleanup_model_text(inner.as_str())));
            assert(answers_view(out@).reverse() =~= seq![
                (model[0], cleaned(between_marks(c@, all[model[0] as int]))),
            ]);
            Some(out)
        },
    }
}

/// Why a stage cannot go on: the text of a unit cannot be put into its slots.
#[derive(Clone, Debug)]
pub struct StageError {
    pub tu_id: usize,
    pub error: SlotError,
}

/// What a stage needs next.
pub enum Action {
    /// Nothing: it can go on.
    Go,
    /// A reply of the model. What is traced is called by the name.
    Chat { kind: AskKind, prompt: String, max_tokens: u32, trace: Option<String> },
    /// The text of a unit with its markers put right.
    Normalize { unit: usize, text: String },
    /// The texts are to be saved.
    Save { done: usize, total: usize },
    /// Nothing: it is done.
    Done,
    /// It cannot go on.
    Fail(StageError),
}

/// The model of an [`Action`].
#[verifier::ext_equal]
pub enum ActionV {
    Go,
    Chat { kind: AskKind, prompt: Seq<char>, max_tokens: u32, trace: Option<Seq<char>> },
    Normalize { unit: nat, text: Seq<char> },
    Save { done: nat, total: nat },
    Done,
    Fail { tu_id: usize, error: SlotErrorV },
}

impl DeepView for Action {
    type V = ActionV;

    open spec fn deep_view(&self) -> ActionV {
        match self {
            Action::Go => ActionV::Go,
            Action::Chat { kind, prompt, max_tokens, trace } => ActionV::Chat {
                kind: *kind,
                prompt: prompt@,
                max_tokens: *max_tokens,
                trace: trace.deep_view(),
            },
            Action::Normalize { unit, text } => ActionV::Normalize { unit: *unit as nat, text: text@ },
            Action::Save { done, total } => ActionV::Save {
                done: *done as nat,
                total: *total as nat,
            },
            Action::Done => ActionV::Done,
            Action::Fail(e) => ActionV::Fail { tu_id: e.tu_id, error: e.error.deep_view() },
        }
    }
}

/// A stage of the translation.
pub struct Stage {
    pub cfg: StageConfig,
    pub units: Vec<TranslationUnit>,
    pub hints: Vec<UnitHints>,
    /// What was noted of each unit.
    pub notes: Vec<String>,
    /// The slots of each unit.
    pub slots: Vec<Vec<usize>>,
    /// Where the text of each unit goes in a stage of paragraphs.
    pub places: Vec<usize>,
    pub texts: Vec<String>,
    pub works: Vec<Work>,
    /// How many of the works are begun.
    pub at: usize,
    /// The chunks that wait, the next one last.
    pub chunks: Vec<Vec<usize>>,
    /// The texts that wait to be worked on, the next one last.
    pub answers: Vec<(usize, String)>,
    /// The unit that is worked on.
    pub job: Option<(usize, Job)>,
    pub processed: usize,
}

/// The model of a [`Stage`].
#[verifier::ext_equal]
pub struct StageV {
    pub cfg: StageConfigV,
    pub ids: Seq<usize>,
    pub units: Seq<UnitV>,
    pub hints: Seq<HintsV>,
    pub notes: Seq<Seq<char>>,
    pub slots: Seq<Seq<usize>>,
    pub places: Seq<nat>,
    pub texts: Seq<Seq<char>>,
    pub works: Seq<WorkV>,
    pub at: nat,
    pub chunks: Seq<Seq<nat>>,
    pub answers: Seq<(nat, Seq<char>)>,
    pub job: Option<(nat, JobV)>,
    pub processed: nat,
}

/// Lists of slots.
pub open spec fn slots_view(v: Seq<Vec<usize>>) -> Seq<Seq<usize>> {
    v.map_values(|s: Vec<usize>| s@)
}

/// Chunks.
pub open spec fn chunks_view(v: Seq<Vec<usize>>) -> Seq<Seq<nat>> {
    v.map_values(|c: Vec<usize>| places(c@))
}

/// The work on a unit, with the unit.
pub open spec fn job_view(j: Option<(usize, Job)>) -> Option<(nat, JobV)> {
    match j {
        Some((i, job)) => Some((i as nat, job.deep_view())),
        None => None,
    }
}

impl DeepView for Stage {
    type V = StageV;

    open spec fn deep_view(&self) -> StageV {
        StageV {
            cfg: self.cfg.deep_view(),
            ids: unit_ids(self.units@),
            units: self.units.deep_view(),
            hints: self.hints.deep_view(),
            notes: self.notes.deep_view(),
            slots: slots_view(self.slots@),
            places: places(self.places@),
            texts: self.texts.deep_view(),
            works: self.works.deep_view(),
            at: self.at as nat,
            chunks: chunks_view(self.chunks@),
            answers: answers_view(self.answers@),
            job: job_view(self.job),
            processed: self.processed as nat,
        }
    }
}

/// Whether a stage is in order.
pub open spec fn stage_ok(st: StageV) -> bool {
    let n = st.units.len() as int;
    &&& st.cfg.autosave_every > 0
    &&& st.ids.len() == n && st.hints.len() == n && st.notes.len() == n && st.slots.len() == n
    &&& st.places.len() == n
    &&& st.at <= st.works.len()
    &&& st.cfg.kind == StageKind::Paragraphs ==> forall|i: int|
        0 <= i < n ==> #[trigger] st.places[i] < st.texts.len()
    &&& forall|i: int|
        0 <= i < st.works.len() ==> match #[trigger] st.works[i] {
            WorkV::Keep(k) => k < n,
            WorkV::Chunk(c) => chunk_ok(c, n),
        }
    &&& forall|i: int| 0 <= i < st.chunks.len() ==> chunk_ok(#[trigger] st.chunks[i], n)
    &&& forall|i: int| 0 <= i < st.answers.len() ==> (#[trigger] st.answers[i]).0 < n
    &&& match st.job {
        Some((i, j)) => i < n && job_ok(st.units[i as int], j),
        None => true,
    }
}

/// One more, as far as it goes.
pub open spec fn counted(n: nat) -> nat {
    if n < usize::MAX {
        n + 1
    } else {
        n
    }
}

/// The stage after one more unit is settled, and whether the texts are to be saved.
pub open spec fn unit_counted(st: StageV) -> (StageV, ActionV) {
    let now = StageV { processed: counted(st.processed), ..st };
    let total = if st.units.len() == 0 {
        1
    } else {
        st.units.len()
    };
    (
        now,
        if st.cfg.kind != StageKind::Paragraphs && now.processed % st.cfg.autosave_every == 0 {
            ActionV::Save { done: now.processed, total }
        } else {
            ActionV::Go
        },
    )
}

/// The stage with a unit changed.
pub open spec fn with_unit(st: StageV, i: nat, u: UnitV) -> StageV {
    StageV { units: st.units.update(i as int, u), ..st }
}

/// A unit with a draft, by the model of the stage.
pub open spec fn drafted(cfg: StageConfigV, u: UnitV, text: Seq<char>) -> UnitV {
    if cfg.kind == StageKind::DraftB {
        UnitV {
            alt_translation: Some(text),
            alt_translation_model: Some(cfg.model_name),
            ..u
        }
    } else {
        UnitV {
            draft_translation: Some(text),
            draft_translation_model: Some(cfg.model_name),
            ..u
        }
    }
}

/// What is done with a unit that keeps its text.
pub open spec fn unit_kept(st: StageV, i: nat) -> (StageV, ActionV) {
    let u = st.units[i as int];
    let id = st.ids[i as int];
    match st.cfg.kind {
        StageKind::Slots => unit_counted(
            StageV {
                texts: slot_set(st.texts, id, u.source_surface).0,
                ..with_unit(st, i, drafted(st.cfg, u, u.source_surface))
            },
        ),
        StageKind::Paragraphs => unit_counted(
            StageV {
                texts: st.texts.update(st.places[i as int] as int, u.source_surface),
                ..with_unit(st, i, drafted(st.cfg, u, u.source_surface))
            },
        ),
        StageKind::DraftA | StageKind::DraftB => {
            let (texts, ok) = slots_applied(
                st.texts,
                st.slots[i as int],
                u.nt_map,
                u.frozen_surface,
                st.cfg.preview,
            );
            let now = StageV { texts, ..with_unit(st, i, drafted(st.cfg, u, u.frozen_surface)) };
            match ok {
                Ok(_) => unit_counted(now),
                Err(error) => (now, ActionV::Fail { tu_id: id, error }),
            }
        },
        StageKind::Fuse => (
            with_unit(st, i, UnitV { final_translation: u.draft_translation, ..u }),
            ActionV::Go,
        ),
    }
}

/// What is done with a unit whose text stands.
pub open spec fn unit_settled(st: StageV, i: nat, out: Seq<char>) -> (StageV, ActionV) {
    let u = st.units[i as int];
    let id = st.ids[i as int];
    let plain = unfrozen(out, u.nt_map);
    match st.cfg.kind {
        StageKind::Slots => {
            let (texts, ok) = slot_set(st.texts, id, plain);
            let now = StageV { texts, ..with_unit(st, i, drafted(st.cfg, u, plain)) };
            match ok {
                Ok(_) => unit_counted(now),
                Err(error) => (now, ActionV::Fail { tu_id: id, error }),
            }
        },
        StageKind::Paragraphs => unit_counted(
            StageV {
                texts: st.texts.update(st.places[i as int] as int, plain),
                ..with_unit(st, i, drafted(st.cfg, u, plain))
            },
        ),
        StageKind::DraftA | StageKind::DraftB => unit_counted(
            with_unit(st, i, drafted(st.cfg, u, out)),
        ),
        StageKind::Fuse => (
            with_unit(st, i, UnitV { final_translation: Some(out), ..u }),
            ActionV::Go,
        ),
    }
}

/// What a stage does next, and what it needs for that.
pub open spec fn stage_step(st: StageV) -> (StageV, ActionV) {
    match st.job {
        Some((i, j)) => match job_ask(st.cfg, st.units[i as int], st.hints[i as int], j) {
            UnitAskV::Done => unit_settled(StageV { job: None, ..st }, i, j.out),
            UnitAskV::Normalize => (st, ActionV::Normalize { unit: i, text: j.out }),
            UnitAskV::Chat { kind, prompt, max_tokens } => (
                st,
                ActionV::Chat { kind, prompt, max_tokens, trace: None },
            ),
        },
        None => if st.answers.len() > 0 {
            let (i, text) = st.answers.last();
            let (j, texts) = job_begun(
                st.cfg,
                st.units[i as int],
                st.slots[i as int],
                st.texts,
                text,
            );
            (
                StageV { answers: st.answers.drop_last(), job: Some((i, j)), texts, ..st },
                ActionV::Go,
            )
        } else if st.chunks.len() > 0 {
            let chunk = st.chunks.last();
            (
                st,
                ActionV::Chat {
                    kind: if st.cfg.kind == StageKind::Fuse {
                        AskKind::FuseChunk
                    } else {
                        AskKind::Chunk
                    },
                    prompt: chunk_asked(st.cfg, st.units, st.notes, chunk),
                    max_tokens: chunk_tokens(st.cfg.kind, st.cfg.ctx_size),
                    trace: Some(chunk_name(st.cfg.kind, st.units, chunk)),
                },
            )
        } else if st.at < st.works.len() {
            let next = StageV { at: st.at + 1, ..st };
            match st.works[st.at as int] {
                WorkV::Keep(i) => unit_kept(next, i),
                WorkV::Chunk(c) => (StageV { chunks: seq![c], ..next }, ActionV::Go),
            }
        } else {
            (st, ActionV::Done)
        },
    }
}

/// What a reply does to a stage.
pub open spec fn stage_fed(st: StageV, raw: Seq<char>) -> StageV {
    match st.job {
        Some((i, j)) => {
            let (next, texts) = job_fed(
                st.cfg,
                st.units[i as int],
                st.slots[i as int],
                st.texts,
                j,
                raw,
            );
            StageV { job: Some((i, next)), texts, ..st }
        },
        None => if st.answers.len() == 0 && st.chunks.len() > 0 {
            let chunk = st.chunks.last();
            let rest = st.chunks.drop_last();
            match chunk_read(st.ids, chunk, raw) {
                Some(read) => StageV { chunks: rest, answers: read.reverse(), ..st },
                None => {
                    let mid = (chunk.len() / 2) as int;
                    StageV { chunks: rest.push(chunk.skip(mid)).push(chunk.take(mid)), ..st }
                },
            }
        } else {
            st
        },
    }
}

/// What a stage does when the model gave no reply, if it can go on.
pub open spec fn stage_failed(st: StageV) -> Option<StageV> {
    match st.job {
        Some((i, j)) => match job_failed(st.units[i as int], j) {
            Some(next) => Some(StageV { job: Some((i, next)), ..st }),
            None => None,
        },
        None => None,
    }
}

proof fn lemma_plan_ok(cfg: StageConfigV, units: Seq<UnitV>, notes: Seq<Seq<char>>, k: int, n: int)
    requires
        0 <= k <= n,
    ensures
        ({
            let p = plan_of(cfg, units, notes, k);
            &&& forall|i: int| 0 <= i < p.chunk.len() ==> #[trigger] p.chunk[i] < n
            &&& forall|i: int|
                0 <= i < p.works.len() ==> match #[trigger] p.works[i] {
                    WorkV::Keep(u) => u < n,
                    WorkV::Chunk(c) => chunk_ok(c, n),
                }
        }),
    decreases k,
{
    if k > 0 {
        lemma_plan_ok(cfg, units, notes, k - 1, n);
    }
}

impl Stage {
    /// A stage at its start.
    pub fn new(
        cfg: StageConfig,
        units: Vec<TranslationUnit>,
        hints: Vec<UnitHints>,
        notes: Vec<String>,
        slots: Vec<Vec<usize>>,
        unit_places: Vec<usize>,
        texts: Vec<String>,
    ) -> (r: Stage)
        requires
            cfg.autosave_every > 0,
            hints@.len() == units@.len(),
            notes@.len() == units@.len(),
            slots@.len() == units@.len(),
            unit_places@.len() == units@.len(),
            cfg.kind == StageKind::Paragraphs ==> forall|i: int|
                0 <= i < unit_places@.len() ==> #[trigger] unit_places@[i] < texts@.len(),
        ensures
            stage_ok(r.deep_view()),
            r.deep_view() == (StageV {
                cfg: cfg.deep_view(),
                ids: unit_ids(units@),
                units: units.deep_view(),
                hints: hints.deep_view(),
                notes: notes.deep_view(),
                slots: slots_view(slots@),
                places: places(unit_places@),
                texts: texts.deep_view(),
                works: works_of(cfg.deep_view(), units.deep_view(), notes.deep_view()),
                at: 0,
                chunks: Seq::empty(),
                answers: Seq::empty(),
                job: None,
                processed: 0,
            }),
    {
        let works: Vec<Work> = plan_works(&cfg, &units, &notes);
        proof {
            let n = units@.len() as int;
            lemma_plan_ok(cfg.deep_view(), units.deep_view(), notes.deep_view(), n, n);
        }
        let r = Stage {
            cfg,
            units,
            hints,
            notes,
            slots,
            places: unit_places,
            texts,
            works,
            at: 0,
            chunks: Vec::new(),
            answers: Vec::new(),
            job: None,
            processed: 0,
        };
        assert(r.deep_view().chunks =~= Seq::<Seq<nat>>::empty());
        assert(r.deep_view().answers =~= Seq::<(nat, Seq<char>)>::empty());
        assert(stage_ok(r.deep_view())) by {
            let v = r.deep_view();
            if v.cfg.kind == StageKind::Paragraphs {
                assert forall|i: int| 0 <= i < v.units.len() implies #[trigger] v.places[i]
                    < v.texts.len() by {
                    assert(v.places[i] == unit_places@[i] as nat);
                }
            }
        }
        r
    }

    fn count_unit(&mut self) -> (a: Action)
        requires
            old(self).cfg.autosave_every > 0,
        ensures
            (final(self).deep_view(), a.deep_view()) == unit_counted(old(self).deep_view()),
    {
        let ghost before = self.deep_view();
        if self.processed < usize::MAX {
            self.processed = self.processed + 1;
        }
        let total: usize = if self.units.len() == 0 {
            1
        } else {
            self.units.len()
        };
        assert(self.deep_view() =~= unit_counted(before).0);
        if self.cfg.kind != StageKind::Paragraphs && self.processed % self.cfg.autosave_every == 0 {
            Action::Save { done: self.processed, total }
        } else {
            Action::Go
        }
    }

    fn draft(&mut self, i: usize, text: String)
        requires
            i < old(self).units@.len(),
        ensures
            final(self).deep_view() == with_unit(
                old(self).deep_view(),
                i as nat,
                drafted(
                    old(self).deep_view().cfg,
                    old(self).deep_view().units[i as int],
                    text@,
                ),
            ),
            final(self).units@.len() == old(self).units@.len(),
    {
        let ghost before = self.deep_view();
        let ghost said = text@;
        assert(before.units[i as int] == self.units@[i as int].deep_view());
        match self.cfg.kind {
            StageKind::DraftB => {
                self.units[i].alt_translation = Some(text);
                self.units[i].alt_translation_model = Some(self.cfg.model_name.clone());
            },
            _ => {
                self.units[i].draft_translation = Some(text);
                self.units[i].draft_translation_model = Some(self.cfg.model_name.clone());
            },
        }
        proof {
            let u = drafted(before.cfg, before.units[i as int], said);
            assert(self.units@[i as int].deep_view() =~= u);
            assert(self.units.deep_view() =~= before.units.update(i as int, u));
            assert(unit_ids(self.units@) =~= before.ids);
            assert(self.deep_view() =~= with_unit(before, i as nat, u));
        }
    }

    fn keep_unit(&mut self, i: usize) -> (a: Action)
        requires
            stage_ok(old(self).deep_view()),
            i < old(self).units@.len(),
            old(self).job is None,
        ensures
            (final(self).deep_view(), a.deep_view()) == unit_kept(old(self).deep_view(), i as nat),
            stage_ok(final(self).deep_view()),
    {
        let ghost before = self.deep_view();
        let id: usize = self.units[i].tu_id;
        assert(before.ids[i as int] == id);
        assert(before.units[i as int] == self.units@[i as int].deep_view());
        assert(before.slots[i as int] == self.slots@[i as int]@);
        assert(before.places[i as int] == self.places@[i as int] as nat);
        match self.cfg.kind {
            StageKind::Slots => {
                let src: String = self.units[i].source_surface.clone();
                let _ = apply_slot_text(&mut self.texts, id, src.as_str());
                self.draft(i, src);
                let a: Action = self.count_unit();
                a
            },
            StageKind::Paragraphs => {
                let src: String = self.units[i].source_surface.clone();
                let copy: String = src.clone();
                let place: usize = self.places[i];
                self.texts.set(place, copy);
                assert(self.texts.deep_view() =~= before.texts.update(place as int, src@));
                self.draft(i, src);
                let a: Action = self.count_unit();
                a
            },
            StageKind::DraftA | StageKind::DraftB => {
                let src: String = self.units[i].frozen_surface.clone();
                let ok: Result<(), SlotError> = apply_slot_translation(
                    &mut self.texts,
                    &self.slots[i],
                    &self.units[i].nt_map,
                    src.as_str(),
                    self.cfg.preview,
                );
                self.draft(i, src);
                match ok {
                    Ok(_) => {
                        let a: Action = self.count_unit();
                        a
                    },
                    Err(error) => Action::Fail(StageError { tu_id: id, error }),
                }
            },
            StageKind::Fuse => {
                let t: Option<String> = match &self.units[i].draft_translation {
                    Some(t) => Some(t.clone()),
                    None => None,
                };
                self.units[i].final_translation = t;
                proof {
                    let u = UnitV {
                        final_translation: before.units[i as int].draft_translation,
                        ..before.units[i as int]
                    };
                    assert(self.units@[i as int].deep_view() =~= u);
                    assert(self.units.deep_view() =~= before.units.update(i as int, u));
                    assert(unit_ids(self.units@) =~= before.ids);
                    assert(self.deep_view() =~= with_unit(before, i as nat, u));
                }
                Action::Go
            },
        }
    }

    fn settle_unit(&mut self, i: usize, out: String) -> (a: Action)
        requires
            stage_ok(old(self).deep_view()),
            i < old(self).units@.len(),
            old(self).job is None,
        ensures
            (final(self).deep_view(), a.deep_view()) == unit_settled(
                old(self).deep_view(),
                i as nat,
                out@,
            ),
            stage_ok(final(self).deep_view()),
    {
        let ghost before = self.deep_view();
        let ghost said = out@;
        let id: usize = self.units[i].tu_id;
        assert(before.ids[i as int] == id);
        assert(before.units[i as int] == self.units@[i as int].deep_view());
        assert(before.places[i as int] == self.places@[i as int] as nat);
        match self.cfg.kind {
            StageKind::Slots => {
                let plain: String = unfreeze_text(out.as_str(), &self.units[i].nt_map);
                let ok: Result<(), SlotError> = apply_slot_text(&mut self.texts, id, plain.as_str());
                self.draft(i, plain);
                match ok {
                    Ok(_) => {
                        let a: Action = self.count_unit();
                        a
                    },
                    Err(error) => Action::Fail(StageError { tu_id: id, error }),
                }
            },
            StageKind::Paragraphs => {
                let plain: String = unfreeze_text(out.as_str(), &self.units[i].nt_map);
                let copy: String = plain.clone();
                let place: usize = self.places[i];
                self.texts.set(place, copy);
                assert(self.texts.deep_view() =~= before.texts.update(place as int, plain@));
                self.draft(i, plain);
                let a: Action = self.count_unit();
                a
            },
            StageKind::DraftA | StageKind::DraftB => {
                self.draft(i, out);
                let a: Action = self.count_unit();
                a
            },
            StageKind::Fuse => {
                self.units[i].final_translation = Some(out);
                proof {
                    let u = UnitV { final_translation: Some(said), ..before.units[i as int] };
                    assert(self.units@[i as int].deep_view() =~= u);
                    assert(self.units.deep_view() =~= before.units.update(i as int, u));
                    assert(unit_ids(self.units@) =~= before.ids);
                    assert(self.deep_view() =~= with_unit(before, i as nat, u));
                }
                Action::Go
            },
        }
    }

    fn ask_chunk(&self) -> (a: Action)
        requires
            stage_ok(self.deep_view()),
            self.chunks@.len() > 0,
            self.answers@.len() == 0,
            self.job is None,
        ensures
            a.deep_view() == stage_step(self.deep_view()).1,
    {
        let k: usize = self.chunks.len() - 1;
        assert(self.deep_view().chunks[k as int] == places(self.chunks@[k as int]@));
        let chunk: &Vec<usize> = &self.chunks[k];
        Action::Chat {
            kind: match self.cfg.kind {
                StageKind::Fuse => AskKind::FuseChunk,
                _ => AskKind::Chunk,
            },
            prompt: chunk_prompt(&self.cfg, &self.units, &self.notes, chunk),
            max_tokens: chunk_max_tokens(self.cfg.kind, self.cfg.ctx_size),
            trace: Some(chunk_trace(self.cfg.kind, &self.units, chunk)),
        }
    }

    fn begin_work(&mut self) -> (a: Action)
        requires
            stage_ok(old(self).deep_view()),
            old(self).at < old(self).works@.len(),
            old(self).chunks@.len() == 0,
            old(self).answers@.len() == 0,
            old(self).job is None,
        ensures
            (final(self).deep_view(), a.deep_view()) == stage_step(old(self).deep_view()),
            stage_ok(final(self).deep_view()),
    {
        let ghost before = self.deep_view();
        let n: usize = self.works.len();
        let k: usize = self.at;
        assert(before.works[k as int] == self.works@[k as int].deep_view());
        self.at = k + 1;
        match &self.works[k] {
            Work::Keep(i) => {
                let i: usize = *i;
                assert(self.deep_view() =~= (StageV { at: before.at + 1, ..before }));
                let a: Action = self.keep_unit(i);
                a
            },
            Work::Chunk(c) => {
                let mut copy: Vec<usize> = Vec::new();
                copy.extend_from_slice(c.as_slice());
                assert(copy@ =~= c@);
                self.chunks.push(copy);
                assert(self.deep_view() =~= (StageV {
                    at: before.at + 1,
                    chunks: seq![places(copy@)],
                    ..before
                }));
                Action::Go
            },
        }
    }

    /// Does what is next, and says what is needed.
    pub fn step(&mut self) -> (a: Action)
        requires
            stage_ok(old(self).deep_view()),
        ensures
            (final(self).deep_view(), a.deep_view()) == stage_step(old(self).deep_view()),
            stage_ok(final(self).deep_view()),
    {
        let ghost before = self.deep_view();
        match self.job.take() {
            Some((i, j)) => {
                assert(before.job == Some((i as nat, j.deep_view())));
                assert(before.units[i as int] == self.units@[i as int].deep_view());
                assert(before.hints[i as int] == self.hints@[i as int].deep_view());
                match j.ask(&self.cfg, &self.units[i], &self.hints[i]) {
                    UnitAsk::Done => {
                        assert(self.deep_view() =~= (StageV { job: None, ..before }));
                        let a: Action = self.settle_unit(i, j.out);
                        a
                    },
                    UnitAsk::Normalize => {
                        let text: String = j.out.clone();
                        self.job = Some((i, j));
                        assert(self.deep_view() =~= before);
                        Action::Normalize { unit: i, text }
                    },
                    UnitAsk::Chat { kind, prompt, max_tokens } => {
                        self.job = Some((i, j));
                        assert(self.deep_view() =~= before);
                        Action::Chat { kind, prompt, max_tokens, trace: None }
                    },
                }
            },
            None => {
                assert(self.deep_view() =~= before);
                let n: usize = self.answers.len();
                if n > 0 {
                    assert(before.answers.last() == (
                        self.answers@[n - 1].0 as nat,
                        self.answers@[n - 1].1@,
                    ));
                    match self.answers.pop() {
                        Some((i, text)) => {
                            assert(answers_view(self.answers@) =~= before.answers.drop_last());
                            assert(before.units[i as int] == self.units@[i as int].deep_view());
                            assert(before.slots[i as int] == self.slots@[i as int]@);
                            let j: Job = Job::begin(
                                &self.cfg,
                                &self.units[i],
                                &self.slots[i],
                                &mut self.texts,
                                text,
                            );
                            self.job = Some((i, j));
                            assert(self.deep_view() =~= stage_step(before).0);
                        },
                        None => {},
                    }
                    Action::Go
                } else if self.chunks.len() > 0 {
                    self.ask_chunk()
                } else if self.at < self.works.len() {
                    let a: Action = self.begin_work();
                    a
                } else {
                    Action::Done
                }
            },
        }
    }

    fn split_chunk(&mut self, chunk: Vec<usize>)
        requires
            chunk@.len() > 1,
        ensures
            final(self).deep_view() == (StageV {
                chunks: old(self).deep_view().chunks.push(
                    places(chunk@).skip((chunk@.len() / 2) as int),
                ).push(places(chunk@).take((chunk@.len() / 2) as int)),
                ..old(self).deep_view()
            }),
    {
        let ghost before = self.deep_view();
        let ghost all = chunk@;
        let mid: usize = chunk.len() / 2;
        let mut first: Vec<usize> = chunk;
        let second: Vec<usize> = first.split_off(mid);
        proof {
            assert(places(second@) =~= places(all).skip(mid as int));
            assert(places(first@) =~= places(all).take(mid as int));
        }
        self.chunks.push(second);
        self.chunks.push(first);
        assert(self.deep_view().chunks =~= before.chunks.push(places(second@)).push(places(first@)));
    }

    /// Goes on with a reply of the model, or with a text whose markers were put right.
    pub fn feed(&mut self, raw: &str)
        requires
            stage_ok(old(self).deep_view()),
        ensures
            final(self).deep_view() == stage_fed(old(self).deep_view(), raw@),
            stage_ok(final(self).deep_view()),
    {
        let ghost before = self.deep_view();
        match self.job.take() {
            Some((i, j)) => {
                let mut j = j;
                assert(before.job == Some((i as nat, j.deep_view())));
                assert(before.units[i as int] == self.units@[i as int].deep_view());
                assert(before.slots[i as int] == self.slots@[i as int]@);
                j.feed(&self.cfg, &self.units[i], &self.slots[i], &mut self.texts, raw);
                self.job = Some((i, j));
                assert(self.deep_view() =~= stage_fed(before, raw@));
            },
            None => {
                assert(self.deep_view() =~= before);
                let n: usize = self.chunks.len();
                if self.answers.len() == 0 && n > 0 {
                    assert(before.chunks.last() == places(self.chunks@[n - 1]@));
                    match self.chunks.pop() {
                        Some(chunk) => {
                            assert(chunks_view(self.chunks@) =~= before.chunks.drop_last());
                            assert(before.chunks[n - 1] == places(chunk@));
                            match read_chunk(&self.units, &chunk, raw) {
                                Some(answers) => {
                                    self.answers = answers;
                                    proof {
                                        let a = answers_view(answers@);
                                        assert(a.reverse().reverse() =~= a);
                                        assert(self.deep_view() =~= stage_fed(before, raw@));
                                        assert forall|k: int| 0 <= k < a.len() implies (#[trigger]
                                        a[k]).0 < before.units.len() by {
                                            assert(a[k].0 == answers@[k].0 as nat);
                                        }
                                    }
                                },
                                None => {
                                    let ghost c = places(chunk@);
                                    self.split_chunk(chunk);
                                    proof {
                                        let mid = (c.len() / 2) as int;
                                        lemma_halves_ok(c, before.units.len() as int);
                                        assert(self.deep_view() =~= stage_fed(before, raw@));
                                    }
                                },
                            }
                        },
                        None => {},
                    }
                }
            },
        }
    }

    /// Goes on when the model gave no reply, if that can be.
    pub fn fail(&mut self) -> (r: bool)
        requires
            stage_ok(old(self).deep_view()),
        ensures
            match stage_failed(old(self).deep_view()) {
                Some(st) => r && final(self).deep_view() == st,
                None => !r && final(self).deep_view() == old(self).deep_view(),
            },
            stage_ok(final(self).deep_view()),
    {
        let ghost before = self.deep_view();
        match self.job.take() {
            Some((i, j)) => {
                let mut j = j;
                assert(before.job == Some((i as nat, j.deep_view())));
                assert(before.units[i as int] == self.units@[i as int].deep_view());
                let r: bool = j.fail(&self.units[i]);
                self.job = Some((i, j));
                proof {
                    match stage_failed(before) {
                        Some(st) => {
                            assert(self.deep_view() =~= st);
                        },
                        None => {
                            assert(self.deep_view() =~= before);
                        },
                    }
                }
                r
            },
            None => {
                assert(self.deep_view() =~= before);
                false
            },
        }
    }
}

pub(crate) proof fn lemma_halves_ok(c: Seq<nat>, n: int)
    requires
        chunk_ok(c, n),
        c.len() > 1,
    ensures
        chunk_ok(c.take((c.len() / 2) as int), n),
        chunk_ok(c.skip((c.len() / 2) as int), n),
{
    let mid = (c.len() / 2) as int;
    assert forall|k: int| 0 <= k < c.take(mid).len() implies #[trigger] c.take(mid)[k] < n by {
        assert(c.take(mid)[k] == c[k]);
    }
    assert forall|k: int| 0 <= k < c.skip(mid).len() implies #[trigger] c.skip(mid)[k] < n by {
        assert(c.skip(mid)[k] == c[k + mid]);
    }
}

proof fn lemma_work_units_push(works: Seq<WorkV>, w: WorkV)
    ensures
        work_units(works.push(w)) == work_units(works) + match w {
            WorkV::Keep(i) => seq![i],
            WorkV::Chunk(c) => c,
        },
{
    assert(works.push(w).drop_last() =~= works);
}

/// The numbers below `n`, each once.
pub open spec fn all_below(n: int) -> vstd::multiset::Multiset<nat>
    decreases n,
{
    if n <= 0 {
        vstd::multiset::Multiset::empty()
    } else {
        all_below(n - 1).insert((n - 1) as nat)
    }
}

proof fn lemma_plan_covers(cfg: StageConfigV, units: Seq<UnitV>, notes: Seq<Seq<char>>, k: int)
    requires
        0 <= k,
    ensures
        ({
            let p = plan_of(cfg, units, notes, k);
            (work_units(p.works) + p.chunk).to_multiset() == all_below(k)
        }),
    decreases k,
{
    broadcast use vstd::multiset::group_multiset_axioms;

    let p = plan_of(cfg, units, notes, k);
    if k == 0 {
        assert(work_units(p.works) + p.chunk =~= Seq::<nat>::empty());
        Seq::<nat>::empty().to_multiset_ensures();
    } else {
        let i = (k - 1) as nat;
        let q = plan_of(cfg, units, notes, k - 1);
        lemma_plan_covers(cfg, units, notes, k - 1);
        let all = work_units(q.works) + q.chunk;
        vstd::seq_lib::lemma_multiset_commutative(work_units(q.works), q.chunk);
        all.to_multiset_ensures();
        assert(all.push(i).to_multiset() =~= all.to_multiset().insert(i));
        if unit_keeps(cfg.kind, units[k - 1]) {
            lemma_work_units_push(q.works, WorkV::Keep(i));
            let w = work_units(q.works);
            assert(work_units(p.works) =~= w.push(i));
            w.to_multiset_ensures();
            vstd::seq_lib::lemma_multiset_commutative(w.push(i), q.chunk);
            assert((w.push(i) + q.chunk).to_multiset() =~= all.push(i).to_multiset());
        } else {
            lemma_work_units_push(q.works, WorkV::Chunk(q.chunk));
            assert(work_units(p.works) + p.chunk =~= all.push(i));
        }
    }
}

/// In a plan every unit is once: it keeps its text, or is in one chunk.
pub proof fn law_plan_covers(cfg: StageConfigV, units: Seq<UnitV>, notes: Seq<Seq<char>>)
    ensures
        work_units(works_of(cfg, units, notes)).to_multiset() == all_below(units.len() as int),
{
    let p = plan_of(cfg, units, notes, units.len() as int);
    lemma_plan_covers(cfg, units, notes, units.len() as int);
    lemma_work_units_push(p.works, WorkV::Chunk(p.chunk));
    assert(work_units(plan_closed(p).works) =~= work_units(p.works) + p.chunk);
}

/// The units of chunks, those of the last chunk first.
pub open spec fn chunk_units(chunks: Seq<Seq<nat>>) -> Seq<nat>
    decreases chunks.len(),
{
    if chunks.len() == 0 {
        Seq::empty()
    } else {
        chunks.last() + chunk_units(chunks.drop_last())
    }
}

/// The units that wait for their texts to be worked on, in the order in which they will be.
pub open spec fn waiting(st: StageV) -> Seq<nat> {
    st.answers.reverse().map_values(|a: (nat, Seq<char>)| a.0) + chunk_units(st.chunks)
}

/// Whatever the model replies to a chunk, every unit of it stays in its turn: it has its text, or
/// waits in a smaller chunk.
pub proof fn law_chunks_keep_units(st: StageV, raw: Seq<char>)
    requires
        st.job is None,
        st.answers.len() == 0,
    ensures
        waiting(stage_fed(st, raw)) == waiting(st),
{
    if st.chunks.len() > 0 {
        let chunk = st.chunks.last();
        let rest = st.chunks.drop_last();
        match chunk_read(st.ids, chunk, raw) {
            Some(read) => {
                assert(read.reverse().reverse() =~= read);
                let ids = read.map_values(|a: (nat, Seq<char>)| a.0);
                if segments_from(cleaned(raw), chunk_ids(st.ids, chunk), 0, Map::empty()) is Ok {
                    assert(ids =~= chunk);
                    assert(waiting(stage_fed(st, raw)) =~= waiting(st));
                } else if chunk.len() == 1 {
                    assert(ids =~= chunk);
                    assert(waiting(stage_fed(st, raw)) =~= waiting(st));
                } else {
                    lemma_empty_chunk_read(st, raw);
                    assert(waiting(stage_fed(st, raw)) =~= waiting(st));
                }
            },
            None => {
                let mid = (chunk.len() / 2) as int;
                let second = rest.push(chunk.skip(mid));
                let both = second.push(chunk.take(mid));
                assert(both.drop_last() =~= second);
                assert(second.drop_last() =~= rest);
                assert(chunk.take(mid) + chunk.skip(mid) =~= chunk);
                assert(chunk_units(second) == chunk.skip(mid) + chunk_units(rest));
                assert(chunk_units(both) =~= chunk_units(st.chunks));
                assert(waiting(stage_fed(st, raw)) =~= waiting(st));
            },
        }
    }
}

proof fn lemma_empty_chunk_read(st: StageV, raw: Seq<char>)
    requires
        st.chunks.len() > 0,
        st.chunks.last().len() == 0,
    ensures
        segments_from(cleaned(raw), chunk_ids(st.ids, st.chunks.last()), 0, Map::empty()) is Ok,
{
    assert(chunk_ids(st.ids, st.chunks.last()).len() == 0);
}

/// How many replies chunks still need at most.
pub open spec fn chunk_replies(chunks: Seq<Seq<nat>>) -> int
    decreases chunks.len(),
{
    if chunks.len() == 0 {
        0
    } else {
        2 * chunks.last().len() - 1 + chunk_replies(chunks.drop_last())
    }
}

/// Halving chunks comes to an end: every reply leaves fewer that are needed.
pub proof fn law_halving_ends(st: StageV, raw: Seq<char>)
    requires
        st.job is None,
        st.answers.len() == 0,
        st.chunks.len() > 0,
        st.chunks.last().len() > 0,
    ensures
        chunk_replies(stage_fed(st, raw).chunks) < chunk_replies(st.chunks),
{
    let chunk = st.chunks.last();
    let rest = st.chunks.drop_last();
    if chunk_read(st.ids, chunk, raw) is None {
        let mid = (chunk.len() / 2) as int;
        let second = rest.push(chunk.skip(mid));
        let both = second.push(chunk.take(mid));
        assert(both.drop_last() =~= second);
        assert(second.drop_last() =~= rest);
        assert(chunk_replies(second) == 2 * (chunk.len() - mid) - 1 + chunk_replies(rest));
        assert(chunk_replies(both) == 2 * mid - 1 + chunk_replies(second));
    }
}

} // verus!
