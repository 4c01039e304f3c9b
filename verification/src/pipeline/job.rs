//! The work on one unit: its translation is checked, repaired by the model where it fails, and
//! settled.

use crate::chars::{
    append, ascii_lower, blank, byte_len, byte_length, contains, has, is_blank, join, joined_with,
    lower_ascii, owned, replace, replaced, trim, trimmed,
};
use crate::ir::{TranslationUnit, UnitV};
use crate::pipeline::slots::{apply_slot_translation, slots_applied};
use crate::pipeline::text::{cleaned, cleanup_model_text, render_template, rendered, vars_view};
use crate::quality::{
    forces, invalid_text, plain_flags, plain_text, quality_heuristics, validate_translation, validated,
    verdict, FlagsV, InvalidV, QualityHeuristics, ValidationError,
};
use crate::sentinels::{pieces_at, replace_tokens, split_tokens, tokens, with_replacement, TokenClass};
use crate::vecs::{append_deep, clone_strings, push_deep};
use vstd::prelude::*;

verus! {

/// What a stage of the translation makes.
#[derive(Clone, Copy, Debug, PartialEq, Eq, Structural)]
pub enum StageKind {
    /// The texts of the slots, one by one.
    Slots,
    /// The paragraphs, for reading.
    Paragraphs,
    /// The first draft of the paragraphs with their slots.
    DraftA,
    /// The second draft of the paragraphs with their slots.
    DraftB,
    /// One translation out of the two drafts.
    Fuse,
}

/// What a stage is set to.
#[derive(Clone, Debug)]
pub struct StageConfig {
    pub kind: StageKind,
    pub model_name: String,
    pub ctx_size: u32,
    pub source_lang: String,
    pub target_lang: String,
    /// The languages as they are called in prompts.
    pub source_label: String,
    pub target_label: String,
    pub prompt: String,
    pub repair_prompt: String,
    pub autosave_every: usize,
    /// How much of an offending text is reported.
    pub preview: usize,
}

/// The model of a [`StageConfig`].
#[verifier::ext_equal]
pub struct StageConfigV {
    pub kind: StageKind,
    pub model_name: Seq<char>,
    pub ctx_size: u32,
    pub source_lang: Seq<char>,
    pub target_lang: Seq<char>,
    pub source_label: Seq<char>,
    pub target_label: Seq<char>,
    pub prompt: Seq<char>,
    pub repair_prompt: Seq<char>,
    pub autosave_every: nat,
    pub preview: nat,
}

impl DeepView for StageConfig {
    type V = StageConfigV;

    open spec fn deep_view(&self) -> StageConfigV {
        StageConfigV {
            kind: self.kind,
            model_name: self.model_name@,
            ctx_size: self.ctx_size,
            source_lang: self.source_lang@,
            target_lang: self.target_lang@,
            source_label: self.source_label@,
            target_label: self.target_label@,
            prompt: self.prompt@,
            repair_prompt: self.repair_prompt@,
            autosave_every: self.autosave_every as nat,
            preview: self.preview as nat,
        }
    }
}

/// What the model is told of a unit when it repairs its translation.
#[derive(Clone, Debug)]
pub struct UnitHints {
    /// The markers to be kept.
    pub must_keep: String,
    /// What the markers of frozen text stand for.
    pub nt_map: String,
}

/// The model of [`UnitHints`].
#[verifier::ext_equal]
pub struct HintsV {
    pub must_keep: Seq<char>,
    pub nt_map: Seq<char>,
}

impl DeepView for UnitHints {
    type V = HintsV;

    open spec fn deep_view(&self) -> HintsV {
        HintsV { must_keep: self.must_keep@, nt_map: self.nt_map@ }
    }
}

/// What the model is asked for.
#[derive(Clone, Copy, Debug, PartialEq, Eq, Structural)]
pub enum AskKind {
    /// The translation of a chunk of units.
    Chunk,
    /// The fusion of the drafts of a chunk of units.
    FuseChunk,
    /// A translation that was repaired.
    Repair,
    /// A piece of text between markers.
    Force,
}

/// How far the work on a unit is.
#[derive(Clone, Copy, Debug, PartialEq, Eq, Structural)]
pub enum JobPhase {
    /// The text waits for its markers to be put right.
    Normalize,
    /// The text waits for a repair.
    Repair,
    /// The text does not fit its slots, and waits for a repair.
    Refit,
    /// The pieces between the markers are translated one by one.
    Force,
    Done,
}

/// The work on one unit.
pub struct Job {
    pub phase: JobPhase,
    pub out: String,
    /// What is said of the text when a repair is asked for.
    pub reason: String,
    pub repairs_done: usize,
    pub max_repairs: usize,
    /// The pieces that were translated one by one.
    pub forced: Vec<String>,
}

/// The model of a [`Job`].
#[verifier::ext_equal]
pub struct JobV {
    pub phase: JobPhase,
    pub out: Seq<char>,
    pub reason: Seq<char>,
    pub repairs_done: nat,
    pub max_repairs: nat,
    pub forced: Seq<Seq<char>>,
}

impl DeepView for Job {
    type V = JobV;

    open spec fn deep_view(&self) -> JobV {
        JobV {
            phase: self.phase,
            out: self.out@,
            reason: self.reason@,
            repairs_done: self.repairs_done as nat,
            max_repairs: self.max_repairs as nat,
            forced: self.forced.deep_view(),
        }
    }
}

/// Whether a stage translates texts one by one, with repairs until they are right.
pub open spec fn one_by_one(kind: StageKind) -> bool {
    kind == StageKind::Slots || kind == StageKind::Paragraphs
}

/// The verdict on the translation of a unit.
pub open spec fn unit_verdict(u: UnitV, t: Seq<char>) -> Result<(), InvalidV> {
    validated(u.frozen_surface, u.nt_map, t)
}

/// What is found of the translation of a unit.
pub open spec fn unit_flags(cfg: StageConfigV, u: UnitV, t: Seq<char>) -> FlagsV {
    plain_flags(
        plain_text(u.frozen_surface, u.nt_map),
        plain_text(t, u.nt_map),
        cfg.source_lang,
        cfg.target_lang,
    )
}

/// Whether the translation of a unit is to be repaired.
pub open spec fn needs_repair(cfg: StageConfigV, u: UnitV, t: Seq<char>) -> bool {
    unit_verdict(u, t) is Err || forces(unit_flags(cfg, u, t).hard)
}

/// What is said of a translation that is to be repaired, in a stage that allows one repair.
pub open spec fn complaint(u: UnitV, t: Seq<char>) -> Seq<char> {
    match unit_verdict(u, t) {
        Err(e) => invalid_text(e),
        Ok(_) => "quality_force_retranslate"@,
    }
}

/// What is said of a translation that is to be repaired, in a stage that goes one by one.
pub open spec fn full_complaint(cfg: StageConfigV, u: UnitV, t: Seq<char>) -> Seq<char> {
    match unit_verdict(u, t) {
        Err(e) => invalid_text(e),
        Ok(_) => {
            let f = unit_flags(cfg, u, t);
            joined_with(f.hard + f.soft, " | "@)
        },
    }
}

/// Whether markers are wrong, for which more repairs are allowed.
pub open spec fn marker_fault(v: Result<(), InvalidV>) -> bool {
    match v {
        Err(InvalidV::UnexpectedMtToken(_)) => true,
        Err(InvalidV::SentinelSequence) => true,
        Err(InvalidV::ControlSequence) => true,
        Err(InvalidV::ControlLayout) => true,
        Err(InvalidV::NtTokenCount(_)) => true,
        _ => false,
    }
}

/// The pieces of a text that are translated one by one: the text before each marker, the marker, and
/// so on. The last piece of text is there only if it is not empty.
pub open spec fn force_pieces(s: Seq<char>) -> Seq<Seq<char>> {
    let p = pieces_at(s, tokens(TokenClass::Sentinel, s), 0);
    if p.last().len() == 0 {
        p.drop_last()
    } else {
        p
    }
}

/// Whether the piece at `i` is one to be translated.
pub open spec fn piece_speaks(pieces: Seq<Seq<char>>, i: int) -> bool {
    i % 2 == 0 && !is_blank(pieces[i])
}

/// How many of the first `n` pieces are to be translated.
pub open spec fn speaking(pieces: Seq<Seq<char>>, n: int) -> nat
    decreases n,
{
    if n <= 0 {
        0
    } else {
        speaking(pieces, n - 1) + if piece_speaks(pieces, n - 1) {
            1nat
        } else {
            0
        }
    }
}

/// Where the piece stands that comes after `k` others that are to be translated, from `i` on.
pub open spec fn speaking_at(pieces: Seq<Seq<char>>, k: nat, i: int) -> int
    decreases pieces.len() - i,
{
    if i < 0 || i >= pieces.len() {
        i
    } else if piece_speaks(pieces, i) {
        if k == 0 {
            i
        } else {
            speaking_at(pieces, (k - 1) as nat, i + 1)
        }
    } else {
        speaking_at(pieces, k, i + 1)
    }
}

/// The first `n` pieces, with those that are to be translated replaced in their order.
pub open spec fn reassembled(pieces: Seq<Seq<char>>, forced: Seq<Seq<char>>, n: int) -> Seq<char>
    decreases n,
{
    if n <= 0 {
        Seq::empty()
    } else {
        reassembled(pieces, forced, n - 1) + if piece_speaks(pieces, n - 1) {
            forced[speaking(pieces, n - 1) as int]
        } else {
            pieces[n - 1]
        }
    }
}

/// A text with its pieces replaced.
pub open spec fn forced_text(s: Seq<char>, forced: Seq<Seq<char>>) -> Seq<char> {
    let p = force_pieces(s);
    reassembled(p, forced, p.len() as int)
}

/// The mark at the ends of a piece beside which a marker stands.
pub open spec fn hole() -> Seq<char> {
    "[[MT_HOLE]]"@
}

/// A piece as the model gets it.
pub open spec fn decorated(pieces: Seq<Seq<char>>, i: int) -> Seq<char> {
    (if i > 0 {
        hole()
    } else {
        Seq::empty()
    }) + pieces[i] + (if i + 1 < pieces.len() {
        hole()
    } else {
        Seq::empty()
    })
}

/// What a reply makes of a piece.
pub open spec fn piece_read(raw: Seq<char>) -> Seq<char> {
    let c = cleaned(raw);
    trimmed(replaced(with_replacement(c, tokens(TokenClass::Mt, c), 0, Seq::empty()), hole(), Seq::empty()))
}

/// A job that waits for the pieces of a text one by one, or is done where there are none.
pub open spec fn force_begun(u: UnitV, j: JobV) -> JobV {
    let p = force_pieces(u.frozen_surface);
    if speaking(p, p.len() as int) == 0 {
        forced_settled(u, JobV { forced: Seq::empty(), ..j })
    } else {
        JobV { phase: JobPhase::Force, forced: Seq::empty(), ..j }
    }
}

/// A job whose pieces are all there: their text stands if it can, and else the source.
pub open spec fn forced_settled(u: UnitV, j: JobV) -> JobV {
    let t = forced_text(u.frozen_surface, j.forced);
    JobV {
        phase: JobPhase::Done,
        out: if unit_verdict(u, t) is Ok {
            t
        } else {
            u.frozen_surface
        },
        ..j
    }
}

/// What becomes of a text whose markers were put right, in a stage that goes one by one.
pub open spec fn judged(cfg: StageConfigV, u: UnitV, j: JobV, text: Seq<char>) -> JobV {
    let v = unit_verdict(u, text);
    let now = JobV { out: text, ..j };
    if !needs_repair(cfg, u, text) {
        JobV { phase: JobPhase::Done, ..now }
    } else {
        let max = if marker_fault(v) && j.max_repairs < 6 {
            6
        } else {
            j.max_repairs
        };
        if j.repairs_done < max {
            JobV {
                phase: JobPhase::Repair,
                reason: full_complaint(cfg, u, text),
                repairs_done: j.repairs_done + 1,
                max_repairs: max,
                ..now
            }
        } else if v is Ok {
            JobV { phase: JobPhase::Done, max_repairs: max, ..now }
        } else {
            force_begun(u, JobV { max_repairs: max, ..now })
        }
    }
}

/// What becomes of a text that stands for its source: it is put into its slots, and where it does not
/// fit a repair is asked for.
pub open spec fn projected_job(
    cfg: StageConfigV,
    u: UnitV,
    ids: Seq<usize>,
    texts: Seq<Seq<char>>,
    j: JobV,
) -> (JobV, Seq<Seq<char>>) {
    let (after, ok) = slots_applied(texts, ids, u.nt_map, j.out, cfg.preview);
    match ok {
        Ok(_) => (JobV { phase: JobPhase::Done, ..j }, after),
        Err(_) => (
            JobV { phase: JobPhase::Refit, reason: "slot_projection_failed"@, ..j },
            after,
        ),
    }
}

/// The draft of a unit, or its source.
pub open spec fn draft_or_source(u: UnitV) -> Seq<char> {
    match u.draft_translation {
        Some(t) => t,
        None => u.frozen_surface,
    }
}

/// The work on a unit at its start, with the text of the reply.
pub open spec fn job_begun(
    cfg: StageConfigV,
    u: UnitV,
    ids: Seq<usize>,
    texts: Seq<Seq<char>>,
    text: Seq<char>,
) -> (JobV, Seq<Seq<char>>) {
    let j = JobV {
        phase: JobPhase::Normalize,
        out: text,
        reason: Seq::empty(),
        repairs_done: 0,
        max_repairs: 2,
        forced: Seq::empty(),
    };
    if one_by_one(cfg.kind) {
        (j, texts)
    } else if needs_repair(cfg, u, text) {
        (JobV { phase: JobPhase::Repair, reason: complaint(u, text), ..j }, texts)
    } else if cfg.kind == StageKind::Fuse {
        (JobV { phase: JobPhase::Done, ..j }, texts)
    } else {
        projected_job(cfg, u, ids, texts, j)
    }
}

/// What a reply does to the work on a unit.
pub open spec fn job_fed(
    cfg: StageConfigV,
    u: UnitV,
    ids: Seq<usize>,
    texts: Seq<Seq<char>>,
    j: JobV,
    raw: Seq<char>,
) -> (JobV, Seq<Seq<char>>) {
    let t = cleaned(raw);
    match j.phase {
        JobPhase::Done => (j, texts),
        JobPhase::Normalize => (judged(cfg, u, j, raw), texts),
        JobPhase::Force => {
            let more = JobV { forced: j.forced.push(piece_read(raw)), ..j };
            let p = force_pieces(u.frozen_surface);
            if more.forced.len() < speaking(p, p.len() as int) {
                (more, texts)
            } else {
                (forced_settled(u, more), texts)
            }
        },
        JobPhase::Repair => if one_by_one(cfg.kind) {
            (JobV { phase: JobPhase::Normalize, out: t, ..j }, texts)
        } else if cfg.kind == StageKind::Fuse {
            (
                JobV {
                    phase: JobPhase::Done,
                    out: if unit_verdict(u, t) is Ok {
                        t
                    } else {
                        draft_or_source(u)
                    },
                    ..j
                },
                texts,
            )
        } else {
            projected_job(
                cfg,
                u,
                ids,
                texts,
                JobV {
                    out: if unit_verdict(u, t) is Ok {
                        t
                    } else {
                        u.frozen_surface
                    },
                    ..j
                },
            )
        },
        JobPhase::Refit => {
            let (after, ok) = slots_applied(texts, ids, u.nt_map, t, cfg.preview);
            if unit_verdict(u, t) is Ok && ok is Ok {
                (JobV { phase: JobPhase::Done, out: t, ..j }, after)
            } else {
                let kept = if unit_verdict(u, t) is Ok {
                    after
                } else {
                    texts
                };
                (
                    JobV { phase: JobPhase::Done, out: u.frozen_surface, ..j },
                    slots_applied(kept, ids, u.nt_map, u.frozen_surface, cfg.preview).0,
                )
            }
        },
    }
}

/// The work on a unit for which the model gave no reply: where pieces are translated one by one the
/// source stands, and else the work cannot go on.
pub open spec fn job_failed(u: UnitV, j: JobV) -> Option<JobV> {
    if j.phase == JobPhase::Force {
        Some(JobV { phase: JobPhase::Done, out: u.frozen_surface, ..j })
    } else {
        None
    }
}

/// What the work on a unit waits for.
pub enum UnitAsk {
    /// The text with its markers put right.
    Normalize,
    /// A reply of the model.
    Chat { kind: AskKind, prompt: String, max_tokens: u32 },
    /// Nothing: the text stands.
    Done,
}

/// The model of a [`UnitAsk`].
#[verifier::ext_equal]
pub enum UnitAskV {
    Normalize,
    Chat { kind: AskKind, prompt: Seq<char>, max_tokens: u32 },
    Done,
}

impl DeepView for UnitAsk {
    type V = UnitAskV;

    open spec fn deep_view(&self) -> UnitAskV {
        match self {
            UnitAsk::Normalize => UnitAskV::Normalize,
            UnitAsk::Chat { kind, prompt, max_tokens } => UnitAskV::Chat {
                kind: *kind,
                prompt: prompt@,
                max_tokens: *max_tokens,
            },
            UnitAsk::Done => UnitAskV::Done,
        }
    }
}

/// `n`, but at least `lo` and at most `hi`.
pub open spec fn within(n: int, lo: int, hi: int) -> int {
    if n < lo {
        lo
    } else if n > hi {
        hi
    } else {
        n
    }
}

/// A context of some size without what is left for the reply.
pub open spec fn context_left(ctx: u32, less: u32) -> int {
    if ctx < less {
        0
    } else {
        ctx - less
    }
}

/// Half the bytes of a text, in 32 bits.
pub open spec fn half_bytes(s: Seq<char>) -> int {
    (byte_len(s) as int % 0x1_0000_0000) / 2
}

/// How long a repair may be.
pub open spec fn repair_tokens(source: Seq<char>) -> u32 {
    within(half_bytes(source), 512, 4096) as u32
}

/// How long the translation of a piece may be.
pub open spec fn force_tokens(ctx: u32, piece: Seq<char>) -> u32 {
    within(half_bytes(piece), 256, within(context_left(ctx, 256), 512, 4096)) as u32
}

/// What the model is told to repair a translation.
pub open spec fn repair_asked(cfg: StageConfigV, u: UnitV, h: HintsV, j: JobV) -> Seq<char> {
    rendered(
        cfg.repair_prompt,
        seq![
            ("source_lang"@, cfg.source_label),
            ("target_lang"@, cfg.target_label),
            ("source"@, u.frozen_surface),
            ("bad"@, j.out),
            ("must_keep_tokens"@, h.must_keep),
            ("validation_error"@, j.reason),
            ("nt_map"@, h.nt_map),
        ],
    )
}

/// What the model is told to translate a piece.
pub open spec fn force_asked(cfg: StageConfigV, piece: Seq<char>) -> Seq<char> {
    if has(ascii_lower(cfg.target_label), "chinese"@) {
        "请将下面的"@ + cfg.source_label + "翻译成"@ + cfg.target_label
            + "。\n规则：\n- 逐句完整翻译，不要省略或总结，不要使用“……”或“...”占位。\n- 标记"@ + hole()
            + "表示紧邻位置将插入不可翻译标记，请在输出中原样保留该标记（不要翻译、不要删除、不要添加空格）。\n- 保持所有数字0-9不变。\n仅输出译文：\n"@
            + piece + "\n"@
    } else {
        "Translate the following "@ + cfg.source_label + " into "@ + cfg.target_label
            + ".\nRules:\n- Translate fully; do not omit or summarize; do not use ellipsis placeholders like … or ....\n- The marker "@
            + hole() + " indicates a non-translatable token will be inserted adjacent to it; keep "@
            + hole()
            + " unchanged (do not translate, delete, or add spaces).\n- Preserve all digits 0-9 exactly.\nOutput ONLY the translation:\n"@
            + piece + "\n"@
    }
}

/// What the work on a unit waits for.
pub open spec fn job_ask(cfg: StageConfigV, u: UnitV, h: HintsV, j: JobV) -> UnitAskV {
    match j.phase {
        JobPhase::Done => UnitAskV::Done,
        JobPhase::Normalize => UnitAskV::Normalize,
        JobPhase::Force => {
            let p = force_pieces(u.frozen_surface);
            let piece = decorated(p, speaking_at(p, j.forced.len(), 0));
            UnitAskV::Chat {
                kind: AskKind::Force,
                prompt: force_asked(cfg, piece),
                max_tokens: force_tokens(cfg.ctx_size, piece),
            }
        },
        _ => UnitAskV::Chat {
            kind: AskKind::Repair,
            prompt: repair_asked(cfg, u, h, j),
            max_tokens: repair_tokens(u.frozen_surface),
        },
    }
}

/// Whether the work on a unit is in order: while pieces are translated one by one, one is left.
pub open spec fn job_ok(u: UnitV, j: JobV) -> bool {
    let p = force_pieces(u.frozen_surface);
    &&& j.phase == JobPhase::Force ==> j.forced.len() < speaking(p, p.len() as int)
    &&& j.repairs_done <= 6
    &&& j.max_repairs <= 6
}

pub fn clamp_u32(n: u32, lo: u32, hi: u32) -> (r: u32)
    requires
        lo <= hi,
    ensures
        r == within(n as int, lo as int, hi as int),
{
    if n < lo {
        lo
    } else if n > hi {
        hi
    } else {
        n
    }
}

pub fn less_u32(n: u32, less: u32) -> (r: u32)
    ensures
        r == context_left(n, less),
{
    if n < less {
        0
    } else {
        n - less
    }
}

fn half_bytes_of(s: &str) -> (r: u32)
    ensures
        r == half_bytes(s@),
{
    let n: u64 = byte_length(s) as u64;
    let low: u64 = n % 0x1_0000_0000;
    (low / 2) as u32
}

fn pieces_to_force(s: &str) -> (r: Vec<String>)
    ensures
        r.deep_view() == force_pieces(s@),
{
    let mut p: Vec<String> = split_tokens(TokenClass::Sentinel, s);
    let ghost all = p.deep_view();
    let n: usize = p.len();
    proof {
        lemma_pieces_some(s@, tokens(TokenClass::Sentinel, s@), 0);
        assert(all.last() == p@[n - 1]@);
    }
    if crate::chars::is_empty(p[n - 1].as_str()) {
        let _ = crate::vecs::pop_deep(&mut p);
    }
    p
}

proof fn lemma_pieces_some(s: Seq<char>, t: Seq<(int, int)>, pos: int)
    ensures
        pieces_at(s, t, pos).len() > 0,
    decreases t.len(),
{
    if t.len() > 0 {
        lemma_pieces_some(s, t.drop_first(), t[0].1);
    }
}

fn speaks(pieces: &Vec<String>, i: usize) -> (r: bool)
    requires
        i < pieces@.len(),
    ensures
        r == piece_speaks(pieces.deep_view(), i as int),
{
    assert(pieces.deep_view()[i as int] == pieces@[i as int]@);
    i % 2 == 0 && !blank(pieces[i].as_str())
}

fn count_speaking(pieces: &Vec<String>) -> (r: usize)
    ensures
        r == speaking(pieces.deep_view(), pieces@.len() as int),
{
    let mut count: usize = 0;
    let mut i: usize = 0;
    while i < pieces.len()
        invariant
            i <= pieces@.len(),
            count <= i,
            count == speaking(pieces.deep_view(), i as int),
        decreases pieces@.len() - i,
    {
        if speaks(pieces, i) {
            count = count + 1;
        }
        i = i + 1;
    }
    count
}

fn nth_speaking(pieces: &Vec<String>, k: usize) -> (r: usize)
    requires
        k < speaking(pieces.deep_view(), pieces@.len() as int),
    ensures
        r == speaking_at(pieces.deep_view(), k as nat, 0),
        r < pieces@.len(),
{
    let ghost p = pieces.deep_view();
    let n: usize = pieces.len();
    let mut left: usize = k;
    let mut i: usize = 0;
    while i < n
        invariant
            i <= n == pieces@.len(),
            p == pieces.deep_view(),
            speaking_at(p, left as nat, i as int) == speaking_at(p, k as nat, 0),
            left + speaking(p, i as int) < speaking(p, n as int),
        decreases n - i,
    {
        if speaks(pieces, i) {
            if left == 0 {
                return i;
            }
            left = left - 1;
        }
        i = i + 1;
    }
    i
}

fn reassemble(pieces: &Vec<String>, forced: &Vec<String>) -> (r: String)
    requires
        forced@.len() >= speaking(pieces.deep_view(), pieces@.len() as int),
    ensures
        r@ == reassembled(pieces.deep_view(), forced.deep_view(), pieces@.len() as int),
{
    let ghost p = pieces.deep_view();
    let ghost f = forced.deep_view();
    let n: usize = pieces.len();
    let m: usize = forced.len();
    let mut out: String = String::new();
    let mut k: usize = 0;
    let mut i: usize = 0;
    while i < n
        invariant
            i <= n == pieces@.len(),
            p == pieces.deep_view(),
            f == forced.deep_view(),
            k == speaking(p, i as int),
            m == forced@.len() >= speaking(p, n as int),
            out@ == reassembled(p, f, i as int),
        decreases n - i,
    {
        proof {
            lemma_speaking_grows(p, i + 1, n as int);
            assert(p[i as int] == pieces@[i as int]@);
        }
        if speaks(pieces, i) {
            assert(f[k as int] == forced@[k as int]@);
            append(&mut out, forced[k].as_str());
            k = k + 1;
        } else {
            append(&mut out, pieces[i].as_str());
        }
        i = i + 1;
    }
    out
}

proof fn lemma_speaking_grows(p: Seq<Seq<char>>, a: int, b: int)
    requires
        0 <= a <= b,
    ensures
        speaking(p, a) <= speaking(p, b),
    decreases b - a,
{
    if a < b {
        lemma_speaking_grows(p, a, b - 1);
    }
}

fn decorate(pieces: &Vec<String>, i: usize) -> (r: String)
    requires
        i < pieces@.len(),
    ensures
        r@ == decorated(pieces.deep_view(), i as int),
{
    let n: usize = pieces.len();
    let mut s: String = String::new();
    if i > 0 {
        append(&mut s, "[[MT_HOLE]]");
    }
    append(&mut s, pieces[i].as_str());
    if i + 1 < n {
        append(&mut s, "[[MT_HOLE]]");
    }
    assert(s@ =~= decorated(pieces.deep_view(), i as int));
    s
}

fn read_piece(raw: &str) -> (r: String)
    ensures
        r@ == piece_read(raw@),
{
    let c: String = cleanup_model_text(raw);
    let bare: String = replace_tokens(TokenClass::Mt, c.as_str(), "");
    proof {
        reveal_strlit("");
        reveal_strlit("[[MT_HOLE]]");
        assert(""@ =~= Seq::<char>::empty());
    }
    let whole: String = replace(bare.as_str(), "[[MT_HOLE]]", "");
    trim(whole.as_str())
}

fn force_prompt(cfg: &StageConfig, piece: &str) -> (r: String)
    ensures
        r@ == force_asked(cfg.deep_view(), piece@),
{
    let label: String = lower_ascii(cfg.target_label.as_str());
    if contains(label.as_str(), "chinese") {
        let mut s: String = owned("请将下面的");
        append(&mut s, cfg.source_label.as_str());
        append(&mut s, "翻译成");
        append(&mut s, cfg.target_label.as_str());
        append(
            &mut s,
            "。\n规则：\n- 逐句完整翻译，不要省略或总结，不要使用“……”或“...”占位。\n- 标记",
        );
        append(&mut s, "[[MT_HOLE]]");
        append(
            &mut s,
            "表示紧邻位置将插入不可翻译标记，请在输出中原样保留该标记（不要翻译、不要删除、不要添加空格）。\n- 保持所有数字0-9不变。\n仅输出译文：\n",
        );
        append(&mut s, piece);
        append(&mut s, "\n");
        s
    } else {
        let mut s: String = owned("Translate the following ");
        append(&mut s, cfg.source_label.as_str());
        append(&mut s, " into ");
        append(&mut s, cfg.target_label.as_str());
        append(
            &mut s,
            ".\nRules:\n- Translate fully; do not omit or summarize; do not use ellipsis placeholders like … or ....\n- The marker ",
        );
        append(&mut s, "[[MT_HOLE]]");
        append(
            &mut s,
            " indicates a non-translatable token will be inserted adjacent to it; keep ",
        );
        append(&mut s, "[[MT_HOLE]]");
        append(
            &mut s,
            " unchanged (do not translate, delete, or add spaces).\n- Preserve all digits 0-9 exactly.\nOutput ONLY the translation:\n",
        );
        append(&mut s, piece);
        append(&mut s, "\n");
        s
    }
}

fn repair_prompt(cfg: &StageConfig, u: &TranslationUnit, h: &UnitHints, j: &Job) -> (r: String)
    ensures
        r@ == repair_asked(cfg.deep_view(), u.deep_view(), h.deep_view(), j.deep_view()),
{
    let mut vars: Vec<(&str, &str)> = Vec::new();
    vars.push(("source_lang", cfg.source_label.as_str()));
    vars.push(("target_lang", cfg.target_label.as_str()));
    vars.push(("source", u.frozen_surface.as_str()));
    vars.push(("bad", j.out.as_str()));
    vars.push(("must_keep_tokens", h.must_keep.as_str()));
    vars.push(("validation_error", j.reason.as_str()));
    vars.push(("nt_map", h.nt_map.as_str()));
    assert(vars_view(vars@) =~= seq![
        ("source_lang"@, cfg.deep_view().source_label),
        ("target_lang"@, cfg.deep_view().target_label),
        ("source"@, u.deep_view().frozen_surface),
        ("bad"@, j.deep_view().out),
        ("must_keep_tokens"@, h.deep_view().must_keep),
        ("validation_error"@, j.deep_view().reason),
        ("nt_map"@, h.deep_view().nt_map),
    ]);
    render_template(cfg.repair_prompt.as_str(), &vars)
}

fn is_marker_fault(v: &Result<(), ValidationError>) -> (r: bool)
    ensures
        r == marker_fault(verdict(*v)),
{
    match v {
        Err(ValidationError::UnexpectedMtToken(_)) => true,
        Err(ValidationError::SentinelSequence) => true,
        Err(ValidationError::ControlSequence) => true,
        Err(ValidationError::ControlLayout) => true,
        Err(ValidationError::NtTokenCount(_)) => true,
        _ => false,
    }
}

fn goes_one_by_one(kind: StageKind) -> (r: bool)
    ensures
        r == one_by_one(kind),
{
    kind == StageKind::Slots || kind == StageKind::Paragraphs
}

impl Job {
    /// What the work waits for.
    pub fn ask(&self, cfg: &StageConfig, u: &TranslationUnit, h: &UnitHints) -> (r: UnitAsk)
        requires
            job_ok(u.deep_view(), self.deep_view()),
        ensures
            r.deep_view() == job_ask(cfg.deep_view(), u.deep_view(), h.deep_view(), self.deep_view()),
    {
        match self.phase {
            JobPhase::Done => UnitAsk::Done,
            JobPhase::Normalize => UnitAsk::Normalize,
            JobPhase::Force => {
                let p: Vec<String> = pieces_to_force(u.frozen_surface.as_str());
                let i: usize = nth_speaking(&p, self.forced.len());
                let piece: String = decorate(&p, i);
                let room: u32 = clamp_u32(less_u32(cfg.ctx_size, 256), 512, 4096);
                UnitAsk::Chat {
                    kind: AskKind::Force,
                    prompt: force_prompt(cfg, piece.as_str()),
                    max_tokens: clamp_u32(half_bytes_of(piece.as_str()), 256, room),
                }
            },
            _ => UnitAsk::Chat {
                kind: AskKind::Repair,
                prompt: repair_prompt(cfg, u, h, self),
                max_tokens: clamp_u32(half_bytes_of(u.frozen_surface.as_str()), 512, 4096),
            },
        }
    }

    fn settle_forced(&mut self, u: &TranslationUnit)
        requires
            ({
                let p = force_pieces(u.deep_view().frozen_surface);
                old(self).forced@.len() >= speaking(p, p.len() as int)
            }),
        ensures
            final(self).deep_view() == forced_settled(u.deep_view(), old(self).deep_view()),
    {
        let p: Vec<String> = pieces_to_force(u.frozen_surface.as_str());
        let t: String = reassemble(&p, &self.forced);
        self.phase = JobPhase::Done;
        self.out = if validate_translation(u, t.as_str()).is_ok() {
            t
        } else {
            u.frozen_surface.clone()
        };
    }

    fn begin_force(&mut self, u: &TranslationUnit)
        ensures
            final(self).deep_view() == force_begun(u.deep_view(), old(self).deep_view()),
    {
        let p: Vec<String> = pieces_to_force(u.frozen_surface.as_str());
        self.forced = Vec::new();
        assert(self.forced.deep_view() =~= Seq::<Seq<char>>::empty());
        if count_speaking(&p) == 0 {
            self.settle_forced(u);
        } else {
            self.phase = JobPhase::Force;
        }
    }

    fn judge(&mut self, cfg: &StageConfig, u: &TranslationUnit, text: &str)
        requires
            job_ok(u.deep_view(), old(self).deep_view()),
        ensures
            final(self).deep_view() == judged(
                cfg.deep_view(),
                u.deep_view(),
                old(self).deep_view(),
                text@,
            ),
            job_ok(u.deep_view(), final(self).deep_view()),
    {
        let v: Result<(), ValidationError> = validate_translation(u, text);
        let heur: QualityHeuristics = quality_heuristics(
            u,
            text,
            cfg.source_lang.as_str(),
            cfg.target_lang.as_str(),
        );
        self.out = owned(text);
        if v.is_ok() && !heur.wants_force_retranslate() {
            self.phase = JobPhase::Done;
            return;
        }
        if is_marker_fault(&v) && self.max_repairs < 6 {
            self.max_repairs = 6;
        }
        if self.repairs_done < self.max_repairs {
            self.reason = match &v {
                Err(e) => e.message(),
                Ok(_) => {
                    let mut flags: Vec<String> = clone_strings(&heur.hard_flags);
                    append_deep(&mut flags, clone_strings(&heur.soft_flags));
                    join(&flags, " | ")
                },
            };
            self.phase = JobPhase::Repair;
            self.repairs_done = self.repairs_done + 1;
        } else if v.is_ok() {
            self.phase = JobPhase::Done;
        } else {
            self.begin_force(u);
        }
    }

    fn project(
        &mut self,
        cfg: &StageConfig,
        u: &TranslationUnit,
        slot_ids: &Vec<usize>,
        texts: &mut Vec<String>,
    )
        ensures
            (final(self).deep_view(), final(texts).deep_view()) == projected_job(
                cfg.deep_view(),
                u.deep_view(),
                slot_ids@,
                old(texts).deep_view(),
                old(self).deep_view(),
            ),
            final(texts)@.len() == old(texts)@.len(),
    {
        match apply_slot_translation(texts, slot_ids, &u.nt_map, self.out.as_str(), cfg.preview) {
            Ok(_) => {
                self.phase = JobPhase::Done;
            },
            Err(_) => {
                self.phase = JobPhase::Refit;
                self.reason = owned("slot_projection_failed");
            },
        }
    }

    /// Begins the work on a unit with the text of a reply.
    pub fn begin(
        cfg: &StageConfig,
        u: &TranslationUnit,
        slot_ids: &Vec<usize>,
        texts: &mut Vec<String>,
        text: String,
    ) -> (r: Job)
        ensures
            (r.deep_view(), final(texts).deep_view()) == job_begun(
                cfg.deep_view(),
                u.deep_view(),
                slot_ids@,
                old(texts).deep_view(),
                text@,
            ),
            job_ok(u.deep_view(), r.deep_view()),
            final(texts)@.len() == old(texts)@.len(),
    {
        let mut j = Job {
            phase: JobPhase::Normalize,
            out: text,
            reason: String::new(),
            repairs_done: 0,
            max_repairs: 2,
            forced: Vec::new(),
        };
        assert(j.forced.deep_view() =~= Seq::<Seq<char>>::empty());
        if goes_one_by_one(cfg.kind) {
            return j;
        }
        let v: Result<(), ValidationError> = validate_translation(u, j.out.as_str());
        let heur: QualityHeuristics = quality_heuristics(
            u,
            j.out.as_str(),
            cfg.source_lang.as_str(),
            cfg.target_lang.as_str(),
        );
        if v.is_err() || heur.wants_force_retranslate() {
            j.reason = match &v {
                Err(e) => e.message(),
                Ok(_) => owned("quality_force_retranslate"),
            };
            j.phase = JobPhase::Repair;
        } else if cfg.kind == StageKind::Fuse {
            j.phase = JobPhase::Done;
        } else {
            j.project(cfg, u, slot_ids, texts);
        }
        j
    }

    /// Goes on with the work on a unit with what it waited for.
    pub fn feed(
        &mut self,
        cfg: &StageConfig,
        u: &TranslationUnit,
        slot_ids: &Vec<usize>,
        texts: &mut Vec<String>,
        raw: &str,
    )
        requires
            job_ok(u.deep_view(), old(self).deep_view()),
        ensures
            (final(self).deep_view(), final(texts).deep_view()) == job_fed(
                cfg.deep_view(),
                u.deep_view(),
                slot_ids@,
                old(texts).deep_view(),
                old(self).deep_view(),
                raw@,
            ),
            job_ok(u.deep_view(), final(self).deep_view()),
            final(texts)@.len() == old(texts)@.len(),
    {
        match self.phase {
            JobPhase::Done => {},
            JobPhase::Normalize => self.judge(cfg, u, raw),
            JobPhase::Force => {
                let p: Vec<String> = pieces_to_force(u.frozen_surface.as_str());
                push_deep(&mut self.forced, read_piece(raw));
                if self.forced.len() >= count_speaking(&p) {
                    self.settle_forced(u);
                }
            },
            JobPhase::Repair => {
                let t: String = cleanup_model_text(raw);
                if goes_one_by_one(cfg.kind) {
                    self.out = t;
                    self.phase = JobPhase::Normalize;
                } else if cfg.kind == StageKind::Fuse {
                    self.out = if validate_translation(u, t.as_str()).is_ok() {
                        t
                    } else {
                        match &u.draft_translation {
                            Some(d) => d.clone(),
                            None => u.frozen_surface.clone(),
                        }
                    };
                    self.phase = JobPhase::Done;
                } else {
                    self.out = if validate_translation(u, t.as_str()).is_ok() {
                        t
                    } else {
                        u.frozen_surface.clone()
                    };
                    self.project(cfg, u, slot_ids, texts);
                }
            },
            JobPhase::Refit => {
                let t: String = cleanup_model_text(raw);
                let fits: bool = validate_translation(u, t.as_str()).is_ok()
                    && apply_slot_translation(texts, slot_ids, &u.nt_map, t.as_str(), cfg.preview).is_ok();
                self.phase = JobPhase::Done;
                if fits {
                    self.out = t;
                } else {
                    self.out = u.frozen_surface.clone();
                    let _ = apply_slot_translation(
                        texts,
                        slot_ids,
                        &u.nt_map,
                        u.frozen_surface.as_str(),
                        cfg.preview,
                    );
                }
            },
        }
    }

    /// Goes on with the work on a unit for which the model gave no reply, if that can be.
    pub fn fail(&mut self, u: &TranslationUnit) -> (r: bool)
        ensures
            match job_failed(u.deep_view(), old(self).deep_view()) {
                Some(j) => r && final(self).deep_view() == j,
                None => !r && *final(self) == *old(self),
            },
    {
        match self.phase {
            JobPhase::Force => {
                self.phase = JobPhase::Done;
                self.out = u.frozen_surface.clone();
                true
            },
            _ => false,
        }
    }
}

/// Whether a text may stand for a unit: it passed the checks, or is the source, or in the fusion of
/// drafts the first draft.
pub open spec fn may_stand(kind: StageKind, u: UnitV, t: Seq<char>) -> bool {
    unit_verdict(u, t) is Ok || t == u.frozen_surface || (kind == StageKind::Fuse && t
        == draft_or_source(u))
}

/// Whatever the model replies, the text that stands at the end passed the checks, or is the source,
/// or in the fusion of drafts the first draft.
pub proof fn law_settled_text(
    cfg: StageConfigV,
    u: UnitV,
    ids: Seq<usize>,
    texts: Seq<Seq<char>>,
    j: JobV,
    raw: Seq<char>,
)
    requires
        j.phase != JobPhase::Done,
        j.phase == JobPhase::Refit ==> cfg.kind == StageKind::DraftA || cfg.kind == StageKind::DraftB,
    ensures
        job_begun(cfg, u, ids, texts, raw).0.phase == JobPhase::Done ==> may_stand(
            cfg.kind,
            u,
            job_begun(cfg, u, ids, texts, raw).0.out,
        ),
        job_fed(cfg, u, ids, texts, j, raw).0.phase == JobPhase::Done ==> may_stand(
            cfg.kind,
            u,
            job_fed(cfg, u, ids, texts, j, raw).0.out,
        ),
{
}

/// How many replies the work on a unit still needs at most.
pub open spec fn replies_left(kind: StageKind, u: UnitV, j: JobV) -> int {
    let p = force_pieces(u.frozen_surface);
    let n = speaking(p, p.len() as int);
    match j.phase {
        JobPhase::Done => 0,
        JobPhase::Force => n - j.forced.len(),
        JobPhase::Refit => 1,
        JobPhase::Normalize => n + 2 * (6 - j.repairs_done) + 1,
        JobPhase::Repair => if one_by_one(kind) {
            n + 2 * (6 - j.repairs_done) + 2
        } else {
            2
        },
    }
}

/// The work on a unit comes to an end: every reply leaves fewer that are needed.
pub proof fn law_replies_end(
    cfg: StageConfigV,
    u: UnitV,
    ids: Seq<usize>,
    texts: Seq<Seq<char>>,
    j: JobV,
    raw: Seq<char>,
)
    requires
        j.phase != JobPhase::Done,
        job_ok(u, j),
        j.phase == JobPhase::Normalize ==> one_by_one(cfg.kind),
    ensures
        0 <= replies_left(cfg.kind, u, job_fed(cfg, u, ids, texts, j, raw).0) < replies_left(
            cfg.kind,
            u,
            j,
        ),
{
}

} // verus!
