//! Rewriting paragraphs that do not read well with those around them.

use crate::chars::{append, dec, dec_usize, has, is_blank, owned, trim, trimmed};
use crate::ir::{TranslationUnit, UnitV};
use crate::pipeline::job::{
    draft_or_source, repair_asked, repair_tokens, unit_verdict, HintsV, Job, JobPhase, JobV,
    StageConfig, StageConfigV, UnitAsk, UnitHints,
};
use crate::pipeline::slots::{apply_slot_translation, slots_applied};
use crate::pipeline::stage::{alt_or_draft, is_paragraph_unit, paragraph_unit};
use crate::pipeline::text::{cleaned, cleanup_model_text, render_template, rendered, vars_view};
use crate::pipeline::units::{final_or_draft, final_text};
use crate::quality::{invalid_text, validate_translation, ValidationError};
use vstd::prelude::*;

verus! {

/// A paragraph that is to be rewritten.
#[derive(Clone, Debug)]
pub struct StitchIssue {
    pub tu_id: usize,
    pub problem: String,
    pub rewrite_instructions: String,
}

/// A paragraph beside the one that is rewritten, in the text of a prompt.
pub open spec fn context_entry(u: UnitV, note: Seq<char>) -> Seq<char> {
    if !paragraph_unit(u) {
        Seq::empty()
    } else {
        "TU#"@ + dec(u.tu_id) + " SOURCE:\n"@ + u.frozen_surface + "\n"@ + (if is_blank(note) {
            Seq::empty()
        } else {
            "TU#"@ + dec(u.tu_id) + " NOTE:\n"@ + trimmed(note) + "\n"@
        }) + "TU#"@ + dec(u.tu_id) + " A:\n"@ + draft_or_source(u) + "\nTU#"@ + dec(u.tu_id)
            + " B:\n"@ + alt_or_draft(u) + "\n\n"@
    }
}

/// The paragraph before the one at `i`.
pub open spec fn context_before(units: Seq<UnitV>, notes: Seq<Seq<char>>, i: int) -> Seq<char> {
    if i > 0 {
        context_entry(units[i - 1], notes[i - 1])
    } else {
        Seq::empty()
    }
}

/// The paragraph after the one at `i`.
pub open spec fn context_after(units: Seq<UnitV>, notes: Seq<Seq<char>>, i: int) -> Seq<char> {
    if i + 1 < units.len() {
        context_entry(units[i + 1], notes[i + 1])
    } else {
        Seq::empty()
    }
}

fn render_ctx_item(u: &TranslationUnit, note: &str) -> (r: String)
    ensures
        r@ == context_entry(u.deep_view(), note@),
{
    let mut s: String = String::new();
    if !is_paragraph_unit(u) {
        assert(s@ =~= Seq::<char>::empty());
        return s;
    }
    let n: String = dec_usize(u.tu_id);
    let a: &str = match &u.draft_translation {
        Some(t) => t.as_str(),
        None => u.frozen_surface.as_str(),
    };
    let b: &str = match &u.alt_translation {
        Some(t) => t.as_str(),
        None => a,
    };
    append(&mut s, "TU#");
    append(&mut s, n.as_str());
    append(&mut s, " SOURCE:\n");
    append(&mut s, u.frozen_surface.as_str());
    append(&mut s, "\n");
    if !crate::chars::blank(note) {
        let said: String = trim(note);
        append(&mut s, "TU#");
        append(&mut s, n.as_str());
        append(&mut s, " NOTE:\n");
        append(&mut s, said.as_str());
        append(&mut s, "\n");
    }
    append(&mut s, "TU#");
    append(&mut s, n.as_str());
    append(&mut s, " A:\n");
    append(&mut s, a);
    append(&mut s, "\nTU#");
    append(&mut s, n.as_str());
    append(&mut s, " B:\n");
    append(&mut s, b);
    append(&mut s, "\n\n");
    assert(s@ =~= context_entry(u.deep_view(), note@));
    s
}

/// What the model is told to rewrite the paragraph at `i`.
pub open spec fn patch_asked(
    template: Seq<char>,
    cfg: StageConfigV,
    units: Seq<UnitV>,
    notes: Seq<Seq<char>>,
    i: int,
    instructions: Seq<char>,
) -> Seq<char> {
    rendered(
        template,
        seq![
            ("source_lang"@, cfg.source_lang),
            ("target_lang"@, cfg.target_lang),
            ("instructions"@, instructions),
            ("before"@, context_before(units, notes, i)),
            ("source"@, units[i].frozen_surface),
            ("current"@, final_or_draft(units[i])),
            ("after"@, context_after(units, notes, i)),
        ],
    )
}

/// What the model is told to rewrite a paragraph.
pub fn patch_prompt(
    template: &str,
    cfg: &StageConfig,
    units: &Vec<TranslationUnit>,
    notes: &Vec<String>,
    i: usize,
    issue: &StitchIssue,
) -> (r: String)
    requires
        i < units@.len(),
        notes@.len() == units@.len(),
    ensures
        r@ == patch_asked(
            template@,
            cfg.deep_view(),
            units.deep_view(),
            notes.deep_view(),
            i as int,
            issue.rewrite_instructions@,
        ),
{
    let ghost us = units.deep_view();
    let ghost ns = notes.deep_view();
    let n: usize = units.len();
    let mut before: String = String::new();
    let mut after: String = String::new();
    assert(before@ =~= Seq::<char>::empty());
    assert(us[i as int] == units@[i as int].deep_view());
    if i > 0 {
        assert(us[i - 1] == units@[i - 1].deep_view());
        assert(ns[i - 1] == notes@[i - 1]@);
        before = render_ctx_item(&units[i - 1], notes[i - 1].as_str());
    }
    if i + 1 < n {
        assert(us[i + 1] == units@[i + 1].deep_view());
        assert(ns[i + 1] == notes@[i + 1]@);
        after = render_ctx_item(&units[i + 1], notes[i + 1].as_str());
    }
    let mut vars: Vec<(&str, &str)> = Vec::new();
    vars.push(("source_lang", cfg.source_lang.as_str()));
    vars.push(("target_lang", cfg.target_lang.as_str()));
    vars.push(("instructions", issue.rewrite_instructions.as_str()));
    vars.push(("before", before.as_str()));
    vars.push(("source", units[i].frozen_surface.as_str()));
    vars.push(("current", final_text(&units[i])));
    vars.push(("after", after.as_str()));
    assert(vars_view(vars@) =~= seq![
        ("source_lang"@, cfg.deep_view().source_lang),
        ("target_lang"@, cfg.deep_view().target_lang),
        ("instructions"@, issue.rewrite_instructions@),
        ("before"@, context_before(us, ns, i as int)),
        ("source"@, us[i as int].frozen_surface),
        ("current"@, final_or_draft(us[i as int])),
        ("after"@, context_after(us, ns, i as int)),
    ]);
    render_template(template, &vars)
}

/// The place of the last unit with a number.
pub open spec fn issue_place(units: Seq<TranslationUnit>, id: usize) -> Option<int>
    decreases units.len(),
{
    if units.len() == 0 {
        None
    } else if units.last().tu_id == id {
        Some(units.len() - 1)
    } else {
        issue_place(units.drop_last(), id)
    }
}

/// The place of the unit that is to be rewritten, if there is one.
pub fn find_issue(units: &Vec<TranslationUnit>, issue: &StitchIssue) -> (r: Option<usize>)
    ensures
        match r {
            Some(i) => issue_place(units@, issue.tu_id) == Some(i as int) && i < units@.len(),
            None => issue_place(units@, issue.tu_id) is None,
        },
{
    let mut i: usize = units.len();
    assert(units@.take(i as int) =~= units@);
    while i > 0
        invariant
            i <= units@.len(),
            issue_place(units@.take(i as int), issue.tu_id) == issue_place(units@, issue.tu_id),
        decreases i,
    {
        assert(units@.take(i as int).last() == units@[i - 1]);
        assert(units@.take(i as int).drop_last() =~= units@.take(i - 1));
        if units[i - 1].tu_id == issue.tu_id {
            return Some(i - 1);
        }
        i = i - 1;
    }
    None
}

/// The rewriting of a paragraph.
pub struct Patch {
    /// What it waits for: `Normalize` stands for the first reply.
    pub phase: JobPhase,
    pub out: String,
    pub reason: String,
    /// Whether the text stands in the document.
    pub applied: bool,
}

/// The model of a [`Patch`].
#[verifier::ext_equal]
pub struct PatchV {
    pub phase: JobPhase,
    pub out: Seq<char>,
    pub reason: Seq<char>,
    pub applied: bool,
}

impl DeepView for Patch {
    type V = PatchV;

    open spec fn deep_view(&self) -> PatchV {
        PatchV {
            phase: self.phase,
            out: self.out@,
            reason: self.reason@,
            applied: self.applied,
        }
    }
}

/// What becomes of a text that was rewritten: it is dropped where it cannot stand or there are no
/// slots, and else put into the slots, if need be after one repair more.
pub open spec fn patch_checked(
    cfg: StageConfigV,
    u: UnitV,
    ids: Seq<usize>,
    texts: Seq<Seq<char>>,
    p: PatchV,
    last: bool,
) -> (PatchV, Seq<Seq<char>>) {
    if unit_verdict(u, p.out) is Err || ids.len() == 0 {
        (PatchV { phase: JobPhase::Done, ..p }, texts)
    } else {
        let (after, ok) = slots_applied(texts, ids, u.nt_map, p.out, cfg.preview);
        match ok {
            Ok(_) => (PatchV { phase: JobPhase::Done, applied: true, ..p }, after),
            Err(_) => if last {
                (PatchV { phase: JobPhase::Done, ..p }, after)
            } else {
                (
                    PatchV { phase: JobPhase::Refit, reason: "slot_projection_failed"@, ..p },
                    after,
                )
            },
        }
    }
}

/// What a reply does to the rewriting of a paragraph.
pub open spec fn patch_fed(
    cfg: StageConfigV,
    u: UnitV,
    ids: Seq<usize>,
    texts: Seq<Seq<char>>,
    p: PatchV,
    raw: Seq<char>,
) -> (PatchV, Seq<Seq<char>>) {
    let now = PatchV { out: cleaned(raw), ..p };
    match p.phase {
        JobPhase::Normalize => match unit_verdict(u, now.out) {
            Err(e) => (PatchV { phase: JobPhase::Repair, reason: invalid_text(e), ..now }, texts),
            Ok(_) => patch_checked(cfg, u, ids, texts, now, false),
        },
        JobPhase::Repair => patch_checked(cfg, u, ids, texts, now, false),
        JobPhase::Refit => patch_checked(cfg, u, ids, texts, now, true),
        _ => (p, texts),
    }
}

/// A patch as the work on a unit.
pub open spec fn patch_job(p: PatchV) -> JobV {
    JobV {
        phase: p.phase,
        out: p.out,
        reason: p.reason,
        repairs_done: 0,
        max_repairs: 0,
        forced: Seq::empty(),
    }
}

/// What the model is told to repair a text that was rewritten, if that is to be done.
pub open spec fn patch_repair(cfg: StageConfigV, u: UnitV, h: HintsV, p: PatchV) -> Option<(
    Seq<char>,
    u32,
)> {
    if p.phase == JobPhase::Repair || p.phase == JobPhase::Refit {
        Some((repair_asked(cfg, u, h, patch_job(p)), repair_tokens(u.frozen_surface)))
    } else {
        None
    }
}

impl Patch {
    /// The rewriting of a paragraph at its start.
    pub fn begin() -> (r: Patch)
        ensures
            r.deep_view() == (PatchV {
                phase: JobPhase::Normalize,
                out: Seq::empty(),
                reason: Seq::empty(),
                applied: false,
            }),
    {
        let r = Patch {
            phase: JobPhase::Normalize,
            out: String::new(),
            reason: String::new(),
            applied: false,
        };
        assert(r.out@ =~= Seq::<char>::empty());
        assert(r.reason@ =~= Seq::<char>::empty());
        r
    }

    /// What the model is told to repair the text, if that is to be done.
    pub fn ask(&self, cfg: &StageConfig, u: &TranslationUnit, h: &UnitHints) -> (r: Option<(
        String,
        u32,
    )>)
        ensures
            match r {
                Some((prompt, n)) => patch_repair(
                    cfg.deep_view(),
                    u.deep_view(),
                    h.deep_view(),
                    self.deep_view(),
                ) == Some((prompt@, n)),
                None => patch_repair(
                    cfg.deep_view(),
                    u.deep_view(),
                    h.deep_view(),
                    self.deep_view(),
                ) is None,
            },
    {
        match self.phase {
            JobPhase::Repair | JobPhase::Refit => {
                let j = Job {
                    phase: self.phase,
                    out: self.out.clone(),
                    reason: self.reason.clone(),
                    repairs_done: 0,
                    max_repairs: 0,
                    forced: Vec::new(),
                };
                assert(j.deep_view() =~= patch_job(self.deep_view()));
                match j.ask(cfg, u, h) {
                    UnitAsk::Chat { prompt, max_tokens, .. } => Some((prompt, max_tokens)),
                    _ => None,
                }
            },
            _ => None,
        }
    }

    fn check(
        &mut self,
        cfg: &StageConfig,
        u: &TranslationUnit,
        slot_ids: &Vec<usize>,
        texts: &mut Vec<String>,
        last: bool,
    )
        ensures
            (final(self).deep_view(), final(texts).deep_view()) == patch_checked(
                cfg.deep_view(),
                u.deep_view(),
                slot_ids@,
                old(texts).deep_view(),
                old(self).deep_view(),
                last,
            ),
            final(texts)@.len() == old(texts)@.len(),
    {
        if validate_translation(u, self.out.as_str()).is_err() || slot_ids.len() == 0 {
            self.phase = JobPhase::Done;
            return;
        }
        match apply_slot_translation(texts, slot_ids, &u.nt_map, self.out.as_str(), cfg.preview) {
            Ok(_) => {
                self.phase = JobPhase::Done;
                self.applied = true;
            },
            Err(_) => {
                if last {
                    self.phase = JobPhase::Done;
                } else {
                    self.phase = JobPhase::Refit;
                    self.reason = owned("slot_projection_failed");
                }
            },
        }
    }

    /// Goes on with a reply of the model.
    pub fn feed(
        &mut self,
        cfg: &StageConfig,
        u: &TranslationUnit,
        slot_ids: &Vec<usize>,
        texts: &mut Vec<String>,
        raw: &str,
    )
        ensures
            (final(self).deep_view(), final(texts).deep_view()) == patch_fed(
                cfg.deep_view(),
                u.deep_view(),
                slot_ids@,
                old(texts).deep_view(),
                old(self).deep_view(),
                raw@,
            ),
            final(texts)@.len() == old(texts)@.len(),
    {
        match self.phase {
            JobPhase::Normalize => {
                self.out = cleanup_model_text(raw);
                let v: Result<(), ValidationError> = validate_translation(u, self.out.as_str());
                match &v {
                    Err(e) => {
                        self.reason = e.message();
                        self.phase = JobPhase::Repair;
                    },
                    Ok(_) => self.check(cfg, u, slot_ids, texts, false),
                }
            },
            JobPhase::Repair => {
                self.out = cleanup_model_text(raw);
                self.check(cfg, u, slot_ids, texts, false);
            },
            JobPhase::Refit => {
                self.out = cleanup_model_text(raw);
                self.check(cfg, u, slot_ids, texts, true);
            },
            _ => {},
        }
    }

    /// Makes the text the final one of the unit, if it stands in the document.
    pub fn settle(self, u: &mut TranslationUnit)
        ensures
            final(u).deep_view() == patch_settled(old(u).deep_view(), self.deep_view()),
            final(u).tu_id == old(u).tu_id,
    {
        if self.applied {
            u.final_translation = Some(self.out);
        }
        assert(u.deep_view() =~= patch_settled(old(u).deep_view(), self.deep_view()));
    }
}

/// A unit after it was rewritten: the text is the final one, if it stands in the document.
pub open spec fn patch_settled(u: UnitV, p: PatchV) -> UnitV {
    if p.applied {
        UnitV { final_translation: Some(p.out), ..u }
    } else {
        u
    }
}

/// A text that was rewritten stands only if it passed the checks and is in its slots.
pub proof fn law_patch_is_valid(
    cfg: StageConfigV,
    u: UnitV,
    ids: Seq<usize>,
    texts: Seq<Seq<char>>,
    p: PatchV,
    raw: Seq<char>,
)
    requires
        !p.applied,
    ensures
        ({
            let (q, after) = patch_fed(cfg, u, ids, texts, p, raw);
            let (put, ok) = slots_applied(texts, ids, u.nt_map, q.out, cfg.preview);
            q.applied ==> unit_verdict(u, q.out) is Ok && ok is Ok && put == after
        }),
{
}

/// A rewriting that passes the checks and fits the slots of its unit is put into them and becomes the
/// final text of the unit, in the first reply as well as in the repairs.
pub proof fn law_good_patch_is_applied(
    cfg: StageConfigV,
    u: UnitV,
    ids: Seq<usize>,
    texts: Seq<Seq<char>>,
    p: PatchV,
    raw: Seq<char>,
)
    requires
        p.phase == JobPhase::Normalize || p.phase == JobPhase::Repair || p.phase
            == JobPhase::Refit,
        unit_verdict(u, cleaned(raw)) is Ok,
        ids.len() > 0,
        slots_applied(texts, ids, u.nt_map, cleaned(raw), cfg.preview).1 is Ok,
    ensures
        ({
            let (q, after) = patch_fed(cfg, u, ids, texts, p, raw);
            &&& q.phase == JobPhase::Done
            &&& after == slots_applied(texts, ids, u.nt_map, cleaned(raw), cfg.preview).0
            &&& patch_settled(u, q).final_translation == Some(cleaned(raw))
            &&& patch_settled(u, q).draft_translation == u.draft_translation
        }),
{
}

/// A rewriting that does not pass the checks is asked for once more; where that does not pass either,
/// the unit and the texts stay as they were.
pub proof fn law_bad_patch_is_dropped(
    cfg: StageConfigV,
    u: UnitV,
    ids: Seq<usize>,
    texts: Seq<Seq<char>>,
    p: PatchV,
    raw: Seq<char>,
)
    requires
        !p.applied,
        unit_verdict(u, cleaned(raw)) is Err,
    ensures
        ({
            let (q, after) = patch_fed(cfg, u, ids, texts, p, raw);
            &&& after == texts
            &&& patch_settled(u, q) == u
            &&& p.phase == JobPhase::Normalize ==> q.phase == JobPhase::Repair
            &&& p.phase == JobPhase::Repair || p.phase == JobPhase::Refit ==> q.phase
                == JobPhase::Done
        }),
{
}

/// A rewriting is asked for with the paragraphs beside it: what is shown before it tells of the one
/// before, and what is shown after it of the one after, with their sources and both drafts.
pub proof fn law_neighbours_are_shown(units: Seq<UnitV>, notes: Seq<Seq<char>>, i: int)
    requires
        0 <= i < units.len() == notes.len(),
    ensures
        i == 0 ==> context_before(units, notes, i).len() == 0,
        i == units.len() - 1 ==> context_after(units, notes, i).len() == 0,
        i > 0 && is_blank(notes[i - 1]) && has(units[i - 1].scope_key, "#w:p"@)
            && units[i - 1].draft_translation is Some && units[i - 1].alt_translation is Some
            ==> context_before(units, notes, i) == "TU#"@ + dec(units[i - 1].tu_id) + " SOURCE:\n"@
            + units[i - 1].frozen_surface + "\n"@ + "TU#"@ + dec(units[i - 1].tu_id) + " A:\n"@
            + units[i - 1].draft_translation->Some_0 + "\nTU#"@ + dec(units[i - 1].tu_id)
            + " B:\n"@ + units[i - 1].alt_translation->Some_0 + "\n\n"@,
        i + 1 < units.len() && is_blank(notes[i + 1]) && has(units[i + 1].scope_key, "#w:p"@)
            && units[i + 1].draft_translation is Some && units[i + 1].alt_translation is Some
            ==> context_after(units, notes, i) == "TU#"@ + dec(units[i + 1].tu_id) + " SOURCE:\n"@
            + units[i + 1].frozen_surface + "\n"@ + "TU#"@ + dec(units[i + 1].tu_id) + " A:\n"@
            + units[i + 1].draft_translation->Some_0 + "\nTU#"@ + dec(units[i + 1].tu_id)
            + " B:\n"@ + units[i + 1].alt_translation->Some_0 + "\n\n"@,
{
    if i > 0 {
        let u = units[i - 1];
        let h = "TU#"@ + dec(u.tu_id) + " SOURCE:\n"@ + u.frozen_surface + "\n"@;
        assert(h + Seq::<char>::empty() =~= h);
    }
    if i + 1 < units.len() {
        let u = units[i + 1];
        let h = "TU#"@ + dec(u.tu_id) + " SOURCE:\n"@ + u.frozen_surface + "\n"@;
        assert(h + Seq::<char>::empty() =~= h);
    }
}

/// A remark on a paragraph is about the last unit of its number, and about none where there is no such
/// unit.
pub proof fn law_issue_finds_its_unit(units: Seq<TranslationUnit>, id: usize, k: int)
    ensures
        0 <= k < units.len() && units[k].tu_id == id && (forall|j: int|
            k < j < units.len() ==> (#[trigger] units[j]).tu_id != id) ==> issue_place(units, id)
            == Some(k),
        (forall|j: int| 0 <= j < units.len() ==> (#[trigger] units[j]).tu_id != id) ==> issue_place(
            units,
            id,
        ) is None,
    decreases units.len(),
{
    if units.len() > 0 {
        let front = units.drop_last();
        law_issue_finds_its_unit(front, id, k);
        assert(forall|j: int| 0 <= j < front.len() ==> #[trigger] front[j] == units[j]);
        assert(units[units.len() - 1] == units.last());
    }
}

} // verus!
