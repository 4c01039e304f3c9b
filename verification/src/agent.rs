//! What an agent that reviews translations replies: a plan, a judgement, questions and patches.

use crate::chars::{
    is_blank, is_ws, law_trimmed, lemma_trimmed_empty, owned, str_eq, trim, trimmed,
};
use crate::terminology::TermUpdate;
use vstd::prelude::*;

verus! {

/// A review of one translation: whether it is good, its scores, and a rewrite.
#[derive(Clone, Debug, Default)]
pub struct AgentReviewResponse {
    pub ok: bool,
    pub score_fidelity: i32,
    pub score_fluency: i32,
    pub score_style: i32,
    pub flags: Vec<String>,
    pub rewrite: String,
    pub needs_retranslate: bool,
    pub retranslate_instructions: String,
    pub term_updates: Vec<TermUpdate>,
}

/// A plan for the translation of a document.
#[derive(Clone, Debug, Default)]
pub struct AgentPlanResponse {
    pub doc_profile: PlanDocProfile,
    pub dimensions: Vec<Dimension>,
    pub term_policy: TermPolicy,
    pub style_guide: StyleGuide,
    pub state_delta: PlanStateDelta,
    pub metrics: PlanMetrics,
}

/// What kind of document it is.
#[derive(Clone, Debug, Default)]
pub struct PlanDocProfile {
    pub domain: Option<String>,
    pub doc_type: Option<String>,
    pub tone: Option<String>,
    pub target_locale: Option<String>,
    pub risk_level: Option<String>,
    pub target_style: Option<String>,
    pub summary: Option<String>,
    pub entities: Vec<String>,
}

/// How terms are to be treated.
#[derive(Clone, Debug, Default)]
pub struct TermPolicy {
    pub enforce: bool,
    pub allow_variants: bool,
    pub case_policy: Option<String>,
}

/// The rules of style.
#[derive(Clone, Debug, Default)]
pub struct StyleGuide {
    pub rules: Vec<String>,
}

/// What a plan adds to what is known.
#[derive(Clone, Debug, Default)]
pub struct PlanStateDelta {
    pub term_candidates: Vec<TermUpdate>,
}

/// How sure a plan is.
#[derive(Clone, Debug, Default)]
pub struct PlanMetrics {
    /// The bits of a number in single precision.
    pub confidence_bits: u32,
}

/// A judgement of a translation.
#[derive(Clone, Debug, Default)]
pub struct AgentJudgeResponse {
    pub sufficient: bool,
    pub dimension_scores: Vec<DimensionScore>,
    pub issues: Vec<Issue>,
    pub missing_info: Vec<MissingInfo>,
    pub decision: JudgeDecision,
    pub state_delta: JudgeStateDelta,
    pub metrics: JudgeMetrics,
}

/// How a translation does in one respect.
#[derive(Clone, Debug, Default)]
pub struct DimensionScore {
    pub dimension: Dimension,
    pub severity: Severity,
    pub evidence_ids: Vec<String>,
}

/// What is wrong with a translation.
#[derive(Clone, Debug, Default)]
pub struct Issue {
    pub id: String,
    pub dimension: Dimension,
    pub severity: Severity,
    pub location: IssueLocation,
    pub why: String,
    pub fix_hint: String,
    pub must_fix: bool,
}

/// Where something is wrong.
#[derive(Clone, Debug, Default)]
pub struct IssueLocation {
    pub tu_id: Option<String>,
    pub anchor: Option<String>,
    pub sentence_index: Option<usize>,
}

/// What is not known and would be needed.
#[derive(Clone, Debug, Default)]
pub struct MissingInfo {
    pub dimension: Dimension,
    pub why_needed: String,
    pub needed_scope: String,
}

/// What is to be done.
#[derive(Clone, Debug, Default)]
pub struct JudgeDecision {
    pub action: String,
    pub rationale: String,
    pub preferred_backend: String,
    pub retranslate_instructions: String,
}

/// What a judgement adds to what is known.
#[derive(Clone, Debug, Default)]
pub struct JudgeStateDelta {
    pub term_updates: Vec<TermUpdate>,
}

/// How a judgement came out, in numbers.
#[derive(Clone, Debug, Default)]
pub struct JudgeMetrics {
    pub issue_count: usize,
    pub hard_fail: usize,
    pub changed_since_last: bool,
}

/// Questions that are open.
#[derive(Clone, Debug, Default)]
pub struct AgentProbeResponse {
    pub missing_info: Vec<MissingInfo>,
    pub questions: Vec<ProbeQuestion>,
    pub state_delta: ProbeStateDelta,
    pub metrics: ProbeMetrics,
}

/// A question.
#[derive(Clone, Debug, Default)]
pub struct ProbeQuestion {
    pub id: String,
    pub question: String,
    pub expected_answer_form: String,
}

/// What questions add to what is known.
#[derive(Clone, Debug, Default)]
pub struct ProbeStateDelta {
    pub evidence_add: Vec<EvidenceItem>,
}

/// Something that was found.
#[derive(Clone, Debug, Default)]
pub struct EvidenceItem {
    pub id: String,
    pub dimension: Dimension,
    pub content: String,
}

/// How questions came out, in numbers.
#[derive(Clone, Debug, Default)]
pub struct ProbeMetrics {
    pub evidence_delta: i32,
}

/// Patches to a translation.
#[derive(Clone, Debug, Default)]
pub struct AgentActResponse {
    pub patches: Vec<ActPatch>,
    pub state_delta: ActStateDelta,
    pub metrics: ActMetrics,
}

/// What patches add to what is known.
#[derive(Clone, Debug, Default)]
pub struct ActStateDelta {
    pub term_map_add: Vec<TermUpdate>,
}

/// How many patches there are.
#[derive(Clone, Debug, Default)]
pub struct ActMetrics {
    pub patch_count: usize,
}

/// A patch to one sentence of a translation.
#[derive(Clone, Debug, Default)]
pub struct ActPatch {
    pub patch_id: String,
    pub patch_type: String,
    pub location: PatchLocation,
    pub before: PatchBefore,
    pub edit: PatchEdit,
    pub after: PatchAfter,
    pub constraints: Vec<String>,
    pub verification: PatchVerification,
}

/// Where a patch goes.
#[derive(Clone, Debug, Default)]
pub struct PatchLocation {
    pub scope: String,
    pub sentence_index: Option<usize>,
    pub anchors: PatchAnchors,
}

/// What stands near the place of a patch.
#[derive(Clone, Debug, Default)]
pub struct PatchAnchors {
    pub strong: String,
    pub weak: Vec<String>,
    pub occurrence: usize,
}

/// The sentence before the patch.
#[derive(Clone, Debug, Default)]
pub struct PatchBefore {
    pub sentence: String,
    pub context_prev: Option<String>,
    pub context_next: Option<String>,
}

/// The sentence after the patch.
#[derive(Clone, Debug, Default)]
pub struct PatchAfter {
    pub sentence: String,
}

/// What a patch changes at the least.
#[derive(Clone, Debug, Default)]
pub struct PatchEdit {
    pub minimal_from: String,
    pub minimal_to: String,
    pub operation: String,
}

/// What a patch is checked by.
#[derive(Clone, Debug, Default)]
pub struct PatchVerification {
    pub must_preserve_tokens: Vec<String>,
    pub diff_summary: String,
    pub apply_check: Option<PatchApplyCheck>,
}

/// What must stand in the sentence before and after the patch.
#[derive(Clone, Debug, Default)]
pub struct PatchApplyCheck {
    pub expect_before_contains: Vec<String>,
    pub expect_after_contains: Vec<String>,
}

/// A respect in which a translation is judged.
#[derive(Clone, Copy, Debug, PartialEq, Eq, Structural)]
pub enum Dimension {
    Term,
    Coref,
    Coverage,
    Style,
    Factual,
    Format,
    Global,
    Unknown,
}

/// How bad something is.
#[derive(Clone, Copy, Debug, PartialEq, Eq, Structural)]
pub enum Severity {
    /// Nothing is wrong.
    Fine,
    Warn,
    Fail,
    Unknown,
}

/// What a patch does.
#[derive(Clone, Copy, Debug, PartialEq, Eq, Structural)]
pub enum PatchType {
    SentenceReplace,
    SentenceMinimalEdit,
    TermMapUpdate,
    Unknown,
}

impl Default for Dimension {
    fn default() -> (r: Dimension)
        ensures
            r == Dimension::Unknown,
    {
        Dimension::Unknown
    }
}

impl Default for Severity {
    fn default() -> (r: Severity)
        ensures
            r == Severity::Unknown,
    {
        Severity::Unknown
    }
}

/// The text that a review chooses: its rewrite, if there is one, and else the draft.
pub open spec fn chosen(rewrite: Seq<char>, draft: Seq<char>) -> Seq<char> {
    if is_blank(rewrite) {
        draft
    } else {
        trimmed(rewrite)
    }
}

impl AgentReviewResponse {
    /// The text that the review chooses: its rewrite, if there is one, and else the draft.
    pub fn chosen_text(&self, draft: &str) -> (r: String)
        ensures
            r@ == chosen(self.rewrite@, draft@),
    {
        if crate::chars::blank(self.rewrite.as_str()) {
            owned(draft)
        } else {
            trim(self.rewrite.as_str())
        }
    }

    /// Whether the translation is good and reaches the scores.
    pub fn quality_ok(&self, min_fidelity: i32, min_fluency: i32, min_style: i32) -> (r: bool)
        ensures
            r == (self.ok && self.score_fidelity >= min_fidelity && self.score_fluency >= min_fluency
                && self.score_style >= min_style),
    {
        self.ok && self.score_fidelity >= min_fidelity && self.score_fluency >= min_fluency
            && self.score_style >= min_style
    }
}

/// What a patch of a name does.
pub open spec fn patch_type_of(s: Seq<char>) -> PatchType {
    let t = trimmed(s);
    if t == "sentence_replace"@ {
        PatchType::SentenceReplace
    } else if t == "sentence_minimal_edit"@ {
        PatchType::SentenceMinimalEdit
    } else if t == "term_map_update"@ {
        PatchType::TermMapUpdate
    } else {
        PatchType::Unknown
    }
}

impl PatchType {
    /// What a patch of a name does.
    pub fn from_str(s: &str) -> (r: PatchType)
        ensures
            r == patch_type_of(s@),
    {
        let t: String = trim(s);
        if str_eq(t.as_str(), "sentence_replace") {
            PatchType::SentenceReplace
        } else if str_eq(t.as_str(), "sentence_minimal_edit") {
            PatchType::SentenceMinimalEdit
        } else if str_eq(t.as_str(), "term_map_update") {
            PatchType::TermMapUpdate
        } else {
            PatchType::Unknown
        }
    }
}

/// A rewrite is taken where it says anything, without the white space round it, and else the draft is.
pub proof fn law_rewrite_is_taken(a: Seq<char>, s: Seq<char>, b: Seq<char>, draft: Seq<char>)
    requires
        is_blank(a),
        is_blank(b),
        s.len() > 0 ==> !is_ws(s[0]) && !is_ws(s.last()),
    ensures
        s.len() > 0 ==> chosen(a + s + b, draft) == s,
        s.len() == 0 ==> chosen(a + s + b, draft) == draft,
{
    law_trimmed(a, s, b);
    lemma_trimmed_empty(a + s + b);
}

} // verus!
