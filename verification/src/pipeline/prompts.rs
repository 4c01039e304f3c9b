//! The prompts: where their texts are, and the texts that are written out at first.

use crate::chars::{append, owned, str_eq};
use crate::config::PromptsSection;
use vstd::prelude::*;

verus! {

/// The directory of the prompts.
pub const DEFAULT_PROMPTS_DIR: &'static str = "prompts";

pub const DEFAULT_TRANSLATE_A: &'static str = "translate_a.txt";

pub const DEFAULT_TRANSLATE_B: &'static str = "translate_b.txt";

pub const DEFAULT_TRANSLATE_REPAIR: &'static str = "translate_repair.txt";

pub const DEFAULT_PARA_NOTES: &'static str = "para_notes.json.txt";

pub const DEFAULT_JSON_REPAIR: &'static str = "json_repair.txt";

pub const DEFAULT_FUSE_AB: &'static str = "fuse_ab.txt";

pub const DEFAULT_STITCH_AUDIT: &'static str = "stitch_audit.json.txt";

pub const DEFAULT_PATCH: &'static str = "patch.txt";

/// The texts of the prompts, or where they are.
#[derive(Clone, Debug)]
pub struct PromptSet {
    pub translate_a: String,
    pub translate_b: String,
    pub translate_repair: String,
    pub para_notes: String,
    pub json_repair: String,
    pub fuse_ab: String,
    pub stitch_audit: String,
    pub patch: String,
}

/// The path of a prompt: as configured, or a file in the directory of the prompts.
pub open spec fn path_or(configured: Option<String>, file: Seq<char>) -> Seq<char> {
    match configured {
        Some(p) => p@,
        None => DEFAULT_PROMPTS_DIR@ + "/"@ + file,
    }
}

fn configured_or(configured: &Option<String>, file: &str) -> (r: String)
    ensures
        r@ == path_or(*configured, file@),
{
    match configured {
        Some(p) => p.clone(),
        None => {
            let mut r: String = owned(DEFAULT_PROMPTS_DIR);
            append(&mut r, "/");
            append(&mut r, file);
            r
        },
    }
}

/// The path of the prompt of a key. There is none for a key of no prompt.
pub open spec fn prompt_path_of(p: PromptsSection, key: Seq<char>, file: Seq<char>) -> Option<
    Seq<char>,
> {
    if key == "translate_a"@ {
        Some(path_or(p.translate_a, file))
    } else if key == "translate_b"@ {
        Some(path_or(p.translate_b, file))
    } else if key == "translate_repair"@ {
        Some(path_or(p.translate_repair, file))
    } else if key == "para_notes"@ {
        Some(path_or(p.para_notes, file))
    } else if key == "json_repair"@ {
        Some(path_or(p.json_repair, file))
    } else if key == "fuse_ab"@ {
        Some(path_or(p.fuse_ab, file))
    } else if key == "stitch_audit"@ {
        Some(path_or(p.stitch_audit, file))
    } else if key == "patch"@ {
        Some(path_or(p.patch, file))
    } else {
        None
    }
}

/// The path of the prompt of a key, relative to the configuration file.
pub fn prompt_path(p: &PromptsSection, key: &str, file: &str) -> (r: Option<String>)
    ensures
        r.deep_view() == prompt_path_of(*p, key@, file@),
{
    if str_eq(key, "translate_a") {
        Some(configured_or(&p.translate_a, file))
    } else if str_eq(key, "translate_b") {
        Some(configured_or(&p.translate_b, file))
    } else if str_eq(key, "translate_repair") {
        Some(configured_or(&p.translate_repair, file))
    } else if str_eq(key, "para_notes") {
        Some(configured_or(&p.para_notes, file))
    } else if str_eq(key, "json_repair") {
        Some(configured_or(&p.json_repair, file))
    } else if str_eq(key, "fuse_ab") {
        Some(configured_or(&p.fuse_ab, file))
    } else if str_eq(key, "stitch_audit") {
        Some(configured_or(&p.stitch_audit, file))
    } else if str_eq(key, "patch") {
        Some(configured_or(&p.patch, file))
    } else {
        None
    }
}

impl PromptSet {
    /// Where each of the prompts is, relative to the configuration file.
    pub fn paths(p: &PromptsSection) -> (r: PromptSet)
        ensures
            r.translate_a@ == path_or(p.translate_a, DEFAULT_TRANSLATE_A@),
            r.translate_b@ == path_or(p.translate_b, DEFAULT_TRANSLATE_B@),
            r.translate_repair@ == path_or(p.translate_repair, DEFAULT_TRANSLATE_REPAIR@),
            r.para_notes@ == path_or(p.para_notes, DEFAULT_PARA_NOTES@),
            r.json_repair@ == path_or(p.json_repair, DEFAULT_JSON_REPAIR@),
            r.fuse_ab@ == path_or(p.fuse_ab, DEFAULT_FUSE_AB@),
            r.stitch_audit@ == path_or(p.stitch_audit, DEFAULT_STITCH_AUDIT@),
            r.patch@ == path_or(p.patch, DEFAULT_PATCH@),
    {
        PromptSet {
            translate_a: configured_or(&p.translate_a, DEFAULT_TRANSLATE_A),
            translate_b: configured_or(&p.translate_b, DEFAULT_TRANSLATE_B),
            translate_repair: configured_or(&p.translate_repair, DEFAULT_TRANSLATE_REPAIR),
            para_notes: configured_or(&p.para_notes, DEFAULT_PARA_NOTES),
            json_repair: configured_or(&p.json_repair, DEFAULT_JSON_REPAIR),
            fuse_ab: configured_or(&p.fuse_ab, DEFAULT_FUSE_AB),
            stitch_audit: configured_or(&p.stitch_audit, DEFAULT_STITCH_AUDIT),
            patch: configured_or(&p.patch, DEFAULT_PATCH),
        }
    }
}

/// The files of the prompts and their first texts.
pub open spec fn prompt_files() -> Seq<(&'static str, &'static str)> {
    seq![
        (DEFAULT_TRANSLATE_A, DEFAULT_TRANSLATE_A_TEXT),
        (DEFAULT_TRANSLATE_B, DEFAULT_TRANSLATE_B_TEXT),
        (DEFAULT_TRANSLATE_REPAIR, DEFAULT_TRANSLATE_REPAIR_TEXT),
        (DEFAULT_PARA_NOTES, DEFAULT_PARA_NOTES_TEXT),
        (DEFAULT_JSON_REPAIR, DEFAULT_JSON_REPAIR_TEXT),
        (DEFAULT_FUSE_AB, DEFAULT_FUSE_AB_TEXT),
        (DEFAULT_STITCH_AUDIT, DEFAULT_STITCH_AUDIT_TEXT),
        (DEFAULT_PATCH, DEFAULT_PATCH_TEXT),
    ]
}

/// The files of the prompts and their first texts.
pub fn default_prompt_files() -> (r: Vec<(&'static str, &'static str)>)
    ensures
        r@ == prompt_files(),
{
    vec![
        (DEFAULT_TRANSLATE_A, DEFAULT_TRANSLATE_A_TEXT),
        (DEFAULT_TRANSLATE_B, DEFAULT_TRANSLATE_B_TEXT),
        (DEFAULT_TRANSLATE_REPAIR, DEFAULT_TRANSLATE_REPAIR_TEXT),
        (DEFAULT_PARA_NOTES, DEFAULT_PARA_NOTES_TEXT),
        (DEFAULT_JSON_REPAIR, DEFAULT_JSON_REPAIR_TEXT),
        (DEFAULT_FUSE_AB, DEFAULT_FUSE_AB_TEXT),
        (DEFAULT_STITCH_AUDIT, DEFAULT_STITCH_AUDIT_TEXT),
        (DEFAULT_PATCH, DEFAULT_PATCH_TEXT),
    ]
}

pub const DEFAULT_TRANSLATE_A_TEXT: &'static str = "Translate text from {{source_lang}} to {{target_lang}}.

Rules:
- Do NOT omit content; do NOT summarize.
- Do NOT use ellipsis placeholders like … or ... to skip content.
- Keep ALL tokens like <<MT_...>> unchanged.
- Preserve all digits (0-9) exactly.
- Output ONLY the translated segments, in the same order.
- For each TU id, output EXACTLY:
  <<MT_SEG:000123>>
  ...translation...
  <<MT_END:000123>>
- Do NOT add any other text.

INPUT:
{{tu_block}}";

pub const DEFAULT_TRANSLATE_B_TEXT: &'static str = "Translate text from {{source_lang}} to {{target_lang}}.

Rules:
- Do NOT omit content; do NOT summarize.
- Do NOT use ellipsis placeholders like … or ... to skip content.
- Keep ALL tokens like <<MT_...>> unchanged.
- Preserve all digits (0-9) exactly.
- Output ONLY the translated segments, in the same order.
- For each TU id, output EXACTLY:
  <<MT_SEG:000123>>
  ...translation...
  <<MT_END:000123>>
- Do NOT add any other text.

INPUT:
{{tu_block}}";

pub const DEFAULT_TRANSLATE_REPAIR_TEXT: &'static str = r#"Fix the translation to satisfy ALL constraints.
Return ONLY the fixed translation.

Constraints:
- Do NOT omit content; do NOT summarize.
- Do NOT add new information.
- Do NOT use ellipsis placeholders like … or ... to skip content.
- Preserve ALL tokens like <<MT_...>> EXACTLY and keep their order unchanged.
- Preserve all digits (0-9) exactly.
- Ensure the output is in {{target_lang}} (do not leave it in {{source_lang}}).

Must-keep tokens (copy exactly; keep order):
{{must_keep_tokens}}

NT map (token = original; you may copy originals, but do NOT translate them):
{{nt_map}}

Validation error (previous output failed):
{{validation_error}}

Language: {{source_lang}} -> {{target_lang}}

SOURCE (frozen):
{{source}}

BAD_OUTPUT:
{{bad}}"#;

pub const DEFAULT_PARA_NOTES_TEXT: &'static str = r#"Return STRICT JSON only (one JSON object).
For each TU paragraph, output:
- tu_id
- understanding (1 concise sentence in {{target_lang}})
- proper_nouns (strings)
- terms (strings)

Schema:
{"paragraphs":[{"tu_id":1,"understanding":"...","proper_nouns":["..."],"terms":["..."]}]}

PARAGRAPHS:
{{tu_block}}"#;

pub const DEFAULT_JSON_REPAIR_TEXT: &'static str = r#"You are a JSON repair tool.
Return STRICT JSON only (one JSON object). No markdown. No extra text.
Do not add new facts.
If required keys are missing, add them with empty defaults.

BROKEN_OUTPUT:
{{raw}}"#;

pub const DEFAULT_FUSE_AB_TEXT: &'static str = "You are a translation editor.
For each TU segment in INPUT, output ONE best final translation in {{target_lang}}.

Rules:
- Keep ALL tokens like <<MT_...>> unchanged.
- Output ONLY the translated segments, in the same order.
- For each TU id, output EXACTLY:
  <<MT_SEG:000123>>
  ...final translation...
  <<MT_END:000123>>
- Inside each segment: output ONLY the final translation (no labels).
- Do NOT add any other text.

INPUT:
{{tu_block}}";

pub const DEFAULT_STITCH_AUDIT_TEXT: &'static str = r#"Return STRICT JSON only (one JSON object).
Task: Find paragraphs that feel stitched/unnatural or inconsistent with nearby context.
Output issues for TU ids that should be rewritten.

Schema:
{"issues":[{"tu_id":1,"problem":"...","rewrite_instructions":"..."}]}

INPUT:
{{tu_block}}"#;

pub const DEFAULT_PATCH_TEXT: &'static str = r#"Rewrite the translation of CURRENT paragraph to be natural and consistent.
Keep ALL tokens like <<MT_...>> unchanged.
Return ONLY the rewritten translation for CURRENT.

Language: {{source_lang}} -> {{target_lang}}

INSTRUCTIONS:
{{instructions}}

CONTEXT_BEFORE:
{{before}}

CURRENT_SOURCE:
{{source}}

CURRENT_TRANSLATION:
{{current}}

CONTEXT_AFTER:
{{after}}"#;

/// A prompt is read from the file that the configuration names, and else from the one of its own in the
/// directory for prompts. There are eight prompts, and no other has a file.
pub proof fn law_configured_prompt_goes_first(p: PromptsSection, file: Seq<char>)
    ensures
        p.translate_a matches Some(x) ==> prompt_path_of(p, "translate_a"@, file) == Some(x@),
        p.translate_a is None ==> prompt_path_of(p, "translate_a"@, file) == Some(
            DEFAULT_PROMPTS_DIR@ + "/"@ + file,
        ),
        p.translate_b matches Some(x) ==> prompt_path_of(p, "translate_b"@, file) == Some(x@),
        p.translate_b is None ==> prompt_path_of(p, "translate_b"@, file) == Some(
            DEFAULT_PROMPTS_DIR@ + "/"@ + file,
        ),
        p.translate_repair matches Some(x) ==> prompt_path_of(p, "translate_repair"@, file) == Some(
            x@,
        ),
        p.para_notes matches Some(x) ==> prompt_path_of(p, "para_notes"@, file) == Some(x@),
        p.json_repair matches Some(x) ==> prompt_path_of(p, "json_repair"@, file) == Some(x@),
        p.fuse_ab matches Some(x) ==> prompt_path_of(p, "fuse_ab"@, file) == Some(x@),
        p.stitch_audit matches Some(x) ==> prompt_path_of(p, "stitch_audit"@, file) == Some(x@),
        p.patch matches Some(x) ==> prompt_path_of(p, "patch"@, file) == Some(x@),
        p.patch is None ==> prompt_path_of(p, "patch"@, file) == Some(
            DEFAULT_PROMPTS_DIR@ + "/"@ + file,
        ),
{
    reveal_strlit("translate_a");
    reveal_strlit("translate_b");
    reveal_strlit("translate_repair");
    reveal_strlit("para_notes");
    reveal_strlit("json_repair");
    reveal_strlit("fuse_ab");
    reveal_strlit("stitch_audit");
    reveal_strlit("patch");
    assert("translate_a"@.len() == 11 && "translate_b"@.len() == 11 && "translate_repair"@.len()
        == 16 && "para_notes"@.len() == 10 && "json_repair"@.len() == 11 && "fuse_ab"@.len() == 7
        && "stitch_audit"@.len() == 12 && "patch"@.len() == 5);
    assert("translate_a"@[10] == 'a' && "translate_b"@[10] == 'b' && "json_repair"@[0] == 'j'
        && "translate_a"@[0] == 't' && "translate_b"@[0] == 't');
}

} // verus!
