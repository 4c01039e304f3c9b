//! What a translation is run with: the arguments, over the configuration file, over what is set
//! where neither says anything.

use crate::chars::{append, ascii_lower, blank, is_blank, lower_ascii, owned, str_eq, trim, trimmed};
use crate::config::{
    backend_resolved, resolution, resolve_backend, resolved_bare, AppConfig, BackendError,
    BackendErrorV, DirProbe, ResolvedBackend, ResolvedV,
};
use crate::docx::xml::{increasing, lemma_text_less, text_before, text_less};
use crate::pipeline::prompts::{default_prompt_files, prompt_files, DEFAULT_PROMPTS_DIR};
use crate::vecs::clone_opt;
use vstd::prelude::*;

verus! {

/// How much work is done on a document.
#[derive(Clone, Copy, Debug, PartialEq, Eq, Structural)]
pub enum PipelineMode {
    Basic,
    Full,
}

/// The mode of a text.
pub open spec fn mode_of(s: Option<Seq<char>>) -> PipelineMode {
    if s is Some && ascii_lower(trimmed(s->Some_0)) == "full"@ {
        PipelineMode::Full
    } else {
        PipelineMode::Basic
    }
}

impl PipelineMode {
    /// Reads a mode. Whatever is not `full` is basic.
    pub fn parse(s: Option<&str>) -> (r: PipelineMode)
        ensures
            r == mode_of(s.deep_view()),
    {
        match s {
            Some(t) => {
                let word: String = lower_ascii(trim(t).as_str());
                if str_eq(word.as_str(), "full") {
                    PipelineMode::Full
                } else {
                    PipelineMode::Basic
                }
            },
            None => PipelineMode::Basic,
        }
    }
}

/// The arguments of a run.
#[derive(Clone, Debug, Default)]
pub struct PipelineArgs {
    pub translate_backend: Option<String>,
    pub alt_translate_backend: Option<String>,
    pub rewrite_backend: Option<String>,
    pub controller_backend: Option<String>,
    pub translate_model: Option<String>,
    pub alt_translate_model: Option<String>,
    pub rewrite_model: Option<String>,
    pub controller_model: Option<String>,
    pub source_lang: Option<String>,
    pub target_lang: Option<String>,
    pub threads: Option<i32>,
    pub gpu_layers: Option<i32>,
    /// The context size of the model that translates, where the configuration names none.
    pub ctx_translate: Option<u32>,
    /// The context size of the controlling model, where the configuration names none.
    pub ctx_controller: Option<u32>,
    pub max_tus: Option<usize>,
}

/// What a run is set to, before its models are found.
#[derive(Clone, Debug)]
pub struct PipelinePlan {
    pub mode: PipelineMode,
    pub translate_name: String,
    pub alt_translate_name: Option<String>,
    pub rewrite_name: Option<String>,
    pub controller_name: Option<String>,
    pub threads: i32,
    pub gpu_layers: i32,
    pub autosave_every: usize,
    pub autosave_suffix: String,
    /// Relative to the directory of the translated document.
    pub trace_dir: String,
    pub trace_prompts: bool,
    pub log_max_chars: usize,
    pub max_tus: Option<usize>,
    /// Relative to the directory of the configuration file.
    pub docx_filter_rules: Option<String>,
}

/// The model of a [`PipelinePlan`].
#[verifier::ext_equal]
pub struct PlanV {
    pub mode: PipelineMode,
    pub translate_name: Seq<char>,
    pub alt_translate_name: Option<Seq<char>>,
    pub rewrite_name: Option<Seq<char>>,
    pub controller_name: Option<Seq<char>>,
    pub threads: i32,
    pub gpu_layers: i32,
    pub autosave_every: usize,
    pub autosave_suffix: Seq<char>,
    pub trace_dir: Seq<char>,
    pub trace_prompts: bool,
    pub log_max_chars: usize,
    pub max_tus: Option<usize>,
    pub docx_filter_rules: Option<Seq<char>>,
}

impl DeepView for PipelinePlan {
    type V = PlanV;

    open spec fn deep_view(&self) -> PlanV {
        PlanV {
            mode: self.mode,
            translate_name: self.translate_name@,
            alt_translate_name: self.alt_translate_name.deep_view(),
            rewrite_name: self.rewrite_name.deep_view(),
            controller_name: self.controller_name.deep_view(),
            threads: self.threads,
            gpu_layers: self.gpu_layers,
            autosave_every: self.autosave_every,
            autosave_suffix: self.autosave_suffix@,
            trace_dir: self.trace_dir@,
            trace_prompts: self.trace_prompts,
            log_max_chars: self.log_max_chars,
            max_tus: self.max_tus,
            docx_filter_rules: self.docx_filter_rules.deep_view(),
        }
    }
}

/// The first of two values that is there.
pub open spec fn either<T>(a: Option<T>, b: Option<T>) -> Option<T> {
    match a {
        Some(_) => a,
        None => b,
    }
}

/// A value, or another one where there is none.
pub open spec fn or_else<T>(a: Option<T>, other: T) -> T {
    match a {
        Some(x) => x,
        None => other,
    }
}

/// A text without white space around it, where it holds anything else.
pub open spec fn said(t: Option<Seq<char>>) -> Option<Seq<char>> {
    match t {
        Some(s) => if is_blank(s) {
            None
        } else {
            Some(trimmed(s))
        },
        None => None,
    }
}

/// What a run is set to.
pub open spec fn planned(args: PipelineArgs, cfg: AppConfig) -> PlanV {
    let p = cfg.pipeline;
    let mode = mode_of(p.mode.deep_view());
    let full = mode == PipelineMode::Full;
    PlanV {
        mode,
        translate_name: or_else(
            either(args.translate_backend.deep_view(), p.translate_backend.deep_view()),
            "translategemma_4b"@,
        ),
        alt_translate_name: if full {
            said(either(args.alt_translate_backend.deep_view(), p.alt_translate_backend.deep_view()))
        } else {
            None
        },
        rewrite_name: if full {
            Some(
                or_else(
                    either(args.rewrite_backend.deep_view(), p.rewrite_backend.deep_view()),
                    "translategemma_12b"@,
                ),
            )
        } else {
            None
        },
        controller_name: if full {
            said(either(args.controller_backend.deep_view(), p.controller_backend.deep_view()))
        } else {
            None
        },
        threads: or_else(either(args.threads, p.threads), (-1) as i32),
        gpu_layers: or_else(either(args.gpu_layers, p.gpu_layers), (-1) as i32),
        autosave_every: if or_else(p.autosave_every, 10) == 0 {
            1
        } else {
            or_else(p.autosave_every, 10)
        },
        autosave_suffix: or_else(p.autosave_suffix.deep_view(), "_进度.docx"@),
        trace_dir: or_else(p.trace_dir.deep_view(), "_trace"@),
        trace_prompts: or_else(p.trace_prompts, true),
        log_max_chars: or_else(p.log_max_chars, 240),
        max_tus: match either(args.max_tus, p.max_tus) {
            Some(n) => if n > 0 {
                Some(n)
            } else {
                None
            },
            None => None,
        },
        docx_filter_rules: said(p.docx_filter_rules.deep_view()),
    }
}

fn either_text(a: &Option<String>, b: &Option<String>) -> (r: Option<String>)
    ensures
        r.deep_view() == either(a.deep_view(), b.deep_view()),
{
    match a {
        Some(_) => clone_opt(a),
        None => clone_opt(b),
    }
}

fn text_or(a: Option<String>, other: &str) -> (r: String)
    ensures
        r@ == or_else(a.deep_view(), other@),
{
    match a {
        Some(t) => t,
        None => owned(other),
    }
}

fn said_text(t: Option<String>) -> (r: Option<String>)
    ensures
        r.deep_view() == said(t.deep_view()),
{
    match t {
        Some(s) => if blank(s.as_str()) {
            None
        } else {
            Some(trim(s.as_str()))
        },
        None => None,
    }
}

fn number_or(a: Option<i32>, b: Option<i32>, other: i32) -> (r: i32)
    ensures
        r == or_else(either(a, b), other),
{
    match a {
        Some(n) => n,
        None => match b {
            Some(n) => n,
            None => other,
        },
    }
}

/// Settles what a run is set to.
pub fn plan_run(args: &PipelineArgs, cfg: &AppConfig) -> (r: PipelinePlan)
    ensures
        r.deep_view() == planned(*args, *cfg),
{
    let p = &cfg.pipeline;
    let mode: PipelineMode = match &p.mode {
        Some(s) => PipelineMode::parse(Some(s.as_str())),
        None => PipelineMode::parse(None),
    };
    let full: bool = mode == PipelineMode::Full;
    let alt_translate_name: Option<String> = if full {
        said_text(either_text(&args.alt_translate_backend, &p.alt_translate_backend))
    } else {
        None
    };
    let rewrite_name: Option<String> = if full {
        Some(text_or(either_text(&args.rewrite_backend, &p.rewrite_backend), "translategemma_12b"))
    } else {
        None
    };
    let controller_name: Option<String> = if full {
        said_text(either_text(&args.controller_backend, &p.controller_backend))
    } else {
        None
    };
    let every: usize = match p.autosave_every {
        Some(n) => n,
        None => 10,
    };
    let max_tus: Option<usize> = match args.max_tus {
        Some(n) => Some(n),
        None => p.max_tus,
    };
    PipelinePlan {
        mode,
        translate_name: text_or(
            either_text(&args.translate_backend, &p.translate_backend),
            "translategemma_4b",
        ),
        alt_translate_name,
        rewrite_name,
        controller_name,
        threads: number_or(args.threads, p.threads, -1),
        gpu_layers: number_or(args.gpu_layers, p.gpu_layers, -1),
        autosave_every: if every == 0 {
            1
        } else {
            every
        },
        autosave_suffix: text_or(clone_opt(&p.autosave_suffix), "_进度.docx"),
        trace_dir: text_or(clone_opt(&p.trace_dir), "_trace"),
        trace_prompts: match p.trace_prompts {
            Some(b) => b,
            None => true,
        },
        log_max_chars: match p.log_max_chars {
            Some(n) => n,
            None => 240,
        },
        max_tus: match max_tus {
            Some(n) => if n > 0 {
                Some(n)
            } else {
                None
            },
            None => None,
        },
        docx_filter_rules: said_text(clone_opt(&p.docx_filter_rules)),
    }
}

/// What was found where a model is looked for.
pub struct Probe {
    pub dirs: Vec<DirProbe>,
    /// Whether the path of the model in the configuration is relative.
    pub relative: bool,
    /// Whether that path, if it is not relative, exists.
    pub exists_as_is: bool,
}

/// What was found of each model of a run.
pub struct Probes {
    pub translate: Probe,
    pub alt_translate: Probe,
    pub rewrite: Probe,
    pub controller: Probe,
}

/// The directories and files of a run.
#[derive(Clone, Debug)]
pub struct RunPaths {
    pub workdir: String,
    pub config_path: String,
    pub trace_dir: String,
    pub docx_filter_rules: Option<String>,
}

/// A model of a run: the file that is given for it, or what the configuration says.
pub open spec fn model_of(
    cfg: AppConfig,
    name: Seq<char>,
    given: Option<Seq<char>>,
    ctx: u32,
    probe: Probe,
) -> Result<ResolvedV, BackendErrorV> {
    match given {
        Some(p) => Ok(resolved_bare(name, p, ctx, None)),
        None => backend_resolved(
            cfg,
            name,
            probe.dirs@,
            probe.relative,
            probe.exists_as_is,
            0,
            ctx,
            None,
        ),
    }
}

fn ctx_or(given: Option<u32>, default: u32) -> (r: u32)
    ensures
        r == or_else(given, default),
{
    match given {
        Some(n) => n,
        None => default,
    }
}

fn find_model(cfg: &AppConfig, name: &str, given: &Option<String>, ctx: u32, probe: &Probe) -> (r:
    Result<ResolvedBackend, BackendError>)
    ensures
        resolution(r) == model_of(*cfg, name@, given.deep_view(), ctx, *probe),
{
    match given {
        Some(p) => Ok(
            ResolvedBackend {
                name: owned(name),
                model_path: p.clone(),
                template_hint: None,
                ctx_size: ctx,
                threads: None,
                gpu_layers: None,
                batch_size: None,
                ubatch_size: None,
                offload_kqv: None,
            },
        ),
        None => {
            resolve_backend(
                cfg,
                name,
                &probe.dirs,
                probe.relative,
                probe.exists_as_is,
                0,
                ctx,
                None,
            )
        },
    }
}

/// A model that a run may do without.
pub open spec fn model_if(
    cfg: AppConfig,
    name: Option<Seq<char>>,
    given: Option<Seq<char>>,
    ctx: u32,
    probe: Probe,
) -> Result<Option<ResolvedV>, BackendErrorV> {
    match name {
        Some(n) => match model_of(cfg, n, given, ctx, probe) {
            Ok(b) => Ok(Some(b)),
            Err(e) => Err(e),
        },
        None => Ok(None),
    }
}

/// The model of what a search for a model that a run may do without gave.
pub open spec fn resolution_if(r: Result<Option<ResolvedBackend>, BackendError>) -> Result<
    Option<ResolvedV>,
    BackendErrorV,
> {
    match r {
        Ok(b) => Ok(b.deep_view()),
        Err(e) => Err(e.deep_view()),
    }
}

fn find_model_if(
    cfg: &AppConfig,
    name: &Option<String>,
    given: &Option<String>,
    ctx: u32,
    probe: &Probe,
) -> (r: Result<Option<ResolvedBackend>, BackendError>)
    ensures
        resolution_if(r) == model_if(*cfg, name.deep_view(), given.deep_view(), ctx, *probe),
{
    match name {
        Some(n) => match find_model(cfg, n.as_str(), given, ctx, probe) {
            Ok(b) => Ok(Some(b)),
            Err(e) => Err(e),
        },
        None => Ok(None),
    }
}

/// What a translation is run with.
#[derive(Clone, Debug)]
pub struct PipelineConfig {
    pub workdir: String,
    pub config_path: String,
    pub mode: PipelineMode,
    pub translate_backend: ResolvedBackend,
    pub alt_translate_backend: Option<ResolvedBackend>,
    pub rewrite_backend: Option<ResolvedBackend>,
    pub controller_backend: Option<ResolvedBackend>,
    pub threads: i32,
    pub gpu_layers: i32,
    pub source_lang: Option<String>,
    pub target_lang: Option<String>,
    pub autosave_every: usize,
    pub autosave_suffix: String,
    pub trace_dir: String,
    pub trace_prompts: bool,
    pub log_max_chars: usize,
    pub max_tus: Option<usize>,
    pub docx_filter_rules: Option<String>,
    /// The names of the models, each once, in their order.
    pub prompt_backends: Vec<String>,
}

/// The models of a run.
pub open spec fn models_of(cfg: AppConfig, plan: PlanV, args: PipelineArgs, probes: Probes) -> Result<
    (ResolvedV, Option<ResolvedV>, Option<ResolvedV>, Option<ResolvedV>),
    BackendErrorV,
> {
    match model_of(
        cfg,
        plan.translate_name,
        args.translate_model.deep_view(),
        or_else(args.ctx_translate, 8192),
        probes.translate,
    ) {
        Err(e) => Err(e),
        Ok(t) => match model_if(
            cfg,
            plan.alt_translate_name,
            args.alt_translate_model.deep_view(),
            4096,
            probes.alt_translate,
        ) {
            Err(e) => Err(e),
            Ok(a) => match model_if(
                cfg,
                plan.rewrite_name,
                args.rewrite_model.deep_view(),
                8192,
                probes.rewrite,
            ) {
                Err(e) => Err(e),
                Ok(w) => match model_if(
                    cfg,
                    plan.controller_name,
                    args.controller_model.deep_view(),
                    or_else(args.ctx_controller, 16384),
                    probes.controller,
                ) {
                    Err(e) => Err(e),
                    Ok(c) => Ok((t, a, w, c)),
                },
            },
        },
    }
}

/// Whether `n` is the name of one of the models of a run.
pub open spec fn is_model_name(
    n: Seq<char>,
    t: ResolvedV,
    a: Option<ResolvedV>,
    w: Option<ResolvedV>,
    c: Option<ResolvedV>,
) -> bool {
    ||| n == t.name
    ||| a is Some && n == a->Some_0.name
    ||| w is Some && n == w->Some_0.name
    ||| c is Some && n == c->Some_0.name
}

fn insert_name(v: &mut Vec<String>, name: &str)
    requires
        increasing(old(v).deep_view()),
    ensures
        increasing(final(v).deep_view()),
        forall|n: Seq<char>|
            #![trigger final(v).deep_view().contains(n)]
            final(v).deep_view().contains(n) <==> old(v).deep_view().contains(n) || n == name@,
{
    let ghost before = v.deep_view();
    let mut i: usize = 0;
    while i < v.len() && text_before(v[i].as_str(), name)
        invariant
            i <= v@.len(),
            v.deep_view() == before,
            increasing(before),
            forall|k: int| 0 <= k < i ==> text_less(#[trigger] before[k], name@),
        decreases v@.len() - i,
    {
        assert(before[i as int] == v@[i as int]@);
        i = i + 1;
    }
    if i < v.len() && str_eq(v[i].as_str(), name) {
        assert(before[i as int] == v@[i as int]@);
        assert forall|n: Seq<char>| before.contains(n) || n == name@ implies before.contains(
            n,
        ) by {
            if n == name@ {
                assert(before[i as int] == n);
            }
        }
        return;
    }
    proof {
        if i < v@.len() {
            assert(before[i as int] == v@[i as int]@);
            lemma_text_less(before[i as int], name@, name@);
        }
        assert forall|k: int| i <= k < before.len() implies text_less(
            name@,
            #[trigger] before[k],
        ) by {
            if k > i {
                lemma_text_less(name@, before[i as int], before[k]);
            }
        }
    }
    v.insert(i, owned(name));
    let ghost after = v.deep_view();
    proof {
        assert(after =~= before.insert(i as int, name@));
        assert forall|a: int, b: int| 0 <= a < b < after.len() implies text_less(
            #[trigger] after[a],
            #[trigger] after[b],
        ) by {
            if a < i && b > i {
                assert(text_less(before[a], before[b - 1]));
            } else if b < i {
                assert(text_less(before[a], before[b]));
            } else if a > i {
                assert(text_less(before[a - 1], before[b - 1]));
            }
        }
        assert forall|n: Seq<char>| #![trigger after.contains(n)] after.contains(n)
            <==> before.contains(n) || n == name@ by {
            if after.contains(n) {
                let k = choose|k: int| 0 <= k < after.len() && after[k] == n;
                if k < i {
                    assert(before[k] == n);
                } else if k > i {
                    assert(before[k - 1] == n);
                }
            }
            if before.contains(n) {
                let k = choose|k: int| 0 <= k < before.len() && before[k] == n;
                if k < i {
                    assert(after[k] == n);
                } else {
                    assert(after[k + 1] == n);
                }
            }
            if n == name@ {
                assert(after[i as int] == n);
            }
        }
    }
}

impl PipelineConfig {
    /// What a translation is run with, or why one of its models cannot be had.
    pub fn from_paths_and_args(
        paths: RunPaths,
        args: &PipelineArgs,
        cfg: &AppConfig,
        probes: &Probes,
    ) -> (r: Result<PipelineConfig, BackendError>)
        ensures
            match r {
                Err(e) => models_of(*cfg, planned(*args, *cfg), *args, *probes) == Err::<
                    (ResolvedV, Option<ResolvedV>, Option<ResolvedV>, Option<ResolvedV>),
                    BackendErrorV,
                >(e.deep_view()),
                Ok(c) => {
                    let plan = planned(*args, *cfg);
                    let t = c.translate_backend.deep_view();
                    let a = c.alt_translate_backend.deep_view();
                    let w = c.rewrite_backend.deep_view();
                    let k = c.controller_backend.deep_view();
                    &&& models_of(*cfg, plan, *args, *probes) == Ok::<
                        (ResolvedV, Option<ResolvedV>, Option<ResolvedV>, Option<ResolvedV>),
                        BackendErrorV,
                    >((t, a, w, k))
                    &&& c.workdir@ == paths.workdir@
                    &&& c.config_path@ == paths.config_path@
                    &&& c.trace_dir@ == paths.trace_dir@
                    &&& c.docx_filter_rules.deep_view() == paths.docx_filter_rules.deep_view()
                    &&& c.mode == plan.mode
                    &&& c.threads == plan.threads
                    &&& c.gpu_layers == plan.gpu_layers
                    &&& c.source_lang.deep_view() == args.source_lang.deep_view()
                    &&& c.target_lang.deep_view() == args.target_lang.deep_view()
                    &&& c.autosave_every == plan.autosave_every
                    &&& c.autosave_suffix@ == plan.autosave_suffix
                    &&& c.trace_prompts == plan.trace_prompts
                    &&& c.log_max_chars == plan.log_max_chars
                    &&& c.max_tus == plan.max_tus
                    &&& increasing(c.prompt_backends.deep_view())
                    &&& forall|n: Seq<char>|
                        #![trigger c.prompt_backends.deep_view().contains(n)]
                        c.prompt_backends.deep_view().contains(n) <==> is_model_name(n, t, a, w, k)
                },
            },
    {
        let plan: PipelinePlan = plan_run(args, cfg);
        let translate_backend: ResolvedBackend = match find_model(
            cfg,
            plan.translate_name.as_str(),
            &args.translate_model,
            ctx_or(args.ctx_translate, 8192),
            &probes.translate,
        ) {
            Ok(b) => b,
            Err(e) => {
                return Err(e);
            },
        };
        let alt_translate_backend: Option<ResolvedBackend> = match find_model_if(
            cfg,
            &plan.alt_translate_name,
            &args.alt_translate_model,
            4096,
            &probes.alt_translate,
        ) {
            Ok(b) => b,
            Err(e) => {
                return Err(e);
            },
        };
        let rewrite_backend: Option<ResolvedBackend> = match find_model_if(
            cfg,
            &plan.rewrite_name,
            &args.rewrite_model,
            8192,
            &probes.rewrite,
        ) {
            Ok(b) => b,
            Err(e) => {
                return Err(e);
            },
        };
        let controller_backend: Option<ResolvedBackend> = match find_model_if(
            cfg,
            &plan.controller_name,
            &args.controller_model,
            ctx_or(args.ctx_controller, 16384),
            &probes.controller,
        ) {
            Ok(b) => b,
            Err(e) => {
                return Err(e);
            },
        };
        let mut prompt_backends: Vec<String> = Vec::new();
        assert(prompt_backends.deep_view() =~= Seq::empty());
        insert_name(&mut prompt_backends, translate_backend.name.as_str());
        match &alt_translate_backend {
            Some(b) => insert_name(&mut prompt_backends, b.name.as_str()),
            None => {},
        }
        match &rewrite_backend {
            Some(b) => insert_name(&mut prompt_backends, b.name.as_str()),
            None => {},
        }
        match &controller_backend {
            Some(b) => insert_name(&mut prompt_backends, b.name.as_str()),
            None => {},
        }
        Ok(
            PipelineConfig {
                workdir: paths.workdir,
                config_path: paths.config_path,
                mode: plan.mode,
                translate_backend,
                alt_translate_backend,
                rewrite_backend,
                controller_backend,
                threads: plan.threads,
                gpu_layers: plan.gpu_layers,
                source_lang: clone_opt(&args.source_lang),
                target_lang: clone_opt(&args.target_lang),
                autosave_every: plan.autosave_every,
                autosave_suffix: plan.autosave_suffix,
                trace_dir: paths.trace_dir,
                trace_prompts: plan.trace_prompts,
                log_max_chars: plan.log_max_chars,
                max_tus: plan.max_tus,
                docx_filter_rules: paths.docx_filter_rules,
                prompt_backends,
            },
        )
    }
}

/// A run in basic mode has one model, whatever else is named.
pub proof fn law_basic_has_one_model(args: PipelineArgs, cfg: AppConfig)
    requires
        mode_of(cfg.pipeline.mode.deep_view()) == PipelineMode::Basic,
    ensures
        planned(args, cfg).alt_translate_name is None,
        planned(args, cfg).rewrite_name is None,
        planned(args, cfg).controller_name is None,
{
}

/// Whether a file of the first configuration is written: it is not there, or it is to be written
/// over.
pub fn writes_file(is_there: bool, force: bool) -> (r: bool)
    ensures
        r == (!is_there || force),
{
    !is_there || force
}

/// The name of the configuration file.
pub const CONFIG_FILE: &'static str = "muggle-translator.toml";

/// The name of the file with the rules for cleaning documents.
pub const FILTER_RULES_FILE: &'static str = "docx-filter-rules.toml";

/// The files that are written at first, each with its text, in the order in which they are written:
/// the prompts, the rules for cleaning documents, and the configuration.
pub fn initial_files() -> (r: Vec<(String, &'static str)>)
    ensures
        r@.len() == 10,
        forall|i: int|
            0 <= i < 8 ==> (#[trigger] r@[i]).0@ == DEFAULT_PROMPTS_DIR@ + "/"@
                + prompt_files()[i].0@ && r@[i].1 == prompt_files()[i].1,
        r@[8].0@ == FILTER_RULES_FILE@,
        r@[8].1 == DEFAULT_DOCX_FILTER_RULES_TOML,
        r@[9].0@ == CONFIG_FILE@,
        r@[9].1 == DEFAULT_CONFIG_TOML,
{
    let prompts: Vec<(&'static str, &'static str)> = default_prompt_files();
    let mut out: Vec<(String, &'static str)> = Vec::new();
    let mut i: usize = 0;
    while i < prompts.len()
        invariant
            i <= prompts@.len(),
            prompts@ == prompt_files(),
            out@.len() == i,
            forall|k: int|
                0 <= k < i ==> (#[trigger] out@[k]).0@ == DEFAULT_PROMPTS_DIR@ + "/"@
                    + prompt_files()[k].0@ && out@[k].1 == prompt_files()[k].1,
        decreases prompts@.len() - i,
    {
        let (file, text) = prompts[i];
        let mut path: String = owned(DEFAULT_PROMPTS_DIR);
        append(&mut path, "/");
        append(&mut path, file);
        out.push((path, text));
        i = i + 1;
    }
    out.push((owned(FILTER_RULES_FILE), DEFAULT_DOCX_FILTER_RULES_TOML));
    out.push((owned(CONFIG_FILE), DEFAULT_CONFIG_TOML));
    out
}

/// The configuration that is written at first.
pub const DEFAULT_CONFIG_TOML: &'static str = r#"[pipeline]
mode = "basic"
 translate_backend = "hy_mt"
# In "basic" mode, ONLY translate_backend is used.
# Switch to mode="full" to enable these additional stages:
# alt_translate_backend = "hy_mt"
# rewrite_backend = "translategemma_12b"
# controller_backend = "gemma3_4b"

threads = -1
gpu_layers = -1

autosave_every = 10
autosave_suffix = "_进度.docx"

trace_dir = "_trace"
trace_prompts = true
log_max_chars = 240
docx_filter_rules = "docx-filter-rules.toml"

[prompts]
translate_a = "prompts/translate_a.txt"
translate_b = "prompts/translate_b.txt"
translate_repair = "prompts/translate_repair.txt"
para_notes = "prompts/para_notes.json.txt"
json_repair = "prompts/json_repair.txt"
fuse_ab = "prompts/fuse_ab.txt"
stitch_audit = "prompts/stitch_audit.json.txt"
patch = "prompts/patch.txt"

[models]
model_dir = "."

[models.backends.hy_mt]
path = "HY-MT1.5-1.8B-Q8_0.gguf"
template_hint = "hunyuan-dense"
ctx_size = 4096
gpu_layers = -1
batch_size = 512
ubatch_size = 512
offload_kqv = true

# Optional: bind prompts to this backend (different models follow different prompt styles).
# [models.backends.hy_mt.prompts]
# translate_a = "prompts/backends/hy_mt/translate_a.txt"
# translate_b = "prompts/backends/hy_mt/translate_a.txt"
# translate_repair = "prompts/backends/hy_mt/translate_repair.txt"

[models.backends.translategemma_4b]
path = "translategemma-4b-it.i1-Q5_K_S.gguf"
template_hint = "gemma"
ctx_size = 8192
gpu_layers = -1
batch_size = 512
ubatch_size = 512
offload_kqv = true

# Optional:
# [models.backends.translategemma_4b.prompts]
# translate_a = "prompts/backends/translategemma/translate_a.txt"
# translate_b = "prompts/backends/translategemma/translate_a.txt"
# translate_repair = "prompts/backends/translategemma/translate_repair.txt"

[models.backends.translategemma_12b]
path = "translategemma-12b-it.i1-Q6_K.gguf"
template_hint = "gemma"
ctx_size = 8192
gpu_layers = -1
batch_size = 512
ubatch_size = 512
offload_kqv = true

[models.backends.gemma3_4b]
path = "gemma-3-4b-it.Q6_K.gguf"
template_hint = "gemma"
ctx_size = 16384
gpu_layers = -1
batch_size = 512
ubatch_size = 512
offload_kqv = true
"#;

/// The rules for cleaning documents that are written at first.
pub const DEFAULT_DOCX_FILTER_RULES_TOML: &'static str = r#"version = 1

# ---------------------
# Revision/meta cleanup
# ---------------------
# These attributes affect change-tracking/session metadata only.
# Removing them does not change visible layout.
strip_attributes = [
  "w14:paraId",
  "w14:textId",
  "w:rsidR",
  "w:rsidRDefault",
  "w:rsidP",
  "w:rsidRPr",
  "w:rsidDel",
  "w:rsidSect",
]

# ----------------
# Non-visual marks
# ----------------
drop_elements = [
  # Proofing/spellcheck markers (non-visual)
  "w:proofErr",
]

# ---------------------------
# Run-level micro-typography
# ---------------------------
# These run properties often exist only to fine-tune spacing (e.g., each word/space becomes a run),
# which makes slot_texts extremely fragmented. We drop them and then merge adjacent runs that have
# the same remaining rPr fingerprint.
drop_run_properties = [
  # Character spacing (CT_SignedTwipsMeasure)
  "w:spacing",
  # Text scale (percentage; CT_TextScale)
  "w:w",
  # Kerning (CT_HpsMeasure)
  "w:kern",
]

# Remove whitespace-only XML text nodes unless inside these elements.
# This strips pretty-printing/newlines in XML parts like [Content_Types].xml and styles.xml.
preserve_whitespace_text_in = [
  "w:t",
  "w:delText",
  "w:instrText",
  "a:t",
]

# Merge adjacent <w:r> runs (only when they are simple text runs: rPr? + t)
# after applying drop_run_properties. This reduces fragmentation while keeping major formatting.
merge_adjacent_runs = true

# Which parts should run-merge be applied to.
# (We still apply attribute/whitespace cleanup to all XML parts.)
merge_run_parts = [
  "word/document.xml",
  "word/header*.xml",
  "word/footer*.xml",
]
"#;

/// What an argument says goes before what the configuration says, and that before what is set where
/// neither says anything.
pub proof fn law_arguments_come_first(args: PipelineArgs, cfg: AppConfig)
    ensures
        ({
            let plan = planned(args, cfg);
            let p = cfg.pipeline;
            &&& args.translate_backend matches Some(x) ==> plan.translate_name == x@
            &&& args.translate_backend is None ==> (p.translate_backend matches Some(x)
                ==> plan.translate_name == x@)
            &&& args.translate_backend is None && p.translate_backend is None
                ==> plan.translate_name == "translategemma_4b"@
            &&& args.threads matches Some(n) ==> plan.threads == n
            &&& args.threads is None ==> (p.threads matches Some(n) ==> plan.threads == n)
            &&& args.threads is None && p.threads is None ==> plan.threads == -1
            &&& args.gpu_layers matches Some(n) ==> plan.gpu_layers == n
            &&& args.gpu_layers is None ==> (p.gpu_layers matches Some(n) ==> plan.gpu_layers == n)
            &&& args.gpu_layers is None && p.gpu_layers is None ==> plan.gpu_layers == -1
            &&& args.max_tus matches Some(n) ==> (n > 0 ==> plan.max_tus == Some(n)) && (n == 0
                ==> plan.max_tus is None)
            &&& args.max_tus is None ==> (p.max_tus matches Some(n) ==> (n > 0 ==> plan.max_tus
                == Some(n)) && (n == 0 ==> plan.max_tus is None))
            &&& args.max_tus is None && p.max_tus is None ==> plan.max_tus is None
            &&& p.autosave_every matches Some(n) ==> (n > 0 ==> plan.autosave_every == n) && (n == 0
                ==> plan.autosave_every == 1)
            &&& p.autosave_every is None ==> plan.autosave_every == 10
            &&& p.trace_prompts matches Some(b) ==> plan.trace_prompts == b
            &&& p.trace_prompts is None ==> plan.trace_prompts
            &&& p.log_max_chars matches Some(n) ==> plan.log_max_chars == n
            &&& p.log_max_chars is None ==> plan.log_max_chars == 240
        }),
{
}

/// In the full mode there is a model for rewriting, and models for a second draft and for control where
/// an argument or the configuration names them: an argument goes before the configuration, and a blank
/// name counts as none.
pub proof fn law_full_names_its_models(args: PipelineArgs, cfg: AppConfig)
    requires
        cfg.pipeline.mode matches Some(m) && ascii_lower(trimmed(m@)) == "full"@,
    ensures
        ({
            let plan = planned(args, cfg);
            let p = cfg.pipeline;
            &&& plan.mode == PipelineMode::Full
            &&& args.rewrite_backend matches Some(x) ==> plan.rewrite_name == Some(x@)
            &&& args.rewrite_backend is None ==> (p.rewrite_backend matches Some(x)
                ==> plan.rewrite_name == Some(x@))
            &&& args.rewrite_backend is None && p.rewrite_backend is None ==> plan.rewrite_name
                == Some("translategemma_12b"@)
            &&& args.alt_translate_backend matches Some(x) ==> plan.alt_translate_name == (
            if is_blank(x@) {
                None
            } else {
                Some(trimmed(x@))
            })
            &&& args.alt_translate_backend is None ==> (p.alt_translate_backend matches Some(x)
                ==> plan.alt_translate_name == (if is_blank(x@) {
                None
            } else {
                Some(trimmed(x@))
            }))
            &&& args.controller_backend matches Some(x) ==> plan.controller_name == (if is_blank(
                x@,
            ) {
                None
            } else {
                Some(trimmed(x@))
            })
            &&& args.controller_backend is None ==> (p.controller_backend matches Some(x)
                ==> plan.controller_name == (if is_blank(x@) {
                None
            } else {
                Some(trimmed(x@))
            }))
            &&& args.controller_backend is None && p.controller_backend is None
                ==> plan.controller_name is None
        }),
{
}

} // verus!
