//! The configuration file, and the models it names.

use crate::chars::{blank, is_blank, owned, str_eq, trim, trimmed};
use crate::vecs::{clone_opt, push_deep};
use vstd::prelude::*;

verus! {

/// The configuration.
#[derive(Clone, Debug, Default)]
pub struct AppConfig {
    pub pipeline: PipelineSection,
    pub prompts: PromptsSection,
    pub models: ModelsSection,
}

/// How documents are translated.
#[derive(Clone, Debug, Default)]
pub struct PipelineSection {
    /// `basic` or `full`.
    ///
    /// - basic: the texts of the slots are translated, and the paragraphs for reading; one model.
    /// - full: two drafts, their fusion, and patches; several models.
    pub mode: Option<String>,
    pub translate_backend: Option<String>,
    pub alt_translate_backend: Option<String>,
    pub rewrite_backend: Option<String>,
    pub polish_backend: Option<String>,
    pub controller_backend: Option<String>,
    pub threads: Option<i32>,
    pub gpu_layers: Option<i32>,
    pub autosave_every: Option<usize>,
    pub autosave_suffix: Option<String>,
    pub trace_dir: Option<String>,
    pub trace_prompts: Option<bool>,
    pub log_max_chars: Option<usize>,
    /// The file of rules by which documents are cleaned before they are translated.
    pub docx_filter_rules: Option<String>,
    /// How many units are translated at most.
    pub max_tus: Option<usize>,
}

/// The models, by name.
#[derive(Debug, Default)]
pub struct ModelsSection {
    pub backends: Vec<NamedBackend>,
    /// Where model files are looked for first. Relative to the configuration file.
    pub model_dir: Option<String>,
}

impl Clone for ModelsSection {
    fn clone(&self) -> (r: ModelsSection) {
        let mut backends: Vec<NamedBackend> = Vec::new();
        let mut i: usize = 0;
        while i < self.backends.len()
            invariant
                i <= self.backends@.len(),
            decreases self.backends@.len() - i,
        {
            backends.push(self.backends[i].clone());
            i = i + 1;
        }
        ModelsSection { backends, model_dir: clone_opt(&self.model_dir) }
    }
}

/// A model and its name.
#[derive(Clone, Debug, Default)]
pub struct NamedBackend {
    pub name: String,
    pub backend: ModelBackend,
}

/// A model: its file, and how it is run.
#[derive(Clone, Debug, Default)]
pub struct ModelBackend {
    pub path: String,
    pub template_hint: Option<String>,
    pub ctx_size: Option<u32>,
    pub threads: Option<i32>,
    pub gpu_layers: Option<i32>,
    pub batch_size: Option<u32>,
    pub ubatch_size: Option<u32>,
    pub offload_kqv: Option<bool>,
}

/// A model whose file was found.
#[derive(Clone, Debug)]
pub struct ResolvedBackend {
    pub name: String,
    pub model_path: String,
    pub template_hint: Option<String>,
    pub ctx_size: u32,
    pub threads: Option<i32>,
    pub gpu_layers: Option<i32>,
    pub batch_size: Option<u32>,
    pub ubatch_size: Option<u32>,
    pub offload_kqv: Option<bool>,
}

/// The model of a [`ResolvedBackend`].
#[verifier::ext_equal]
pub struct ResolvedV {
    pub name: Seq<char>,
    pub model_path: Seq<char>,
    pub template_hint: Option<Seq<char>>,
    pub ctx_size: u32,
    pub threads: Option<i32>,
    pub gpu_layers: Option<i32>,
    pub batch_size: Option<u32>,
    pub ubatch_size: Option<u32>,
    pub offload_kqv: Option<bool>,
}

impl DeepView for ResolvedBackend {
    type V = ResolvedV;

    open spec fn deep_view(&self) -> ResolvedV {
        ResolvedV {
            name: self.name@,
            model_path: self.model_path@,
            template_hint: self.template_hint.deep_view(),
            ctx_size: self.ctx_size,
            threads: self.threads,
            gpu_layers: self.gpu_layers,
            batch_size: self.batch_size,
            ubatch_size: self.ubatch_size,
            offload_kqv: self.offload_kqv,
        }
    }
}

/// The files of the prompts.
#[derive(Clone, Debug, Default)]
pub struct PromptsSection {
    pub translate_a: Option<String>,
    pub translate_b: Option<String>,
    pub translate_repair: Option<String>,
    pub para_notes: Option<String>,
    pub json_repair: Option<String>,
    pub fuse_ab: Option<String>,
    pub stitch_audit: Option<String>,
    pub patch: Option<String>,
}

/// The directories in which the file of a model is searched for, in their order: the one that the
/// configuration names, the one that the program is run in, the one that it stands in, that of the
/// configuration, and the one for models.
pub open spec fn dirs_in_order(
    named: Option<Seq<char>>,
    current: Option<Seq<char>>,
    program: Option<Seq<char>>,
    config: Seq<char>,
    models: Seq<char>,
) -> Seq<Seq<char>> {
    one_or_none(named) + one_or_none(current) + one_or_none(program) + seq![config, models]
}

/// A value that may be there, as a sequence.
pub open spec fn one_or_none(d: Option<Seq<char>>) -> Seq<Seq<char>> {
    match d {
        Some(d) => seq![d],
        None => Seq::empty(),
    }
}

/// The directories in which the file of a model is searched for.
pub fn search_dirs(
    named: Option<String>,
    current: Option<String>,
    program: Option<String>,
    config: String,
    models: String,
) -> (r: Vec<String>)
    ensures
        r.deep_view() == dirs_in_order(
            named.deep_view(),
            current.deep_view(),
            program.deep_view(),
            config@,
            models@,
        ),
{
    let mut r: Vec<String> = Vec::new();
    assert(r.deep_view() =~= Seq::<Seq<char>>::empty());
    if let Some(d) = named {
        push_deep(&mut r, d);
    }
    assert(r.deep_view() =~= one_or_none(named.deep_view()));
    if let Some(d) = current {
        push_deep(&mut r, d);
    }
    assert(r.deep_view() =~= one_or_none(named.deep_view()) + one_or_none(current.deep_view()));
    if let Some(d) = program {
        push_deep(&mut r, d);
    }
    push_deep(&mut r, config);
    push_deep(&mut r, models);
    assert(r.deep_view() =~= dirs_in_order(
        named.deep_view(),
        current.deep_view(),
        program.deep_view(),
        config@,
        models@,
    ));
    r
}

/// A directory in which a model is looked for, and what was found there.
pub struct DirProbe {
    pub path: String,
    pub is_dir: bool,
    /// The file of the model in this directory, and whether it exists.
    pub candidate: String,
    pub has_candidate: bool,
    /// For each name that the file may have, the file of that name in this directory or above it.
    pub found_upwards: Vec<Option<String>>,
}

/// Why a model cannot be had.
#[derive(Clone, Debug)]
pub enum BackendError {
    /// The file of the model is not there. Holds where it was looked for.
    ModelNotFound { name: String, path: String, searched: Vec<String> },
    /// The model is not in the configuration, and no file has a name that it may have.
    NotConfigured { name: String },
}

/// The model of a [`BackendError`].
#[verifier::ext_equal]
pub enum BackendErrorV {
    ModelNotFound { name: Seq<char>, path: Seq<char>, searched: Seq<Seq<char>> },
    NotConfigured { name: Seq<char> },
}

impl DeepView for BackendError {
    type V = BackendErrorV;

    open spec fn deep_view(&self) -> BackendErrorV {
        match self {
            BackendError::ModelNotFound { name, path, searched } => BackendErrorV::ModelNotFound {
                name: name@,
                path: path@,
                searched: searched.deep_view(),
            },
            BackendError::NotConfigured { name } => BackendErrorV::NotConfigured { name: name@ },
        }
    }
}

/// Whether the directory at `i` is looked into: it is one, and none before it has its path.
pub open spec fn dir_counts(dirs: Seq<DirProbe>, i: int) -> bool {
    dirs[i].is_dir && forall|k: int|
        0 <= k < i ==> !((#[trigger] dirs[k]).is_dir && dirs[k].path@ == dirs[i].path@)
}

fn counts(dirs: &Vec<DirProbe>, i: usize) -> (r: bool)
    requires
        i < dirs@.len(),
    ensures
        r == dir_counts(dirs@, i as int),
{
    if !dirs[i].is_dir {
        return false;
    }
    let mut k: usize = 0;
    while k < i
        invariant
            k <= i < dirs@.len(),
            forall|j: int|
                0 <= j < k ==> !((#[trigger] dirs@[j]).is_dir && dirs@[j].path@ == dirs@[i as int].path@),
        decreases i - k,
    {
        if dirs[k].is_dir && str_eq(dirs[k].path.as_str(), dirs[i].path.as_str()) {
            assert(dirs@[k as int].is_dir);
            return false;
        }
        k = k + 1;
    }
    true
}

/// The place of a model in the configuration.
pub open spec fn backend_place(backends: Seq<NamedBackend>, name: Seq<char>) -> Option<int>
    decreases backends.len(),
{
    if backends.len() == 0 {
        None
    } else if backends.last().name@ == name {
        Some(backends.len() - 1)
    } else {
        backend_place(backends.drop_last(), name)
    }
}

fn find_backend<'a>(backends: &'a Vec<NamedBackend>, name: &str) -> (r: Option<&'a ModelBackend>)
    ensures
        match r {
            Some(b) => match backend_place(backends@, name@) {
                Some(i) => 0 <= i < backends@.len() && *b == backends@[i].backend,
                None => false,
            },
            None => backend_place(backends@, name@) is None,
        },
{
    let mut i: usize = backends.len();
    assert(backends@.take(i as int) =~= backends@);
    while i > 0
        invariant
            i <= backends@.len(),
            backend_place(backends@.take(i as int), name@) == backend_place(backends@, name@),
        decreases i,
    {
        assert(backends@.take(i as int).last() == backends@[i - 1]);
        assert(backends@.take(i as int).drop_last() =~= backends@.take(i - 1));
        if str_eq(backends[i - 1].name.as_str(), name) {
            return Some(&backends[i - 1].backend);
        }
        i = i - 1;
    }
    None
}

/// A text without white space around it, or another one where there is none.
pub open spec fn hint_or(t: Option<Seq<char>>, other: Option<Seq<char>>) -> Option<Seq<char>> {
    match t {
        Some(s) => if is_blank(s) {
            other
        } else {
            Some(trimmed(s))
        },
        None => other,
    }
}

/// The first directory from `i` on that is looked into and holds the file of the model.
pub open spec fn first_candidate(dirs: Seq<DirProbe>, i: int) -> Option<int>
    decreases dirs.len() - i,
{
    if i < 0 || i >= dirs.len() {
        None
    } else if dir_counts(dirs, i) && dirs[i].has_candidate {
        Some(i)
    } else {
        first_candidate(dirs, i + 1)
    }
}

/// The first file from the directory `i` on that has the name at `f`.
pub open spec fn first_found(dirs: Seq<DirProbe>, f: int, i: int) -> Option<Seq<char>>
    decreases dirs.len() - i,
{
    if i < 0 || i >= dirs.len() {
        None
    } else if dir_counts(dirs, i) && f < dirs[i].found_upwards@.len()
        && dirs[i].found_upwards@[f] is Some {
        Some(dirs[i].found_upwards@[f]->Some_0@)
    } else {
        first_found(dirs, f, i + 1)
    }
}

/// The first file that has one of the names from `f` on, in the order of the names.
pub open spec fn first_named(dirs: Seq<DirProbe>, names: nat, f: int) -> Option<Seq<char>>
    decreases names - f,
{
    if f < 0 || f >= names {
        None
    } else if first_found(dirs, f, 0) is Some {
        first_found(dirs, f, 0)
    } else {
        first_named(dirs, names, f + 1)
    }
}

/// A model with what is set for it where that is not said in the configuration.
pub open spec fn resolved(
    name: Seq<char>,
    path: Seq<char>,
    b: ModelBackend,
    default_ctx: u32,
    default_hint: Option<Seq<char>>,
) -> ResolvedV {
    ResolvedV {
        name,
        model_path: path,
        template_hint: hint_or(b.template_hint.deep_view(), default_hint),
        ctx_size: match b.ctx_size {
            Some(n) => n,
            None => default_ctx,
        },
        threads: b.threads,
        gpu_layers: b.gpu_layers,
        batch_size: b.batch_size,
        ubatch_size: b.ubatch_size,
        offload_kqv: b.offload_kqv,
    }
}

/// A model of which only the file is known.
pub open spec fn resolved_bare(
    name: Seq<char>,
    path: Seq<char>,
    ctx: u32,
    hint: Option<Seq<char>>,
) -> ResolvedV {
    ResolvedV {
        name,
        model_path: path,
        template_hint: hint,
        ctx_size: ctx,
        threads: None,
        gpu_layers: None,
        batch_size: None,
        ubatch_size: None,
        offload_kqv: None,
    }
}

/// The model of a name: as the configuration has it, where its file is there or in one of the
/// directories, and else by the names that its file may have.
pub open spec fn backend_resolved(
    cfg: AppConfig,
    name: Seq<char>,
    dirs: Seq<DirProbe>,
    relative: bool,
    exists_as_is: bool,
    names: nat,
    default_ctx: u32,
    default_hint: Option<Seq<char>>,
) -> Result<ResolvedV, BackendErrorV> {
    match backend_place(cfg.models.backends@, name) {
        Some(k) => {
            let b = cfg.models.backends@[k].backend;
            if relative {
                match first_candidate(dirs, 0) {
                    Some(i) => Ok(resolved(name, dirs[i].candidate@, b, default_ctx, default_hint)),
                    None => Err(
                        BackendErrorV::ModelNotFound {
                            name,
                            path: b.path@,
                            searched: dirs_searched(dirs, dirs.len()),
                        },
                    ),
                }
            } else if exists_as_is {
                Ok(resolved(name, b.path@, b, default_ctx, default_hint))
            } else {
                Err(
                    BackendErrorV::ModelNotFound {
                        name,
                        path: b.path@,
                        searched: Seq::empty(),
                    },
                )
            }
        },
        None => match first_named(dirs, names, 0) {
            Some(p) => Ok(resolved_bare(name, p, default_ctx, default_hint)),
            None => Err(BackendErrorV::NotConfigured { name }),
        },
    }
}

/// The model of what a search for a model gave.
pub open spec fn resolution(r: Result<ResolvedBackend, BackendError>) -> Result<
    ResolvedV,
    BackendErrorV,
> {
    match r {
        Ok(b) => Ok(b.deep_view()),
        Err(e) => Err(e.deep_view()),
    }
}

fn hint(t: &Option<String>, other: Option<&str>) -> (r: Option<String>)
    ensures
        r.deep_view() == hint_or(t.deep_view(), other.deep_view()),
{
    match t {
        Some(s) => if !blank(s.as_str()) {
            return Some(trim(s.as_str()));
        },
        None => {},
    }
    match other {
        Some(s) => Some(owned(s)),
        None => None,
    }
}

/// The paths of those of the first `n` directories that are looked into.
pub open spec fn dirs_searched(dirs: Seq<DirProbe>, n: nat) -> Seq<Seq<char>>
    decreases n,
{
    if n == 0 || n > dirs.len() {
        Seq::empty()
    } else if dir_counts(dirs, n - 1) {
        dirs_searched(dirs, (n - 1) as nat).push(dirs[n - 1].path@)
    } else {
        dirs_searched(dirs, (n - 1) as nat)
    }
}

fn searched_dirs(dirs: &Vec<DirProbe>) -> (r: Vec<String>)
    ensures
        r.deep_view() == dirs_searched(dirs@, dirs@.len()),
{
    let mut out: Vec<String> = Vec::new();
    let mut i: usize = 0;
    assert(out.deep_view() =~= Seq::empty());
    while i < dirs.len()
        invariant
            i <= dirs@.len(),
            out.deep_view() == dirs_searched(dirs@, i as nat),
        decreases dirs@.len() - i,
    {
        if counts(dirs, i) {
            push_deep(&mut out, dirs[i].path.clone());
        }
        i = i + 1;
    }
    out
}

/// The model of a name, given the directories it is looked for in: whether the path in the
/// configuration is relative, and if not whether it exists; and how many names its file may have.
pub fn resolve_backend(
    cfg: &AppConfig,
    name: &str,
    dirs: &Vec<DirProbe>,
    relative: bool,
    exists_as_is: bool,
    names: usize,
    default_ctx: u32,
    default_template_hint: Option<&str>,
) -> (r: Result<ResolvedBackend, BackendError>)
    ensures
        resolution(r) == backend_resolved(
            *cfg,
            name@,
            dirs@,
            relative,
            exists_as_is,
            names as nat,
            default_ctx,
            default_template_hint.deep_view(),
        ),
{
    match find_backend(&cfg.models.backends, name) {
        Some(b) => {
            let path: String = if relative {
                let mut i: usize = 0;
                while i < dirs.len() && !(dirs[i].has_candidate && counts(dirs, i))
                    invariant
                        i <= dirs@.len(),
                        first_candidate(dirs@, i as int) == first_candidate(dirs@, 0),
                    decreases dirs@.len() - i,
                {
                    i = i + 1;
                }
                if i >= dirs.len() {
                    return Err(
                        BackendError::ModelNotFound {
                            name: owned(name),
                            path: b.path.clone(),
                            searched: searched_dirs(dirs),
                        },
                    );
                }
                dirs[i].candidate.clone()
            } else {
                if !exists_as_is {
                    let searched: Vec<String> = Vec::new();
                    assert(searched.deep_view() =~= Seq::empty());
                    return Err(
                        BackendError::ModelNotFound {
                            name: owned(name),
                            path: b.path.clone(),
                            searched,
                        },
                    );
                }
                b.path.clone()
            };
            Ok(
                ResolvedBackend {
                    name: owned(name),
                    model_path: path,
                    template_hint: hint(&b.template_hint, default_template_hint),
                    ctx_size: match b.ctx_size {
                        Some(n) => n,
                        None => default_ctx,
                    },
                    threads: b.threads,
                    gpu_layers: b.gpu_layers,
                    batch_size: b.batch_size,
                    ubatch_size: b.ubatch_size,
                    offload_kqv: b.offload_kqv,
                },
            )
        },
        None => {
            let mut f: usize = 0;
            while f < names
                invariant
                    f <= names,
                    first_named(dirs@, names as nat, f as int) == first_named(
                        dirs@,
                        names as nat,
                        0,
                    ),
                    backend_place(cfg.models.backends@, name@) is None,
                decreases names - f,
            {
                let mut i: usize = 0;
                while i < dirs.len()
                    invariant
                        i <= dirs@.len(),
                        f < names,
                        first_found(dirs@, f as int, i as int) == first_found(dirs@, f as int, 0),
                        first_named(dirs@, names as nat, f as int) == first_named(
                            dirs@,
                            names as nat,
                            0,
                        ),
                        backend_place(cfg.models.backends@, name@) is None,
                    decreases dirs@.len() - i,
                {
                    if f < dirs[i].found_upwards.len() && counts(dirs, i) {
                        match &dirs[i].found_upwards[f] {
                            Some(p) => {
                                let r = ResolvedBackend {
                                    name: owned(name),
                                    model_path: p.clone(),
                                    template_hint: match default_template_hint {
                                        Some(s) => Some(owned(s)),
                                        None => None,
                                    },
                                    ctx_size: default_ctx,
                                    threads: None,
                                    gpu_layers: None,
                                    batch_size: None,
                                    ubatch_size: None,
                                    offload_kqv: None,
                                };
                                assert(r.deep_view() =~= resolved_bare(
                                    name@,
                                    p@,
                                    default_ctx,
                                    default_template_hint.deep_view(),
                                ));
                                return Ok(r);
                            },
                            None => {},
                        }
                    }
                    i = i + 1;
                }
                f = f + 1;
            }
            Err(BackendError::NotConfigured { name: owned(name) })
        },
    }
}

/// The file of a model that the configuration names by a relative path is the one in the first
/// directory that has it; by a full path, the one there; and a model that it does not name is the first
/// file found under one of the names that it may have. What the configuration says of the model goes
/// before what is set else.
pub proof fn law_model_is_found(
    cfg: AppConfig,
    name: Seq<char>,
    dirs: Seq<DirProbe>,
    exists_as_is: bool,
    names: nat,
    ctx: u32,
    hint: Option<Seq<char>>,
    k: int,
    i: int,
)
    requires
        0 <= k < cfg.models.backends@.len(),
        cfg.models.backends@[k].name@ == name,
        forall|j: int|
            k < j < cfg.models.backends@.len() ==> (#[trigger] cfg.models.backends@[j]).name@ != name,
    ensures
        0 <= i < dirs.len() && dirs[i].is_dir && dirs[i].has_candidate && (forall|j: int|
            0 <= j < i ==> !((#[trigger] dirs[j]).is_dir)) ==> (backend_resolved(
            cfg,
            name,
            dirs,
            true,
            exists_as_is,
            names,
            ctx,
            hint,
        ) matches Ok(r) && r.model_path == dirs[i].candidate@ && r.name == name && r.ctx_size == (
        match cfg.models.backends@[k].backend.ctx_size {
            Some(n) => n,
            None => ctx,
        }) && r.threads == cfg.models.backends@[k].backend.threads && r.gpu_layers
            == cfg.models.backends@[k].backend.gpu_layers),
        exists_as_is ==> (backend_resolved(
            cfg,
            name,
            dirs,
            false,
            exists_as_is,
            names,
            ctx,
            hint,
        ) matches Ok(r) && r.model_path == cfg.models.backends@[k].backend.path@),
        !exists_as_is ==> backend_resolved(
            cfg,
            name,
            dirs,
            false,
            exists_as_is,
            names,
            ctx,
            hint,
        ) is Err,
{
    lemma_backend_place(cfg.models.backends@, name, k);
    if 0 <= i < dirs.len() && dirs[i].is_dir && dirs[i].has_candidate && (forall|j: int|
        0 <= j < i ==> !((#[trigger] dirs[j]).is_dir)) {
        lemma_first_candidate(dirs, 0, i);
    }
}

proof fn lemma_backend_place(backends: Seq<NamedBackend>, name: Seq<char>, k: int)
    requires
        0 <= k < backends.len(),
        backends[k].name@ == name,
        forall|j: int| k < j < backends.len() ==> (#[trigger] backends[j]).name@ != name,
    ensures
        backend_place(backends, name) == Some(k),
    decreases backends.len(),
{
    if k < backends.len() - 1 {
        let front = backends.drop_last();
        assert(backends[backends.len() - 1].name@ != name);
        assert(forall|j: int| 0 <= j < front.len() ==> #[trigger] front[j] == backends[j]);
        lemma_backend_place(front, name, k);
    }
}

proof fn lemma_first_candidate(dirs: Seq<DirProbe>, n: int, i: int)
    requires
        0 <= n <= i < dirs.len(),
        dirs[i].is_dir,
        dirs[i].has_candidate,
        forall|j: int| 0 <= j < i ==> !((#[trigger] dirs[j]).is_dir),
    ensures
        first_candidate(dirs, n) == Some(i),
    decreases i - n,
{
    if n < i {
        assert(!dirs[n].is_dir);
        lemma_first_candidate(dirs, n + 1, i);
    } else {
        assert(dir_counts(dirs, i));
    }
}

} // verus!
