use muggle_translator::config::{
    resolve_backend, search_dirs, AppConfig, BackendError, DirProbe, ModelBackend, NamedBackend, PromptsSection,
    ResolvedBackend,
};
use muggle_translator::models::native::{
    context_size, decide_add_bos, find_file_upwards, generation_room, prompt_batches,
    NativeModelConfig, PromptError,
};
use muggle_translator::pipeline::config::{
    initial_files, plan_run, writes_file, PipelineArgs, PipelineConfig, PipelineMode, Probe, Probes,
    RunPaths, DEFAULT_CONFIG_TOML, DEFAULT_DOCX_FILTER_RULES_TOML,
};
use muggle_translator::pipeline::prompts::{
    default_prompt_files, prompt_path, PromptSet, DEFAULT_FUSE_AB_TEXT, DEFAULT_PATCH,
    DEFAULT_TRANSLATE_A_TEXT,
};
use muggle_translator::pipeline::run::{
    first_step, next_step, record_file_name, RunModels, RunStep, Snapshot, TranslatorPipeline,
};
use muggle_translator::pipeline::trace::{sanitize_filename, tu_trace_name, TraceWriter};
use muggle_translator::progress::{fmt_elapsed, info_line, progress_line, shown_counts};

fn dir(path: &str, is_dir: bool, has: bool) -> DirProbe {
    DirProbe {
        path: path.to_string(),
        is_dir,
        candidate: format!("{path}/m.gguf"),
        has_candidate: has,
        found_upwards: vec![],
    }
}

fn config(name: &str) -> AppConfig {
    let mut cfg = AppConfig::default();
    cfg.models.backends.push(NamedBackend {
        name: name.to_string(),
        backend: ModelBackend {
            path: "m.gguf".to_string(),
            template_hint: Some(" gemma ".to_string()),
            ctx_size: Some(4096),
            threads: Some(3),
            gpu_layers: None,
            batch_size: Some(64),
            ubatch_size: None,
            offload_kqv: Some(true),
        },
    });
    cfg
}

#[test]
fn a_model_is_found_in_the_first_directory_that_has_it() {
    let cfg = config("m");
    let dirs = vec![dir("/a", false, true), dir("/b", true, false), dir("/b", true, true), dir("/c", true, true)];
    let b = resolve_backend(&cfg, "m", &dirs, true, false, 0, 8192, Some("chatml")).expect("found");
    assert_eq!(b.model_path, "/c/m.gguf");
    assert_eq!(b.template_hint.as_deref(), Some("gemma"));
    assert_eq!(b.ctx_size, 4096);
    assert_eq!(b.threads, Some(3));
    let b = resolve_backend(&cfg, "m", &dirs, false, true, 0, 8192, None).expect("as is");
    assert_eq!(b.model_path, "m.gguf");
}

#[test]
fn models_that_are_not_found() {
    let cfg = config("m");
    let dirs = vec![dir("/a", false, true), dir("/b", true, false), dir("/c", true, false)];
    match resolve_backend(&cfg, "m", &dirs, true, false, 0, 8192, None) {
        Err(BackendError::ModelNotFound { name, path, searched }) => {
            assert_eq!((name.as_str(), path.as_str()), ("m", "m.gguf"));
            assert_eq!(searched, vec!["/b", "/c"]);
        }
        _ => panic!("found"),
    }
    assert!(matches!(resolve_backend(&cfg, "m", &dirs, false, false, 0, 8192, None),
        Err(BackendError::ModelNotFound { searched, .. }) if searched.is_empty()));
    assert!(matches!(resolve_backend(&cfg, "x", &dirs, true, false, 0, 8192, None),
        Err(BackendError::NotConfigured { name }) if name == "x"));
}

#[test]
fn a_model_that_is_not_configured_is_found_by_its_file() {
    let cfg = AppConfig::default();
    let mut a = dir("/a", true, false);
    a.found_upwards = vec![None, Some("/a/two".to_string())];
    let mut b = dir("/b", true, false);
    b.found_upwards = vec![Some("/one".to_string()), None];
    let r = resolve_backend(&cfg, "m", &vec![a, b], true, false, 2, 99, Some("h")).expect("found");
    assert_eq!(r.model_path, "/one");
    assert_eq!((r.ctx_size, r.template_hint.as_deref()), (99, Some("h")));
}

#[test]
fn modes_are_read() {
    assert_eq!(PipelineMode::parse(Some(" FULL ")), PipelineMode::Full);
    assert_eq!(PipelineMode::parse(Some("basic")), PipelineMode::Basic);
    assert_eq!(PipelineMode::parse(Some("x")), PipelineMode::Basic);
    assert_eq!(PipelineMode::parse(None), PipelineMode::Basic);
}

#[test]
fn a_run_is_planned() {
    let mut cfg = AppConfig::default();
    let mut args = PipelineArgs::default();
    let p = plan_run(&args, &cfg);
    assert_eq!(p.mode, PipelineMode::Basic);
    assert_eq!(p.translate_name, "translategemma_4b");
    assert_eq!((p.alt_translate_name, p.rewrite_name, p.controller_name), (None, None, None));
    assert_eq!((p.threads, p.gpu_layers, p.autosave_every, p.log_max_chars), (-1, -1, 10, 240));
    assert_eq!(p.autosave_suffix, "_\u{8fdb}\u{5ea6}.docx");
    assert_eq!(p.trace_dir, "_trace");
    assert!(p.trace_prompts);
    assert_eq!((p.max_tus, p.docx_filter_rules), (None, None));

    cfg.pipeline.mode = Some("full".to_string());
    cfg.pipeline.alt_translate_backend = Some(" alt ".to_string());
    cfg.pipeline.controller_backend = Some("  ".to_string());
    cfg.pipeline.autosave_every = Some(0);
    cfg.pipeline.docx_filter_rules = Some(" r.toml ".to_string());
    cfg.pipeline.max_tus = Some(5);
    cfg.pipeline.threads = Some(2);
    args.max_tus = Some(0);
    args.threads = Some(8);
    args.translate_backend = Some("t".to_string());
    let p = plan_run(&args, &cfg);
    assert_eq!(p.mode, PipelineMode::Full);
    assert_eq!(p.translate_name, "t");
    assert_eq!(p.alt_translate_name.as_deref(), Some("alt"));
    assert_eq!(p.rewrite_name.as_deref(), Some("translategemma_12b"));
    assert_eq!(p.controller_name, None);
    assert_eq!(p.autosave_every, 1);
    assert_eq!(p.docx_filter_rules.as_deref(), Some("r.toml"));
    assert_eq!(p.max_tus, None);
    assert_eq!(p.threads, 8);
}

fn probe() -> Probe {
    Probe { dirs: vec![dir("/d", true, true)], relative: true, exists_as_is: false }
}

fn probes() -> Probes {
    Probes { translate: probe(), alt_translate: probe(), rewrite: probe(), controller: probe() }
}

fn paths() -> RunPaths {
    RunPaths {
        workdir: "/w".to_string(),
        config_path: "/w/c.toml".to_string(),
        trace_dir: "/w/_trace".to_string(),
        docx_filter_rules: None,
    }
}

#[test]
fn a_run_has_its_models() {
    let mut cfg = config("b");
    cfg.pipeline.mode = Some("full".to_string());
    let mut args = PipelineArgs::default();
    args.translate_backend = Some("b".to_string());
    args.alt_translate_backend = Some("a".to_string());
    args.alt_translate_model = Some("/models/a.gguf".to_string());
    args.rewrite_backend = Some("b".to_string());
    args.source_lang = Some("en".to_string());
    let c = PipelineConfig::from_paths_and_args(paths(), &args, &cfg, &probes()).expect("config");
    assert_eq!(c.translate_backend.model_path, "/d/m.gguf");
    let alt = c.alt_translate_backend.expect("alt");
    assert_eq!((alt.model_path.as_str(), alt.ctx_size), ("/models/a.gguf", 4096));
    assert!(c.controller_backend.is_none());
    assert_eq!(c.prompt_backends, vec!["a", "b"]);
    assert_eq!(c.source_lang.as_deref(), Some("en"));
    assert_eq!(c.workdir, "/w");

    args.alt_translate_backend = None;
    args.translate_model = Some("/models/t.gguf".to_string());
    args.controller_backend = Some("c".to_string());
    args.controller_model = Some("/models/c.gguf".to_string());
    let sizes = |args: &PipelineArgs| {
        let c = PipelineConfig::from_paths_and_args(paths(), args, &cfg, &probes()).expect("config");
        (c.translate_backend.ctx_size, c.controller_backend.expect("controller").ctx_size)
    };
    assert_eq!(sizes(&args), (8192, 16384));
    args.ctx_translate = Some(1024);
    args.ctx_controller = Some(2048);
    assert_eq!(sizes(&args), (1024, 2048));

    args.rewrite_backend = Some("gone".to_string());
    assert!(matches!(
        PipelineConfig::from_paths_and_args(paths(), &args, &cfg, &probes()),
        Err(BackendError::NotConfigured { name }) if name == "gone"
    ));
}

#[test]
fn the_first_files_are_named_and_filled() {
    let files = initial_files();
    assert_eq!(files.len(), 10);
    assert_eq!(files[0].0, "prompts/translate_a.txt");
    assert_eq!(files[0].1, DEFAULT_TRANSLATE_A_TEXT);
    assert_eq!(files[7].0, "prompts/patch.txt");
    assert_eq!(files[8], ("docx-filter-rules.toml".to_string(), DEFAULT_DOCX_FILTER_RULES_TOML));
    assert_eq!(files[9], ("muggle-translator.toml".to_string(), DEFAULT_CONFIG_TOML));
    assert!(writes_file(false, false) && writes_file(true, true) && !writes_file(true, false));
    let first: Vec<&str> = DEFAULT_TRANSLATE_A_TEXT.lines().take(3).collect();
    assert_eq!(first[0], "Translate text from {{source_lang}} to {{target_lang}}.");
    assert_eq!((first[1], first[2]), ("", "Rules:"));
    assert_eq!(DEFAULT_FUSE_AB_TEXT.lines().next(), Some("You are a translation editor."));
    let rules: toml::Table = DEFAULT_DOCX_FILTER_RULES_TOML.parse().expect("toml");
    assert_eq!(rules["version"].as_integer(), Some(1));
    let cfg: toml::Table = DEFAULT_CONFIG_TOML.parse().expect("toml");
    assert_eq!(cfg["pipeline"]["mode"].as_str(), Some("basic"));
    assert_eq!(default_prompt_files().len(), 8);
}

#[test]
fn prompts_have_their_paths() {
    let mut p = PromptsSection::default();
    p.patch = Some("mine.txt".to_string());
    assert_eq!(prompt_path(&p, "patch", DEFAULT_PATCH).as_deref(), Some("mine.txt"));
    assert_eq!(prompt_path(&p, "fuse_ab", "f.txt").as_deref(), Some("prompts/f.txt"));
    assert_eq!(prompt_path(&p, "other", "f.txt"), None);
    let set = PromptSet::paths(&p);
    assert_eq!(set.translate_a, "prompts/translate_a.txt");
    assert_eq!(set.para_notes, "prompts/para_notes.json.txt");
    assert_eq!(set.patch, "mine.txt");
}

#[test]
fn traces_have_names_for_files() {
    assert_eq!(sanitize_filename("a/b\\c:d*e?f\"g<h>i|j k"), "a_b_c_d_e_f_g_h_i_j k");
    assert_eq!(tu_trace_name(42, "patch1", "prompt"), "tu_000042.patch1.prompt.txt");
    let t = TraceWriter::new("/t".to_string(), true);
    assert_eq!(t.dir(), "/t");
    let f = t.write_tu_text(1, "s/x", "k", "text").expect("kept");
    assert_eq!((f.name.as_str(), f.text.as_str()), ("tu_000001.s_x.k.txt", "text"));
    assert!(TraceWriter::new("/t".to_string(), false).write_named_text("n", "t").is_none());
}

#[test]
fn times_and_counts_are_shown() {
    assert_eq!(fmt_elapsed(0), "00:00");
    assert_eq!(fmt_elapsed(3599), "59:59");
    assert_eq!(fmt_elapsed(3661), "01:01:01");
    assert_eq!(fmt_elapsed(360000), "100:00:00");
    assert_eq!(info_line(5, "hi"), "[00:05] hi");
    assert_eq!(shown_counts(3, 0), (1, 1));
    assert_eq!(shown_counts(2, 5), (2, 5));
    assert_eq!(progress_line(5, "x", 2, 5, " 40.0"), "[00:05] x 2/5 ( 40.0%)");
}

#[test]
fn a_model_is_loaded_within_limits() {
    let b = ResolvedBackend {
        name: "m".to_string(),
        model_path: "/m".to_string(),
        template_hint: None,
        ctx_size: 4096,
        threads: None,
        gpu_layers: Some(-1),
        batch_size: Some(4),
        ubatch_size: Some(100),
        offload_kqv: None,
    };
    let mut c = NativeModelConfig::of_backend(&b, 6, 0);
    assert_eq!((c.threads, c.gpu_layers, c.seed), (6, -1, 42));
    assert_eq!(c.offloaded_layers(), Some(9999));
    assert_eq!(c.batch_sizes(), (8, 8));
    c.gpu_layers = 12;
    c.batch_size = None;
    c.ubatch_size = Some(0);
    assert_eq!(c.offloaded_layers(), Some(12));
    assert_eq!(c.batch_sizes(), (512, 1));
    c.gpu_layers = -2;
    c.ubatch_size = None;
    assert_eq!(c.offloaded_layers(), None);
    assert_eq!(c.batch_sizes(), (512, 512));
    assert_eq!(context_size(0, 0), 4096);
    assert_eq!(context_size(0, 8192), 8192);
    assert_eq!(context_size(9000, 2048), 2048);
    assert_eq!(context_size(9000, 0), 9000);
    assert_eq!(context_size(100, 8192), 256);
}

#[test]
fn a_prompt_is_fed_in_batches() {
    assert_eq!(generation_room(0, 100, 8, 10), Err(PromptError::Empty));
    assert_eq!(
        generation_room(99, 100, 8, 10),
        Err(PromptError::TooLong { tokens: 99, context: 100 })
    );
    assert_eq!(generation_room(10, 100, 0, 10), Err(PromptError::NoBatch));
    assert_eq!(generation_room(10, 100, 8, 10), Ok(10));
    assert_eq!(generation_room(98, 100, 8, 10), Ok(1));
    assert_eq!(prompt_batches(10, 4), vec![(0, 4), (4, 8), (8, 10)]);
    assert_eq!(prompt_batches(0, 4), vec![]);
    assert!(decide_add_bos("hello"));
    assert!(!decide_add_bos(" \n<bos>hello"));
    assert!(!decide_add_bos("<|begin_of_text|>"));
    assert_eq!(find_file_upwards(&vec![false, true, true], 8), Some(1));
    assert_eq!(find_file_upwards(&vec![false, false, true], 1), None);
    assert_eq!(find_file_upwards(&vec![], 8), None);
}

/// The steps of a run whose audits find anything in the rounds up to `rounds`.
fn steps(mode: PipelineMode, m: RunModels, rounds: usize) -> Vec<RunStep> {
    let mut out = Vec::new();
    let mut p = TranslatorPipeline { mode, models: m, step: first_step(mode, m) };
    while p.step != RunStep::Done {
        out.push(p.step);
        let found = matches!(p.step, RunStep::Audit { round } if round <= rounds);
        let next = next_step(mode, m, p.step, found);
        assert_eq!(p.translate_docx(found), next);
    }
    out
}

#[test]
fn a_basic_run_has_four_steps() {
    let m = RunModels { alt: false, rewrite: false, controller: false };
    assert_eq!(
        steps(PipelineMode::Basic, m, 0),
        vec![
            RunStep::Slots,
            RunStep::Write,
            RunStep::Paragraphs,
            RunStep::Record(Snapshot::Basic)
        ]
    );
}

#[test]
fn a_full_run_looks_twice_at_most() {
    let m = RunModels { alt: true, rewrite: true, controller: true };
    let all = steps(PipelineMode::Full, m, 9);
    assert_eq!(all.len(), 20);
    assert_eq!(
        &all[..7],
        &[
            RunStep::Notes,
            RunStep::Record(Snapshot::Start),
            RunStep::DraftA,
            RunStep::Record(Snapshot::AfterA),
            RunStep::DraftB,
            RunStep::Record(Snapshot::AfterB),
            RunStep::Fuse
        ]
    );
    assert_eq!(all[9], RunStep::Save { done: 1, total: 1, must: true });
    assert_eq!(all[14], RunStep::Audit { round: 2 });
    assert_eq!(all[17], RunStep::Save { done: 2, total: 2, must: false });
    assert_eq!(&all[18..], &[RunStep::Write, RunStep::Record(Snapshot::End)]);
    assert_eq!(steps(PipelineMode::Full, m, 0).len(), 13);
    let few = RunModels { alt: false, rewrite: true, controller: false };
    assert_eq!(
        &steps(PipelineMode::Full, few, 9)[3..],
        &[
            RunStep::KeepDrafts,
            RunStep::Record(Snapshot::AfterFuse),
            RunStep::Finals,
            RunStep::Save { done: 1, total: 1, must: true },
            RunStep::Write,
            RunStep::Record(Snapshot::End)
        ]
    );
}

#[test]
fn records_are_named_after_their_step() {
    assert_eq!(record_file_name(Snapshot::Start), "paragraph_memory.stage0.json");
    assert_eq!(
        record_file_name(Snapshot::AfterPatch { round: 2 }),
        "paragraph_memory.afterPatch2.json"
    );
    assert_eq!(record_file_name(Snapshot::End), "paragraph_memory.final.json");
}

#[test]
fn directories_are_searched_in_their_order() {
    let d = |s: &str| s.to_string();
    assert_eq!(
        search_dirs(Some(d("m")), Some(d("c")), Some(d("p")), d("g"), d("w")),
        vec!["m", "c", "p", "g", "w"]
    );
    assert_eq!(search_dirs(None, None, Some(d("p")), d("g"), d("w")), vec!["p", "g", "w"]);
}
