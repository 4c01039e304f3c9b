# muggle_translator

Translates Word documents with language models and keeps their format. The library in `src/` holds
what is decided and computed, with contracts that Verus proves. `app/` is the program around it: the
command line, files, the console and the language model.

- `src/docx/`: documents. The package and its XML parts, their masks and slots, pure text, the
  outline and the filter. `shape` says which events are read back as they were written. `roundtrip`
  and `refilled` hold the laws on documents that are taken apart and put together, `cleaned` and
  `merging` those on the filter, `anchors` those on units.
- `src/pipeline/`: the run of a translation. Its configuration and steps, units, chunks, the work on
  a unit, notes, audits and patches. What a model is asked comes out as an action, and its reply goes
  in as an event. `outcome` and `surface` hold the laws on what stages and units leave of the texts.
- `src/models/`: what is settled around a language model before and after it is called.
- `src/quality.rs`, `src/sentinels.rs`, `src/freezer.rs`, `src/terminology.rs`, `src/agentflow.rs`:
  markers, frozen text, the checks on a translation, terms, and patches of sentences.
- `tests/`: examples that run.

What the library trusts of other crates stands in functions marked `external_body`, each with a
comment on what it claims. They are in `chars`, `digest`, `json`, `patterns`, `docx::decompose`,
`docx::package` and `docx::xml`.
