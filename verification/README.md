# amnia_desktop

The logic of the amnia desktop companion, written in Verus with its
contracts and laws, and the thin Tauri shell around it.

* `src/` — the verified library:
  * `shell_alias` — alias-name rules, the alias line, the choice of rc file,
    and the rewrite of the managed block in the rc text, with the laws that
    make the rewrite idempotent and keep every line outside a managed block;
  * `repo_import` — the project archive URL and the per-entry unpacking steps
    over the `zip` crate;
  * `ollama` — the model picker's list (installed models, then the curated
    catalogue without duplicates);
  * `system_info` — `nvidia-smi` and sysfs readings, the system summary and the
    model-capacity decision;
  * `sidecar` — the sidecar's configuration record;
  * `text` — whitespace, trimming, lines and decimal numbers as `std`
    documents them, over `Seq<char>`.
* `tests/` — the tests, run against the compiled library.
* `app/` — the Tauri commands: file system, processes, network, progress
  events, and the floating-point budget.
