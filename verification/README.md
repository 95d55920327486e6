# fast_copy

A portable file copier's logic, verified with Verus.

- `src/` is the verified library:
  - `text.rs`: decimal digits and character-sequence helpers;
  - `paths.rs`: paths as exact bytes plus the components that decide whether
    two paths name the same place;
  - `format.rs`: sizes (`fmt_size`), clock readings (`fmt_clock`) and
    middle-truncated labels (`truncate_str`);
  - `speed.rs`: the two-second rolling window behind the transfer speed;
  - `engine.rs`: copy planning (`plan_run`, `scan_sources`), the chunk loop
    (`next_chunk_step`), the large-file
    run (`LargeCopy`) and the many-files coordinator (`Coordinator`), and the
    progress reports they build;
  - `ui_state.rs`: the window's state (`AppState`) and how user actions and
    reports change it;
  - `browser.rs`: the Browse & Select listing order and the checks kept
    across folders.
- `app/` is the program around it: the egui window, the file-system walk, the
  copying threads and the progress channel.
- `tests/` runs the library on concrete values.

The window in `app/` uses `eframe` 0.28, `egui` 0.28 and `rfd` 0.15, which
`Cargo.toml` does not list; add them there to build the program.
