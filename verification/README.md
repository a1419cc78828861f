# file_unlocker

Finds the processes that hold a file or folder open on Windows, and applies
the rules for releasing it safely: which processes may be terminated, which
locations may never be deleted, and how updates are checked and verified.

## Layout

- `src/` — the library, verified with Verus. Each public function states
  its behaviour in `requires`/`ensures` over spec functions; laws that
  relate several functions are public proof functions (`lemma_*`).
  - `detect` — merging the two detection engines and building the results.
  - `handle_scan`, `engines/restart_manager` — the decisions of the two
    detection engines (buffer growth, parsing, path matching).
  - `kill` — identity checks, protected processes, process-tree walks.
  - `file_actions` — path validation, protected locations, delete rules.
  - `updater` — version comparison, manifest and download checks.
  - `winutil`, `text`, `bytes` — UTF-16, path normalisation, string helpers.
  - `diagnostics`, `logs`, `state`, `error` — self-test, log export,
    pending state, structured errors.
- `tests/` — scenario tests run against the compiled library.
- `app/` — the Windows system calls, network and file I/O around the
  library; it hands the library plain values and acts on its answers.
