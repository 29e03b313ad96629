# lapdw

A multi-threaded HTTP downloader for the desktop (Tauri UI). This crate holds
its core as a Verus-verified library; the desktop shell drives it.

- `src/` — the verified library:
  - `filename` — file names from `Content-Disposition` and from URLs
    (percent decoding, sanitizing for Windows);
  - `state` — segment planning, resume state, side files, choosing a free
    target name;
  - `engine` — probe interpretation, segmented vs. sequential transfer,
    resume, retry policy, completion checks, the outcome of a download;
  - `digest` — SHA-256 verification of finished files;
  - `client` — proxy and credential headers;
  - `tasks` — the download queue, every change made to it, and its single runner;
  - `settings`, `locale`, `window_state`, `paths` — settings normal form,
    locale files, window geometry, display of paths;
  - `text` — the character-level string operations the above are built on.
- `app/` — the application shell: Tauri commands, file and network I/O,
  async workers, JSON persistence.
- `tests/` — tests of the library.

Portable data next to the executable: `config/settings.json`,
`config/window.json`, `data/tasks.json`; downloads go to
`{User Downloads}/lapdw` unless configured otherwise.
