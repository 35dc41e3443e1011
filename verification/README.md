# nog

nog wraps pacman (and optionally yay or paru, flatpak and snap) with a
three-tier update hold: every package is Tier 1, 2 or 3, and an update
waits 30, 15 or 7 days after its build before it may install. `nog update`
sorts the pending updates into Ready, Held and Unknown before anything is
touched.

## Layout

- `src/` — the library, written in Verus. Every function carries a
  `requires`/`ensures` contract that Verus proves:
  - `text`, `table` — character-sequence helpers and a name-keyed table;
  - `sync_db`, `local_db` — pacman's sync and local databases (archives
    unpacked through `flate2`, `zstd` and `tar`);
  - `tiers`, `holds` — tier classification, hold evaluation and the
    coupling rules that keep version-locked families together;
  - `pacman`, `aur`, `flatpak`, `snap` — reading each tool's output and
    building its arguments;
  - `plan`, `report`, `runlog` — the decisions of `nog update`, what is
    printed, and the CSV run log;
  - `sources`, `reboot` — the source kill switches and the post-update
    restart advice.
  Laws that relate several functions (an `activate` undoes a `deactivate`,
  the buckets partition the pending updates, the foreign fence lets through
  only what was cleared, ...) are public proof functions beside the code
  they speak of.
- `app/` — the `nog` command: argument handling, configuration files,
  running pacman and the other tools, prompts and output.
- `tests/` — tests of the library on concrete values.
