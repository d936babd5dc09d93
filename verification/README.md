# ficswitch

A command-line tool for Satisfactory players who run both the stable and the
experimental Steam branch. It switches branches by rewriting the Steam app
manifest or by restoring a hardlink cache of the branch's game files, backs up
saves before each switch, and keeps an SMM (Satisfactory Mod Manager) profile
linked to each branch.

## Layout

- `src/` — the library, verified with Verus:
  - `text.rs` — character-level text primitives (lines, trimming, splitting,
    searching) with their specifications;
  - `str_map.rs` — a string-keyed map that keeps insertion order;
  - `order.rs` — the order of file names, and sorting by it;
  - `steam.rs` — branches, the flat VDF reader, the `betakey` rewriter, the
    download state of a manifest, SteamCMD arguments;
  - `readback.rs` — what the reader finds in a rewritten manifest: the branch
    switched to;
  - `profiles.rs` — SMM profiles and installations, branch-profile links;
  - `saves.rs` — save headers, save listings, the save directory choice;
  - `backup.rs` — backup records and their newest-first order;
  - `branch_cache.rs` — per-entry decisions of the branch cache;
  - `mod_deploy.rs` — which mods to deploy and from which archive;
  - `switch.rs` — the decisions of a branch switch, step by step.
- `app/` — the command-line program: file system, processes, JSON files and
  zip archives, driven by the library's decisions.
- `tests/` — tests of the library.

## Not covered

Steam Cloud handling is not part of this project: there are no `cloud`
commands, no `--ignore-cloud` option, and a switch takes no cloud steps.
Syncing saves back out of the game after a switch is not done either.
