# rosync

The rules by which a Roblox Studio session and a project directory are kept in
step: how instances map to files, how the two sides are compared, how conflicts
are parked and resolved, how sources travel in bounded parts, and how the daemon
of a project is started, found, spoken to and stopped.

- `src/` is the library. Its own functions are verified with Verus against their
  contracts. The small functions that call `sha2`, `base64`, `png`, `serde_json`,
  `reqwest` or std, marked `external_body`, and the `assume_specification` are
  not: Verus believes their contracts, and the comment above each says what is
  believed.
- `app/` is what surrounds it: files, processes, HTTP, and the numbers in floating
  point that a caller gives.
- `tests/` runs the library with the real crates.

The main groups of modules in `src/`:

| Modules | What they hold |
| --- | --- |
| `fs_map`, `escape` | names of instances and files |
| `fs_safety`, `fs_chain`, `path_reach`, `service_walks`, `disk_index`, `legacy_scan` | walking a directory without following links |
| `tree`, `flat`, `survey`, `ranking`, `diff`, `reservations`, `selective`, `preflight` | trees of instances, and their comparison |
| `conflict`, `baselines`, `fingerprint` | agreed contents and parked pushes |
| `initial_sync`, `decision`, `details`, `selection`, `path_lists`, `timed_store` | the first comparison and the choice it leads to |
| `compare_session`, `preparation`, `pull_session`, `pull_stream`, `push_stream`, `packing` | transfers in chunks |
| `capture`, `capture_flow`, `artifacts`, `img_upload` | photos, captures and uploads |
| `access`, `daemon_manager`, `daemon_control`, `lifecycle` | the daemon |
| `text`, `path_text`, `text_map`, `decimal`, `hex`, `json`, `sync_scope` | what the others share |
