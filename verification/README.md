# radiumical_core

The core of a terminal coding assistant, with its behaviour stated in
contracts and proved with Verus.

- `src/` is the verified library: plans and their task orchestration, the
  dynamic task state machine with guards and hooks, conversations and their
  compressed line files, the model-response cache, sessions and the
  workspace registry, memory tiers, skills and agent roles, workspace
  outlines, the source linter, secure environment files, checkpoints, and
  the decisions of the agent loop, the tool loop and the agent cluster.
- `tests/` runs the library on concrete inputs.
- `app/` is the ordinary Rust around it: files, git, directory scans and the
  serde forms of the library's types.

Calls into outside crates (zstd, base64, similar, chrono) and a few std
functions sit behind small trusted wrappers whose contracts say what those
crates document; everything else is proved.
