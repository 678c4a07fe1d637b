# cki

The verified core of a terminal coding agent, written in Verus: each public
function states what it returns in `requires` / `ensures` over mathematical
models, and Verus proves it.

- `repo/`: repository context (symbol maps, Rust signature scanning, task
  contracts and the patch gate, the curated context pack of a notes vault).
- `tools/`: the logic of the agent's tools (command policy and sandboxing,
  unified diffs, workspace transactions, background task registry, test
  diagnostics, PDF text extraction and chunking, web text).
- `types/`: calendar and RFC 3339 time arithmetic.
- `ui/`: a small terminal engine (buffers, layout, widgets, word wrapping),
  streaming line wrapping, fuzzy file search, markdown and pager views.
- `text.rs`, `textops.rs`, `keyed.rs`: text, UTF-8 and sorted-map helpers
  shared by the rest.

Calls into std that Verus has no specification for sit behind small trusted
wrappers whose doc comments say what their contracts assume. Laws that span
functions (round trips, order independence, fragmentation invariance) are
public proof functions named `lemma_*`.

The tests under `tests/` run the compiled library on concrete values.
