# nchant_flow

A phoneme timing model for singing synthesis: it learns how long consonants
in a cluster last from annotated recordings (TextGrid files), stores the
samples in prefix trees keyed by phoneme labels and by phoneme types, and
predicts durations with a four-level fallback (exact cluster, phoneme types,
per-type defaults, recursive split).

## Layout

- `src/` — the library, verified with Verus:
  - `key`, `table`: keys and a keyed table that keeps each key once;
  - `model`: models, inventories, results and their laws;
  - `tree`: the prefix trees, with the round-trip law between a model and its trees;
  - `classifier`, `predict`: phoneme classification and the timing cascade;
  - `cluster`, `train`, `groups`: cluster splitting, cluster extraction from
    annotation tiers, and model building;
  - `resources`: merging models and building inventories from global files;
  - `text`: decimal and timestamp rendering;
  - `engine`: an engine and its builder around a lookup;
  - `error`: the error type.
- `app/` — the `flow` command line program: file and directory access, YAML
  and JSON (de)serialization, TextGrid parsing and the parallel walk over
  training files.
- `tests/` — tests of the library.
