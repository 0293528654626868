# sooboost

Gradient-boosted decision trees in Rust, with the structural core of the
library verified by Verus.

## Layout

- `src/` — the verified library (`sooboost`):
  - `float_bits` — IEEE-754 predicates and comparisons on `f64` bit patterns;
  - `data` — missing-value policy and the numeric feature columns;
  - `schema` — which columns hold the features and the target;
  - `binning` — equal-frequency bin boundaries, bin tables, binned matrices;
  - `sorting`, `search` — sorting and order searches over bit patterns;
  - `tree`, `growth` — trees, prediction walks, level-wise growth and the
    choice among candidate splits;
  - `categorical` — categorical encodings (a `HashMap` per feature);
  - `table` — CSV bytes read by arrow-csv into a record batch, the batch's
    column names, types and `Float64` contents, and the schema checks on it;
  - `context` — the seeded random source and the shuffle;
  - `loss`, `booster` — loss identities and trained models;
  - `model` — the binary model format: writing, parsing, and the proof that
    reading back a written model gives the model;
  - `early_stop` — the early-stopping rule and which rounds it keeps;
  - `api` — parameter checks, cross-validation folds, objective detection;
  - `cli`, `abi` — command-line parsing, CSV records, and the decisions of
    the C interface.
- `tests/` — tests of the library on concrete values.
- `app/` — the program around the library: Arrow/CSV datasets, the
  floating-point side of training (losses, histograms, split gains, the
  boosting loop, metrics, calibration), the facade, hot swapping, the
  experiments, the C interface, and the command-line tools.

Floating-point values cross into the library as `f64` bit patterns; the
library decides structure (bins, routing of rows, tree layout, file layout),
the program computes with the numbers.
