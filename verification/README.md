# clipcloak

On-device redaction of personal data that is pasted into web forms. A daemon on the
loopback interface runs a GLiNER2 model; a browser extension sends it text and gets back
the entities that were found and the redacted text. A tray application configures the
daemon and pairs it with the extension.

- `src/` is the library, written in Verus. Its functions work on plain values, and their
  contracts are proved.
  - `windows`, `entity`, `select`, `mask`: the overlapping windows of a long text, the
    spans that stand where several overlap, and the text with them replaced by tags.
  - `score`: scores as the bits of single-precision numbers, and their order.
  - `decode`, `extract`, `engine`: from the model's scores to entities, relations and
    classes; what is asked of the model's parts and in which order; which files, which
    execution providers and which inputs and outputs.
  - `http`, `classify`: which requests are admitted, how each is answered, and the scan of
    a text window by window.
  - `config`, `rules`, `desktop`, `pairing`, `json`: what a daemon is started with, the
    user's own rules, the tray application's configuration, and native messaging.
- `tests/` holds its tests.
- `app/` is ordinary Rust around it: the listener, the model's sessions, the files, the
  standard streams and, with `--cfg tray`, the window.

Two things are supplied beside `app/` and left out of `app/parts.rs`'s defaults: what lays
out the model's input, and the regular-expression engine of the user's rules. Without the
first no model can be loaded, without the second no rule compiles. `app/` runs models of the
first version only; the subfolder that the daemon names by default holds one of the second,
so `PII_MODELS_DIR` or `PII_MODEL_REPO` and `PII_SUBFOLDER` have to name another.

Scores and thresholds are passed to the library as bits: `f32::to_bits` and
`f32::from_bits` convert.
