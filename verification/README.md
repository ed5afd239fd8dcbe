# anderion-sigint-ml

An RF signal-analysis SDK whose discrete core is proved correct with Verus.

## Layout

* `src/` — the verified library. Every function carries a `requires`/`ensures`
  contract over spec models (`Seq`, `Set`, `Map`, views), and the laws of the
  library are public proof functions:
  * `verification` — digests, verification contexts, policy decisions, sealed
    result certificates and replay comparison;
  * `ontology` — the semantic graph of a result and its reference-schema check;
  * `pattern`, `sorting` — recurring sequences and co-occurrences of pattern
    events, with a verified merge sort;
  * `evidence_graph` — the session evidence graph and its explanations;
  * `artifact`, `io`, `hashing`, `text` — manifests, hexadecimal text, framed
    byte messages and bounded identifiers;
  * `dataset`, `evaluation` — grouped split plans and confusion counts;
  * `iq`, `embedding`, `spectrum_encoder`, `quantization`, `synthetic_adapter`,
    `edge`, `backend`, `benchmark`, `emitter_discovery`, `metadata`, `types`,
    `service`, `cli` — the shape checks, index arithmetic, identifiers and
    rules of the numeric components.
* `tests/` — tests of the library on concrete values.
* `app/` — the SDK around the library: floating-point models and signal
  processing, serde records of the library's types, file access, the Golden
  Path demonstration and the HTTP service.

The only call into an outside crate from `src/` is SHA-256 (`sha2`), behind one
trusted wrapper in `hashing`.
