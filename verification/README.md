# unparser_shared

Shared plumbing for the `unpdf` / `undoc` / `unhwp` document-extraction family,
written in Verus. Every function of the library carries a contract; Verus proves all of
them except those of the small trusted wrappers around calls into outside crates and `std`
(marked `#[verifier::external_body]`, plus one `assume_specification`), whose contracts
it takes as given.

## Layout

- `src/` — the verified library.
  - `text` — Unicode whitespace, trimming, line splitting and substring search over
    `Seq<char>` models.
  - `refine` — the markdown shape-refinement pass: frontmatter extraction and
    normalization, missing table-separator recovery, ragged-table widening, link and
    image destination normalization, section anchors, and the CommonMark round trip
    they run inside. Laws proved here include the idempotence of frontmatter
    normalization, of separator recovery, of destination normalization and of the
    anchor pass, and the losslessness of extraction, recovery and anchoring.
  - `ai` — the requests, prompts, response classification and retry state machine
    of VLM image understanding and AI-assisted markdown refine.
  - `kind`, `ffi` — the error-kind numbering of the family and the two boundary
    failures.
- `app/` — what touches the outside world: the HTTP exchange (`ureq`, `serde`), the
  thread-local last-error slot and panic guard of the C ABI, and the `macro_rules!`
  that assemble C entry points.
- `tests/` — tests of the library on concrete values.

Calls into `pulldown-cmark`, `pulldown-cmark-to-cmark`, `base64` and `std` stand behind
those wrappers; where a result takes pages to state, the contract names it.
