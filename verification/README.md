# nir

The verified core of a narrative engine and its authoring tools: wire
formats and their checks, content identity, expression typing and
evaluation, dialogue reveal, text contracts and their revision rules,
program and function validation, the executable index, module dependency
planning, release closures and build requests, the resource budget ledger
and the reservations it has outstanding, the checks of a module's static
package against the runtime root, the runtime root's header, module,
function, ownership, asset and locale indexes, module and task ownership,
project manifests with one or more modules, the story machine's
terminator step, how it resolves a wait and takes an answer to a choice, the admission of a saved state for restore, content batch
admission (stale views, operation identities, static packages first) with
least-recently-used eviction and the residency report, the asset catalog
checks (rights, paths, font recipes and licenses, image sizes, identities),
and the plan of a release's runtime packages split by module and locale,
with assets grouped into catalogs by their consumers.

Layout:

- `src/` — the library, verified with Verus. Each module states its rules
  as spec functions and each public function's contract in terms of them;
  laws that relate several functions are public proof functions.
- `tests/` — ordinary Rust tests of the library, run against the compiled
  crate with its outside crates linked.
- `app/` — what cannot be verified: file and wire I/O, strict JSON
  reading, serde copies of the library's types, hashing of serialized
  values, and the floating-point checks of the presentation settings.

Outside crates are reached from `src/` only through small trusted wrappers
(SHA-256 from `sha2`, JSON bytes from `serde_json`, grapheme clusters from
`unicode-segmentation`), each with a contract that says what it claims.
