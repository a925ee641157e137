# brix_lower

The verified core of the Brix lowering crate.

- `l3_v2`: the derivation-capable rule profile — lowering of surface
  expressions and modules to the plan, plan shape, value and fault
  vocabulary, the big-step evaluator with its resource budget, the
  exhaustiveness check over `match`, and the runner that commits rules in
  dependency order.
- `l3`: the closed-value rule profile — lowering of a module to a plan of
  closed values (profile marker, admitted items, unique names, resolved
  config types, config and value limits), normalization of surface
  expressions to closed values, value footprints, the plan's value budget,
  and the rejection of recursive configs.
- `input`: the strict, bounded decoder of `brix.input@1` documents, the
  combination of disjoint shards into a canonical snapshot, and the checks of
  a snapshot against declared inputs.
- `finite_decision`: lowering of a surface module to the finite-decision
  plan (the single commit, helper signatures and contracts, expression
  limits, item-by-item lowering, helper recursion and exhaustiveness), the
  plan itself, recursion detection over its helper functions, the runtime's
  fault vocabulary, and the evaluation a
  deliberation performs before its frontier: bound inputs, `let`s, rules,
  the commit pool's guards and values, and the `show` expressions.
- `keymap`, `text`: ordered string-keyed maps and text building.

Every function in `src/` carries a contract that Verus proves, except four
small trusted wrappers around std whose contracts are taken on trust:
`String::push`, `char::from_u32`, `std::str::from_utf8` (UTF-8 decoding of
input bytes) and the `Debug` rendering of a string (used in fault messages).
Each states in its doc comment what it claims. `app/` holds the
file reading around the decoder: it opens and reads files and hands the
library what it observed.

## What stands nowhere here

Parts of the original crate are built on crates of the same workspace that
are not available here (`brix_syntax`, `brix_canon`, `brix_semantic`,
`brix_kernel`, `brix_elaborate`, `soc_core`, `soc_regimes`), and on no
published crate, so they are neither verified here nor wrapped:

- the L2 path of `lib.rs` — `check_module`, `lower_expr`, `lower_fn`,
  config-type resolution, coverage and declared-field checks — produces and
  checks `soc_regimes` type-realization terms and calls the elaborator and
  kernel of `brix_elaborate` and `brix_kernel`; `diagnose_gap` classifies its
  error type, which carries their type errors and verdicts;
- the finite-decision runtime's frontier and commit steps, the L3 regime,
  run, witness-frontier and audit modules drive `soc_core`'s engine, journal
  and audit;
- canonical identities and preimages (`l3_canon`, snapshot and program
  identities, audit bundles) are `brix_canon` digests;
- `resolve_imports` reads packages with `brix_syntax`'s parser and loader; its
  error type stands in `imports`.

Surface modules and expressions (`SurfaceModule`, `SurfaceItem`,
`SurfaceExpr`, `SurfaceTy`) are the library's own model of what lowering
reads of the parser's tree.
