# archform

Architecture as code: components with typed ports, typed edges between ports,
cross-cutting policies (auth, trace, …) with inherited defaults, and the
design-time checks over such a model. The library is written in Verus; every
function in `src/` carries a contract that Verus proves.

## Layout

- `src/model.rs` — the model (`Arch`, `Component`, `Port`, `Edge`, policies,
  defaults), contract types and their colours/names, default ports per kind,
  component lookup and `component.port` resolution.
- `src/validate.rs` — the rule checks (`dup-id`, `self-loop`, `unknown-ref`,
  `port-mismatch`, `event-consumer`, `auth-propagation`, `trace-coverage`,
  `same-gate-iron`, `core-only-data`, `sandbox-floor`, `sync-acyclic`). The
  specification `arch_outcomes` lists every check outcome in order;
  `validate` returns exactly its passes and violations.
- `src/sync_cycle.rs` — the depth-first cycle search in the sync-call
  subgraph, with proofs that it reports a cycle exactly when one exists and
  that the reported path runs along the cycle (the source reference of each
  edge in turn, then the closing edge's target reference).
- `src/simulate.rs` — the trajectory simulation from the entry port, with
  proofs of its shape (enter … done, or ending at a stall on a violating
  edge), of what each step stands for, that each component is processed and
  each edge hopped at most once, that the hop counter counts the hop steps,
  and of the search step's frame (it only appends).
- `src/web.rs` — the answers of the editor's endpoints, given the parsed
  model or the YAML parser's error text.
- `src/text.rs` — character-level string helpers.
- `app/` — the command line (`check`, `serve`) and the HTTP endpoints; YAML
  and JSON (de)serialisation through serde copies of the model types.

In `src/` the named maps of the YAML document (policies, annotations,
per-kind node defaults) are vectors of keyed entries; lookups take the first
entry with a key, which in a document converted from maps is the only one
(`Arch::check_well_formed` tells whether keys are distinct).
Canvas coordinates are editor data and live in the `app/` copy only.
