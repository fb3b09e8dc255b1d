# incidence_core

The verified core of a substance-agnostic, event-sourced flow model over directed compartment
networks, written in Verus: validated identities, topologies, registries, expressions,
projections and model components, the authoritative record log with its SHA-256 digest and
completion seal, the structural checks made on transfers and dispositions, the fold of a log
in whole quanta, and the atomic commit of a disposition. The library in `src/` is verified; its two calls into other code, SHA-256
from the `sha2` crate and appending a character to a `String`, stand behind stated contracts.
Binary64 arithmetic (splitting amounts into whole quanta, accumulated totals, evaluating a
partition) is not part of it: those values are handed to the library by its caller.

## Layout

- `src/identity.rs`, `src/rule_reference.rs`, `src/order.rs`, `src/text.rs`: validated
  identities, their grammar and error messages, and the canonical text order.
- `src/substance_registry.rs`, `src/topology.rs`, `src/endpoints.rs`: the registry of
  substances and the directed topology with its stable topological order.
- `src/temporal.rs`: fixed-step calendars and run horizons.
- `src/numerical_semantics.rs`: binary64 values held as bit patterns, and the checks made on
  them.
- `src/sparse_substance_vector.rs`, `src/initial_stocks.rs`: registry-bound amounts and the
  initial stocks of finite compartments.
- `src/rule_expression.rs`, `src/partition_expression.rs`, `src/execution_bindings.rs`: typed
  rule expressions, dispositions, and the sources rule inputs and branches are bound to.
- `src/projection.rs`, `src/projection_graph.rs`, `src/projection_set.rs`: projection
  specifications, their dependency graph and cycle search, and validated projection sets.
- `src/forcing.rs`, `src/interpolation_table.rs`: forcing series and interpolation tables.
- `src/model_artifact.rs`, `src/model_builder.rs`: versions, units, rule definitions, the
  model digest type, and the cross-component checks that bind a model together.
- `src/ledger.rs`: the authoritative log, its canonical bytes, SHA-256 digest and completion
  seal.
- `src/disposition.rs`: dispositions, and the structural checks on transfers, on a log before
  replay, and on the context and entries of a disposition.
- `src/stock_counts.rs`: replay of a log in whole quanta (the integer fold of transfer counts
  from the Genesis counts) and its conservation law.
- `src/commit.rs`: the atomic write boundary for dispositions.
- `src/keyed.rs`, `src/bytes.rs`: canonical ordering of keyed collections, and byte encodings.
- `app/`: binary64 arithmetic (ordered accumulation, fixed-split totals, turning an evaluated
  rule into allocations) and serde wire forms.
- `tests/`: executable tests of the library.

Laws that relate several operations are public proof functions, named `law_*`.
