# solver_core

The exact core of a topology search over splitter/merger networks, written
in Verus: problem preparation with exact fractions, profile accounting and
lower bounds, and the verified bookkeeping around the search.

- `src/` is the library. Every function there carries a contract that Verus
  proves; the `law_*` proof functions state properties that span several
  calls (rollback restores a checkpoint, learning order does not change the
  canonical no-good set, a group is refuted only when every leaf is, and so on).
  - `no_good` – proof-carrying canonical no-goods and their store.
  - `planner::roots`, `planner::group`, `planner::advance` – root
    partitions, adaptive ledgers, the per-group job scheduler and the
    objective loop's next step.
  - `portfolio` – incumbent delivery, branch stopping and the returned result
    of independent searches.
  - `proof_ledger` – folding partition results into link-group and node verdicts.
  - `exact` – naturals of any size, with `num`'s `BigUint` behind a few
    trusted wrappers whose contracts are stated over the naturals.
  - `profile` – port and discard-line accounting under an exact surplus, and
    profile-group enumeration.
  - `lower_bound` – baseline node-count bounds and the first necessary
    condition a profile fails (branch deficits, splitter paths, merger
    subset sums, splitter determinant magnitude).
  - `encoding` – the belt structure of the port-quotient encoding of a
    profile (nodes, candidate belts, belts per target, direct terminal
    belts) and the decoding of a model's active belts into ports.
  - `scc` – exact rational matrices and their products with a vector.
  - `reachability` – conservative reachability analysis of a partial topology.
  - `hotspot_profile`, `search` – wrapping counters, statistics merging,
    the depth-first step over one state (pruning, cache answers, child
    folding) and over the evaluation of a complete topology, root planning
    from the outcomes of the first decisions, root-partition ordering and
    frontier refinement steps.
  - `problem`, `process`, `native_api` – problem preparation (validation,
    global infeasibility, exact scaling, terminal reordering), backend
    selection and reply framing.
- `tests/` runs the library on concrete values.
- `app/` is the host side: the process-wide recorder, backend discovery and
  the SMT session, and error types with `Display`.
