# ternary_memory

Memory systems for agents that learn from experience, verified with Verus:

- `short_term` — a fixed-capacity ring buffer of recent decisions; recall
  reports each entry newest first with its age in ticks.
- `long_term` — per-label experience summaries (counts, extremes, running
  mean and squared deviations) with merging and a best-label query.
- `episodic` — a bounded first-in-first-out store of notable episodes, with
  recall by kind, by tag and by outcome.
- `index` — items indexed by key/value context tags, queried with all-of or
  any-of semantics and ranked by relevance.
- `consolidation` — moves short-term decisions into long-term memory and
  turns outcomes beyond configurable thresholds into episodes.
- `score` — real values carried by their binary64 bit patterns and compared
  exactly as binary64 values compare; `ranking` — stable descending order.

The library does no floating-point arithmetic. Where a computation needs it
(running means, rendering an outcome), the caller passes a function and the
contracts state what is done with its results. `app/` holds the
floating-point side: forgetting curves, retention-weighted recall, Welford's
update and the summary statistics, and entry points that take `f64` values.
