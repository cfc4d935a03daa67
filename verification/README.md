# oxanus

The verified core of a Redis-backed background job queue, written in Verus.

`src/` holds the logic, each function with its contract and proof:

- `metrics` – worker metric identities and counter fields, histogram
  buckets, the in-memory metrics buffer and the aggregation of per-minute
  counter hashes into totals, series and per-worker summaries.
- `storage` – enqueue decisions for unique jobs, tolerance of transient
  Redis failures, key names, and the commands that flush buffered metrics.
- `queue_stats` – per-queue counters from the stats hash, queue-length
  snapshots, and the writes that store result counters and queue lengths.
- `housekeeping` – dead processes, claimed scheduled jobs, job expiry, cron
  timing and the regrouping of counter values.
- `batcher` – the batch collector as a state machine.
- `processing` – batch splitting, retries and drain counts.
- `tree` – grouping of type names into module trees and their rows.
- `catalog`, `registry` – what a configuration registered, in name order,
  cron schedule checks and on-demand enqueue checks.
- `worker`, `web`, `builder`, `results`, `stats`, `text` – worker
  settings, dashboard helpers, settings and text utilities.

Laws that relate several functions are public proof functions, among them
`lemma_field_key_round_trip`, `lemma_field_key_prefix_round_trip` and
`lemma_metric_field_round_trip` (`metrics`), `lemma_flushed_metrics_read_back` and `lemma_flushed_worker_read_back`
(`storage`),
`lemma_flushed_counts_read_back` and `lemma_refreshed_lengths_read_back`
(`queue_stats`), `lemma_tree_rows_entries` (`tree`), and the batcher
lemmas (`batcher`).

`app/` is the unverified runtime around it: Redis access, floating-point
rate estimates, chart data and serialized forms. `tests/` exercises the
library on concrete values.
