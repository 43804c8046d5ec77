# mad — Metrics Aggregator Daemon, verified core

`src/` is a Verus library. Every function in it is verified, except
`model::metric_key::dimension_entries`, a trusted wrapper around
`HashMap::iter` whose contract is taken on trust.

- `model::histogram` — the sparse histogram: samples are taken as the bit
  patterns of doubles, bucketed by clearing low mantissa bits, and kept in
  ascending value order with their counts, the total count and the least and
  greatest sample. Rank (percentile) queries walk the cumulative counts.
  Laws: the counts sum to the total, the total grows by the number of finite
  samples, rank answers are unique and monotone, the full rank answers the
  greatest bucket.
- `model::metric_key` — keys of metric series; dimensions are kept sorted by
  name, so a key depends only on the name and the dimension map.
- `model` — metric and unit kinds.
- `config` — configuration types, default values, and the `PT<seconds>S`
  framing of durations.

`app/` is the program: async start-up and shutdown, serde forms of the
types, configuration files, and the floating-point parts of the statistics
(sum, mean, percentile to rank, seconds as `f64`).
