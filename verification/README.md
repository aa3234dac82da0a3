# rage

A load-testing engine for HTTP APIs: virtual users run a scenario of
requests against a host, feed values from a CSV file and from earlier
responses into later requests, and the engine reports throughput, latency
and errors.

## Layout

- `src/` — the library, verified with Verus.
  - `text.rs`: character-level search, replacement, splitting and trimming.
  - `strmap.rs`: an insertion-ordered string map (captured variables, headers).
  - `utils.rs`: the CSV data cache and `$token` / `$csv.column` interpolation.
  - `engine.rs`: request preparation, response judgement, value capture.
  - `config.rs`: the test configuration and start-up decisions.
  - `stats.rs`: per-endpoint and overall counters.
  - `report.rs`: classification of event-log records.
- `app/` — the program: configuration loading, the async runtime, HTTP,
  system metrics, logging and the HTML/CSV reports (floating point).
- `tests/` — tests of the library.
