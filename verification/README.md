# aggregator

The analysis core of a prefix-measurement aggregator, written in Verus: it
interprets echo and trace probe responses per /64 network, keeps measurement
trees in a forest, decides whether a prefix should be split in two, rates how
confident that decision is, and shares out the analysis budget among priority
classes and autonomous systems. Every function in `src/` carries a contract
that Verus proves.

Layout:

- `src/prefix.rs`, `src/map64.rs`, `src/intmap.rs`, `src/path.rs`: IPv6
  networks (through `ipnet`), maps keyed by /64 networks, and the ltree path
  encoding of a prefix.
- `src/measurement.rs`, `src/interpretation.rs`, `src/echo.rs`,
  `src/trace.rs`: measurement trees and the interpretation of probe responses.
- `src/forest.rs`, `src/save.rs`, `src/collapse.rs`: merging fresh trees into
  stored ones and choosing what to write back.
- `src/subnet.rs`, `src/recommend.rs`, `src/confidence.rs`, `src/split.rs`,
  `src/analysis.rs`, `src/adjacent.rs`: the split analysis.
- `src/class_budget.rs`, `src/as_budget.rs`, `src/follow_up.rs`: scheduling.
- `app/`: a command-line front end that reads and writes JSON.
- `tests/`: tests run against the compiled library.
