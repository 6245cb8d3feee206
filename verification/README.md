# field_monitor

A field monitor for the reachability of a small allowlist of web endpoints
from the operator's own servers (DNS, HTTPS, TCP:443 and ICMP checks, a
read-only security audit of each server, a cross-check against a public
reference measurement API, and the aggregation of the logs into a console
summary, a markdown report and an availability report).

The library (`src/`) is verified with Verus: every function states what it
returns in its contract, and the properties that tie functions together are
proved as laws (for instance, that a probe line written by the agent reads
back as the same measurement, also when `run-all` relays it behind a prefix,
that quoted shell values read back unchanged, and that `run-all`'s batches
visit every server exactly once).

Layout:

- `src/text.rs`: character-sequence primitives (decimal numbers, splitting,
  trimming, lines and words, searching, ordering) with their specifications.
- `src/model.rs`: the shared data types and the ISO 8601 time stamps.
- `src/logfmt.rs`: the probe and audit log lines, writer and reader.
- `src/probe.rs`, `src/audit.rs`, `src/corroborate.rs`: the decisions of the
  three measurements and the reading of the tools' output.
- `src/aggregate.rs`: log parsing, anomaly rules, console summary and the
  markdown report.
- `src/report.rs`: the availability report generator (timeline, failure
  tables, command line, template filling).
- `src/ssh.rs`, `src/fleet.rs`: the orchestrator's commands and output lines.
- `app/`: the command-line agent around the library (configuration files,
  system tools, SSH, threads, files and the clock).
- `tests/`: tests of the library on concrete values.
