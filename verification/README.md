# logpulse

A command-line log and metrics analyzer. It reads a log file of JSON lines
and/or common/combined web server lines and reports request counts, status
class distribution, error rate, latency percentiles and the most requested
paths and most frequent client addresses.

## Layout

- `src/` — the verified library (Verus):
  - `text.rs`: white space, trimming, words, line splitting, decimal parsing,
    specified over sequences of characters;
  - `parser.rs`: log line parsing (JSON fields with their fallbacks, and the
    common log format);
  - `counts.rs`: a hash-indexed table of counts per key;
  - `analyzer.rs`: request statistics (`record`, `merge`), the report
    (percentiles, top entries) and the laws that make a parallel fold and
    merge agree with counting every line in order;
  - `sorting.rs`: the two sorts the report uses.
- `app/` — the program: command line, file and memory-map I/O, JSON decoding
  with serde, the parallel fold with rayon, and the colored dashboard.
- `tests/` — tests of the library.

Latencies are carried in the library as `f64` bit patterns; for positive
values their order as integers is their order as numbers.
