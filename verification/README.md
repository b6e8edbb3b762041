# diamond

A graphite-style metric store: metric lines (`name timestamp value`) are
written into whisper files, one per metric, under a data directory, and an
HTTP service answers `/render` and `/metrics/find` requests over them. A
converter turns round-robin databases (RRD) into whisper files.

`src/` is the library, verified with Verus:

- `render_target/` — the grammar of render targets (dotted paths with
  globs, character groups and alternatives, function calls, templates and
  pipes), the parsers proved against it, and paths turned back into text
  and into regular expressions;
- `exec` — the series functions (`sumSeries`, `aliasByNode`, ...): what a
  call does with its arguments and with the series;
- `render`, `find`, `time` — requests: formats, URL-encoded queries,
  absolute and relative times, CSV output, find paths and directory
  listings as metric tree leaves;
- `metric`, `storage` — metric lines, metric names and their files, and
  which directory entries a path word selects;
- `rrd`, `migrate` — what an `rrd info` listing says about archives and
  data sources, and the plan for moving them into whisper files;
- `trusted` — the calls into `regex`, `glob`, `serde_urlencoded`, `chrono`
  and the system clock, with what is assumed of them.

`app/` holds the programs around the library: the TCP/UDP and pipe
receivers, the HTTP service, the RRD converter (with librrd's C interface),
the settings file, and the floating-point arithmetic on series.
