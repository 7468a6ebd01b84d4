# crash_dedup

A fuzzer that drives an HTTP service finds the same crash many times. This
library groups crashes by a coarse identity, keeps the smallest input of each
group, and says what is written, copied and removed on the way. It is written in
Verus: every function states what it returns, and the statements are proved,
except for a few calls into other code, whose contracts are believed:

- `serde_json::from_slice` (`crash_replay`): whether bytes are a JSON value
  depends on the bytes alone.
- `reqwest::StatusCode::from_u16` and `is_server_error` (`crash_replay`): which
  numbers are status codes, and which of them are server errors.
- `reqwest::Error::is_timeout`, `is_connect` and `is_decode` (`crash_replay`):
  each depends on the error alone.
- `String::push` and `std::str::from_utf8` (`text`): what a push appends, and
  what bytes decode to.

The modules:

- `crash_identity`, `identity_laws`: the identity of a crash, its cluster key,
  and when one identity may stand for another.
- `crash_replay`: the class of a response or a transport error, and the identity
  that a replay observed.
- `crash_clusters`, `cluster_laws`: clusters by key, their representatives, and
  what holds of them over a whole run.
- `crash_files`, `file_path`: which files of a directory are crash inputs, and
  in which order.
- `output_directory`: whether a directory may take the output.
- `dedup_run`, `dedup_report`: what becomes of each file, and the report.
- `text`, `order`: text and lexicographic order.

`app/` holds what touches the disk and the network: it walks the crash directory,
replays inputs, copies representatives and writes `clusters.json`.
