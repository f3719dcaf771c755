# lightwatch

A live view of what a running program is doing: which functions are being
called right now, how they call each other, and which objects are alive.

It attaches to any process that emits the lightwatch protocol. A process opens a
socket, sends one `hello`, then one JSON frame per window. That is the entire
contract, so a client in any language is a few lines rather than an SDK.

The library under `src/` is written in Verus: every function states what it
does, and the verifier holds it to that.

| Module | What it holds |
| --- | --- |
| `proto`, `dist`, `socket` | the protocol: messages, distributions, where to meet |
| `hashing`, `ordered`, `sorting`, `text`, `quantity`, `clock` | what the rest is built from |
| `accum`, `calls`, `paths`, `census`, `symbols`, `emit`, `testing`, `measure` | the probe: what a program measures of itself |
| `handover` | what an emitter's names mean to the daemon that hears them |
| `recordings` | what reading the probe back gives of what was measured |
| `ring`, `store`, `registry`, `ingest` | the daemon: streams in, histories kept |
| `totals` | lifetime totals against the windows they arrived in |
| `session`, `api`, `server` | the daemon: what it answers |
| `bridge`, `source` | the bridge: a hotpath report, differenced into frames |

`app/` is the program around it: sockets, HTTP, JSON, the probe's statics and
threads, and the attributes' tokens. `tests/` runs the library.

## Running the daemon

| Variable | Default | What it sets |
| --- | --- | --- |
| `LIGHTWATCH_SOCK_DIR` | `$TMPDIR/lightwatch` on macOS, else `$XDG_RUNTIME_DIR/lightwatch`, else `lightwatch` under the temporary directory | Directory holding the ingest socket. Created if absent. |
| `LIGHTWATCH_PORT` | `7700` | HTTP port, bound on `127.0.0.1` only. |
| `LIGHTWATCH_LOG` | `info` | `tracing` filter. |

Emitters connect to `$LIGHTWATCH_SOCK_DIR/lightwatch.sock` and write
newline-delimited JSON, one message per line, `hello` first.

`lightwatch bridge` polls a process that hotpath profiles and feeds the daemon
from it.

## The one thing to get right

`calls` and `stack` events are deltas and accumulate. A `census` event is an
absolute reading at window close and replaces the previous one. A field called
`*_total`, and a window's `calls`, `edges` and `stacks`, accumulate; a `census`
object is a reading and must never be summed across windows.

## The API

`GET /api/processes` lists every stream the daemon has seen since it started,
newest first, as `{"processes": [...]}`. Each has `id`, `app`, `pid`, `source`,
`started_unix_ms`, `ended_unix_ms` (null while it streams), `connected`,
`window_ms`, `last_frame_unix_ms`, `last_t_ns` and `counts`: `frames`, `events`,
`functions`, `types`, `edges`, `paths`, `missed_frames`, `late_frames`,
`unknown_id` and `malformed_lines`. An `id` is opaque: read it, pass it back, do
not parse it.

`GET /api/processes/{id}/snapshot` is everything known about one process, `404`
if the id is unknown. `?resolution=` chooses the ring its windows come from,
`fine` (100 ms, the last minute) or `coarse` (1 s, the last quarter hour), and
anything else is a `400`. `?limit=` caps how many of the most recent windows are
returned. It holds `process`, `taken_unix_ms`, `rate_window_ms`, `resolution`,
`resolution_ms`, `resolution_capacity`, `fine_window_ms`,
`fine_window_capacity`, and:

- `functions`: `id`, `name`, `module`, `location`, `calls_total`, `ns_total`,
  `self_ns_total`, `calls_per_sec`, `ns_per_sec`, `self_ns_per_sec`, and
  `ns_buckets` of `lo`, `hi` and `count`;
- `types`: `id`, `name`, `location`, and `census`, the latest reading or null,
  with `live`, `bytes`, `at_t_ns` and `size_buckets`;
- `edges`: `from`, `to`, `calls_total`, read off the call tree;
- `paths`: the call tree, with `id`, `parent` (zero where nothing measured
  called it, and always below `id`), `func`, `calls_total`, `self_ns_total`;
- `windows`: `index`, `start_t_ns`, `end_t_ns`, `calls`, `edges`, `stacks` and
  `census`, contiguous and ascending, with an idle stretch as empty windows.

`GET /api/processes/{id}/stream` is a websocket with one message per closed
window, `{"type": "window", "process_id": ..., "window": ...}`, and
`{"type": "process_ended", "process_id": ..., "ended_unix_ms": ...}` at the end.
An empty window is not sent.

`GET /api/sessions` joins the streams that watch one run of one program:
`{"sessions": [...]}` with `id`, `app`, `pid`, `connected`, `cpu`, `memory` and
`superseded`. Each member has `process_id`, `feed`, `source`, `started_unix_ms`,
`ended_unix_ms`, `connected` and `last_frame_unix_ms`.

`GET /api/sessions/{id}/stream` is a websocket with both feeds, each message
tagged with `session_id` and `feed`.
