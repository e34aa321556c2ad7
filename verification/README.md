# simple_downloader

A download library: several connections to one file, resuming after an interruption, several
sources, rate limits, and a queue of downloads. What a download decides is proved with Verus; what it
asks of the network and the disk is ordinary Rust.

## Layout

- `src/` holds the decisions. Nothing in it reads, writes, waits or asks for the time: replies, times
  and the outcomes of writes are handed in, and requests, writes and commands are handed out.
- `app/` performs them: HTTP requests, the file, the ledger's file, timers, tasks and logging.
- `tests/` runs the decisions on concrete values.

The modules of `src/`:

| Module | Decides |
|---|---|
| `util` | what the replies to a probe say of a file's size and of ranges |
| `downloader` | how a download is set up, and which ranges it starts with |
| `chunk` | how one ranged request runs, is split, and ends |
| `state` | what has been received, and how fast |
| `concurrency` | when a running chunk is split or given up |
| `retry` | when a failed range is tried again, and when that ends |
| `monitor` | what each report and each tick changes, and what is done about it |
| `lane`, `source` | which source and proxy serves a chunk |
| `resume` | which bytes of an interrupted download can be trusted |
| `writer` | how writes are joined |
| `limiter`, `speed`, `config`, `trace`, `resource` | limits, measuring, settings, logging, one address |
| `queue`, `task` | which download runs, and where its file goes |
| `path`, `text`, `types` | paths, text, and the types that the others exchange |
| `conservation`, `occupancy`, `delivery`, `ledger` | no decisions: laws of whole downloads and of the ledger |

## Conventions

Times are nanoseconds, speeds are thousandths of a byte per second, and paths are text with `/` between
their components. Counters that could run over stay at their largest value.

## What is taken on trust

Outside calls from `src/` stand behind small functions whose comments say what is claimed of the call:
the encoding of the ledger (`bitcode`), task ids (`uuid`), the address of a proxy and the text of a
status (`reqwest`), and `String::push` and `str::to_lowercase` of the standard library.
