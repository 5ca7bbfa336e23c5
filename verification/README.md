# mimeclip

MIME-aware clipboard history for Wayland, with its logic verified by Verus.

mimeclip records every MIME type that is offered when something is copied, and offers all of them
again when an entry is restored. Copying a file and copying its path are two entries, because an
entry is identified by the hash of all its MIME types and bytes.

## Layout

- `src/` is the verified library.
  - `payload`, `hash`, `types`, `label`: what an offer is, its normal form, its hash, its kind and
    its label.
  - `rows`, `db`: the history table. It is held in memory; every operation also notes what it
    changed, and the changes made to the rows on disk give the rows in memory.
  - `suppress`, `watcher`: which offers are read and recorded. An entry that was just restored is
    not recorded again.
  - `ipc`, `server`, `restore`, `cli`, `retry`: requests and answers, offering an entry again, what
    the client shows, and when a connection is tried again.
  - `history`, `daemon`, `notation`: what holds of the history and of the daemon as a whole.
  - `text`, `order`, `time`: text, sorting and moments.
  - `outside`: the functions of other crates and of std that the library relies on, and what it
    takes for granted of each.
- `app/` is the program around the library: the Wayland connection, the socket, SQLite, JSON and
  the command line. Called as `mimeclipd` it is the daemon, otherwise the client.
- `tests/` runs the library.

## Settings

| Variable | Default | Effect |
|---|---|---|
| `RUST_LOG` | `info` | Log level |
| `XDG_RUNTIME_DIR` | `/tmp` | Where the socket lies |
| `XDG_DATA_HOME` | `~/.local/share` | Where the history lies |
| `MIMECLIP_MAX_ENTRIES` | `500` | How many entries are kept |
