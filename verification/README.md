# torrent_streaming

Reads a file of a torrent while the torrent is still being downloaded. A reader gets data as
soon as the 16 KiB chunk at its position has been written, and the pieces that open streams
need next are fetched first.

`src/` is the library. Its functions carry contracts that Verus proves: which pieces a stream
wants, in which order the pieces of several streams come, who is woken when a chunk or a piece
comes in, how much one read may take, and where a seek goes to. The proof functions named
`law_*` state what holds across functions.

`src/stream_map.rs` holds what is taken on trust: the concurrent map of the crate dashmap that
keeps the streams, the shuffle of the crate rand, and the type of the wakers. `file_info.rs`
trusts that a copy of a path is the same path.

The functions that change the registry of streams take it by `&mut`. `app/` puts it behind a
lock, and wraps the streams as tokio readers. It performs what the library decides on: blocking
reads, waking, connecting to peers, and logging.

`tests/` runs the library on concrete values.
