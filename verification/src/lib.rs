//! Streaming reads of the files of a torrent while it is still being downloaded.
//!
//! - [`lengths`]: how a torrent is cut into pieces and chunks.
//! - [`file_info`]: the files of a torrent, and which of their pieces to get first.
//! - [`stream_state`]: where a stream stands, and which pieces it wants.
//! - [`interleave`]: serving several streams in turn.
//! - [`stream_map`]: the outside parts that the registry of streams stands on.
//! - [`torrent_streams`]: the registry of the streams that are open on a torrent.
//! - [`file_stream`]: reading one file, with seeks.
//! - [`managed_torrent`]: what a torrent must be like for a file to be streamed.

pub mod file_info;
pub mod file_stream;
pub mod interleave;
pub mod lengths;
pub mod managed_torrent;
pub mod stream_map;
pub mod stream_state;
pub mod torrent_streams;
