//! Parsing of M3U and extended M3U (IPTV) playlists.
//!
//! `m3u::parse` turns the text of a playlist into a `Playlist`, or says where and why it cannot.
//! Its contract states the result exactly, over the grammar in `grammar` and the line-by-line
//! reading in `m3u`; `laws` proves properties that every accepted playlist has.

mod attributes;
pub mod grammar;
pub mod laws;
pub mod m3u;
pub mod text;
