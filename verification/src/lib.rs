//! The verified core of a small DLNA media server: request framing, path and
//! name codecs, directory listings and the replies to GET and POST requests.

pub mod browse;
pub mod browse_laws;
pub mod bytes;
pub mod cache;
pub mod cli;
pub mod codec;
pub mod codec_laws;
pub mod framing;
pub mod get;
pub mod order;
pub mod pages;
pub mod post;
pub mod precache;
pub mod precache_laws;
pub mod request;
pub mod sanitize;
pub mod send;
pub mod seqs;
pub mod text;
