//! Live transcoding and segment-packaging engine of an internet radio server.
use vstd::prelude::*;

pub mod codec;
pub mod hls;
pub mod radio;
pub mod ingest;
pub mod recode;
pub mod resolver;
pub mod scheduler;
pub mod tag;
pub mod text;
