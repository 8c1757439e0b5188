//! Conversion of Minecraft Java Edition region saves between the `mca`,
//! `linear`, `blinear_v2` and `blinear_v3` layouts.

pub mod bytes;
pub mod cli;
pub mod codec;
pub mod text;
pub mod path;
pub mod sort;
pub mod console;
pub mod conversion;
pub mod convert;
pub mod diagnostic;
pub mod discovery;
pub mod error;
pub mod formats;
pub mod info;
pub mod inspection;
pub mod io_util;
pub mod model;
pub mod pipeline;
pub mod planner;
pub mod runtime;
pub mod search;
pub mod writer;
