//! Rate-control hooks, GOP splitting and reassembly, container headers,
//! plane buffers and the command-line pass-file format of an AV1 encoder,
//! stated and proved with Verus.
#![allow(unused_imports)]

pub mod api;
pub mod bitwriter;
pub mod cli;
pub mod frame;
pub mod util;
