//! Fixed-capacity byte buffers for short text.
pub mod errors;
pub mod helper;
pub mod model;
pub mod text;
pub mod split;
pub mod cb;
pub mod laws;
pub mod b8kb;
pub mod cbrf;

pub use cb::BFRDYN;
pub use cb::DEFCAPACITY;
pub use cbrf::CBfr;
