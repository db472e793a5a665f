pub mod handle;
pub mod timer;
