//! The computations behind each command of the process manager.
pub mod kill_process;
pub mod ps;
pub mod tree_mode;
