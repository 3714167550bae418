//! Watch-and-update tree search over a rewriting engine: the coordinator's
//! bookkeeping, stated and proved.
mod chance;
pub mod checkpoint_manager;
pub mod counting;
pub mod eg_env;
pub mod error;
pub mod node;
pub mod paths;
pub mod pool_manager;
pub mod run;
pub mod tree;
pub mod workers;
