//! Reconciliation engine for optional configuration modules layered on a
//! fixed base system.
//!
//! The library keeps two persisted artifacts truthful across a slow,
//! possibly failing external apply step: a module catalog holding each
//! module's last-confirmed tri-state, and an activation set holding the
//! administrator's desired list of active module names. Loading, writing
//! and invoking the external applier are the caller's concern; everything
//! the engine decides or computes is verified here.

pub mod active;
pub mod codec;
pub mod descriptor;
pub mod manager;
pub mod registry;
pub mod state;

pub use active::ModuleFile;
pub use manager::ModuleManager;
pub use registry::ModuleRegistry;
pub use state::Module;
pub use state::ModuleError;
pub use state::ModuleState;
pub use state::ModuleStatus;
