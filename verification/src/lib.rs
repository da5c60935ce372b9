//! Mutually-exclusive, restorable access to a table of named string
//! variables, in the shape of a process environment.
//!
//! [`lock_env`] applies a list of requested assignments to an [`EnvTable`],
//! recording the prior value of each variable in an [`EnvGuard`]. Releasing
//! the guard restores every recorded value, so the table returns to the
//! state it had before the acquisition.

pub mod guard;
pub mod table;

pub use guard::lock_env;
pub use guard::EnvGuard;
pub use table::EnvTable;
