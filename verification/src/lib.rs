//! Middle-end passes of a small Scheme compiler: alpha-renaming with
//! letrec-aware scoping, and lambda lifting with literal interning.
pub mod ast;
pub mod env;
pub mod laws;
pub mod lift;
pub mod names;
pub mod rename;
pub mod state;

pub use ast::{Code, Expr};
pub use env::Env;
pub use lift::{lift, lift1, Error};
pub use rename::{mangle, rename};
pub use state::State;
