//! Identities, and the packages that carry them.

pub mod dependency;
pub mod ident;
pub mod package;
pub mod rawnode;
pub mod repository;
