//! Bonnibel: a meta-build generator.
//!
//! The crate reads a declarative graph of build modules and targets, resolves
//! inter-module dependencies, selects templates and renders low-level build
//! description files for an external build executor, persists user-supplied
//! build variables, and resolves download URLs of external source overlays to
//! content-addressed cache paths.

pub mod errors;
pub mod generate;
pub mod graph;
pub mod module;
pub mod project;
pub mod strmap;
pub mod overlay;
pub mod template;
pub mod text;
pub mod vars;
pub mod version;
