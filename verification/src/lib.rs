//! Grouping of top-level declarations by their conditional-compilation and
//! foreign-linkage directives into synthesized namespaces, together with a
//! pattern-set matcher for allow/deny filtering of generated names.

pub mod decl;
pub mod directive;
pub mod group;
pub mod key;
pub mod laws;
pub mod pattern;
pub mod text;
pub mod views;

pub use group::merge_cfg_attributes;
pub use pattern::PatternSet;
