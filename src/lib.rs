//! Bootstrapping engine for server instance directories: merges template
//! variables, renders a template tree into a plan of writes, and decides
//! whether a license acceptance file must be synthesized.

pub mod vars;
pub mod template;
pub mod plan;
pub mod eula;
pub mod build_context;
