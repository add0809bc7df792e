//! Forge AI's provider-neutral core: connections, context budgeting,
//! provider fallback order, provider replies and usage accounting.

pub mod model;
pub mod text;
pub mod context;
pub mod routing;
pub mod records;
pub mod connections;
pub mod json;
pub mod provider;
pub mod usage;
pub mod conversations;
pub mod settings;
pub mod system;
