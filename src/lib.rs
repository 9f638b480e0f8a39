//! Settings store, placeholder resolution and task planning for a small
//! git workflow helper.
pub mod text;
pub mod settings;
pub mod template;
pub mod task;
pub mod file;
pub mod cli;
pub mod git;
