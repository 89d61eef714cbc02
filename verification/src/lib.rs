//! Reading Laravel logs: parsing them into entries, and following them as they grow.

pub mod activity;
pub mod files;
pub mod header;
pub mod ids;
pub mod model;
pub mod parser;
pub mod parser_laws;
pub mod paths;
pub mod project;
pub mod project_laws;
pub mod registry;
pub mod sink;
pub mod text;
pub mod watcher;
pub mod watcher_laws;
pub mod watcher_model;
pub mod watchers;
pub mod window;
