//! Verified core of a plugin development tool: version bookkeeping for plugin
//! metadata, a serializer and parser for literal table syntax, a module bundler
//! that inlines required modules, and the upward search for a project root.

pub mod bundle;
pub mod config;
pub mod info;
pub mod parse;
pub mod project;
pub mod table;
pub mod text;
pub mod tree;
pub mod version;

pub use bundle::{
    Bundle, BundleError, ModuleSet, bundle_file_name, find_lua_requirements, module_file_path,
};
pub use config::{Author, CheckOption, MARKER_FILE, PLUGIN_ROOT, Template};
pub use info::{MetadataError, PluginInfo};
pub use parse::parse_literal_assignment;
pub use project::find_project_dir;
pub use table::{LuaTable, LuaValue, name_table, serialize_table, serialize_value};
pub use tree::{CopyStep, FileTree, extraction_plan, find_file_recursively};
pub use version::{BuildIncrement, increment_build_version, short_version};
