//! Static-asset dependency resolution and load ordering for a
//! server-rendered web site, with the site's configuration.
//!
//! The heart of the crate finds out which scripts a page has to load and in
//! which order:
//!
//! * [`imports`] finds the import statements of a script;
//! * [`tsconfig`] resolves path aliases, [`path`] normalizes paths;
//! * [`dependencies`] flattens the imports of a module into its dependency
//!   list and keeps the lists of all modules in an index;
//! * [`packages_files`] knows the bundled files of packages;
//! * [`template`] merges the lists of the scripts of one response into a
//!   manifest in which every dependency comes before its dependents.
//!
//! Nothing here reads a file or the environment: the sources are handed in
//! as a [`sources::SourceTree`], the configuration as plain values.

pub mod args;
pub mod cache;
pub mod components_files;
pub mod config;
pub mod cron;
pub mod dependencies;
pub mod env;
pub mod err;
pub mod file;
pub mod imports;
pub mod layer;
pub mod layout;
pub mod order;
pub mod packages_files;
pub mod pages;
pub mod path;
pub mod sources;
pub mod template;
pub mod text;
pub mod tsconfig;
