//! Core of a modlist installer: resolving `%NAME%` templates, locating files
//! nested inside archives, keeping a bounded cache of extracted archives,
//! sharing one result per requested archive, routing assets between
//! locations, staging the files of output archives, and reading 7-Zip's
//! technical listings.

mod text;

pub mod order;

pub mod templating;
pub mod variables;
pub mod hash_path;
pub mod nested_archives;
pub mod registry;
pub mod paths;
pub mod locations;
pub mod queue;
pub mod selection;
pub mod split;
pub mod debug_helpers;
pub mod list_output;
pub mod bulk;
