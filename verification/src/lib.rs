//! Layered configuration: a tree of tables, arrays and scalars, dotted key
//! paths into it, and the rules by which several sources are folded into one
//! document.

pub mod args;
pub mod document;
pub mod dotenv;
pub mod env;
pub mod error;
pub mod init;
pub mod insert;
pub mod key_path;
pub mod merge;
pub mod resolve;
pub mod scalar;
pub mod source;
pub mod text;
pub mod tree;

pub use args::{
    Args, AutoMapEnvArgs, Logging, Lowercase, NameTransform, DEFAULT_CONFIG_VARIABLE_NAME,
    DEFAULT_DOTENV_PATH, DEFAULT_MAP_ENV_DIVIDER,
};
pub use dotenv::{initialize_dotenv_toml, scan_dotenv, DotEnv};
pub use env::{
    effective_map, find_variable, found_variables, initialize_env, load_variables, EnvVar,
};
pub use error::{DotEnvReason, InnerError};
pub use init::{
    combine, initialize, neither_config_nor_file, parse_file, read_config_file,
    read_config_variable, read_config_variable_file, ConfigVariable,
};
pub use insert::{insert_toml_value, InsertTomlValueError};
pub use key_path::{InvalidPath, PathElement, TomlKeyPath};
pub use merge::{merge, MergeConflict};
pub use scalar::parse_toml_value;
pub use source::ConfigSource;
pub use tree::{Tree, TreeValue, ValueKind};
