//! What a caller asks for.

use vstd::prelude::*;
use crate::document::{lowercase, to_lowercase};
use crate::key_path::TomlKeyPath;

verus! {

/// The path at which a dotenv-style file is looked for by default.
pub const DEFAULT_DOTENV_PATH: &'static str = ".env.toml";

/// The default name of the environment variable that holds the
/// configuration, and of the table that holds it in a dotenv-style file.
pub const DEFAULT_CONFIG_VARIABLE_NAME: &'static str = "CONFIG";

/// The default divider between the levels of a path in the name of an
/// environment variable. It stands where a path has a dot.
pub const DEFAULT_MAP_ENV_DIVIDER: &'static str = "__";

/// How progress is reported.
#[derive(Clone, Copy, Debug, PartialEq, Eq, Structural)]
pub enum Logging {
    /// Not at all.
    Silent,
    /// On standard output.
    StdOut,
    /// Through the `log` crate.
    Log,
}

impl Default for Logging {
    fn default() -> (logging: Self)
        ensures
            logging == Logging::Silent,
    {
        Logging::Silent
    }
}

/// What is done to the name of an environment variable, its prefix taken
/// off, before the name is read as a path: a plain function from text to
/// text, called once for each variable found.
pub trait NameTransform {
    /// The transformed name.
    fn apply(&self, name: &str) -> String;
}

/// The transform that turns a name into lowercase.
#[derive(Clone, Copy, Debug)]
pub struct Lowercase;

impl NameTransform for Lowercase {
    fn apply(&self, name: &str) -> (out: String)
        ensures
            out@ == lowercase(name@),
    {
        to_lowercase(name)
    }
}

/// How environment variables are found and mapped into the configuration
/// without being listed one by one.
pub struct AutoMapEnvArgs<'a> {
    /// The divider between the levels of a path in a variable's name. Each
    /// occurrence becomes a dot of the path.
    pub divider: &'a str,
    /// The prefix of the variables to map; the name of the configuration
    /// variable where there is none.
    pub prefix: Option<&'a str>,
    /// What is done to a name, its prefix taken off, before it is read.
    pub transform: Box<dyn NameTransform>,
}

impl Default for AutoMapEnvArgs<'static> {
    fn default() -> (auto: Self)
        ensures
            auto.divider@ == DEFAULT_MAP_ENV_DIVIDER@,
            auto.prefix is None,
    {
        AutoMapEnvArgs {
            divider: DEFAULT_MAP_ENV_DIVIDER,
            prefix: None,
            transform: Box::new(Lowercase),
        }
    }
}

/// What [`crate::initialize`] and the functions around it are asked for.
pub struct Args<'a> {
    /// The path of the dotenv-style file.
    pub dotenv_path: &'a str,
    /// The path of a configuration file to load, if any.
    pub config_path: Option<&'a str>,
    /// The name of the environment variable that holds the configuration,
    /// and of the table that holds it in the dotenv-style file.
    pub config_variable_name: &'a str,
    /// How progress is reported.
    pub logging: Logging,
    /// The environment variables to map into the configuration, each with
    /// the path at which its value is written. Where a name occurs twice, the
    /// first entry counts.
    pub map_env: Vec<(String, TomlKeyPath)>,
    /// How further variables are found by their names, if they are.
    pub auto_map_env: Option<AutoMapEnvArgs<'a>>,
}

impl Default for Args<'static> {
    fn default() -> (args: Self)
        ensures
            args.dotenv_path@ == DEFAULT_DOTENV_PATH@,
            args.config_path is None,
            args.config_variable_name@ == DEFAULT_CONFIG_VARIABLE_NAME@,
            args.logging == Logging::Silent,
            args.map_env@.len() == 0,
            args.auto_map_env is None,
    {
        Args {
            dotenv_path: DEFAULT_DOTENV_PATH,
            config_path: None,
            config_variable_name: DEFAULT_CONFIG_VARIABLE_NAME,
            logging: Logging::Silent,
            map_env: Vec::new(),
            auto_map_env: None,
        }
    }
}

} // verus!
