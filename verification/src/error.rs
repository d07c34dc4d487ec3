//! What can go wrong while configuration is put together.

use vstd::prelude::*;
use crate::insert::InsertTomlValueError;
use crate::merge::MergeConflict;
use crate::source::ConfigSource;
use crate::tree::TreeValue;

verus! {

/// Why an entry of a dotenv-style file cannot stand at its top level.
#[derive(Debug, PartialEq)]
pub enum DotEnvReason {
    /// The entry is a table, and its key is not `allowed`, the name of the
    /// configuration variable.
    UnexpectedTable { allowed: String },
    /// The entry is an array; these are its elements.
    ArrayValue(Vec<TreeValue>),
}

/// What went wrong.
#[derive(Debug)]
#[allow(inconsistent_fields)]
pub enum InnerError {
    /// An environment variable is set, but its value is not valid Unicode.
    ErrorReadingEnvironmentVariable {
        /// The name of the variable.
        name: String,
    },
    /// The text of a file is no TOML document.
    ErrorParsingTomlFile {
        /// The path of the file.
        path: String,
        /// What the parser said.
        error: Box<toml::de::Error>,
    },
    /// An entry at the top level of a dotenv-style file is neither a scalar
    /// nor the table of the configuration.
    CannotParseTomlDotEnvFile {
        /// The key of the entry.
        key: String,
        /// The path of the file.
        path: String,
        /// Why the entry cannot stand there.
        reason: DotEnvReason,
    },
    /// The value of the configuration variable is no TOML document, and no
    /// file exists at the path that it would otherwise be.
    ErrorParsingEnvironmentVariableAsConfigOrFile {
        /// The name of the variable.
        name: String,
        /// Its value.
        value: String,
        /// What the parser said of the value.
        error: Box<toml::de::Error>,
    },
    /// The top level of a dotenv-style file is no table.
    UnexpectedTomlDotEnvFileFormat {
        /// The path of the file.
        path: String,
        /// What the top level is.
        value: TreeValue,
    },
    /// Two sources hold values of different kinds at the same place.
    ErrorMerging {
        /// The source of lower precedence, or the sources merged so far.
        from: ConfigSource,
        /// The source of higher precedence, which was to be laid over them.
        into: ConfigSource,
        /// Where the two disagree, and how.
        error: MergeConflict,
    },
    /// The value of an environment variable could not be written at its path.
    InsertTomlValueError(InsertTomlValueError),
}

} // verus!
