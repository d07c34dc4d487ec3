//! Putting the sources together into one document.

use vstd::prelude::*;
use crate::document::{document_tree, read_document, tree_from_value};
use crate::error::InnerError;
use crate::merge::{merge, merged, MergeFault};
use crate::source::{ConfigSource, Provenance};
use crate::tree::{Tree, TreeValue};

verus! {

/// What the value of the configuration variable turned out to be.
#[derive(Debug)]
pub enum ConfigVariable {
    /// The value is a TOML document: this is it, with its source.
    Inline(TreeValue, ConfigSource),
    /// The value is no TOML document, so it is taken as the path of a file;
    /// `error` is what the parser said of it.
    Path { error: Box<toml::de::Error> },
}

/// Reads the value of the configuration variable.
///
/// A value that is a TOML document is the configuration itself, and its
/// source is recorded as the dotenv-style file at `dotenv_path`. Any other
/// value is the path of a file that holds the configuration: whether there
/// is such a file is for the caller to find out, who then goes on with
/// [`read_config_variable_file`] or with [`neither_config_nor_file`].
pub fn read_config_variable(value: &str, dotenv_path: &str) -> (found: ConfigVariable)
    ensures
        match found {
            ConfigVariable::Inline(config, source) => {
                &&& document_tree(value@) == Some(config@)
                &&& source@ == Provenance::DotEnv(dotenv_path@)
                &&& config.wf()
            },
            ConfigVariable::Path { .. } => document_tree(value@) is None,
        },
{
    match read_document(value) {
        Ok(document) => ConfigVariable::Inline(
            tree_from_value(document),
            ConfigSource::DotEnv(dotenv_path.to_owned()),
        ),
        Err(error) => ConfigVariable::Path { error: Box::new(error) },
    }
}

/// The error for a configuration variable whose value is neither a TOML
/// document nor the path of an existing file.
pub fn neither_config_nor_file(name: &str, value: &str, error: Box<toml::de::Error>) -> (failure:
    InnerError)
    ensures
        failure matches InnerError::ErrorParsingEnvironmentVariableAsConfigOrFile {
            name: n,
            value: v,
            error: e,
        } && n@ == name@ && v@ == value@ && e == error,
{
    InnerError::ErrorParsingEnvironmentVariableAsConfigOrFile {
        name: name.to_owned(),
        value: value.to_owned(),
        error,
    }
}

/// Reads the text of the file at `path` as a TOML document.
pub fn parse_file(path: &str, contents: &str) -> (result: Result<TreeValue, InnerError>)
    ensures
        match result {
            Ok(config) => document_tree(contents@) == Some(config@) && config.wf(),
            Err(InnerError::ErrorParsingTomlFile { path: file, .. }) => document_tree(contents@)
                is None && file@ == path@,
            Err(_) => false,
        },
{
    match read_document(contents) {
        Ok(document) => Ok(tree_from_value(document)),
        Err(error) => Err(
            InnerError::ErrorParsingTomlFile { path: path.to_owned(), error: Box::new(error) },
        ),
    }
}

/// Reads the text of the file that the value of the configuration variable
/// names. The source of the document is recorded as the dotenv-style file
/// at `dotenv_path`, as for a value that is a document itself.
pub fn read_config_variable_file(path: &str, contents: &str, dotenv_path: &str) -> (result: Result<
    (TreeValue, ConfigSource),
    InnerError,
>)
    ensures
        match result {
            Ok((config, source)) => {
                &&& document_tree(contents@) == Some(config@)
                &&& source@ == Provenance::DotEnv(dotenv_path@)
                &&& config.wf()
            },
            Err(InnerError::ErrorParsingTomlFile { path: file, .. }) => document_tree(contents@)
                is None && file@ == path@,
            Err(_) => false,
        },
{
    match parse_file(path, contents) {
        Ok(config) => Ok((config, ConfigSource::DotEnv(dotenv_path.to_owned()))),
        Err(error) => Err(error),
    }
}

/// Reads the text of the configuration file at `path`. The source of the
/// document is that file.
pub fn read_config_file(path: &str, contents: &str) -> (result: Result<
    (TreeValue, ConfigSource),
    InnerError,
>)
    ensures
        match result {
            Ok((config, source)) => {
                &&& document_tree(contents@) == Some(config@)
                &&& source@ == Provenance::File(path@)
                &&& config.wf()
            },
            Err(InnerError::ErrorParsingTomlFile { path: file, .. }) => document_tree(contents@)
                is None && file@ == path@,
            Err(_) => false,
        },
{
    match parse_file(path, contents) {
        Ok(config) => Ok((config, ConfigSource::File(path.to_owned()))),
        Err(error) => Err(error),
    }
}

/// Why two sources could not be put together.
pub struct MergeFailure {
    pub from: Provenance,
    pub into: Provenance,
    pub fault: MergeFault,
}

/// A document with its source, as values.
pub open spec fn sourced(loaded: Option<(TreeValue, ConfigSource)>) -> Option<(Tree, Provenance)> {
    match loaded {
        Some((config, source)) => Some((config@, source@)),
        None => None,
    }
}

/// Whether no table of the document, if there is one, holds a key twice.
pub open spec fn sourced_wf(loaded: Option<(TreeValue, ConfigSource)>) -> bool {
    match loaded {
        Some((config, _)) => config.wf(),
        None => true,
    }
}

/// Two sources put together, `higher` taking precedence.
///
/// Where only one of them gave a document, that is the outcome. Where both
/// did, `higher` is laid over `lower` (see [`merged`]), and the source of
/// the outcome records the merge.
pub open spec fn combined(lower: Option<(Tree, Provenance)>, higher: Option<(Tree, Provenance)>) -> Result<
    Option<(Tree, Provenance)>,
    MergeFailure,
> {
    match (lower, higher) {
        (None, None) => Ok(None),
        (None, Some(only)) => Ok(Some(only)),
        (Some(only), None) => Ok(Some(only)),
        (Some((below, from)), Some((above, into))) => match merged(below, above, seq!['$']) {
            Ok(tree) => Ok(
                Some((tree, Provenance::Merged { from: Box::new(from), into: Box::new(into) })),
            ),
            Err(fault) => Err(MergeFailure { from, into, fault }),
        },
    }
}

/// The four sources put together in the order of their precedence, lowest
/// first: the dotenv-style file, the configuration variable, the mapped
/// environment variables, the configuration file. Each is laid over what
/// the ones before it gave; the first conflict ends it.
pub open spec fn initialized(
    dotenv: Option<(Tree, Provenance)>,
    config_variable: Option<(Tree, Provenance)>,
    env: Option<(Tree, Provenance)>,
    file: Option<(Tree, Provenance)>,
) -> Result<Option<(Tree, Provenance)>, MergeFailure> {
    match combined(dotenv, config_variable) {
        Err(failure) => Err(failure),
        Ok(first) => match combined(first, env) {
            Err(failure) => Err(failure),
            Ok(second) => combined(second, file),
        },
    }
}

/// Whether `result` is the outcome `wanted`.
pub open spec fn is_outcome(
    result: Result<Option<(TreeValue, ConfigSource)>, InnerError>,
    wanted: Result<Option<(Tree, Provenance)>, MergeFailure>,
) -> bool {
    match result {
        Ok(loaded) => wanted == Ok::<Option<(Tree, Provenance)>, MergeFailure>(sourced(loaded)),
        Err(InnerError::ErrorMerging { from, into, error }) => wanted == Err::<
            Option<(Tree, Provenance)>,
            MergeFailure,
        >(MergeFailure { from: from@, into: into@, fault: error@ }),
        Err(_) => false,
    }
}

/// Puts two sources together, `higher` taking precedence.
pub fn combine(
    lower: Option<(TreeValue, ConfigSource)>,
    higher: Option<(TreeValue, ConfigSource)>,
) -> (result: Result<Option<(TreeValue, ConfigSource)>, InnerError>)
    ensures
        is_outcome(result, combined(sourced(lower), sourced(higher))),
        sourced_wf(lower) && sourced_wf(higher) ==> (result matches Ok(both) ==> sourced_wf(both)),
{
    match (lower, higher) {
        (None, None) => Ok(None),
        (None, Some(only)) => Ok(Some(only)),
        (Some(only), None) => Ok(Some(only)),
        (Some((below, from)), Some((above, into))) => match merge(below, above) {
            Ok(tree) => Ok(
                Some((tree, ConfigSource::Merged { from: Box::new(from), into: Box::new(into) })),
            ),
            Err(error) => Err(InnerError::ErrorMerging { from, into, error }),
        },
    }
}

/// Puts together what the four sources gave, each with its own source
/// beside it, into the one document that is the configuration.
///
/// The order of precedence is, lowest first: the dotenv-style file, the
/// configuration variable, the mapped environment variables, the
/// configuration file. A source that gave nothing is passed over. Where no
/// source gave anything there is no configuration, which is no error.
pub fn initialize(
    dotenv: Option<(TreeValue, ConfigSource)>,
    config_variable: Option<(TreeValue, ConfigSource)>,
    env: Option<(TreeValue, ConfigSource)>,
    file: Option<(TreeValue, ConfigSource)>,
) -> (result: Result<Option<(TreeValue, ConfigSource)>, InnerError>)
    ensures
        is_outcome(
            result,
            initialized(sourced(dotenv), sourced(config_variable), sourced(env), sourced(file)),
        ),
        dotenv is None && config_variable is None && env is None && file is None
            ==> result matches Ok(None),
        sourced_wf(dotenv) && sourced_wf(config_variable) && sourced_wf(env) && sourced_wf(file)
            ==> (result matches Ok(all) ==> sourced_wf(all)),
{
    let first = match combine(dotenv, config_variable) {
        Ok(first) => first,
        Err(error) => {
            return Err(error);
        },
    };
    let second = match combine(first, env) {
        Ok(second) => second,
        Err(error) => {
            return Err(error);
        },
    };
    combine(second, file)
}

} // verus!
