//! Where a piece of configuration came from.

use vstd::prelude::*;
use vstd::string::StringExecFns;

verus! {

/// How a path is written between quotes, by the rules of `Debug` for
/// `std::path::Path`.
pub uninterp spec fn quoted_path(path: Seq<char>) -> Seq<char>;

/// Calls `format!` with `{:?}` on `path` taken as a `std::path::Path`.
///
/// Believed: the outcome depends on the path alone.
#[verifier::external_body]
fn quote_path(path: &str) -> (text: String)
    ensures
        text@ == quoted_path(path@),
{
    format!("{:?}", std::path::Path::new(path))
}

/// A source of configuration. It is kept beside each document for the sake
/// of error messages, and mirrors the merges that made the document.
#[derive(Debug, PartialEq)]
pub enum ConfigSource {
    /// From two sources merged together.
    Merged {
        /// The source of lower precedence, or the sources merged so far.
        from: Box<ConfigSource>,
        /// The source of higher precedence, which was laid over them.
        into: Box<ConfigSource>,
    },
    /// From a dotenv-style file at this path.
    DotEnv(String),
    /// From a configuration file at this path.
    File(String),
    /// From environment variables.
    Environment {
        /// The names of the environment variables.
        variable_names: Vec<String>,
    },
}

/// The mathematical value of a [`ConfigSource`].
pub enum Provenance {
    Merged { from: Box<Provenance>, into: Box<Provenance> },
    DotEnv(Seq<char>),
    File(Seq<char>),
    Environment { variable_names: Seq<Seq<char>> },
}

impl ConfigSource {
    /// The value of this source and of the sources it was merged from.
    pub open spec fn model(&self) -> Provenance
        decreases self,
    {
        match self {
            ConfigSource::Merged { from, into } => Provenance::Merged {
                from: Box::new(from.model()),
                into: Box::new(into.model()),
            },
            ConfigSource::DotEnv(path) => Provenance::DotEnv(path@),
            ConfigSource::File(path) => Provenance::File(path@),
            ConfigSource::Environment { variable_names } => Provenance::Environment {
                variable_names: variable_names@.map_values(|name: String| name@),
            },
        }
    }
}

/// The names, with a comma and a space between each two.
pub open spec fn listed(names: Seq<Seq<char>>) -> Seq<char>
    decreases names.len(),
{
    if names.len() == 0 {
        Seq::empty()
    } else if names.len() == 1 {
        names[0]
    } else {
        listed(names.drop_last()) + ", "@ + names.last()
    }
}

/// How a source is named in a message.
pub open spec fn described(source: Provenance) -> Seq<char>
    decreases source,
{
    match source {
        Provenance::Merged { from, into } => "("@ + described(*from) + ") merged into ("@
            + described(*into) + ")"@,
        Provenance::DotEnv(path) => "dotenv TOML file "@ + quoted_path(path),
        Provenance::File(path) => "config TOML file "@ + quoted_path(path),
        Provenance::Environment { variable_names } => "environment variables "@ + listed(
            variable_names,
        ),
    }
}

impl ConfigSource {
    /// Names the source for a message: a file by its kind and its quoted
    /// path, environment variables by their names, a merge by its two sides
    /// in brackets.
    pub fn describe(&self) -> (text: String)
        ensures
            text@ == described(self@),
        decreases self,
    {
        match self {
            ConfigSource::Merged { from, into } => {
                let mut text = String::from_str("(");
                text.append(from.describe().as_str());
                text.append(") merged into (");
                text.append(into.describe().as_str());
                text.append(")");
                text
            },
            ConfigSource::DotEnv(path) => {
                let mut text = String::from_str("dotenv TOML file ");
                text.append(quote_path(path.as_str()).as_str());
                text
            },
            ConfigSource::File(path) => {
                let mut text = String::from_str("config TOML file ");
                text.append(quote_path(path.as_str()).as_str());
                text
            },
            ConfigSource::Environment { variable_names } => {
                let ghost names = variable_names@.map_values(|name: String| name@);
                let mut text = String::from_str("environment variables ");
                let mut i: usize = 0;
                assert(names.take(0) =~= Seq::<Seq<char>>::empty());
                while i < variable_names.len()
                    invariant
                        i <= variable_names.len(),
                        names == variable_names@.map_values(|name: String| name@),
                        text@ == "environment variables "@ + listed(names.take(i as int)),
                    decreases variable_names.len() - i,
                {
                    let ghost before = names.take(i as int);
                    let ghost next = names.take(i + 1);
                    assert(next.drop_last() =~= before);
                    assert(next.last() == variable_names@[i as int]@);
                    if i > 0 {
                        text.append(", ");
                    }
                    text.append(variable_names[i].as_str());
                    assert(text@ =~= "environment variables "@ + listed(next));
                    i = i + 1;
                }
                assert(names.take(variable_names.len() as int) =~= names);
                text
            },
        }
    }
}

impl View for ConfigSource {
    type V = Provenance;

    open spec fn view(&self) -> Provenance {
        self.model()
    }
}

} // verus!
