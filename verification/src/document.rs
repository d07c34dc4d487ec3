//! Reading configuration documents and scalars with the `toml` crate.
//!
//! What that crate computes is taken on trust here: each function below
//! states what is believed of it, and nothing in this module is proved.

use vstd::prelude::*;
use crate::tree::{Tree, TreeValue};

verus! {

/// A parsed document as the `toml` crate holds it. Nothing here looks inside
/// one; [`tree_from_value`] turns it into a [`TreeValue`].
#[verifier::external_type_specification]
#[verifier::external_body]
pub struct ExValue(toml::Value);

/// Why the `toml` crate refused a text.
#[verifier::external_type_specification]
#[verifier::external_body]
pub struct ExDocumentError(toml::de::Error);

/// The tree that a value of the `toml` crate holds: its tables with their
/// entries in the order in which the value keeps them, its arrays, its
/// scalars, a float by its bit pattern.
pub uninterp spec fn tree_of_value(value: toml::Value) -> Tree;

/// The tree that a text denotes as a TOML document, if it is one.
pub uninterp spec fn document_tree(text: Seq<char>) -> Option<Tree>;

/// The value that a text denotes as a float, by the rules of `str::parse`.
pub uninterp spec fn float_value(text: Seq<char>) -> Option<toml::Value>;

/// The date and time that a text denotes, by the rules of the `toml` crate.
pub uninterp spec fn datetime_value(text: Seq<char>) -> Option<toml::value::Datetime>;

/// The lowercase form of a text, by the rules of `str::to_lowercase`.
pub uninterp spec fn lowercase(text: Seq<char>) -> Seq<char>;

/// Calls `toml::from_str` to read `text` as a TOML document.
///
/// Believed: whether the text is accepted, and the tree of the value that
/// comes back, depend on the text alone.
#[verifier::external_body]
pub(crate) fn read_document(text: &str) -> (document: Result<toml::Value, toml::de::Error>)
    ensures
        match document {
            Ok(value) => document_tree(text@) == Some(tree_of_value(value)),
            Err(_) => document_tree(text@) is None,
        },
{
    toml::from_str::<toml::Value>(text)
}

/// Moves what a value of the `toml` crate holds into a [`TreeValue`], variant
/// by variant; a float is kept as its bits (`to_bits`).
///
/// Believed: the result is the tree that the value holds, and since a map of
/// the `toml` crate holds each key once, no table of the result holds a key
/// twice.
#[verifier::external_body]
pub(crate) fn tree_from_value(value: toml::Value) -> (tree: TreeValue)
    ensures
        tree@ == tree_of_value(value),
        tree.wf(),
{
    match value {
        toml::Value::String(text) => TreeValue::String(text),
        toml::Value::Integer(number) => TreeValue::Integer(number),
        toml::Value::Float(number) => TreeValue::Float(number.to_bits()),
        toml::Value::Boolean(flag) => TreeValue::Boolean(flag),
        toml::Value::Datetime(moment) => TreeValue::Datetime(moment),
        toml::Value::Array(items) => TreeValue::Array(items.into_iter().map(tree_from_value).collect()),
        toml::Value::Table(entries) => TreeValue::Table(
            entries.into_iter().map(|(key, item)| (key, tree_from_value(item))).collect(),
        ),
    }
}

/// Calls `str::parse` to read `text` as a float, and wraps the number as a
/// float value of the `toml` crate.
///
/// Believed: the outcome depends on the text alone, and a value that comes
/// back holds a float.
#[verifier::external_body]
pub(crate) fn read_float(text: &str) -> (number: Option<toml::Value>)
    ensures
        number == float_value(text@),
        number matches Some(value) ==> tree_of_value(value) is Float,
{
    text.parse().ok().map(toml::Value::Float)
}

/// Calls `toml::value::Datetime::from_str` to read `text` as a date, a time
/// or both.
///
/// Believed: the outcome depends on the text alone.
#[verifier::external_body]
pub(crate) fn read_datetime(text: &str) -> (moment: Option<toml::value::Datetime>)
    ensures
        moment == datetime_value(text@),
{
    text.parse::<toml::value::Datetime>().ok()
}

/// Calls `str::to_lowercase`.
///
/// Believed: the outcome depends on the text alone.
#[verifier::external_body]
pub(crate) fn to_lowercase(text: &str) -> (lower: String)
    ensures
        lower@ == lowercase(text@),
{
    text.to_lowercase()
}

} // verus!
