//! The dotenv-style file: scalars for the environment, and one table of
//! configuration.

use vstd::prelude::*;
use crate::document::{document_tree, read_document, tree_from_value};
use crate::error::{DotEnvReason, InnerError};
use crate::source::{ConfigSource, Provenance};
use crate::tree::{clone_items, entries_model, items_model, lemma_table_model, Tree, TreeValue};

verus! {

/// What a dotenv-style file gives.
#[derive(Debug)]
pub struct DotEnv {
    /// The scalar entries of the file, in its order, up to the entry that
    /// failed if one did. Each is to be exported into the environment under
    /// its key.
    pub exports: Vec<(String, TreeValue)>,
    /// The configuration that the file holds, with its source, if it holds
    /// one; or why the file was refused.
    pub result: Result<Option<(TreeValue, ConfigSource)>, InnerError>,
}

/// Why an entry of a dotenv-style file cannot stand at its top level.
pub enum DotEnvFault {
    UnexpectedTable { allowed: Seq<char> },
    ArrayValue(Seq<Tree>),
}

impl View for DotEnvReason {
    type V = DotEnvFault;

    open spec fn view(&self) -> DotEnvFault {
        match self {
            DotEnvReason::UnexpectedTable { allowed } => DotEnvFault::UnexpectedTable {
                allowed: allowed@,
            },
            DotEnvReason::ArrayValue(items) => DotEnvFault::ArrayValue(items_model(items@)),
        }
    }
}

/// What going through the entries of a dotenv-style file has given.
pub struct Scan {
    /// The scalar entries met.
    pub exports: Seq<(Seq<char>, Tree)>,
    /// The table of configuration, if it was met.
    pub config: Option<Tree>,
    /// The key of the entry that cannot stand there, and why, if one was met.
    pub fault: Option<(Seq<char>, DotEnvFault)>,
}

/// Going through `entries` in their order, from what `so_far` holds.
///
/// A scalar is an export. A table under the key `name` is the
/// configuration. Any other table, and any array, is a fault, and ends the
/// scan: the entries after it are not looked at.
pub open spec fn scanned(entries: Seq<(Seq<char>, Tree)>, name: Seq<char>, so_far: Scan) -> Scan
    decreases entries.len(),
{
    if entries.len() == 0 {
        so_far
    } else {
        let key = entries[0].0;
        match entries[0].1 {
            Tree::Table(_) => if key == name {
                scanned(
                    entries.drop_first(),
                    name,
                    Scan { config: Some(entries[0].1), ..so_far },
                )
            } else {
                Scan {
                    fault: Some((key, DotEnvFault::UnexpectedTable { allowed: name })),
                    ..so_far
                }
            },
            Tree::Array(items) => Scan {
                fault: Some((key, DotEnvFault::ArrayValue(items))),
                ..so_far
            },
            _ => scanned(
                entries.drop_first(),
                name,
                Scan { exports: so_far.exports.push(entries[0]), ..so_far },
            ),
        }
    }
}

/// The configuration that a scan gives is the one it began with or the
/// value of one of the entries.
pub proof fn lemma_scanned_config(entries: Seq<(Seq<char>, Tree)>, name: Seq<char>, so_far: Scan)
    ensures
        scanned(entries, name, so_far).config == so_far.config || exists|i: int|
            0 <= i < entries.len() && scanned(entries, name, so_far).config == Some(
                (#[trigger] entries[i]).1,
            ),
    decreases entries.len(),
{
    if entries.len() > 0 {
        let rest = entries.drop_first();
        let next = match entries[0].1 {
            Tree::Table(_) => Scan { config: Some(entries[0].1), ..so_far },
            _ => Scan { exports: so_far.exports.push(entries[0]), ..so_far },
        };
        let out = scanned(entries, name, so_far);
        if entries[0].1 is Array || (entries[0].1 is Table && entries[0].0 != name) {
        } else {
            lemma_scanned_config(rest, name, next);
            assert(out == scanned(rest, name, next));
            if out.config == next.config {
                if entries[0].1 is Table {
                    assert(out.config == Some(entries[0].1));
                }
            } else {
                let i = choose|i: int|
                    0 <= i < rest.len() && out.config == Some((#[trigger] rest[i]).1);
                assert(entries[i + 1] == rest[i]);
            }
        }
    }
}

/// The scan of a whole file.
pub open spec fn scan_of(entries: Seq<(Seq<char>, Tree)>, name: Seq<char>) -> Scan {
    scanned(entries, name, Scan { exports: Seq::empty(), config: None, fault: None })
}

/// The keys of entries.
pub open spec fn keys_of(entries: Seq<(Seq<char>, Tree)>) -> Seq<Seq<char>> {
    entries.map_values(|entry: (Seq<char>, Tree)| entry.0)
}

/// Whether `dotenv` is what the scan of the top-level `entries` of the file
/// at `path` gives.
pub open spec fn is_scan_result(
    dotenv: DotEnv,
    entries: Seq<(Seq<char>, Tree)>,
    name: Seq<char>,
    path: Seq<char>,
) -> bool {
    let scan = scan_of(entries, name);
    &&& entries_model(dotenv.exports@) == scan.exports
    &&& match dotenv.result {
        Ok(None) => scan.fault is None && scan.config is None,
        Ok(Some((config, source))) => {
            &&& scan.fault is None
            &&& scan.config == Some(config@)
            &&& source@ == Provenance::Environment { variable_names: keys_of(scan.exports) }
        },
        Err(InnerError::CannotParseTomlDotEnvFile { key, path: file, reason }) => {
            &&& scan.fault == Some((key@, reason@))
            &&& file@ == path
        },
        Err(_) => false,
    }
}

/// Goes through the top-level entries of a dotenv-style file.
///
/// Each scalar entry is to be exported into the environment. A table is
/// allowed under the key `config_variable_name` only, and is the
/// configuration that the file gives; its source is named by the keys of
/// the scalars exported. Any other table, and any array, is refused, and
/// ends the scan; the scalars before it are still exported.
pub fn scan_dotenv(
    entries: Vec<(String, TreeValue)>,
    config_variable_name: &str,
    dotenv_path: &str,
) -> (dotenv: DotEnv)
    ensures
        is_scan_result(dotenv, entries_model(entries@), config_variable_name@, dotenv_path@),
        entries_model(entries@).len() == 0 ==> dotenv.result matches Ok(None),
        Tree::Table(entries_model(entries@)).wf() ==> (dotenv.result matches Ok(
            Some((config, _)),
        ) ==> config.wf()),
{
    proof {
        lemma_scanned_config(
            entries_model(entries@),
            config_variable_name@,
            Scan { exports: Seq::empty(), config: None, fault: None },
        );
    }
    let ghost all = entries_model(entries@);
    let ghost name = config_variable_name@;
    let ghost start = Scan { exports: Seq::empty(), config: None, fault: None };
    let wanted = config_variable_name.to_owned();
    let mut exports: Vec<(String, TreeValue)> = Vec::new();
    let mut keys: Vec<String> = Vec::new();
    let mut config: Option<TreeValue> = None;
    proof {
        assert(all.skip(0) =~= all);
        assert(entries_model(exports@) =~= Seq::<(Seq<char>, Tree)>::empty());
        assert(keys@.map_values(|key: String| key@) =~= keys_of(entries_model(exports@)));
    }
    for entry in it: entries
        invariant
            it.seq() == entries@,
            all == entries_model(entries@),
            name == config_variable_name@,
            wanted@ == name,
            start == (Scan { exports: Seq::empty(), config: None, fault: None }),
            keys@.map_values(|key: String| key@) == keys_of(entries_model(exports@)),
            scanned(all, name, start) == scanned(
                all.skip(it.index() as int),
                name,
                Scan {
                    exports: entries_model(exports@),
                    config: match config {
                        Some(table) => Some(table@),
                        None => None,
                    },
                    fault: None,
                },
            ),
    {
        let ghost rest = all.skip(it.index() as int);
        let ghost before = entries_model(exports@);
        assert(rest.drop_first() =~= all.skip(it.index() + 1));
        assert(rest[0] == (entry.0@, entry.1@));
        let (key, value) = entry;
        match value {
            TreeValue::Table(table) => {
                if key == wanted {
                    config = Some(TreeValue::Table(table));
                } else {
                    let error = InnerError::CannotParseTomlDotEnvFile {
                        key,
                        path: dotenv_path.to_owned(),
                        reason: DotEnvReason::UnexpectedTable { allowed: wanted },
                    };
                    return DotEnv { exports, result: Err(error) };
                }
            },
            TreeValue::Array(items) => {
                proof {
                    crate::tree::lemma_array_model(items);
                }
                let error = InnerError::CannotParseTomlDotEnvFile {
                    key,
                    path: dotenv_path.to_owned(),
                    reason: DotEnvReason::ArrayValue(items),
                };
                return DotEnv { exports, result: Err(error) };
            },
            scalar => {
                let ghost listed = keys@.map_values(|key: String| key@);
                keys.push(key.clone());
                exports.push((key, scalar));
                assert(entries_model(exports@) =~= before.push(rest[0]));
                assert(keys@.map_values(|key: String| key@) =~= listed.push(rest[0].0));
                assert(keys_of(before.push(rest[0])) =~= keys_of(before).push(rest[0].0));
            },
        }
    }
    assert(all.skip(all.len() as int) =~= Seq::<(Seq<char>, Tree)>::empty());
    let result = match config {
        Some(table) => Some((table, ConfigSource::Environment { variable_names: keys })),
        None => None,
    };
    DotEnv { exports, result: Ok(result) }
}

/// Reads the text of a dotenv-style file.
///
/// The text must be a TOML document (else: `ErrorParsingTomlFile`) whose top
/// level is a table (else: `UnexpectedTomlDotEnvFileFormat`); its entries
/// are then gone through as [`scan_dotenv`] says.
pub fn initialize_dotenv_toml(dotenv_path: &str, contents: &str, config_variable_name: &str) -> (dotenv:
    DotEnv)
    ensures
        match document_tree(contents@) {
            None => dotenv.exports@.len() == 0 && (dotenv.result matches Err(
                InnerError::ErrorParsingTomlFile { path, .. },
            ) && path@ == dotenv_path@),
            Some(Tree::Table(entries)) => is_scan_result(
                dotenv,
                entries,
                config_variable_name@,
                dotenv_path@,
            ),
            Some(other) => dotenv.exports@.len() == 0 && (dotenv.result matches Err(
                InnerError::UnexpectedTomlDotEnvFileFormat { path, value },
            ) && path@ == dotenv_path@ && value@ == other),
        },
        dotenv.result matches Ok(Some((config, _))) ==> config.wf(),
{
    let value = match read_document(contents) {
        Ok(value) => value,
        Err(error) => {
            return DotEnv {
                exports: Vec::new(),
                result: Err(
                    InnerError::ErrorParsingTomlFile {
                        path: dotenv_path.to_owned(),
                        error: Box::new(error),
                    },
                ),
            };
        },
    };
    match tree_from_value(value) {
        TreeValue::Table(entries) => {
            proof {
                lemma_table_model(entries);
            }
            scan_dotenv(entries, config_variable_name, dotenv_path)
        },
        other => DotEnv {
            exports: Vec::new(),
            result: Err(
                InnerError::UnexpectedTomlDotEnvFileFormat {
                    path: dotenv_path.to_owned(),
                    value: other,
                },
            ),
        },
    }
}

} // verus!
