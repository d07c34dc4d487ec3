//! Mapping environment variables into a configuration document.

use vstd::prelude::*;
use vstd::string::{StrSliceExecFns, StringExecFns};
use crate::args::AutoMapEnvArgs;
use crate::error::InnerError;
use crate::insert::{insert_toml_value, inserted, lemma_insert_preserves_wf, InsertFault};
use crate::key_path::{parsed_path, Segment, TomlKeyPath};
use crate::scalar::{parse_toml_value, scalar_reading};
use crate::source::{ConfigSource, Provenance};
use crate::text::{
    chars_of, dotted, lemma_text_lt_irreflexive, lemma_text_lt_total, lemma_text_lt_transitive,
    replace_with_dots, starts_with, text_less, text_lt,
};
use crate::tree::{
    first_index, has_key, is_first_index, lemma_first_index, lemma_has_key_first_index,
    lemma_table_model, Tree, TreeValue,
};

verus! {

/// One variable of the process environment, as it was found.
#[derive(Debug, PartialEq, Eq)]
pub struct EnvVar {
    /// The name of the variable.
    pub name: String,
    /// Its value, or nothing where the value is not valid Unicode.
    pub value: Option<String>,
}

impl View for EnvVar {
    type V = (Seq<char>, Option<Seq<char>>);

    open spec fn view(&self) -> (Seq<char>, Option<Seq<char>>) {
        (
            self.name@,
            match self.value {
                Some(text) => Some(text@),
                None => None,
            },
        )
    }
}

/// The variables of an environment, by name and value.
pub open spec fn env_model(env: Seq<EnvVar>) -> Seq<(Seq<char>, Option<Seq<char>>)> {
    env.map_values(|variable: EnvVar| variable@)
}

/// The entries of a mapping from variable names to paths.
pub open spec fn map_model(map: Seq<(String, TomlKeyPath)>) -> Seq<(Seq<char>, Seq<Segment>)> {
    map.map_values(|entry: (String, TomlKeyPath)| (entry.0@, entry.1@))
}

/// The prefix by which variables are found: the prefix asked for, or the
/// name of the configuration variable where none is, and the divider.
pub open spec fn auto_prefix(auto: &AutoMapEnvArgs, config_variable_name: Seq<char>) -> Seq<char> {
    (match auto.prefix {
        Some(prefix) => prefix@,
        None => config_variable_name,
    }) + auto.divider@
}

/// The variables of `env` whose names begin with `prefix`, in the order of
/// `env`, each with what follows the prefix in its name.
pub open spec fn found_in(env: Seq<(Seq<char>, Option<Seq<char>>)>, prefix: Seq<char>) -> Seq<
    (Seq<char>, Seq<char>),
>
    decreases env.len(),
{
    if env.len() == 0 {
        Seq::empty()
    } else if prefix.is_prefix_of(env.last().0) {
        found_in(env.drop_last(), prefix).push(
            (env.last().0, env.last().0.skip(prefix.len() as int)),
        )
    } else {
        found_in(env.drop_last(), prefix)
    }
}

/// Names with a text each.
pub open spec fn texts_model(found: Seq<(String, String)>) -> Seq<(Seq<char>, Seq<char>)> {
    found.map_values(|entry: (String, String)| (entry.0@, entry.1@))
}

/// The path that a transformed name stands for: each divider in it is made
/// a dot, and the outcome read as a path.
pub open spec fn found_path(divider: Seq<char>, transformed: Seq<char>) -> Seq<Segment> {
    parsed_path(dotted(transformed, divider))
}

/// The path at which the value of the variable `name` is written, if the
/// variable is mapped at all. A variable that the caller lists is mapped as
/// listed. Any other is mapped if it was found by its name; `found` holds
/// the names found, each with its transformed name.
pub open spec fn mapped_path(
    explicit: Seq<(Seq<char>, Seq<Segment>)>,
    divider: Seq<char>,
    found: Seq<(Seq<char>, Seq<char>)>,
    name: Seq<char>,
) -> Option<Seq<Segment>> {
    if has_key(explicit, name) {
        Some(explicit[first_index(explicit, name)].1)
    } else if has_key(found, name) {
        Some(found_path(divider, found[first_index(found, name)].1))
    } else {
        None
    }
}

/// The entries stand in the order of their names, and no name stands twice.
pub open spec fn sorted_by_name<V>(entries: Seq<(Seq<char>, V)>) -> bool {
    forall|i: int, j: int|
        0 <= i < j < entries.len() ==> text_lt(
            (#[trigger] entries[i]).0,
            (#[trigger] entries[j]).0,
        )
}

/// Whether `map` is the effective mapping: it holds exactly the mapped
/// variables, each with its path, in the order of their names.
pub open spec fn is_effective_map(
    map: Seq<(Seq<char>, Seq<Segment>)>,
    explicit: Seq<(Seq<char>, Seq<Segment>)>,
    divider: Seq<char>,
    found: Seq<(Seq<char>, Seq<char>)>,
) -> bool {
    &&& sorted_by_name(map)
    &&& forall|i: int|
        0 <= i < map.len() ==> mapped_path(explicit, divider, found, (#[trigger] map[i]).0)
            == Some(map[i].1)
    &&& forall|name: Seq<char>|
        mapped_path(explicit, divider, found, name) is Some ==> #[trigger] has_key(map, name)
}

/// The effective mapping.
pub open spec fn effective_entries(
    explicit: Seq<(Seq<char>, Seq<Segment>)>,
    divider: Seq<char>,
    found: Seq<(Seq<char>, Seq<char>)>,
) -> Seq<(Seq<char>, Seq<Segment>)> {
    choose|map: Seq<(Seq<char>, Seq<Segment>)>| is_effective_map(map, explicit, divider, found)
}

/// Two sequences in the order of their names that hold the same entries are
/// the same sequence.
pub proof fn lemma_sorted_entries_unique<V>(a: Seq<(Seq<char>, V)>, b: Seq<(Seq<char>, V)>)
    requires
        sorted_by_name(a),
        sorted_by_name(b),
        forall|i: int| 0 <= i < a.len() ==> b.contains(#[trigger] a[i]),
        forall|j: int| 0 <= j < b.len() ==> a.contains(#[trigger] b[j]),
    ensures
        a == b,
    decreases a.len(),
{
    if a.len() == 0 {
        if b.len() > 0 {
            assert(a.contains(b[0]));
        }
        assert(a =~= b);
    } else if b.len() == 0 {
        assert(b.contains(a[0]));
    } else {
        assert(b.contains(a[0]));
        assert(a.contains(b[0]));
        let j = choose|j: int| 0 <= j < b.len() && b[j] == a[0];
        let i = choose|i: int| 0 <= i < a.len() && a[i] == b[0];
        lemma_text_lt_irreflexive(a[0].0);
        if j > 0 {
            assert(text_lt(b[0].0, b[j].0));
            if i > 0 {
                assert(text_lt(a[0].0, a[i].0));
                lemma_text_lt_transitive(a[0].0, b[0].0, a[0].0);
            }
        }
        assert(b[0] == a[0]);
        let ta = a.drop_first();
        let tb = b.drop_first();
        assert forall|x: int| 0 <= x < ta.len() implies tb.contains(#[trigger] ta[x]) by {
            assert(ta[x] == a[x + 1]);
            assert(b.contains(a[x + 1]));
            let y = choose|y: int| 0 <= y < b.len() && b[y] == a[x + 1];
            assert(text_lt(a[0].0, a[x + 1].0));
            assert(y != 0);
            assert(tb[y - 1] == ta[x]);
        }
        assert forall|y: int| 0 <= y < tb.len() implies ta.contains(#[trigger] tb[y]) by {
            assert(tb[y] == b[y + 1]);
            assert(a.contains(b[y + 1]));
            let x = choose|x: int| 0 <= x < a.len() && a[x] == b[y + 1];
            assert(text_lt(b[0].0, b[y + 1].0));
            assert(x != 0);
            assert(ta[x - 1] == tb[y]);
        }
        assert(sorted_by_name(ta)) by {
            assert forall|x: int, y: int| 0 <= x < y < ta.len() implies text_lt(
                (#[trigger] ta[x]).0,
                (#[trigger] ta[y]).0,
            ) by {
                assert(text_lt(a[x + 1].0, a[y + 1].0));
            }
        }
        assert(sorted_by_name(tb)) by {
            assert forall|x: int, y: int| 0 <= x < y < tb.len() implies text_lt(
                (#[trigger] tb[x]).0,
                (#[trigger] tb[y]).0,
            ) by {
                assert(text_lt(b[x + 1].0, b[y + 1].0));
            }
        }
        lemma_sorted_entries_unique(ta, tb);
        assert(a =~= seq![a[0]] + ta);
        assert(b =~= seq![b[0]] + tb);
    }
}

/// The effective mapping does not depend on the order in which the
/// variables were found: two lists of found variables that hold the same
/// names, each with the same transformed name at its first place, give the
/// same mapping. In particular there is one effective mapping only.
pub proof fn lemma_effective_map_ignores_order(
    a: Seq<(Seq<char>, Seq<Segment>)>,
    b: Seq<(Seq<char>, Seq<Segment>)>,
    explicit: Seq<(Seq<char>, Seq<Segment>)>,
    divider: Seq<char>,
    found: Seq<(Seq<char>, Seq<char>)>,
    other: Seq<(Seq<char>, Seq<char>)>,
)
    requires
        forall|name: Seq<char>| has_key(found, name) <==> has_key(other, name),
        forall|name: Seq<char>|
            has_key(found, name) ==> found[first_index(found, name)].1 == other[first_index(
                other,
                name,
            )].1,
        is_effective_map(a, explicit, divider, found),
        is_effective_map(b, explicit, divider, other),
    ensures
        a == b,
{
    assert forall|name: Seq<char>|
        mapped_path(explicit, divider, found, name) == mapped_path(
            explicit,
            divider,
            other,
            name,
        ) by {
        assert(has_key(found, name) <==> has_key(other, name));
    }
    assert forall|i: int| 0 <= i < a.len() implies b.contains(#[trigger] a[i]) by {
        assert(mapped_path(explicit, divider, other, a[i].0) is Some);
        assert(has_key(b, a[i].0));
        let j = choose|j: int| 0 <= j < b.len() && (#[trigger] b[j]).0 == a[i].0;
        assert(b[j] == a[i]);
    }
    assert forall|j: int| 0 <= j < b.len() implies a.contains(#[trigger] b[j]) by {
        assert(mapped_path(explicit, divider, found, b[j].0) is Some);
        assert(has_key(a, b[j].0));
        let i = choose|i: int| 0 <= i < a.len() && (#[trigger] a[i]).0 == b[j].0;
        assert(a[i] == b[j]);
    }
    lemma_sorted_entries_unique(a, b);
}

/// Adds `name` with `path` to entries that stand in the order of their
/// names, unless the name is there already. Tells where it was added.
fn insert_if_absent(map: &mut Vec<(String, TomlKeyPath)>, name: String, path: TomlKeyPath) -> (at:
    Option<usize>)
    requires
        sorted_by_name(map_model(old(map)@)),
    ensures
        sorted_by_name(map_model(final(map)@)),
        match at {
            Some(at) => {
                &&& !has_key(map_model(old(map)@), name@)
                &&& at <= old(map)@.len()
                &&& map_model(final(map)@) == map_model(old(map)@).insert(
                    at as int,
                    (name@, path@),
                )
            },
            None => has_key(map_model(old(map)@), name@) && map_model(final(map)@) == map_model(
                old(map)@,
            ),
        },
{
    let ghost before = map_model(map@);
    let mut i: usize = 0;
    while i < map.len() && text_less(map[i].0.as_str(), name.as_str())
        invariant
            i <= map.len(),
            before == map_model(map@),
            forall|j: int| 0 <= j < i ==> text_lt((#[trigger] before[j]).0, name@),
        decreases map.len() - i,
    {
        i = i + 1;
    }
    if i < map.len() && map[i].0 == name {
        assert(before[i as int].0 == name@);
        return None;
    }
    proof {
        lemma_text_lt_irreflexive(name@);
        if i < before.len() {
            lemma_text_lt_total(before[i as int].0, name@);
        }
        assert forall|j: int| 0 <= j < before.len() implies (#[trigger] before[j]).0 != name@ by {
            if j > i {
                assert(text_lt(before[i as int].0, before[j].0));
                lemma_text_lt_transitive(name@, before[i as int].0, before[j].0);
            }
        }
    }
    map.insert(i, (name, path));
    let ghost after = map_model(map@);
    proof {
        assert(after =~= before.insert(i as int, (name@, path@)));
        assert forall|x: int, y: int| 0 <= x < y < after.len() implies text_lt(
            (#[trigger] after[x]).0,
            (#[trigger] after[y]).0,
        ) by {
            if y < i {
                assert(text_lt(before[x].0, before[y].0));
            } else if y == i {
                assert(text_lt(before[x].0, name@));
            } else if x < i {
                assert(text_lt(before[x].0, before[y - 1].0));
            } else if x == i {
                if y - 1 > i {
                    assert(text_lt(before[i as int].0, before[y - 1].0));
                    lemma_text_lt_transitive(name@, before[i as int].0, before[y - 1].0);
                }
            } else {
                assert(text_lt(before[x - 1].0, before[y - 1].0));
            }
        }
    }
    Some(i)
}

/// What adding an entry does to the names that entries hold.
proof fn lemma_insert_entry<V>(entries: Seq<(Seq<char>, V)>, at: int, entry: (Seq<char>, V))
    requires
        0 <= at <= entries.len(),
    ensures
        forall|name: Seq<char>|
            #[trigger] has_key(entries.insert(at, entry), name) <==> has_key(entries, name) || name
                == entry.0,
{
    let after = entries.insert(at, entry);
    assert forall|name: Seq<char>| #[trigger]
        has_key(after, name) <==> has_key(entries, name) || name == entry.0 by {
        if has_key(after, name) {
            let k = choose|k: int| 0 <= k < after.len() && (#[trigger] after[k]).0 == name;
            if k < at {
                assert(entries[k].0 == name);
            } else if k > at {
                assert(entries[k - 1].0 == name);
            }
        }
        if has_key(entries, name) {
            let k = choose|k: int| 0 <= k < entries.len() && (#[trigger] entries[k]).0 == name;
            if k < at {
                assert(after[k].0 == name);
            } else {
                assert(after[k + 1].0 == name);
            }
        }
        if name == entry.0 {
            assert(after[at].0 == name);
        }
    }
}

/// What one entry more at the end does to the first place of each name.
proof fn lemma_push_entry<V>(entries: Seq<(Seq<char>, V)>, entry: (Seq<char>, V))
    ensures
        forall|name: Seq<char>|
            #[trigger] has_key(entries.push(entry), name) <==> has_key(entries, name) || name
                == entry.0,
        forall|name: Seq<char>|
            has_key(entries, name) ==> #[trigger] first_index(entries.push(entry), name)
                == first_index(entries, name),
        !has_key(entries, entry.0) ==> first_index(entries.push(entry), entry.0) == entries.len(),
{
    let after = entries.push(entry);
    assert(after =~= entries.insert(entries.len() as int, entry));
    lemma_insert_entry(entries, entries.len() as int, entry);
    assert forall|name: Seq<char>| has_key(entries, name) implies #[trigger] first_index(
        after,
        name,
    ) == first_index(entries, name) by {
        lemma_has_key_first_index(entries, name);
        let i = first_index(entries, name);
        assert(is_first_index(after, name, i)) by {
            assert(after[i] == entries[i]);
            assert forall|j: int| 0 <= j < i implies (#[trigger] after[j]).0 != name by {
                assert(entries[j].0 != name);
            }
        }
        lemma_first_index(after, name, i);
    }
    if !has_key(entries, entry.0) {
        let last = entries.len() as int;
        assert(is_first_index(after, entry.0, last)) by {
            assert forall|j: int| 0 <= j < last implies (#[trigger] after[j]).0 != entry.0 by {
                assert(entries[j].0 == after[j].0);
            }
        }
        lemma_first_index(after, entry.0, last);
    }
}

/// What adding one mapped name does to a mapping that was effective before.
proof fn lemma_effective_step(
    before: Seq<(Seq<char>, Seq<Segment>)>,
    after: Seq<(Seq<char>, Seq<Segment>)>,
    at: Option<usize>,
    name: Seq<char>,
    path: Seq<Segment>,
    explicit: Seq<(Seq<char>, Seq<Segment>)>,
    divider: Seq<char>,
    found: Seq<(Seq<char>, Seq<char>)>,
    explicit_next: Seq<(Seq<char>, Seq<Segment>)>,
    found_next: Seq<(Seq<char>, Seq<char>)>,
)
    requires
        is_effective_map(before, explicit, divider, found),
        sorted_by_name(after),
        match at {
            Some(at) => !has_key(before, name) && at <= before.len() && after == before.insert(
                at as int,
                (name, path),
            ),
            None => has_key(before, name) && after == before,
        },
        forall|other: Seq<char>|
            other != name ==> mapped_path(explicit_next, divider, found_next, other)
                == mapped_path(explicit, divider, found, other),
        mapped_path(explicit, divider, found, name) is Some ==> mapped_path(
            explicit_next,
            divider,
            found_next,
            name,
        ) == mapped_path(explicit, divider, found, name),
        mapped_path(explicit, divider, found, name) is None ==> mapped_path(
            explicit_next,
            divider,
            found_next,
            name,
        ) == Some(path),
    ensures
        is_effective_map(after, explicit_next, divider, found_next),
{
    if has_key(before, name) {
        let k = choose|k: int| 0 <= k < before.len() && (#[trigger] before[k]).0 == name;
        assert(mapped_path(explicit, divider, found, before[k].0) is Some);
    }
    match at {
        Some(at) => {
            lemma_insert_entry(before, at as int, (name, path));
            assert forall|i: int| 0 <= i < after.len() implies mapped_path(
                explicit_next,
                divider,
                found_next,
                (#[trigger] after[i]).0,
            ) == Some(after[i].1) by {
                if i < at {
                    assert(after[i] == before[i]);
                    assert(has_key(before, before[i].0));
                } else if i > at {
                    assert(after[i] == before[i - 1]);
                    assert(has_key(before, before[i - 1].0));
                }
            }
        },
        None => {
            assert forall|i: int| 0 <= i < after.len() implies mapped_path(
                explicit_next,
                divider,
                found_next,
                (#[trigger] after[i]).0,
            ) == Some(after[i].1) by {
                assert(mapped_path(explicit, divider, found, before[i].0) == Some(before[i].1));
            }
        },
    }
    assert forall|other: Seq<char>|
        mapped_path(explicit_next, divider, found_next, other) is Some implies #[trigger] has_key(
            after,
            other,
        ) by {
        if other != name {
            assert(has_key(before, other));
        }
    }
}

/// What one entry more at the end of a list does to the paths of the names.
proof fn lemma_mapped_push_explicit(
    done: Seq<(Seq<char>, Seq<Segment>)>,
    entry: (Seq<char>, Seq<Segment>),
    divider: Seq<char>,
    found: Seq<(Seq<char>, Seq<char>)>,
)
    requires
        found.len() == 0,
    ensures
        forall|other: Seq<char>|
            other != entry.0 ==> mapped_path(done.push(entry), divider, found, other)
                == mapped_path(done, divider, found, other),
        mapped_path(done, divider, found, entry.0) is Some ==> mapped_path(
            done.push(entry),
            divider,
            found,
            entry.0,
        ) == mapped_path(done, divider, found, entry.0),
        mapped_path(done, divider, found, entry.0) is None ==> mapped_path(
            done.push(entry),
            divider,
            found,
            entry.0,
        ) == Some(entry.1),
{
    let next = done.push(entry);
    lemma_push_entry(done, entry);
    assert forall|other: Seq<char>| !has_key(found, other) by {}
    assert forall|other: Seq<char>| other != entry.0 implies mapped_path(
        next,
        divider,
        found,
        other,
    ) == mapped_path(done, divider, found, other) by {
        assert(has_key(next, other) <==> has_key(done, other));
        if has_key(done, other) {
            lemma_has_key_first_index(done, other);
            assert(first_index(next, other) == first_index(done, other));
            assert(next[first_index(done, other)] == done[first_index(done, other)]);
        }
    }
    if has_key(done, entry.0) {
        lemma_has_key_first_index(done, entry.0);
        assert(first_index(next, entry.0) == first_index(done, entry.0));
        assert(next[first_index(done, entry.0)] == done[first_index(done, entry.0)]);
    } else {
        assert(has_key(next, entry.0));
        assert(next[done.len() as int] == entry);
    }
}

/// What one found variable more does to the paths of the names.
proof fn lemma_mapped_push_found(
    explicit: Seq<(Seq<char>, Seq<Segment>)>,
    divider: Seq<char>,
    seen: Seq<(Seq<char>, Seq<char>)>,
    entry: (Seq<char>, Seq<char>),
)
    ensures
        forall|other: Seq<char>|
            other != entry.0 ==> mapped_path(explicit, divider, seen.push(entry), other)
                == mapped_path(explicit, divider, seen, other),
        mapped_path(explicit, divider, seen, entry.0) is Some ==> mapped_path(
            explicit,
            divider,
            seen.push(entry),
            entry.0,
        ) == mapped_path(explicit, divider, seen, entry.0),
        mapped_path(explicit, divider, seen, entry.0) is None ==> mapped_path(
            explicit,
            divider,
            seen.push(entry),
            entry.0,
        ) == Some(found_path(divider, entry.1)),
{
    let next = seen.push(entry);
    lemma_push_entry(seen, entry);
    assert forall|other: Seq<char>| other != entry.0 implies mapped_path(
        explicit,
        divider,
        next,
        other,
    ) == mapped_path(explicit, divider, seen, other) by {
        assert(has_key(next, other) <==> has_key(seen, other));
        if has_key(seen, other) {
            lemma_has_key_first_index(seen, other);
            assert(first_index(next, other) == first_index(seen, other));
            assert(next[first_index(seen, other)] == seen[first_index(seen, other)]);
        }
    }
    if has_key(seen, entry.0) {
        lemma_has_key_first_index(seen, entry.0);
        assert(first_index(next, entry.0) == first_index(seen, entry.0));
        assert(next[first_index(seen, entry.0)] == seen[first_index(seen, entry.0)]);
    } else {
        assert(has_key(next, entry.0));
        assert(next[seen.len() as int] == entry);
    }
}

/// The place of the first variable with this name.
pub fn find_variable(env: &Vec<EnvVar>, name: &String) -> (found: Option<usize>)
    ensures
        match found {
            Some(i) => is_first_index(env_model(env@), name@, i as int),
            None => !has_key(env_model(env@), name@),
        },
{
    let mut i: usize = 0;
    while i < env.len()
        invariant
            i <= env.len(),
            forall|j: int| 0 <= j < i ==> (#[trigger] env_model(env@)[j]).0 != name@,
        decreases env.len() - i,
    {
        if env[i].name == *name {
            return Some(i);
        }
        i = i + 1;
    }
    None
}

/// The variables of `env` that are found by their names: those whose names
/// begin with the prefix, in the order of `env`, each with what follows the
/// prefix in its name. That rest is what the transform is then applied to.
pub fn found_variables(auto: &AutoMapEnvArgs, config_variable_name: &str, env: &Vec<EnvVar>) -> (found:
    Vec<(String, String)>)
    ensures
        texts_model(found@) == found_in(env_model(env@), auto_prefix(auto, config_variable_name@)),
{
    let ghost variables = env_model(env@);
    let ghost start = auto_prefix(auto, config_variable_name@);
    let mut prefix = String::from_str(
        match auto.prefix {
            Some(prefix) => prefix,
            None => config_variable_name,
        },
    );
    prefix.append(auto.divider);
    let prefix_chars = chars_of(prefix.as_str());
    let mut found: Vec<(String, String)> = Vec::new();
    let mut j: usize = 0;
    assert(texts_model(found@) =~= found_in(variables.take(0), start));
    while j < env.len()
        invariant
            j <= env.len(),
            variables == env_model(env@),
            prefix_chars@ == start,
            texts_model(found@) == found_in(variables.take(j as int), start),
        decreases env.len() - j,
    {
        let ghost next = variables.take(j + 1);
        let ghost before = texts_model(found@);
        let variable = &env[j];
        proof {
            assert(next.drop_last() =~= variables.take(j as int));
            assert(next.last() == variables[j as int]);
            assert(variables[j as int].0 == variable.name@);
        }
        let name_chars = chars_of(variable.name.as_str());
        if starts_with(&name_chars, &prefix_chars) {
            let rest = variable.name.as_str().substring_char(prefix_chars.len(), name_chars.len());
            assert(rest@ =~= variable.name@.skip(prefix_chars@.len() as int));
            found.push((variable.name.clone(), rest.to_owned()));
            assert(texts_model(found@) =~= before.push((variable.name@, rest@)));
        }
        j = j + 1;
    }
    assert(variables.take(env.len() as int) =~= variables);
    found
}

/// The effective mapping from variable names to paths: the variables that
/// the caller lists, and each found variable that the caller does not list,
/// with the path that its transformed name stands for. `found` holds the
/// names found, each with its transformed name; where a name stands twice
/// in a list, its first entry counts. The entries of the mapping stand in
/// the order of the names, so that the positions of one array are written
/// in rising order.
pub fn effective_map(
    map_env: &Vec<(String, TomlKeyPath)>,
    divider: &str,
    found: &Vec<(String, String)>,
) -> (map: Vec<(String, TomlKeyPath)>)
    ensures
        is_effective_map(map_model(map@), map_model(map_env@), divider@, texts_model(found@)),
        map_model(map@) == effective_entries(map_model(map_env@), divider@, texts_model(found@)),
{
    let ghost explicit = map_model(map_env@);
    let ghost names = texts_model(found@);
    let ghost nothing = Seq::<(Seq<char>, Seq<char>)>::empty();
    let mut map: Vec<(String, TomlKeyPath)> = Vec::new();
    let mut i: usize = 0;
    assert(is_effective_map(map_model(map@), explicit.take(0), divider@, nothing)) by {
        assert forall|name: Seq<char>| !has_key(explicit.take(0), name) by {}
        assert forall|name: Seq<char>| !has_key(nothing, name) by {}
    }
    while i < map_env.len()
        invariant
            i <= map_env.len(),
            explicit == map_model(map_env@),
            nothing == Seq::<(Seq<char>, Seq<char>)>::empty(),
            is_effective_map(map_model(map@), explicit.take(i as int), divider@, nothing),
        decreases map_env.len() - i,
    {
        let ghost before = map_model(map@);
        let ghost done = explicit.take(i as int);
        let name = map_env[i].0.clone();
        let path = map_env[i].1.clone();
        let at = insert_if_absent(&mut map, name, path);
        proof {
            let entry = explicit[i as int];
            let next = explicit.take(i + 1);
            assert(next =~= done.push(entry));
            lemma_mapped_push_explicit(done, entry, divider@, nothing);
            lemma_effective_step(
                before,
                map_model(map@),
                at,
                entry.0,
                entry.1,
                done,
                divider@,
                nothing,
                next,
                nothing,
            );
        }
        i = i + 1;
    }
    assert(explicit.take(map_env.len() as int) =~= explicit);
    assert(names.take(0) =~= nothing);
    let mut j: usize = 0;
    while j < found.len()
        invariant
            j <= found.len(),
            names == texts_model(found@),
            is_effective_map(map_model(map@), explicit, divider@, names.take(j as int)),
        decreases found.len() - j,
    {
        let ghost before = map_model(map@);
        let ghost seen = names.take(j as int);
        let ghost next = names.take(j + 1);
        let entry = &found[j];
        let text = replace_with_dots(entry.1.as_str(), divider);
        let path = TomlKeyPath::parse(text.as_str());
        let at = insert_if_absent(&mut map, entry.0.clone(), path);
        proof {
            assert(next =~= seen.push(names[j as int]));
            assert(names[j as int] == (entry.0@, entry.1@));
            lemma_mapped_push_found(explicit, divider@, seen, names[j as int]);
            lemma_effective_step(
                before,
                map_model(map@),
                at,
                entry.0@,
                path@,
                explicit,
                divider@,
                seen,
                explicit,
                next,
            );
        }
        j = j + 1;
    }
    assert(names.take(found.len() as int) =~= names);
    proof {
        let chosen = effective_entries(explicit, divider@, names);
        assert(is_effective_map(chosen, explicit, divider@, names));
        lemma_effective_map_ignores_order(
            map_model(map@),
            chosen,
            explicit,
            divider@,
            names,
            names,
        );
    }
    map
}

/// What has been read from the environment so far: the document, and the
/// names of the variables whose values stand in it.
pub struct Loaded {
    pub tree: Tree,
    pub names: Seq<Seq<char>>,
}

/// Why reading the mapped variables stopped.
pub enum LoadFault {
    /// The variable is set, and its value is not valid Unicode.
    NotUnicode { name: Seq<char> },
    /// The value of a variable could not be written at its path.
    Insert(InsertFault),
}

/// Reading the variables of `map` one after the other into `so_far`.
///
/// A variable that the environment does not hold is passed over. The value
/// of one that it holds is read as a scalar and written at the variable's
/// path. A value that is not valid Unicode, or that cannot be written, ends
/// the reading.
pub open spec fn loaded(
    map: Seq<(Seq<char>, Seq<Segment>)>,
    env: Seq<(Seq<char>, Option<Seq<char>>)>,
    so_far: Loaded,
) -> Result<Loaded, LoadFault>
    decreases map.len(),
{
    if map.len() == 0 {
        Ok(so_far)
    } else if !has_key(env, map[0].0) {
        loaded(map.drop_first(), env, so_far)
    } else {
        match env[first_index(env, map[0].0)].1 {
            None => Err(LoadFault::NotUnicode { name: map[0].0 }),
            Some(text) => {
                let written = inserted(so_far.tree, map[0].1, scalar_reading(text));
                match written.fault {
                    Some(fault) => Err(LoadFault::Insert(fault)),
                    None => loaded(
                        map.drop_first(),
                        env,
                        Loaded { tree: written.tree, names: so_far.names.push(map[0].0) },
                    ),
                }
            },
        }
    }
}

/// The document that reading the variables of `map` gives: none where the
/// mapping is empty; otherwise what reading them into an empty table gives,
/// which is there even if the environment holds none of them.
pub open spec fn load_outcome(
    map: Seq<(Seq<char>, Seq<Segment>)>,
    env: Seq<(Seq<char>, Option<Seq<char>>)>,
) -> Result<Option<Loaded>, LoadFault> {
    if map.len() == 0 {
        Ok(None)
    } else {
        match loaded(map, env, Loaded { tree: Tree::Table(Seq::empty()), names: Seq::empty() }) {
            Ok(all) => Ok(Some(all)),
            Err(fault) => Err(fault),
        }
    }
}

/// Whether `result` is the outcome `wanted`.
pub open spec fn is_load_result(
    result: Result<Option<(TreeValue, ConfigSource)>, InnerError>,
    wanted: Result<Option<Loaded>, LoadFault>,
) -> bool {
    match result {
        Ok(None) => wanted == Ok::<Option<Loaded>, LoadFault>(None),
        Ok(Some((config, source))) => {
            &&& wanted matches Ok(Some(all))
            &&& config@ == all.tree
            &&& source@ == Provenance::Environment { variable_names: all.names }
        },
        Err(InnerError::ErrorReadingEnvironmentVariable { name }) => wanted == Err::<
            Option<Loaded>,
            LoadFault,
        >(LoadFault::NotUnicode { name: name@ }),
        Err(InnerError::InsertTomlValueError(error)) => wanted == Err::<Option<Loaded>, LoadFault>(
            LoadFault::Insert(error@),
        ),
        Err(_) => false,
    }
}

/// Reads the variables of `map` from `env`, in the order of `map`, into a
/// table that starts empty.
///
/// A variable that `env` does not hold is passed over. The value of one
/// that it holds is read as a scalar (see [`parse_toml_value`]) and written
/// at the variable's path. With the document comes its source: the names of
/// the variables whose values stand in it. An empty mapping gives no
/// document.
pub fn load_variables(map: &Vec<(String, TomlKeyPath)>, env: &Vec<EnvVar>) -> (result: Result<
    Option<(TreeValue, ConfigSource)>,
    InnerError,
>)
    ensures
        is_load_result(result, load_outcome(map_model(map@), env_model(env@))),
        result matches Ok(Some((config, _))) ==> config.wf(),
{
    if map.len() == 0 {
        return Ok(None);
    }
    let ghost entries = map_model(map@);
    let ghost variables = env_model(env@);
    let ghost start = Loaded { tree: Tree::Table(Seq::empty()), names: Seq::empty() };
    let mut config = TreeValue::Table(Vec::new());
    let mut names: Vec<String> = Vec::new();
    proof {
        lemma_table_model(config->Table_0);
        assert(config@->Table_0 =~= Seq::<(Seq<char>, Tree)>::empty());
        assert(names@.map_values(|name: String| name@) =~= Seq::<Seq<char>>::empty());
        assert(entries.skip(0) =~= entries);
    }
    let mut i: usize = 0;
    while i < map.len()
        invariant
            i <= map.len(),
            entries == map_model(map@),
            variables == env_model(env@),
            entries.len() > 0,
            start == (Loaded { tree: Tree::Table(Seq::empty()), names: Seq::empty() }),
            config.wf(),
            loaded(entries, variables, start) == loaded(
                entries.skip(i as int),
                variables,
                Loaded { tree: config@, names: names@.map_values(|name: String| name@) },
            ),
        decreases map.len() - i,
    {
        let ghost rest = entries.skip(i as int);
        let ghost listed = names@.map_values(|name: String| name@);
        assert(rest.drop_first() =~= entries.skip(i + 1));
        assert(rest[0] == entries[i as int]);
        let entry = &map[i];
        match find_variable(env, &entry.0) {
            None => {},
            Some(at) => {
                proof {
                    lemma_first_index(variables, entry.0@, at as int);
                }
                match &env[at].value {
                    None => {
                        return Err(
                            InnerError::ErrorReadingEnvironmentVariable { name: entry.0.clone() },
                        );
                    },
                    Some(text) => {
                        let value = parse_toml_value(text.clone());
                        proof {
                            lemma_insert_preserves_wf(config@, entry.1@, value@);
                        }
                        match insert_toml_value(&mut config, entry.1.clone(), value) {
                            Ok(()) => {},
                            Err(error) => {
                                return Err(InnerError::InsertTomlValueError(error));
                            },
                        }
                        names.push(entry.0.clone());
                        assert(names@.map_values(|name: String| name@) =~= listed.push(
                            entry.0@,
                        ));
                    },
                }
            },
        }
        i = i + 1;
    }
    let source = ConfigSource::Environment { variable_names: names };
    Ok(Some((config, source)))
}

/// Whether `found` is a list of found variables as it may stand after the
/// transform was applied: the names found, in their order, each with some
/// text in place of its rest.
pub open spec fn is_transformed(
    found: Seq<(Seq<char>, Seq<char>)>,
    transformed: Seq<(Seq<char>, Seq<char>)>,
) -> bool {
    &&& transformed.len() == found.len()
    &&& forall|i: int| 0 <= i < found.len() ==> (#[trigger] transformed[i]).0 == found[i].0
}

/// Builds the document that the environment gives.
///
/// `env` is the environment as it was found: every variable whose name is
/// valid Unicode, with its value where that is valid Unicode too. The
/// variables that `map_env` lists, and those that `auto_args` finds by their
/// names, are read in the order of their names, as [`load_variables`] says.
///
/// The transform of `auto_args` is called once for each found variable, on
/// the rest of its name (see [`found_variables`]); whatever it returns is
/// taken as the transformed name. So the outcome is what
/// [`effective_map`] and [`load_variables`] give for the names found with
/// some texts beside them: those that the transform returned.
pub fn initialize_env(
    map_env: &Vec<(String, TomlKeyPath)>,
    auto_args: Option<&AutoMapEnvArgs>,
    config_variable_name: &str,
    env: &Vec<EnvVar>,
) -> (result: Result<Option<(TreeValue, ConfigSource)>, InnerError>)
    ensures
        match auto_args {
            None => is_load_result(
                result,
                load_outcome(
                    effective_entries(map_model(map_env@), Seq::empty(), Seq::empty()),
                    env_model(env@),
                ),
            ),
            Some(auto) => exists|transformed: Seq<(Seq<char>, Seq<char>)>|
                #![trigger effective_entries(map_model(map_env@), auto.divider@, transformed)]
                is_transformed(
                    found_in(env_model(env@), auto_prefix(auto, config_variable_name@)),
                    transformed,
                ) && is_load_result(
                    result,
                    load_outcome(
                        effective_entries(map_model(map_env@), auto.divider@, transformed),
                        env_model(env@),
                    ),
                ),
        },
        result matches Ok(Some((config, _))) ==> config.wf(),
{
    match auto_args {
        None => {
            let nothing: Vec<(String, String)> = Vec::new();
            proof {
                reveal_strlit("");
                assert(""@ =~= Seq::<char>::empty());
                assert(texts_model(nothing@) =~= Seq::<(Seq<char>, Seq<char>)>::empty());
            }
            let map = effective_map(map_env, "", &nothing);
            load_variables(&map, env)
        },
        Some(auto) => {
            let found = found_variables(auto, config_variable_name, env);
            let mut transformed: Vec<(String, String)> = Vec::new();
            let mut i: usize = 0;
            while i < found.len()
                invariant
                    i <= found.len(),
                    transformed@.len() == i,
                    forall|j: int| 0 <= j < i ==> (#[trigger] transformed@[j]).0@ == found@[j].0@,
                decreases found.len() - i,
            {
                let entry = &found[i];
                let text = auto.transform.apply(entry.1.as_str());
                transformed.push((entry.0.clone(), text));
                i = i + 1;
            }
            let map = effective_map(map_env, auto.divider, &transformed);
            let result = load_variables(&map, env);
            assert(is_transformed(texts_model(found@), texts_model(transformed@)));
            result
        },
    }
}

} // verus!
