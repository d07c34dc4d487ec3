//! Folding a document of higher precedence over one of lower precedence.

use vstd::prelude::*;
use vstd::string::StringExecFns;
use crate::insert::find_key;
use crate::tree::{
    entries_model, first_index, has_key, lemma_first_index, lemma_has_key_first_index,
    lemma_table_model, Tree, TreeValue, ValueKind,
};

verus! {

/// Two documents hold values of different kinds at the same place.
#[derive(Debug, PartialEq)]
pub struct MergeConflict {
    /// The place, written as `$` for the root and `.key` for each table entry
    /// on the way down.
    pub path: String,
    /// The kind of the value in the document of lower precedence.
    pub expected: ValueKind,
    /// The kind of the value in the document of higher precedence.
    pub existing: ValueKind,
}

/// The mathematical value of a [`MergeConflict`].
pub struct MergeFault {
    pub path: Seq<char>,
    pub expected: ValueKind,
    pub existing: ValueKind,
}

impl View for MergeConflict {
    type V = MergeFault;

    open spec fn view(&self) -> MergeFault {
        MergeFault { path: self.path@, expected: self.expected, existing: self.existing }
    }
}

/// The place of the entry `key` in the table at `path`.
pub open spec fn child_path(path: Seq<char>, key: Seq<char>) -> Seq<char> {
    path + seq!['.'] + key
}

/// The document that results from laying `higher` over `lower`, the node at
/// hand standing at `path`.
///
/// Two tables are merged key by key (see [`merged_entries`]). Of two arrays,
/// or two scalars of one kind, the one from `higher` replaces the other
/// whole: arrays are not merged element by element. Two values of different
/// kinds are a conflict.
pub open spec fn merged(lower: Tree, higher: Tree, path: Seq<char>) -> Result<Tree, MergeFault>
    decreases higher, 0nat,
{
    match (lower, higher) {
        (Tree::Table(below), Tree::Table(above)) => merged_entries(below, above, path),
        _ => if lower.kind() == higher.kind() {
            Ok(higher)
        } else {
            Err(MergeFault { path, expected: lower.kind(), existing: higher.kind() })
        },
    }
}

/// The table that results from laying the entries `above` over the entries
/// `below`, one after the other in their order.
///
/// An entry whose key `below` holds is merged into the value there, which
/// keeps its place; an entry with a new key is added at the end. The first
/// conflict ends the merge.
pub open spec fn merged_entries(
    below: Seq<(Seq<char>, Tree)>,
    above: Seq<(Seq<char>, Tree)>,
    path: Seq<char>,
) -> Result<Tree, MergeFault>
    decreases above, 1nat,
{
    if above.len() == 0 {
        Ok(Tree::Table(below))
    } else {
        let key = above[0].0;
        if has_key(below, key) {
            let at = first_index(below, key);
            match merged(below[at].1, above[0].1, child_path(path, key)) {
                Ok(value) => merged_entries(
                    below.update(at, (key, value)),
                    above.drop_first(),
                    path,
                ),
                Err(fault) => Err(fault),
            }
        } else {
            merged_entries(below.push(above[0]), above.drop_first(), path)
        }
    }
}

/// Laying one document over another, where no table of either holds a key
/// twice, gives a document of which the same is true.
pub proof fn lemma_merge_preserves_wf(lower: Tree, higher: Tree, path: Seq<char>)
    requires
        lower.wf(),
        higher.wf(),
    ensures
        merged(lower, higher, path) matches Ok(tree) ==> tree.wf(),
    decreases higher, 0nat,
{
    match (lower, higher) {
        (Tree::Table(below), Tree::Table(above)) => {
            lemma_merge_entries_preserve_wf(below, above, path);
        },
        _ => {},
    }
}

/// Laying entries over a table that holds no key twice gives such a table.
pub proof fn lemma_merge_entries_preserve_wf(
    below: Seq<(Seq<char>, Tree)>,
    above: Seq<(Seq<char>, Tree)>,
    path: Seq<char>,
)
    requires
        Tree::Table(below).wf(),
        forall|i: int| 0 <= i < above.len() ==> (#[trigger] above[i]).1.wf(),
    ensures
        merged_entries(below, above, path) matches Ok(tree) ==> tree.wf(),
    decreases above, 1nat,
{
    if above.len() > 0 {
        let key = above[0].0;
        let rest = above.drop_first();
        assert(above[0].1.wf());
        assert forall|i: int| 0 <= i < rest.len() implies (#[trigger] rest[i]).1.wf() by {
            assert(above[i + 1].1.wf());
        }
        if has_key(below, key) {
            let at = first_index(below, key);
            lemma_has_key_first_index(below, key);
            assert(below[at].1.wf());
            lemma_merge_preserves_wf(below[at].1, above[0].1, child_path(path, key));
            match merged(below[at].1, above[0].1, child_path(path, key)) {
                Ok(value) => {
                    let next = below.update(at, (key, value));
                    assert forall|a: int, b: int| 0 <= a < b < next.len() implies (
                    #[trigger] next[a]).0 != (#[trigger] next[b]).0 by {
                        assert(below[a].0 != below[b].0);
                    }
                    assert forall|a: int| 0 <= a < next.len() implies (#[trigger] next[a]).1.wf() by {
                        if a != at {
                            assert(below[a].1.wf());
                        }
                    }
                    lemma_merge_entries_preserve_wf(next, rest, path);
                },
                Err(_) => {},
            }
        } else {
            let next = below.push(above[0]);
            assert forall|a: int, b: int| 0 <= a < b < next.len() implies (#[trigger] next[a]).0 != (
            #[trigger] next[b]).0 by {
                if b < below.len() {
                    assert(below[a].0 != below[b].0);
                } else {
                    assert(below[a].0 != key);
                }
            }
            assert forall|a: int| 0 <= a < next.len() implies (#[trigger] next[a]).1.wf() by {
                if a < below.len() {
                    assert(below[a].1.wf());
                }
            }
            lemma_merge_entries_preserve_wf(next, rest, path);
        }
    }
}

/// The kind of a node.
pub fn kind_of(value: &TreeValue) -> (kind: ValueKind)
    ensures
        kind == value@.kind(),
{
    match value {
        TreeValue::String(_) => ValueKind::String,
        TreeValue::Integer(_) => ValueKind::Integer,
        TreeValue::Float(_) => ValueKind::Float,
        TreeValue::Boolean(_) => ValueKind::Boolean,
        TreeValue::Datetime(_) => ValueKind::Datetime,
        TreeValue::Array(_) => ValueKind::Array,
        TreeValue::Table(_) => ValueKind::Table,
    }
}

/// Lays `higher` over `lower`, the node at hand standing at `path`.
fn merge_at(lower: TreeValue, higher: TreeValue, path: &str) -> (result: Result<
    TreeValue,
    MergeConflict,
>)
    ensures
        match result {
            Ok(tree) => merged(lower@, higher@, path@) == Ok::<Tree, MergeFault>(tree@),
            Err(conflict) => merged(lower@, higher@, path@) == Err::<Tree, MergeFault>(conflict@),
        },
    decreases higher,
{
    let expected = kind_of(&lower);
    let existing = kind_of(&higher);
    match (lower, higher) {
        (TreeValue::Table(below), TreeValue::Table(above)) => {
            let mut below = below;
            let ghost start = entries_model(below@);
            let ghost all = entries_model(above@);
            proof {
                lemma_table_model(below);
                lemma_table_model(above);
                assert(all.skip(0) =~= all);
            }
            for entry in it: above
                invariant
                    it.seq() == above@,
                    all == entries_model(above@),
                    higher == TreeValue::Table(above),
                    lower@ == Tree::Table(start),
                    higher@ == Tree::Table(all),
                    merged_entries(start, all, path@) == merged_entries(
                        entries_model(below@),
                        all.skip(it.index() as int),
                        path@,
                    ),
            {
                let ghost rest = all.skip(it.index() as int);
                let ghost current = entries_model(below@);
                assert(rest.drop_first() =~= all.skip(it.index() + 1));
                assert(rest[0] == (entry.0@, entry.1@));
                let (key, item) = entry;
                match find_key(&below, &key) {
                    Some(at) => {
                        proof {
                            lemma_first_index(current, key@, at as int);
                            reveal_strlit(".");
                        }
                        let mut place = String::from_str(path);
                        place.append(".");
                        place.append(key.as_str());
                        assert(place@ =~= child_path(path@, key@));
                        let mut existing_value = TreeValue::Boolean(false);
                        let slot = &mut below[at];
                        core::mem::swap(&mut slot.1, &mut existing_value);
                        assert(existing_value@ == current[at as int].1);
                        assert(decreases_to!(higher => item)) by {
                            assert(decreases_to!(higher => higher->Table_0));
                            assert(decreases_to!(above => above@));
                            assert(decreases_to!(above@ => above@[it.index() as int]));
                            assert(decreases_to!(above@[it.index() as int] => above@[it.index() as int].1));
                        }
                        let value = match merge_at(existing_value, item, place.as_str()) {
                            Ok(value) => value,
                            Err(conflict) => {
                                return Err(conflict);
                            },
                        };
                        let slot = &mut below[at];
                        slot.1 = value;
                        assert(entries_model(below@) =~= current.update(
                            at as int,
                            (key@, value@),
                        ));
                    },
                    None => {
                        below.push((key, item));
                        assert(entries_model(below@) =~= current.push(rest[0]));
                    },
                }
            }
            assert(all.skip(all.len() as int) =~= Seq::<(Seq<char>, Tree)>::empty());
            let tree = TreeValue::Table(below);
            proof {
                lemma_table_model(tree->Table_0);
            }
            Ok(tree)
        },
        (_, higher) => {
            if expected == existing {
                Ok(higher)
            } else {
                Err(MergeConflict { path: String::from_str(path), expected, existing })
            }
        },
    }
}

/// Lays the document `higher` over the document `lower`.
///
/// Tables are merged key by key, down to any depth; an array or a scalar of
/// `higher` replaces the value of the same kind that `lower` holds at that
/// place. A place where the two hold values of different kinds is a
/// conflict, reported with its path from the root `$`.
pub fn merge(lower: TreeValue, higher: TreeValue) -> (result: Result<TreeValue, MergeConflict>)
    ensures
        match result {
            Ok(tree) => merged(lower@, higher@, seq!['$']) == Ok::<Tree, MergeFault>(tree@),
            Err(conflict) => merged(lower@, higher@, seq!['$']) == Err::<Tree, MergeFault>(
                conflict@,
            ),
        },
        lower.wf() && higher.wf() ==> (result matches Ok(tree) ==> tree.wf()),
{
    proof {
        if lower.wf() && higher.wf() {
            lemma_merge_preserves_wf(lower@, higher@, seq!['$']);
        }
        reveal_strlit("$");
        assert("$"@ =~= seq!['$']);
    }
    merge_at(lower, higher, "$")
}

} // verus!
