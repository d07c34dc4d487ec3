//! Writing a value at a path, creating the tables and arrays on the way.

use vstd::prelude::*;
use crate::key_path::{PathElement, Segment, TomlKeyPath};
use crate::tree::{
    clone_items, entries_model, first_index, has_key, is_first_index, items_model,
    lemma_array_model, lemma_first_index, lemma_has_key_first_index, lemma_table_model, Tree,
    TreeValue,
};

verus! {

/// Why a value could not be written at a path.
#[derive(Debug, PartialEq)]
pub enum InsertTomlValueError {
    /// A key was to be looked up in a node that is no table.
    TablePropertyCannotIndex { property: String, value: TreeValue },
    /// A position was to be looked up in a node that is no array.
    ArrayIndexCannotIndex { index: usize, value: TreeValue },
    /// A position lies beyond the end of the array and the place after it.
    ArrayOutOfBounds { index: usize, array: Vec<TreeValue> },
}

/// The mathematical value of an [`InsertTomlValueError`].
pub enum InsertFault {
    TablePropertyCannotIndex { property: Seq<char>, value: Tree },
    ArrayIndexCannotIndex { index: usize, value: Tree },
    ArrayOutOfBounds { index: usize, array: Seq<Tree> },
}

impl View for InsertTomlValueError {
    type V = InsertFault;

    open spec fn view(&self) -> InsertFault {
        match self {
            InsertTomlValueError::TablePropertyCannotIndex { property, value } => {
                InsertFault::TablePropertyCannotIndex { property: property@, value: value@ }
            },
            InsertTomlValueError::ArrayIndexCannotIndex { index, value } => {
                InsertFault::ArrayIndexCannotIndex { index: *index, value: value@ }
            },
            InsertTomlValueError::ArrayOutOfBounds { index, array } => {
                InsertFault::ArrayOutOfBounds { index: *index, array: items_model(array@) }
            },
        }
    }
}

/// What writing at a path leaves behind: the tree afterwards, and the fault
/// that stopped the walk, if one did.
pub struct Inserted {
    pub tree: Tree,
    pub fault: Option<InsertFault>,
}

/// The container that is created for a missing step, chosen by the step that
/// follows: an empty array before a position, an empty table otherwise.
pub open spec fn blank_for(rest: Seq<Segment>) -> Tree {
    if rest.len() > 0 && rest[0] is ArrayIndex {
        Tree::Array(Seq::empty())
    } else {
        Tree::Table(Seq::empty())
    }
}

/// Writing `value` at `path` below `root`.
///
/// The empty path replaces the node. A key that the table lacks is added at
/// its end, a position equal to the array's length appends; the new node is
/// the value itself where the path ends there, else a fresh container into
/// which the rest of the path is written. A step that does not fit the node it
/// meets stops the walk with a fault; containers created on the way to it
/// stay.
pub open spec fn inserted(root: Tree, path: Seq<Segment>, value: Tree) -> Inserted
    decreases path.len(),
{
    if path.len() == 0 {
        Inserted { tree: value, fault: None }
    } else {
        let rest = path.drop_first();
        match path[0] {
            Segment::TableProperty(property) => match root {
                Tree::Table(entries) => {
                    if has_key(entries, property) {
                        let i = first_index(entries, property);
                        let below = inserted(entries[i].1, rest, value);
                        Inserted {
                            tree: Tree::Table(entries.update(i, (property, below.tree))),
                            fault: below.fault,
                        }
                    } else {
                        let below = inserted(blank_for(rest), rest, value);
                        Inserted {
                            tree: Tree::Table(entries.push((property, below.tree))),
                            fault: below.fault,
                        }
                    }
                },
                _ => Inserted {
                    tree: root,
                    fault: Some(InsertFault::TablePropertyCannotIndex { property, value: root }),
                },
            },
            Segment::ArrayIndex(index) => match root {
                Tree::Array(items) => {
                    if index > items.len() {
                        Inserted {
                            tree: root,
                            fault: Some(InsertFault::ArrayOutOfBounds { index, array: items }),
                        }
                    } else if index == items.len() {
                        let below = inserted(blank_for(rest), rest, value);
                        Inserted { tree: Tree::Array(items.push(below.tree)), fault: below.fault }
                    } else {
                        let below = inserted(items[index as int], rest, value);
                        Inserted {
                            tree: Tree::Array(items.update(index as int, below.tree)),
                            fault: below.fault,
                        }
                    }
                },
                _ => Inserted {
                    tree: root,
                    fault: Some(InsertFault::ArrayIndexCannotIndex { index, value: root }),
                },
            },
        }
    }
}

/// Writing into a tree whose tables hold no key twice leaves such a tree,
/// whether or not the write succeeds.
pub proof fn lemma_insert_preserves_wf(root: Tree, path: Seq<Segment>, value: Tree)
    requires
        root.wf(),
        value.wf(),
    ensures
        inserted(root, path, value).tree.wf(),
    decreases path.len(),
{
    if path.len() > 0 {
        let rest = path.drop_first();
        match path[0] {
            Segment::TableProperty(property) => match root {
                Tree::Table(entries) => {
                    if has_key(entries, property) {
                        let i = first_index(entries, property);
                        lemma_has_key_first_index(entries, property);
                        assert(entries[i].1.wf());
                        lemma_insert_preserves_wf(entries[i].1, rest, value);
                        let below = inserted(entries[i].1, rest, value);
                        let after = entries.update(i, (property, below.tree));
                        assert forall|a: int, b: int| 0 <= a < b < after.len() implies (
                        #[trigger] after[a]).0 != (#[trigger] after[b]).0 by {
                            assert(entries[a].0 != entries[b].0);
                        }
                        assert forall|a: int| 0 <= a < after.len() implies (#[trigger] after[a]).1.wf() by {
                            if a != i {
                                assert(entries[a].1.wf());
                            }
                        }
                    } else {
                        lemma_insert_preserves_wf(blank_for(rest), rest, value);
                        let below = inserted(blank_for(rest), rest, value);
                        let after = entries.push((property, below.tree));
                        assert forall|a: int, b: int| 0 <= a < b < after.len() implies (
                        #[trigger] after[a]).0 != (#[trigger] after[b]).0 by {
                            if b < entries.len() {
                                assert(entries[a].0 != entries[b].0);
                            } else {
                                assert(entries[a].0 != property);
                            }
                        }
                        assert forall|a: int| 0 <= a < after.len() implies (#[trigger] after[a]).1.wf() by {
                            if a < entries.len() {
                                assert(entries[a].1.wf());
                            }
                        }
                    }
                },
                _ => {},
            },
            Segment::ArrayIndex(index) => match root {
                Tree::Array(items) => {
                    if index > items.len() {
                    } else if index == items.len() {
                        lemma_insert_preserves_wf(blank_for(rest), rest, value);
                        let below = inserted(blank_for(rest), rest, value);
                        let after = items.push(below.tree);
                        assert forall|a: int| 0 <= a < after.len() implies (#[trigger] after[a]).wf() by {
                            if a < items.len() {
                                assert(items[a].wf());
                            }
                        }
                    } else {
                        assert(items[index as int].wf());
                        lemma_insert_preserves_wf(items[index as int], rest, value);
                        let below = inserted(items[index as int], rest, value);
                        let after = items.update(index as int, below.tree);
                        assert forall|a: int| 0 <= a < after.len() implies (#[trigger] after[a]).wf() by {
                            if a != index {
                                assert(items[a].wf());
                            }
                        }
                    }
                },
                _ => {},
            },
        }
    }
}

/// The place of the first entry with this key.
pub fn find_key(entries: &Vec<(String, TreeValue)>, key: &String) -> (found: Option<usize>)
    ensures
        match found {
            Some(i) => is_first_index(entries_model(entries@), key@, i as int),
            None => !has_key(entries_model(entries@), key@),
        },
{
    let mut i: usize = 0;
    while i < entries.len()
        invariant
            i <= entries.len(),
            forall|j: int| 0 <= j < i ==> (#[trigger] entries_model(entries@)[j]).0 != key@,
        decreases entries.len() - i,
    {
        if entries[i].0 == *key {
            return Some(i);
        }
        i = i + 1;
    }
    None
}

/// The empty container that a missing step gets, chosen by the step at
/// `depth`, the one that follows it.
fn blank_at(path: &TomlKeyPath, depth: usize) -> (blank: TreeValue)
    requires
        depth <= path.0.len(),
    ensures
        blank@ == blank_for(path@.skip(depth as int)),
{
    if depth < path.0.len() {
        match &path.0[depth] {
            PathElement::ArrayIndex(_) => {
                let blank = TreeValue::Array(Vec::new());
                proof {
                    lemma_array_model(blank->Array_0);
                    assert(items_model(blank->Array_0@) =~= Seq::<Tree>::empty());
                }
                blank
            },
            PathElement::TableProperty(_) => {
                let blank = TreeValue::Table(Vec::new());
                proof {
                    lemma_table_model(blank->Table_0);
                    assert(entries_model(blank->Table_0@) =~= Seq::<(Seq<char>, Tree)>::empty());
                }
                blank
            },
        }
    } else {
        let blank = TreeValue::Table(Vec::new());
        proof {
            lemma_table_model(blank->Table_0);
            assert(entries_model(blank->Table_0@) =~= Seq::<(Seq<char>, Tree)>::empty());
        }
        blank
    }
}

/// Writes `new_value` below `value` at the steps of `path` from `depth` on.
fn insert_from(
    value: &mut TreeValue,
    path: &TomlKeyPath,
    depth: usize,
    new_value: TreeValue,
) -> (result: Result<(), InsertTomlValueError>)
    requires
        depth <= path.0.len(),
    ensures
        final(value)@ == inserted(old(value)@, path@.skip(depth as int), new_value@).tree,
        match result {
            Ok(()) => inserted(old(value)@, path@.skip(depth as int), new_value@).fault is None,
            Err(error) => inserted(old(value)@, path@.skip(depth as int), new_value@).fault
                == Some(error@),
        },
    decreases path.0.len() - depth,
{
    let ghost steps = path@.skip(depth as int);
    if depth == path.0.len() {
        *value = new_value;
        return Ok(());
    }
    let ghost rest = path@.skip(depth as int + 1);
    assert(steps.drop_first() =~= rest);
    assert(steps[0] == path.0@[depth as int]@);
    match &path.0[depth] {
        PathElement::TableProperty(property) => match value {
            TreeValue::Table(entries) => {
                let ghost before = entries_model(entries@);
                proof {
                    lemma_table_model(*entries);
                }
                let at = match find_key(entries, property) {
                    Some(at) => {
                        proof {
                            lemma_first_index(before, property@, at as int);
                        }
                        at
                    },
                    None => {
                        let blank = blank_at(path, depth + 1);
                        entries.push((property.clone(), blank));
                        entries.len() - 1
                    },
                };
                let ghost middle = entries_model(entries@);
                let slot = &mut entries[at];
                let result = insert_from(&mut slot.1, path, depth + 1, new_value);
                proof {
                    lemma_table_model(*entries);
                    let below = if has_key(before, property@) {
                        inserted(before[at as int].1, rest, new_value@)
                    } else {
                        inserted(blank_for(rest), rest, new_value@)
                    };
                    if has_key(before, property@) {
                        assert(middle =~= before);
                        assert(entries_model(entries@) =~= before.update(
                            at as int,
                            (property@, below.tree),
                        ));
                    } else {
                        assert(middle =~= before.push((property@, blank_for(rest))));
                        assert(entries_model(entries@) =~= before.push((property@, below.tree)));
                    }
                }
                result
            },
            other => {
                let error = InsertTomlValueError::TablePropertyCannotIndex {
                    property: property.clone(),
                    value: other.clone(),
                };
                Err(error)
            },
        },
        PathElement::ArrayIndex(index) => match value {
            TreeValue::Array(items) => {
                let ghost before = items_model(items@);
                proof {
                    lemma_array_model(*items);
                }
                if *index > items.len() {
                    let error = InsertTomlValueError::ArrayOutOfBounds {
                        index: *index,
                        array: clone_items(items),
                    };
                    return Err(error);
                }
                if *index == items.len() {
                    let blank = blank_at(path, depth + 1);
                    items.push(blank);
                }
                let ghost middle = items_model(items@);
                let slot = &mut items[*index];
                let result = insert_from(slot, path, depth + 1, new_value);
                proof {
                    lemma_array_model(*items);
                    if *index == before.len() {
                        let below = inserted(blank_for(rest), rest, new_value@);
                        assert(middle =~= before.push(blank_for(rest)));
                        assert(items_model(items@) =~= before.push(below.tree));
                    } else {
                        let below = inserted(before[*index as int], rest, new_value@);
                        assert(middle =~= before);
                        assert(items_model(items@) =~= before.update(*index as int, below.tree));
                    }
                }
                result
            },
            other => {
                let error = InsertTomlValueError::ArrayIndexCannotIndex {
                    index: *index,
                    value: other.clone(),
                };
                Err(error)
            },
        },
    }
}

/// Writes `new_value` at `path` below `value`, creating the tables and arrays
/// that the path needs and the tree lacks. The empty path replaces `value`
/// itself.
///
/// Fails, without panicking, where a step does not fit the node it meets: a
/// key in a node that is no table, a position in a node that is no array, a
/// position more than one past the end of an array. A position equal to the
/// array's length appends. Containers created before the failing step remain
/// in the tree.
pub fn insert_toml_value(
    value: &mut TreeValue,
    path: TomlKeyPath,
    new_value: TreeValue,
) -> (result: Result<(), InsertTomlValueError>)
    ensures
        final(value)@ == inserted(old(value)@, path@, new_value@).tree,
        match result {
            Ok(()) => inserted(old(value)@, path@, new_value@).fault is None,
            Err(error) => inserted(old(value)@, path@, new_value@).fault == Some(error@),
        },
        old(value).wf() && new_value.wf() ==> final(value).wf(),
{
    proof {
        if value.wf() && new_value.wf() {
            lemma_insert_preserves_wf(value@, path@, new_value@);
        }
    }
    assert(path@.skip(0) =~= path@);
    insert_from(value, &path, 0, new_value)
}

} // verus!
