//! Reading the node at a path.

use vstd::prelude::*;
use crate::insert::{blank_for, find_key, inserted, InsertFault};
use crate::key_path::{PathElement, Segment, TomlKeyPath};
use crate::tree::{
    entries_model, first_index, has_key, is_first_index, items_model, lemma_array_model,
    lemma_first_index, lemma_has_key_first_index, lemma_table_model, Tree, TreeValue,
};

verus! {

/// The node that `path` leads to below `root`.
///
/// A key leads on through a table that has it, a position through an array
/// that is long enough; any other step leads nowhere. The empty path leads to
/// `root` itself.
pub open spec fn resolved(root: Tree, path: Seq<Segment>) -> Option<Tree>
    decreases path.len(),
{
    if path.len() == 0 {
        Some(root)
    } else {
        match path[0] {
            Segment::TableProperty(property) => match root {
                Tree::Table(entries) => {
                    if has_key(entries, property) {
                        resolved(entries[first_index(entries, property)].1, path.drop_first())
                    } else {
                        None
                    }
                },
                _ => None,
            },
            Segment::ArrayIndex(index) => match root {
                Tree::Array(items) => {
                    if index < items.len() {
                        resolved(items[index as int], path.drop_first())
                    } else {
                        None
                    }
                },
                _ => None,
            },
        }
    }
}

impl TomlKeyPath {
    /// The node that this path leads to below `value`, if it leads anywhere.
    /// Nothing is changed.
    pub fn resolve<'a>(&self, value: &'a TreeValue) -> (found: Option<&'a TreeValue>)
        ensures
            match found {
                Some(node) => resolved(value@, self@) == Some(node@),
                None => resolved(value@, self@) is None,
            },
    {
        let mut node: &'a TreeValue = value;
        let mut depth: usize = 0;
        assert(self@.skip(0) =~= self@);
        while depth < self.0.len()
            invariant
                depth <= self.0.len(),
                resolved(value@, self@) == resolved(node@, self@.skip(depth as int)),
            decreases self.0.len() - depth,
        {
            let ghost steps = self@.skip(depth as int);
            assert(steps.drop_first() =~= self@.skip(depth as int + 1));
            assert(steps[0] == self.0@[depth as int]@);
            match (&self.0[depth], node) {
                (PathElement::TableProperty(property), TreeValue::Table(entries)) => {
                    proof {
                        lemma_table_model(*entries);
                    }
                    match find_key(entries, property) {
                        Some(at) => {
                            proof {
                                lemma_first_index(entries_model(entries@), property@, at as int);
                            }
                            node = &entries[at].1;
                        },
                        None => {
                            return None;
                        },
                    }
                },
                (PathElement::ArrayIndex(index), TreeValue::Array(items)) => {
                    proof {
                        lemma_array_model(*items);
                    }
                    if *index < items.len() {
                        node = &items[*index];
                    } else {
                        return None;
                    }
                },
                _ => {
                    return None;
                },
            }
            depth = depth + 1;
        }
        Some(node)
    }
}

/// Writing at the empty path replaces the whole tree by the value, whatever
/// the tree held, and cannot fail.
pub proof fn lemma_insert_at_root_replaces(root: Tree, value: Tree)
    ensures
        inserted(root, Seq::empty(), value).tree == value,
        inserted(root, Seq::empty(), value).fault is None,
{
}

/// What was written at a path is what the path then leads to.
pub proof fn lemma_insert_then_resolve(root: Tree, path: Seq<Segment>, value: Tree)
    requires
        inserted(root, path, value).fault is None,
    ensures
        resolved(inserted(root, path, value).tree, path) == Some(value),
    decreases path.len(),
{
    if path.len() > 0 {
        let rest = path.drop_first();
        match path[0] {
            Segment::TableProperty(property) => {
                let entries = root->Table_0;
                if has_key(entries, property) {
                    let i = first_index(entries, property);
                    lemma_has_key_first_index(entries, property);
                    let below = inserted(entries[i].1, rest, value);
                    let after = entries.update(i, (property, below.tree));
                    assert(is_first_index(after, property, i)) by {
                        assert forall|j: int| 0 <= j < i implies (#[trigger] after[j]).0
                            != property by {
                            assert(entries[j].0 != property);
                        }
                    }
                    lemma_first_index(after, property, i);
                    lemma_insert_then_resolve(entries[i].1, rest, value);
                } else {
                    let below = inserted(blank_for(rest), rest, value);
                    let after = entries.push((property, below.tree));
                    let last = entries.len() as int;
                    assert(is_first_index(after, property, last)) by {
                        assert forall|j: int| 0 <= j < last implies (#[trigger] after[j]).0
                            != property by {
                            assert(entries[j].0 == after[j].0);
                        }
                    }
                    lemma_first_index(after, property, last);
                    lemma_insert_then_resolve(blank_for(rest), rest, value);
                }
            },
            Segment::ArrayIndex(index) => {
                let items = root->Array_0;
                if index == items.len() {
                    lemma_insert_then_resolve(blank_for(rest), rest, value);
                } else {
                    lemma_insert_then_resolve(items[index as int], rest, value);
                }
            },
        }
    }
}

/// A key that a table lacks is added at its end. Where the path ends there,
/// the new entry holds the value; where it goes on, the entry holds a fresh
/// table or array, by the kind of the next step, with the rest of the path
/// written into it.
pub proof fn lemma_insert_creates_missing(
    entries: Seq<(Seq<char>, Tree)>,
    property: Seq<char>,
    rest: Seq<Segment>,
    value: Tree,
)
    requires
        !has_key(entries, property),
    ensures
        inserted(Tree::Table(entries), seq![Segment::TableProperty(property)] + rest, value).tree
            == Tree::Table(entries.push((property, inserted(blank_for(rest), rest, value).tree))),
        rest.len() == 0 ==> inserted(blank_for(rest), rest, value).tree == value,
        rest.len() > 0 && rest[0] is TableProperty ==> inserted(
            blank_for(rest),
            rest,
            value,
        ).tree is Table,
        rest.len() > 0 && rest[0] is ArrayIndex ==> inserted(
            blank_for(rest),
            rest,
            value,
        ).tree is Array,
{
    let path = seq![Segment::TableProperty(property)] + rest;
    assert(path.drop_first() =~= rest);
}

/// Writing a value at the position just past the end of an array appends it,
/// and cannot fail.
pub proof fn lemma_insert_at_length_appends(items: Seq<Tree>, index: usize, value: Tree)
    requires
        index == items.len(),
    ensures
        inserted(Tree::Array(items), seq![Segment::ArrayIndex(index)], value).tree == Tree::Array(
            items.push(value),
        ),
        inserted(Tree::Array(items), seq![Segment::ArrayIndex(index)], value).fault is None,
{
    let path = seq![Segment::ArrayIndex(index)];
    assert(path.drop_first() =~= Seq::<Segment>::empty());
    assert(inserted(blank_for(path.drop_first()), path.drop_first(), value).tree == value);
}

/// A position more than one past the end of an array is out of bounds: the
/// write fails, whatever follows in the path, and the tree stays as it was.
pub proof fn lemma_insert_beyond_length_fails(
    items: Seq<Tree>,
    index: usize,
    rest: Seq<Segment>,
    value: Tree,
)
    requires
        index > items.len(),
    ensures
        inserted(Tree::Array(items), seq![Segment::ArrayIndex(index)] + rest, value).fault == Some(
            InsertFault::ArrayOutOfBounds { index, array: items },
        ),
        inserted(Tree::Array(items), seq![Segment::ArrayIndex(index)] + rest, value).tree
            == Tree::Array(items),
{
}

/// A step that does not fit the node it meets is a fault of its own kind: a
/// key into anything but a table, a position into anything but an array. The
/// tree stays as it was.
pub proof fn lemma_insert_mismatch_fails(root: Tree, path: Seq<Segment>, value: Tree)
    requires
        path.len() > 0,
    ensures
        path[0] matches Segment::TableProperty(property) ==> !(root is Table) ==> inserted(
            root,
            path,
            value,
        ) == (crate::insert::Inserted {
            tree: root,
            fault: Some(InsertFault::TablePropertyCannotIndex { property, value: root }),
        }),
        path[0] matches Segment::ArrayIndex(index) ==> !(root is Array) ==> inserted(
            root,
            path,
            value,
        ) == (crate::insert::Inserted {
            tree: root,
            fault: Some(InsertFault::ArrayIndexCannotIndex { index, value: root }),
        }),
{
}

} // verus!
