//! The document tree that every configuration source is read into.

use vstd::prelude::*;

verus! {

/// A date and time as the document syntax knows it. Nothing here looks inside
/// one: it is carried from the place where it was read to the place where it
/// is handed on.
#[verifier::external_type_specification]
#[verifier::external_body]
pub struct ExDatetime(toml::value::Datetime);

/// A node of a configuration document.
///
/// A table keeps its entries in the order in which they were added. An entry
/// is found by the first pair that carries its key, so in a table whose keys
/// are all different (see [`TreeValue::wf`]) every pair can be reached.
#[derive(Debug, PartialEq)]
pub enum TreeValue {
    /// A string.
    String(String),
    /// A signed 64-bit integer.
    Integer(i64),
    /// A 64-bit IEEE 754 number, held as its bit pattern.
    Float(u64),
    /// A boolean.
    Boolean(bool),
    /// A date, a time, or both.
    Datetime(toml::value::Datetime),
    /// A dense sequence of nodes.
    Array(Vec<TreeValue>),
    /// Keyed nodes, in insertion order.
    Table(Vec<(String, TreeValue)>),
}

/// The mathematical value of a [`TreeValue`].
pub enum Tree {
    String(Seq<char>),
    Integer(i64),
    Float(u64),
    Boolean(bool),
    Datetime(toml::value::Datetime),
    Array(Seq<Tree>),
    Table(Seq<(Seq<char>, Tree)>),
}

/// The shape of a node: which variant it is.
#[derive(Clone, Copy, Debug, PartialEq, Eq, Structural)]
pub enum ValueKind {
    String,
    Integer,
    Float,
    Boolean,
    Datetime,
    Array,
    Table,
}

impl Tree {
    /// The variant of this node.
    pub open spec fn kind(self) -> ValueKind {
        match self {
            Tree::String(_) => ValueKind::String,
            Tree::Integer(_) => ValueKind::Integer,
            Tree::Float(_) => ValueKind::Float,
            Tree::Boolean(_) => ValueKind::Boolean,
            Tree::Datetime(_) => ValueKind::Datetime,
            Tree::Array(_) => ValueKind::Array,
            Tree::Table(_) => ValueKind::Table,
        }
    }

    /// Whether the node is a leaf: neither a table nor an array.
    pub open spec fn is_scalar(self) -> bool {
        !(self is Array) && !(self is Table)
    }

    /// No table anywhere in the tree holds a key twice.
    pub open spec fn wf(self) -> bool
        decreases self,
    {
        match self {
            Tree::Array(items) => forall|i: int| 0 <= i < items.len() ==> (#[trigger] items[i]).wf(),
            Tree::Table(entries) => {
                &&& keys_distinct(entries)
                &&& forall|i: int| 0 <= i < entries.len() ==> (#[trigger] entries[i]).1.wf()
            },
            _ => true,
        }
    }
}

/// No two entries carry the same key.
pub open spec fn keys_distinct<V>(entries: Seq<(Seq<char>, V)>) -> bool {
    forall|i: int, j: int|
        0 <= i < j < entries.len() ==> (#[trigger] entries[i]).0 != (#[trigger] entries[j]).0
}

/// Whether some entry carries `key`.
pub open spec fn has_key<V>(entries: Seq<(Seq<char>, V)>, key: Seq<char>) -> bool {
    exists|i: int| 0 <= i < entries.len() && (#[trigger] entries[i]).0 == key
}

/// Whether `i` is the place of the first entry that carries `key`.
pub open spec fn is_first_index<V>(entries: Seq<(Seq<char>, V)>, key: Seq<char>, i: int) -> bool {
    &&& 0 <= i < entries.len()
    &&& entries[i].0 == key
    &&& forall|j: int| 0 <= j < i ==> (#[trigger] entries[j]).0 != key
}

/// The place of the first entry that carries `key`, where there is one.
pub open spec fn first_index<V>(entries: Seq<(Seq<char>, V)>, key: Seq<char>) -> int {
    choose|i: int| is_first_index(entries, key, i)
}

/// A key that some entry carries has exactly one first place.
pub proof fn lemma_first_index<V>(entries: Seq<(Seq<char>, V)>, key: Seq<char>, i: int)
    requires
        is_first_index(entries, key, i),
    ensures
        has_key(entries, key),
        first_index(entries, key) == i,
{
    let c = first_index(entries, key);
    assert(is_first_index(entries, key, c));
    if c < i {
        assert(entries[c].0 != key);
    }
    if i < c {
        assert(entries[i].0 != key);
    }
}

/// A key that some entry carries has a first place.
pub proof fn lemma_has_key_first_index<V>(entries: Seq<(Seq<char>, V)>, key: Seq<char>)
    requires
        has_key(entries, key),
    ensures
        is_first_index(entries, key, first_index(entries, key)),
{
    let w = choose|i: int| 0 <= i < entries.len() && (#[trigger] entries[i]).0 == key;
    lemma_first_before(entries, key, w);
}

proof fn lemma_first_before<V>(entries: Seq<(Seq<char>, V)>, key: Seq<char>, w: int)
    requires
        0 <= w < entries.len(),
        entries[w].0 == key,
    ensures
        is_first_index(entries, key, first_index(entries, key)),
    decreases w,
{
    if forall|j: int| 0 <= j < w ==> (#[trigger] entries[j]).0 != key {
        assert(is_first_index(entries, key, w));
    } else {
        let j = choose|j: int| 0 <= j < w && (#[trigger] entries[j]).0 == key;
        lemma_first_before(entries, key, j);
    }
}

impl TreeValue {
    /// The value of this node and of everything below it.
    pub open spec fn model(&self) -> Tree
        decreases self,
    {
        match self {
            TreeValue::String(s) => Tree::String(s@),
            TreeValue::Integer(i) => Tree::Integer(*i),
            TreeValue::Float(bits) => Tree::Float(*bits),
            TreeValue::Boolean(b) => Tree::Boolean(*b),
            TreeValue::Datetime(d) => Tree::Datetime(*d),
            TreeValue::Array(items) => Tree::Array(
                items@.map_values(
                    |t: TreeValue|
                        if decreases_to!(self => t) {
                            t.model()
                        } else {
                            Tree::Boolean(false)
                        },
                ),
            ),
            TreeValue::Table(entries) => Tree::Table(
                entries@.map_values(
                    |e: (String, TreeValue)|
                        if decreases_to!(self => e.1) {
                            (e.0@, e.1.model())
                        } else {
                            (e.0@, Tree::Boolean(false))
                        },
                ),
            ),
        }
    }

    /// No table anywhere in the tree holds a key twice.
    pub open spec fn wf(&self) -> bool {
        self.model().wf()
    }
}

impl View for TreeValue {
    type V = Tree;

    open spec fn view(&self) -> Tree {
        self.model()
    }
}

impl Clone for TreeValue {
    fn clone(&self) -> (copy: Self)
        ensures
            copy@ == self@,
        decreases self,
    {
        match self {
            TreeValue::String(s) => TreeValue::String(s.clone()),
            TreeValue::Integer(i) => TreeValue::Integer(*i),
            TreeValue::Float(bits) => TreeValue::Float(*bits),
            TreeValue::Boolean(b) => TreeValue::Boolean(*b),
            TreeValue::Datetime(d) => TreeValue::Datetime(*d),
            TreeValue::Array(items) => {
                let copies = clone_items(items);
                proof {
                    lemma_array_model(*items);
                    lemma_array_model(copies);
                }
                TreeValue::Array(copies)
            },
            TreeValue::Table(entries) => {
                let mut copies: Vec<(String, TreeValue)> = Vec::new();
                let mut i: usize = 0;
                while i < entries.len()
                    invariant
                        i <= entries.len(),
                        copies@.len() == i,
                        forall|j: int| 0 <= j < entries.len() ==> decreases_to!(self => #[trigger] entries@[j]),
                        forall|j: int|
                            0 <= j < i ==> (#[trigger] copies@[j]).0@ == entries@[j].0@
                                && copies@[j].1@ == entries@[j].1@,
                    decreases entries.len() - i,
                {
                    let entry = &entries[i];
                    copies.push((entry.0.clone(), entry.1.clone()));
                    i = i + 1;
                }
                proof {
                    lemma_table_model(*entries);
                    lemma_table_model(copies);
                    assert(entries_model(copies@) =~= entries_model(entries@));
                }
                TreeValue::Table(copies)
            },
        }
    }
}

/// A copy of each node of an array.
pub fn clone_items(items: &Vec<TreeValue>) -> (copies: Vec<TreeValue>)
    ensures
        items_model(copies@) == items_model(items@),
    decreases items,
{
    let mut copies: Vec<TreeValue> = Vec::new();
    let mut i: usize = 0;
    while i < items.len()
        invariant
            i <= items.len(),
            copies@.len() == i,
            forall|j: int| 0 <= j < items.len() ==> decreases_to!(items => #[trigger] items@[j]),
            forall|j: int| 0 <= j < i ==> (#[trigger] copies@[j])@ == items@[j]@,
        decreases items.len() - i,
    {
        copies.push(items[i].clone());
        i = i + 1;
    }
    assert(items_model(copies@) =~= items_model(items@));
    copies
}

/// The values of the nodes of an array.
pub open spec fn items_model(items: Seq<TreeValue>) -> Seq<Tree> {
    items.map_values(|t: TreeValue| t@)
}

/// The keys and values of the entries of a table.
pub open spec fn entries_model(entries: Seq<(String, TreeValue)>) -> Seq<(Seq<char>, Tree)> {
    entries.map_values(|e: (String, TreeValue)| (e.0@, e.1@))
}

/// The value of an array is the values of its nodes.
pub broadcast proof fn lemma_array_model(items: Vec<TreeValue>)
    ensures
        #[trigger] TreeValue::Array(items)@ == Tree::Array(items_model(items@)),
{
    let v = TreeValue::Array(items);
    assert(v@->Array_0 =~= items_model(items@));
}

/// The value of a table is the keys and values of its entries.
pub broadcast proof fn lemma_table_model(entries: Vec<(String, TreeValue)>)
    ensures
        #[trigger] TreeValue::Table(entries)@ == Tree::Table(entries_model(entries@)),
{
    let v = TreeValue::Table(entries);
    assert(v@->Table_0 =~= entries_model(entries@));
}

} // verus!
