//! Documents: the tree of values that a JSON or TOML text holds, with the
//! few ways of reading and changing it that the settings of the tools need.

use crate::text::{leading, lemma_leading, lemma_leading_stops};
use vstd::prelude::*;

verus! {

/// A value of a document.
#[derive(Debug, PartialEq, Eq)]
pub enum Node {
    Null,
    Bool(bool),
    /// A number, as the text that writes it.
    Number(String),
    Text(String),
    /// A date or a time, as the text that writes it.
    Date(String),
    List(Vec<Node>),
    /// The entries of a table, each a key with its value.
    Table(Vec<(String, Node)>),
}

/// What a value of a document holds.
pub enum Tree {
    Null,
    Bool(bool),
    Number(Seq<char>),
    Text(Seq<char>),
    Date(Seq<char>),
    List(Seq<Tree>),
    Table(Seq<(Seq<char>, Tree)>),
}

/// What `node` holds.
pub open spec fn tree_of(node: Node) -> Tree
    decreases node,
{
    match node {
        Node::Null => Tree::Null,
        Node::Bool(b) => Tree::Bool(b),
        Node::Number(text) => Tree::Number(text@),
        Node::Text(text) => Tree::Text(text@),
        Node::Date(text) => Tree::Date(text@),
        Node::List(items) => Tree::List(
            Seq::new(
                items@.len(),
                |i: int|
                    if 0 <= i < items@.len() {
                        tree_of(items@[i])
                    } else {
                        Tree::Null
                    },
            ),
        ),
        Node::Table(entries) => Tree::Table(
            Seq::new(
                entries@.len(),
                |i: int|
                    if 0 <= i < entries@.len() {
                        (entries@[i].0@, tree_of(entries@[i].1))
                    } else {
                        (Seq::empty(), Tree::Null)
                    },
            ),
        ),
    }
}

impl View for Node {
    type V = Tree;

    open spec fn view(&self) -> Tree {
        tree_of(*self)
    }
}

/// Whether the key of `entry` is `key`.
pub open spec fn has_key(entry: (Seq<char>, Tree), key: Seq<char>) -> bool {
    entry.0 == key
}

/// The place of the first entry with the key `key`, or the number of
/// entries where none has it.
pub open spec fn entry_place(entries: Seq<(Seq<char>, Tree)>, key: Seq<char>) -> nat {
    leading(entries, |e: (Seq<char>, Tree)| !has_key(e, key))
}

impl Tree {
    /// The value of the key `key` in a table; nothing in any other value.
    pub open spec fn member(self, key: Seq<char>) -> Option<Tree> {
        match self {
            Tree::Table(entries) => {
                let i = entry_place(entries, key) as int;
                if i < entries.len() {
                    Some(entries[i].1)
                } else {
                    None
                }
            },
            _ => None,
        }
    }

    /// The item at place `i` of a list; nothing in any other value.
    pub open spec fn item(self, i: int) -> Option<Tree> {
        match self {
            Tree::List(items) => if 0 <= i < items.len() {
                Some(items[i])
            } else {
                None
            },
            _ => None,
        }
    }

    /// The characters of a text; nothing in any other value.
    pub open spec fn text(self) -> Option<Seq<char>> {
        match self {
            Tree::Text(text) => Some(text),
            _ => None,
        }
    }

    /// A table with `key` set to `value`: in the place of the value that the
    /// key had, or as a new entry at the end. Any other value as it is.
    pub open spec fn with_member(self, key: Seq<char>, value: Tree) -> Tree {
        match self {
            Tree::Table(entries) => {
                let i = entry_place(entries, key) as int;
                if i < entries.len() {
                    Tree::Table(entries.update(i, (key, value)))
                } else {
                    Tree::Table(entries.push((key, value)))
                }
            },
            _ => self,
        }
    }

    /// A list with `value` at place `i`, where it has such a place. Any
    /// other value as it is.
    pub open spec fn with_item(self, i: int, value: Tree) -> Tree {
        match self {
            Tree::List(items) => if 0 <= i < items.len() {
                Tree::List(items.update(i, value))
            } else {
                self
            },
            _ => self,
        }
    }
}

/// A value changed at the key `key`, where it is a table that has the key:
/// the value of the key becomes what `change` makes of it.
pub open spec fn at_member(tree: Tree, key: Seq<char>, change: spec_fn(Tree) -> Tree) -> Tree {
    match tree.member(key) {
        Some(value) => tree.with_member(key, change(value)),
        None => tree,
    }
}

/// A value changed at place `i`, where it is a list that has the place: the
/// item there becomes what `change` makes of it.
pub open spec fn at_item(tree: Tree, i: int, change: spec_fn(Tree) -> Tree) -> Tree {
    match tree.item(i) {
        Some(value) => tree.with_item(i, change(value)),
        None => tree,
    }
}

/// Setting a key of a table changes the value of that key and of no other,
/// and keeps every entry in its place.
pub proof fn law_with_member(tree: Tree, key: Seq<char>, value: Tree, other: Seq<char>)
    requires
        tree is Table,
    ensures
        tree.with_member(key, value).member(key) == Some(value),
        other != key ==> tree.with_member(key, value).member(other) == tree.member(other),
        tree.member(key) is Some ==> tree.with_member(key, value)->Table_0.len()
            == tree->Table_0.len(),
        tree.member(key) is None ==> tree.with_member(key, value)->Table_0 == tree->Table_0.push(
            (key, value),
        ),
{
    let entries = tree->Table_0;
    let after = tree.with_member(key, value)->Table_0;
    let i = entry_place(entries, key) as int;
    let is_not_key = |e: (Seq<char>, Tree)| !has_key(e, key);
    let is_not_other = |e: (Seq<char>, Tree)| !has_key(e, other);
    lemma_leading_stops(entries, is_not_key);
    lemma_leading(after, is_not_key, i);
    if other != key {
        let j = entry_place(entries, other) as int;
        lemma_leading_stops(entries, is_not_other);
        if j == entries.len() && i == entries.len() {
            lemma_leading(after, is_not_other, j + 1);
        } else {
            lemma_leading(after, is_not_other, j);
        }
    }
}

/// Of two values set one after the other at one key of a table that has the
/// key, the second is the one that stays.
pub proof fn lemma_with_member_twice(tree: Tree, key: Seq<char>, first: Tree, second: Tree)
    requires
        tree.member(key) is Some,
    ensures
        tree.with_member(key, first).with_member(key, second) == tree.with_member(key, second),
{
    let entries = tree->Table_0;
    let i = entry_place(entries, key) as int;
    let is_not_key = |e: (Seq<char>, Tree)| !has_key(e, key);
    lemma_leading_stops(entries, is_not_key);
    lemma_leading(entries.update(i, (key, first)), is_not_key, i);
    assert(entries.update(i, (key, first)).update(i, (key, second)) == entries.update(
        i,
        (key, second),
    ));
}

/// Of two values put one after the other at one place of a list, the second
/// is the one that stays.
pub proof fn lemma_with_item_twice(tree: Tree, i: int, first: Tree, second: Tree)
    ensures
        tree.with_item(i, first).with_item(i, second) == tree.with_item(i, second),
{
    if tree.item(i) is Some {
        let items = tree->List_0;
        assert(items.update(i, first).update(i, second) == items.update(i, second));
    }
}

/// What the entries of a table hold.
pub open spec fn entries_view(entries: Seq<(String, Node)>) -> Seq<(Seq<char>, Tree)> {
    Seq::new(entries.len(), |i: int| (entries[i].0@, entries[i].1@))
}

/// What the items of a list hold.
pub open spec fn items_view(items: Seq<Node>) -> Seq<Tree> {
    Seq::new(items.len(), |i: int| items[i]@)
}

/// The view of a table is that of its entries, the view of a list that of
/// its items.
pub proof fn lemma_view(node: Node)
    ensures
        node matches Node::Table(entries) ==> node@ == Tree::Table(entries_view(entries@)),
        node matches Node::List(items) ==> node@ == Tree::List(items_view(items@)),
{
    match node {
        Node::Table(entries) => {
            let n = entries@.len();
            let s = node@->Table_0;
            assert(node@ is Table);
            assert(s.len() == n);
            assert(node@->Table_0 =~= entries_view(entries@));
        },
        Node::List(items) => {
            assert(node@->List_0 =~= items_view(items@));
        },
        _ => {},
    }
}

/// The place of the first of `entries` with the key `key`, or their number.
fn find_entry(entries: &Vec<(String, Node)>, key: &String) -> (i: usize)
    ensures
        i == entry_place(entries_view(entries@), key@),
        i <= entries.len(),
        i < entries.len() ==> entries@[i as int].0@ == key@,
{
    let mut i: usize = 0;
    while i < entries.len()
        invariant
            i <= entries.len(),
            forall|k: int| 0 <= k < i ==> !has_key(#[trigger] entries_view(entries@)[k], key@),
        decreases entries.len() - i,
    {
        if entries[i].0 == *key {
            proof {
                assert(entries_view(entries@)[i as int].0 == key@);
                lemma_leading(
                    entries_view(entries@),
                    |e: (Seq<char>, Tree)| !has_key(e, key@),
                    i as int,
                );
            }
            return i;
        }
        i += 1;
    }
    proof {
        lemma_leading(
            entries_view(entries@),
            |e: (Seq<char>, Tree)| !has_key(e, key@),
            i as int,
        );
    }
    i
}

impl Node {
    /// The value of the key `key`, where this is a table that has it.
    pub fn get(&self, key: &str) -> (r: Option<&Node>)
        ensures
            match r {
                Some(value) => self@.member(key@) == Some(value@),
                None => self@.member(key@) is None,
            },
    {
        match self {
            Node::Table(entries) => {
                proof {
                    lemma_view(*self);
                }
                let i = find_entry(entries, &key.to_owned());
                if i < entries.len() {
                    Some(&entries[i].1)
                } else {
                    None
                }
            },
            _ => None,
        }
    }

    /// The item at place `i`, where this is a list that has it.
    pub fn item(&self, i: usize) -> (r: Option<&Node>)
        ensures
            match r {
                Some(value) => self@.item(i as int) == Some(value@),
                None => self@.item(i as int) is None,
            },
    {
        match self {
            Node::List(items) => {
                proof {
                    lemma_view(*self);
                }
                if i < items.len() {
                    Some(&items[i])
                } else {
                    None
                }
            },
            _ => None,
        }
    }

    /// The text, where this is one.
    pub fn as_text(&self) -> (r: Option<&String>)
        ensures
            match r {
                Some(text) => self@.text() == Some(text@),
                None => self@.text() is None,
            },
    {
        match self {
            Node::Text(text) => Some(text),
            _ => None,
        }
    }

    /// Sets `key` to `value` in a table: in the place of the value that the
    /// key had, or as a new entry at the end. Any other value stays as it
    /// is.
    pub fn set(self, key: &str, value: Node) -> (r: Node)
        ensures
            r@ == self@.with_member(key@, value@),
    {
        match self {
            Node::Table(mut entries) => {
                proof {
                    lemma_view(self);
                }
                let key = key.to_owned();
                let i = find_entry(&entries, &key);
                let ghost before = entries_view(entries@);
                if i < entries.len() {
                    entries.set(i, (key, value));
                    proof {
                        assert(entries_view(entries@) == before.update(i as int, (key@, value@)));
                    }
                } else {
                    entries.push((key, value));
                    proof {
                        assert(entries_view(entries@) == before.push((key@, value@)));
                    }
                }
                let r = Node::Table(entries);
                proof {
                    lemma_view(r);
                }
                r
            },
            other => other,
        }
    }

    /// Takes the value of the key `key` out of a table that has the key, and
    /// leaves `Null` in its place. Any other value stays as it is, and
    /// nothing is taken.
    pub fn take(self, key: &str) -> (r: (Node, Option<Node>))
        ensures
            match r.1 {
                Some(value) => self@.member(key@) == Some(value@) && r.0@ == self@.with_member(
                    key@,
                    Tree::Null,
                ),
                None => self@.member(key@) is None && r.0@ == self@,
            },
    {
        match self {
            Node::Table(mut entries) => {
                proof {
                    lemma_view(self);
                }
                let i = find_entry(&entries, &key.to_owned());
                let ghost before = entries_view(entries@);
                if i < entries.len() {
                    let (own_key, value) = entries.remove(i);
                    entries.insert(i, (own_key, Node::Null));
                    proof {
                        assert(entries_view(entries@) == before.update(
                            i as int,
                            (key@, Tree::Null),
                        ));
                    }
                    let rest = Node::Table(entries);
                    proof {
                        lemma_view(rest);
                    }
                    (rest, Some(value))
                } else {
                    let rest = Node::Table(entries);
                    proof {
                        lemma_view(rest);
                    }
                    (rest, None)
                }
            },
            other => (other, None),
        }
    }

    /// Takes the item at place `i` out of a list that has the place, and
    /// leaves `Null` there. Any other value stays as it is, and nothing is
    /// taken.
    pub fn take_item(self, i: usize) -> (r: (Node, Option<Node>))
        ensures
            match r.1 {
                Some(value) => self@.item(i as int) == Some(value@) && r.0@ == self@.with_item(
                    i as int,
                    Tree::Null,
                ),
                None => self@.item(i as int) is None && r.0@ == self@,
            },
    {
        match self {
            Node::List(mut items) => {
                proof {
                    lemma_view(self);
                }
                let ghost before = items_view(items@);
                if i < items.len() {
                    let value = items.remove(i);
                    items.insert(i, Node::Null);
                    proof {
                        assert(items_view(items@) == before.update(i as int, Tree::Null));
                    }
                    let rest = Node::List(items);
                    proof {
                        lemma_view(rest);
                    }
                    (rest, Some(value))
                } else {
                    let rest = Node::List(items);
                    proof {
                        lemma_view(rest);
                    }
                    (rest, None)
                }
            },
            other => (other, None),
        }
    }

    /// Puts `value` at place `i` of a list that has the place. Any other
    /// value stays as it is.
    pub fn set_item(self, i: usize, value: Node) -> (r: Node)
        ensures
            r@ == self@.with_item(i as int, value@),
    {
        match self {
            Node::List(mut items) => {
                proof {
                    lemma_view(self);
                }
                let ghost before = items_view(items@);
                if i < items.len() {
                    items.set(i, value);
                    proof {
                        assert(items_view(items@) == before.update(i as int, value@));
                    }
                }
                let r = Node::List(items);
                proof {
                    lemma_view(r);
                }
                r
            },
            other => other,
        }
    }
}

} // verus!
