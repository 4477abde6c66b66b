//! Documents as trees of tables, arrays, strings and other scalars.
//!
//! A manifest or a lock document is held as a [`Value`]. Contracts speak of
//! its view, a [`Tree`]: the same tree over sequences of characters.

use vstd::prelude::*;
use crate::text::same_text;

verus! {

/// A scalar that is no string. Masking carries these through unread.
#[derive(Debug, PartialEq, Eq)]
pub enum Scalar {
    Integer(i64),
    Boolean(bool),
    /// A binary64 number, held as its bit pattern.
    Float(u64),
    /// A date, a time or both, held as written.
    Datetime(String),
}

/// What a [`Scalar`] holds.
pub enum ScalarView {
    Integer(i64),
    Boolean(bool),
    Float(u64),
    Datetime(Seq<char>),
}

impl View for Scalar {
    type V = ScalarView;

    open spec fn view(&self) -> ScalarView {
        match self {
            Scalar::Integer(i) => ScalarView::Integer(*i),
            Scalar::Boolean(b) => ScalarView::Boolean(*b),
            Scalar::Float(bits) => ScalarView::Float(*bits),
            Scalar::Datetime(text) => ScalarView::Datetime(text@),
        }
    }
}

/// A document, or a part of one.
///
/// A table holds its entries in the order of the document. Where a key
/// occurs more than once, the first entry is the one that the key names.
#[derive(Debug, PartialEq, Eq)]
pub enum Value {
    String(String),
    Scalar(Scalar),
    Array(Vec<Value>),
    Table(Vec<(String, Value)>),
}

/// What a [`Value`] holds.
pub enum Tree {
    String(Seq<char>),
    Scalar(ScalarView),
    Array(Seq<Tree>),
    Table(Seq<(Seq<char>, Tree)>),
}

impl Value {
    /// The tree that this value holds.
    pub open spec fn tree(&self) -> Tree
        decreases self,
    {
        match self {
            Value::String(text) => Tree::String(text@),
            Value::Scalar(scalar) => Tree::Scalar(scalar@),
            Value::Array(items) => Tree::Array(
                Seq::new(
                    items@.len(),
                    |i: int|
                        if 0 <= i < items@.len() {
                            items@[i].tree()
                        } else {
                            Tree::Array(Seq::empty())
                        },
                ),
            ),
            Value::Table(entries) => Tree::Table(
                Seq::new(
                    entries@.len(),
                    |i: int|
                        if 0 <= i < entries@.len() {
                            (entries@[i].0@, entries@[i].1.tree())
                        } else {
                            (Seq::empty(), Tree::Array(Seq::empty()))
                        },
                ),
            ),
        }
    }
}

impl View for Value {
    type V = Tree;

    open spec fn view(&self) -> Tree {
        self.tree()
    }
}

/// The trees of `items`, in order.
pub open spec fn items_view(items: Seq<Value>) -> Seq<Tree> {
    Seq::new(items.len(), |i: int| items[i]@)
}

/// The keys and trees of `entries`, in order.
pub open spec fn entries_view(entries: Seq<(String, Value)>) -> Seq<(Seq<char>, Tree)> {
    Seq::new(entries.len(), |i: int| (entries[i].0@, entries[i].1@))
}

/// The view of an array is the array of the views of its items.
pub proof fn lemma_array_view(value: Value)
    requires
        value is Array,
    ensures
        value@ == Tree::Array(items_view(value->Array_0@)),
{
    reveal_with_fuel(Value::tree, 2);
    assert(value@->Array_0 =~= items_view(value->Array_0@));
}

/// The view of a table is the table of the views of its entries.
pub proof fn lemma_table_view(value: Value)
    requires
        value is Table,
    ensures
        value@ == Tree::Table(entries_view(value->Table_0@)),
{
    reveal_with_fuel(Value::tree, 2);
    assert(value@->Table_0 =~= entries_view(value->Table_0@));
}

/// Whether the first entry of `entries` under `key` stands at `at`.
pub open spec fn is_position(entries: Seq<(Seq<char>, Tree)>, key: Seq<char>, at: int) -> bool {
    &&& 0 <= at < entries.len()
    &&& entries[at].0 == key
    &&& forall|i: int| 0 <= i < at ==> (#[trigger] entries[i]).0 != key
}

/// The place of the first entry of `entries` under `key`.
pub open spec fn position(entries: Seq<(Seq<char>, Tree)>, key: Seq<char>) -> Option<int> {
    if exists|at: int| is_position(entries, key, at) {
        Some(choose|at: int| is_position(entries, key, at))
    } else {
        None
    }
}

/// What `tree` holds under `key`: the value of the first entry with that
/// key where `tree` is a table, nothing otherwise.
pub open spec fn field(tree: Tree, key: Seq<char>) -> Option<Tree> {
    match tree {
        Tree::Table(entries) => match position(entries, key) {
            Some(at) => Some(entries[at].1),
            None => None,
        },
        _ => None,
    }
}

/// `tree` with `value` in place of what it holds under `key`; `tree` itself
/// where it holds nothing there.
pub open spec fn with_field(tree: Tree, key: Seq<char>, value: Tree) -> Tree {
    match tree {
        Tree::Table(entries) => match position(entries, key) {
            Some(at) => Tree::Table(entries.update(at, (key, value))),
            None => tree,
        },
        _ => tree,
    }
}

/// The first entry under a key is the only place that `position` can name.
pub proof fn lemma_position(entries: Seq<(Seq<char>, Tree)>, key: Seq<char>)
    ensures
        forall|at: int| is_position(entries, key, at) ==> position(entries, key) == Some(at),
        position(entries, key) is Some ==> is_position(entries, key, position(entries, key)->0),
        position(entries, key) is None ==> forall|i: int|
            0 <= i < entries.len() ==> (#[trigger] entries[i]).0 != key,
{
    assert forall|at: int| is_position(entries, key, at) implies position(entries, key) == Some(
        at,
    ) by {
        let chosen = choose|c: int| is_position(entries, key, c);
        if chosen < at {
            assert(entries[chosen].0 == key);
        } else if at < chosen {
            assert(entries[at].0 == key);
        }
    }
    if position(entries, key) is None {
        lemma_position_absent(entries, key, entries.len() as int);
    }
}

proof fn lemma_position_absent(entries: Seq<(Seq<char>, Tree)>, key: Seq<char>, upto: int)
    requires
        0 <= upto <= entries.len(),
        position(entries, key) is None,
    ensures
        forall|i: int| 0 <= i < upto ==> (#[trigger] entries[i]).0 != key,
    decreases upto,
{
    if upto > 0 {
        lemma_position_absent(entries, key, upto - 1);
        if entries[upto - 1].0 == key {
            assert(is_position(entries, key, upto - 1));
        }
    }
}

/// The place of the first entry of `entries` under `key`.
pub fn position_of(entries: &Vec<(String, Value)>, key: &str) -> (r: Option<usize>)
    ensures
        match r {
            Some(at) => position(entries_view(entries@), key@) == Some(at as int) && at
                < entries.len(),
            None => position(entries_view(entries@), key@) is None,
        },
{
    let mut i: usize = 0;
    while i < entries.len()
        invariant
            i <= entries.len(),
            forall|j: int| 0 <= j < i ==> (#[trigger] entries_view(entries@)[j]).0 != key@,
        decreases entries.len() - i,
    {
        if same_text(entries[i].0.as_str(), key) {
            proof {
                assert(is_position(entries_view(entries@), key@, i as int));
                lemma_position(entries_view(entries@), key@);
            }
            return Some(i);
        }
        i += 1;
    }
    proof {
        assert forall|at: int| !is_position(entries_view(entries@), key@, at) by {
            if 0 <= at < entries.len() {
                assert(entries_view(entries@)[at].0 != key@);
            }
        }
    }
    None
}

impl Value {
    /// What this value holds under `key`, if it is a table with such an
    /// entry.
    pub fn get(&self, key: &str) -> (r: Option<&Value>)
        ensures
            match r {
                Some(found) => field(self@, key@) == Some(found@),
                None => field(self@, key@) is None,
            },
    {
        match self {
            Value::Table(entries) => {
                proof {
                    lemma_table_view(*self);
                }
                match position_of(entries, key) {
                    Some(at) => Some(&entries[at].1),
                    None => None,
                }
            },
            _ => None,
        }
    }

    /// What this value holds under `key`, to be changed in place, if it is a
    /// table with such an entry.
    pub fn get_mut(&mut self, key: &str) -> (r: Option<&mut Value>)
        ensures
            match r {
                Some(found) => field(old(self)@, key@) == Some((*found)@) && final(self)@
                    == with_field(old(self)@, key@, (*final(found))@),
                None => field(old(self)@, key@) is None && final(self)@ == old(self)@,
            },
    {
        let ghost before = *self;
        proof {
            if *self is Table {
                lemma_table_view(*self);
            }
        }
        match self {
            Value::Table(entries) => match position_of(entries, key) {
                Some(at) => {
                    proof {
                        lemma_position(entries_view(entries@), key@);
                        assert forall|after: Value|
                            after is Table && after->Table_0@.len() == before->Table_0@.len() && (
                            forall|i: int|
                                0 <= i < before->Table_0@.len() && i != at ==> after->Table_0@[i]
                                    == before->Table_0@[i]) && after->Table_0@[at as int].0
                                == before->Table_0@[at as int].0 implies #[trigger] after.tree()
                            == with_field(before@, key@, after->Table_0@[at as int].1@) by {
                            lemma_field_replaced(before, after, key@, at as int);
                        }
                    }
                    Some(&mut entries[at].1)
                },
                None => None,
            },
            _ => None,
        }
    }

    /// The text of this value, if it is a string.
    pub fn as_str(&self) -> (r: Option<&str>)
        ensures
            match r {
                Some(text) => self@ == Tree::String(text@),
                None => !(self@ is String),
            },
    {
        match self {
            Value::String(text) => Some(text.as_str()),
            _ => None,
        }
    }

    /// The items of this value, if it is an array.
    pub fn as_array(&self) -> (r: Option<&Vec<Value>>)
        ensures
            match r {
                Some(items) => self@ == Tree::Array(items_view(items@)),
                None => !(self@ is Array),
            },
    {
        match self {
            Value::Array(items) => {
                proof {
                    lemma_array_view(*self);
                }
                Some(items)
            },
            _ => None,
        }
    }

    /// The items of this value, to be changed in place, if it is an array.
    pub fn as_array_mut(&mut self) -> (r: Option<&mut Vec<Value>>)
        ensures
            match r {
                Some(items) => old(self)@ == Tree::Array(items_view(items@)) && final(self)@
                    == Tree::Array(items_view(final(items)@)),
                None => !(old(self)@ is Array) && final(self)@ == old(self)@,
            },
    {
        proof {
            if *self is Array {
                lemma_array_view(*self);
            }
            assert forall|after: Value| after is Array implies #[trigger] after.tree()
                == Tree::Array(items_view(after->Array_0@)) by {
                lemma_array_view(after);
            }
        }
        match self {
            Value::Array(items) => Some(items),
            _ => None,
        }
    }

    /// The entries of this value, if it is a table.
    pub fn as_table(&self) -> (r: Option<&Vec<(String, Value)>>)
        ensures
            match r {
                Some(entries) => self@ == Tree::Table(entries_view(entries@)),
                None => !(self@ is Table),
            },
    {
        match self {
            Value::Table(entries) => {
                proof {
                    lemma_table_view(*self);
                }
                Some(entries)
            },
            _ => None,
        }
    }

    /// The entries of this value, to be changed in place, if it is a table.
    pub fn as_table_mut(&mut self) -> (r: Option<&mut Vec<(String, Value)>>)
        ensures
            match r {
                Some(entries) => old(self)@ == Tree::Table(entries_view(entries@))
                    && final(self)@ == Tree::Table(entries_view(final(entries)@)),
                None => !(old(self)@ is Table) && final(self)@ == old(self)@,
            },
    {
        proof {
            if *self is Table {
                lemma_table_view(*self);
            }
            assert forall|after: Value| after is Table implies #[trigger] after.tree()
                == Tree::Table(entries_view(after->Table_0@)) by {
                lemma_table_view(after);
            }
        }
        match self {
            Value::Table(entries) => Some(entries),
            _ => None,
        }
    }

    /// Puts `value` in place of what this value holds under `key`, and
    /// tells whether it held anything there.
    pub fn set(&mut self, key: &str, value: Value) -> (r: bool)
        ensures
            final(self)@ == with_field(old(self)@, key@, value@),
            r == field(old(self)@, key@) is Some,
    {
        proof {
            if *self is Table {
                lemma_table_view(*self);
            }
        }
        let r = match self {
            Value::Table(entries) => {
                match position_of(entries, key) {
                    Some(at) => {
                        let ghost before = entries@;
                        entries[at].1 = value;
                        proof {
                            assert(entries_view(entries@) =~= entries_view(before).update(
                                at as int,
                                (key@, value@),
                            ));
                        }
                        true
                    },
                    None => false,
                }
            },
            _ => false,
        };
        proof {
            if *self is Table {
                lemma_table_view(*self);
            }
        }
        r
    }
}

impl Clone for Scalar {
    /// A second scalar that holds the same.
    fn clone(&self) -> (r: Scalar)
        ensures
            r@ == self@,
    {
        match self {
            Scalar::Integer(i) => Scalar::Integer(*i),
            Scalar::Boolean(b) => Scalar::Boolean(*b),
            Scalar::Float(bits) => Scalar::Float(*bits),
            Scalar::Datetime(text) => Scalar::Datetime(text.clone()),
        }
    }
}

impl Clone for Value {
    /// A second value that holds the same tree.
    fn clone(&self) -> (r: Value)
        ensures
            r@ == self@,
        decreases self,
    {
        match self {
            Value::String(text) => Value::String(text.clone()),
            Value::Scalar(scalar) => Value::Scalar(scalar.clone()),
            Value::Array(items) => {
                let mut copies: Vec<Value> = Vec::new();
                let mut i: usize = 0;
                while i < items.len()
                    invariant
                        i <= items.len(),
                        self is Array && self->Array_0 == *items,
                        copies.len() == i,
                        forall|j: int| 0 <= j < i ==> copies@[j]@ == items@[j]@,
                    decreases items.len() - i,
                {
                    assert(decreases_to!(self => self->Array_0[i as int]));
                    copies.push(items[i].clone());
                    i += 1;
                }
                let r = Value::Array(copies);
                proof {
                    lemma_array_view(r);
                    lemma_array_view(*self);
                    assert(items_view(copies@) =~= items_view(items@));
                }
                r
            },
            Value::Table(entries) => {
                let mut copies: Vec<(String, Value)> = Vec::new();
                let mut i: usize = 0;
                while i < entries.len()
                    invariant
                        i <= entries.len(),
                        self is Table && self->Table_0 == *entries,
                        copies.len() == i,
                        forall|j: int|
                            0 <= j < i ==> copies@[j].0@ == entries@[j].0@ && copies@[j].1@
                                == entries@[j].1@,
                    decreases entries.len() - i,
                {
                    assert(decreases_to!(self => self->Table_0[i as int].1));
                    copies.push((entries[i].0.clone(), entries[i].1.clone()));
                    i += 1;
                }
                let r = Value::Table(copies);
                proof {
                    lemma_table_view(r);
                    lemma_table_view(*self);
                    assert(entries_view(copies@) =~= entries_view(entries@));
                }
                r
            },
        }
    }
}

/// A table in which one entry got a new value holds, under the key of that
/// entry, the new value in place of the old one.
pub proof fn lemma_field_replaced(before: Value, after: Value, key: Seq<char>, at: int)
    requires
        before is Table,
        after is Table,
        position(entries_view(before->Table_0@), key) == Some(at),
        0 <= at < before->Table_0@.len(),
        after->Table_0@.len() == before->Table_0@.len(),
        forall|i: int|
            0 <= i < before->Table_0@.len() ==> (#[trigger] after->Table_0@[i]).0@
                == before->Table_0@[i].0@,
        forall|i: int|
            0 <= i < before->Table_0@.len() && i != at ==> (#[trigger] after->Table_0@[i]).1@
                == before->Table_0@[i].1@,
    ensures
        field(before@, key) == Some(before->Table_0@[at].1@),
        after@ == with_field(before@, key, after->Table_0@[at].1@),
{
    lemma_table_view(before);
    lemma_table_view(after);
    lemma_position(entries_view(before->Table_0@), key);
    assert(entries_view(after->Table_0@) =~= entries_view(before->Table_0@).update(
        at,
        (key, after->Table_0@[at].1@),
    ));
}

/// A new value under a key moves no entry.
proof fn lemma_position_kept(
    entries: Seq<(Seq<char>, Tree)>,
    at: int,
    value: Tree,
    other: Seq<char>,
)
    requires
        0 <= at < entries.len(),
    ensures
        position(entries.update(at, (entries[at].0, value)), other) == position(entries, other),
{
    let updated = entries.update(at, (entries[at].0, value));
    lemma_position(entries, other);
    lemma_position(updated, other);
    match position(entries, other) {
        Some(found) => {
            assert(is_position(updated, other, found)) by {
                assert forall|i: int| 0 <= i < found implies (#[trigger] updated[i]).0 != other by {
                    assert(entries[i].0 != other);
                }
            }
        },
        None => {
            if position(updated, other) is Some {
                let found = position(updated, other)->0;
                assert(entries[found].0 != other);
            }
        },
    }
}

/// How a tree answers after one of its fields got a new value.
pub proof fn lemma_with_field(tree: Tree, key: Seq<char>, value: Tree)
    ensures
        field(tree, key) is None ==> with_field(tree, key, value) == tree,
        field(tree, key) is Some ==> field(with_field(tree, key, value), key) == Some(value),
        field(tree, key) == Some(value) ==> with_field(tree, key, value) == tree,
        with_field(tree, key, value) is Table <==> tree is Table,
        forall|other: Seq<char>|
            other != key ==> #[trigger] field(with_field(tree, key, value), other) == field(
                tree,
                other,
            ),
        forall|next: Tree| #[trigger]
            with_field(with_field(tree, key, value), key, next) == with_field(tree, key, next),
{
    match tree {
        Tree::Table(entries) => {
            lemma_position(entries, key);
            match position(entries, key) {
                Some(at) => {
                    let updated = entries.update(at, (key, value));
                    lemma_position_kept(entries, at, value, key);
                    if field(tree, key) == Some(value) {
                        assert(updated =~= entries);
                    }
                    assert forall|other: Seq<char>| other != key implies #[trigger] field(
                        with_field(tree, key, value),
                        other,
                    ) == field(tree, other) by {
                        lemma_position_kept(entries, at, value, other);
                        lemma_position(entries, other);
                    }
                    assert forall|next: Tree| #[trigger]
                        with_field(with_field(tree, key, value), key, next) == with_field(
                            tree,
                            key,
                            next,
                        ) by {
                        assert(updated.update(at, (key, next)) =~= entries.update(at, (key, next)));
                    }
                },
                None => {},
            }
        },
        _ => {},
    }
}

} // verus!
