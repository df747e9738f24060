//! The value tree of a document and its mathematical model.

use vstd::prelude::*;
use crate::datetime::Datetime;

verus! {

/// The mathematical model of a value: what a [`TomlValue`] stands for.
pub enum Tree {
    String(Seq<char>),
    Integer(i64),
    /// A float, by its decimal text.
    Float(Seq<char>),
    Boolean(bool),
    Datetime(Datetime),
    Array(Seq<Tree>),
    /// The keys of a table and, index by index, their values, in the order
    /// of the document.
    Table(Seq<Seq<char>>, Seq<Tree>),
}

/// A value of a document.
#[derive(Debug, PartialEq)]
pub enum TomlValue {
    String(String),
    Integer(i64),
    /// A 64-bit IEEE 754 number, held as the shortest decimal text that
    /// reads back as the same number (`1.0`, `-2.5e-7`). A text that is no
    /// JSON number stands for a value that JSON cannot write: NaN or an
    /// infinity.
    Float(String),
    Boolean(bool),
    Datetime(Datetime),
    Array(Vec<TomlValue>),
    /// Keys and their values, in the order of the document.
    Table(Vec<(String, TomlValue)>),
}

impl TomlValue {
    /// The tree that this value stands for.
    pub open spec fn tree(self) -> Tree
        decreases self,
    {
        match self {
            TomlValue::String(s) => Tree::String(s@),
            TomlValue::Integer(i) => Tree::Integer(i),
            TomlValue::Float(text) => Tree::Float(text@),
            TomlValue::Boolean(b) => Tree::Boolean(b),
            TomlValue::Datetime(d) => Tree::Datetime(d),
            TomlValue::Array(items) => Tree::Array(
                Seq::new(
                    items.len() as nat,
                    |i: int|
                        if 0 <= i < items.len() {
                            items[i].tree()
                        } else {
                            Tree::Boolean(false)
                        },
                ),
            ),
            TomlValue::Table(entries) => Tree::Table(
                Seq::new(entries.len() as nat, |i: int| entries[i].0@),
                Seq::new(
                    entries.len() as nat,
                    |i: int|
                        if 0 <= i < entries.len() {
                            entries[i].1.tree()
                        } else {
                            Tree::Boolean(false)
                        },
                ),
            ),
        }
    }
}

impl View for TomlValue {
    type V = Tree;

    open spec fn view(&self) -> Tree {
        self.tree()
    }
}

impl Clone for TomlValue {
    /// A copy that stands for the same tree.
    fn clone(&self) -> (copy: Self)
        ensures
            copy@ == self@,
    {
        copy_of(self)
    }
}

/// A copy of `value`, made item by item.
fn copy_of(value: &TomlValue) -> (copy: TomlValue)
    ensures
        copy@ == value@,
    decreases value,
{
    match value {
        TomlValue::String(s) => TomlValue::String(s.clone()),
        TomlValue::Integer(i) => TomlValue::Integer(*i),
        TomlValue::Float(text) => TomlValue::Float(text.clone()),
        TomlValue::Boolean(b) => TomlValue::Boolean(*b),
        TomlValue::Datetime(d) => TomlValue::Datetime(*d),
        TomlValue::Array(items) => {
            let mut out: Vec<TomlValue> = Vec::new();
            let mut i: usize = 0;
            while i < items.len()
                invariant
                    i <= items.len(),
                    *value == TomlValue::Array(*items),
                    out.len() == i,
                    forall|k: int| 0 <= k < i ==> out[k]@ == items[k]@,
                decreases items.len() - i,
            {
                assert(value->Array_0 == *items);
                out.push(copy_of(&items[i]));
                i = i + 1;
            }
            let copy = TomlValue::Array(out);
            assert(copy@->Array_0 =~= value@->Array_0);
            copy
        },
        TomlValue::Table(entries) => {
            let mut out: Vec<(String, TomlValue)> = Vec::new();
            let mut i: usize = 0;
            while i < entries.len()
                invariant
                    i <= entries.len(),
                    *value == TomlValue::Table(*entries),
                    out.len() == i,
                    forall|k: int| 0 <= k < i ==> out[k].0@ == entries[k].0@,
                    forall|k: int| 0 <= k < i ==> out[k].1@ == entries[k].1@,
                decreases entries.len() - i,
            {
                assert(value->Table_0 == *entries);
                out.push((entries[i].0.clone(), copy_of(&entries[i].1)));
                i = i + 1;
            }
            let copy = TomlValue::Table(out);
            assert(copy@->Table_0 =~= value@->Table_0);
            assert(copy@->Table_1 =~= value@->Table_1);
            copy
        },
    }
}

/// The deepest nesting of arrays and tables that the library reads or
/// writes. A document of this depth is the deepest that the reader of
/// `serde_json` accepts with its default limit, so whatever is written here
/// can be read back there.
pub const MAX_DEPTH: usize = 127;

/// What keeps a tree from being a document.
#[derive(Clone, Copy, Debug, PartialEq, Eq)]
pub enum Defect {
    /// Arrays and tables are nested deeper than [`MAX_DEPTH`].
    TooDeep,
    /// A table holds the same key twice.
    DuplicateKey,
    /// A date or time that the calendar or the clock does not have, or a
    /// combination of date, time and offset that the grammar does not have.
    InvalidDatetime,
}

impl Tree {
    /// The number of arrays and tables on the longest way from this value
    /// down to a leaf: 0 for a scalar, 1 for an array or table of scalars.
    pub open spec fn depth(self) -> nat
        decreases self,
    {
        match self {
            Tree::Array(items) => 1 + deepest(items, items.len() as int),
            Tree::Table(_, values) => 1 + deepest(values, values.len() as int),
            _ => 0,
        }
    }

    /// The first defect of the tree, when it is read from the top down and
    /// from left to right with `budget` levels of nesting allowed, or `None`
    /// where it has none. A table's keys are looked at before its values.
    pub open spec fn defect(self, budget: nat) -> Option<Defect>
        decreases self, 0nat,
    {
        match self {
            Tree::Datetime(d) => if d.valid() {
                None
            } else {
                Some(Defect::InvalidDatetime)
            },
            Tree::Array(items) => if budget == 0 {
                Some(Defect::TooDeep)
            } else {
                first_defect(items, (budget - 1) as nat, 0)
            },
            Tree::Table(keys, values) => if budget == 0 {
                Some(Defect::TooDeep)
            } else if keys.len() != values.len() || !keys.no_duplicates() {
                Some(Defect::DuplicateKey)
            } else {
                first_defect(values, (budget - 1) as nat, 0)
            },
            _ => None,
        }
    }

    /// The tree is a document: it has no defect within [`MAX_DEPTH`] levels.
    pub open spec fn well_formed(self) -> bool {
        self.defect(MAX_DEPTH as nat) is None
    }

    /// No table anywhere in the tree holds a key twice, and every table
    /// has a value for each key.
    pub open spec fn keys_distinct(self) -> bool
        decreases self,
    {
        match self {
            Tree::Array(items) => forall|i: int|
                0 <= i < items.len() ==> (#[trigger] items[i]).keys_distinct(),
            Tree::Table(keys, values) => {
                &&& keys.len() == values.len()
                &&& keys.no_duplicates()
                &&& forall|i: int| 0 <= i < values.len() ==> (#[trigger] values[i]).keys_distinct()
            },
            _ => true,
        }
    }

    /// Every date and time in the tree is valid.
    pub open spec fn datetimes_valid(self) -> bool
        decreases self,
    {
        match self {
            Tree::Datetime(d) => d.valid(),
            Tree::Array(items) => forall|i: int|
                0 <= i < items.len() ==> (#[trigger] items[i]).datetimes_valid(),
            Tree::Table(_, values) => forall|i: int|
                0 <= i < values.len() ==> (#[trigger] values[i]).datetimes_valid(),
            _ => true,
        }
    }
}

/// The greatest depth among the first `n` of `items`, 0 where there is none.
pub open spec fn deepest(items: Seq<Tree>, n: int) -> nat
    decreases items, n,
{
    if n <= 0 || n > items.len() {
        0
    } else {
        let rest = deepest(items, n - 1);
        let last = items[n - 1].depth();
        if last > rest {
            last
        } else {
            rest
        }
    }
}

/// The first defect among `items[from..]`, each read with `budget` levels.
pub open spec fn first_defect(items: Seq<Tree>, budget: nat, from: int) -> Option<Defect>
    decreases items, items.len() - from,
{
    if from < 0 || from >= items.len() {
        None
    } else {
        match items[from].defect(budget) {
            Some(d) => Some(d),
            None => first_defect(items, budget, from + 1),
        }
    }
}

/// Whether `key` stands among the first `n` keys of `entries`.
fn key_among(entries: &Vec<(String, TomlValue)>, n: usize, key: &String) -> (found: bool)
    requires
        n <= entries.len(),
    ensures
        found == exists|j: int| 0 <= j < n && entries[j].0@ == key@,
{
    let mut j: usize = 0;
    while j < n
        invariant
            j <= n <= entries.len(),
            forall|k: int| 0 <= k < j ==> entries[k].0@ != key@,
        decreases n - j,
    {
        if entries[j].0 == *key {
            return true;
        }
        j = j + 1;
    }
    false
}

/// Whether no key occurs twice in `entries`.
fn keys_distinct(entries: &Vec<(String, TomlValue)>) -> (ok: bool)
    ensures
        ok == Seq::new(entries.len() as nat, |i: int| entries[i].0@).no_duplicates(),
{
    let ghost keys = Seq::new(entries.len() as nat, |i: int| entries[i].0@);
    let mut i: usize = 0;
    while i < entries.len()
        invariant
            i <= entries.len(),
            keys == Seq::new(entries.len() as nat, |i: int| entries[i].0@),
            forall|a: int, b: int| 0 <= a < b < i ==> keys[a] != keys[b],
        decreases entries.len() - i,
    {
        if key_among(entries, i, &entries[i].0) {
            proof {
                let j = choose|j: int| 0 <= j < i && entries[j].0@ == entries[i as int].0@;
                assert(keys[j] == keys[i as int]);
            }
            return false;
        }
        i = i + 1;
    }
    true
}

/// The first defect of `value` within `budget` levels of nesting.
fn seek_defect(value: &TomlValue, budget: usize) -> (r: Option<Defect>)
    ensures
        r == value@.defect(budget as nat),
    decreases value,
{
    match value {
        TomlValue::Datetime(d) => {
            if d.is_valid() {
                None
            } else {
                Some(Defect::InvalidDatetime)
            }
        },
        TomlValue::Array(items) => {
            if budget == 0 {
                return Some(Defect::TooDeep);
            }
            let ghost trees = value@->Array_0;
            let mut i: usize = 0;
            while i < items.len()
                invariant
                    i <= items.len(),
                    budget > 0,
                    *value == TomlValue::Array(*items),
                    value@ == Tree::Array(trees),
                    trees.len() == items.len(),
                    forall|k: int| 0 <= k < items.len() ==> trees[k] == items[k]@,
                    first_defect(trees, (budget - 1) as nat, 0) == first_defect(
                        trees,
                        (budget - 1) as nat,
                        i as int,
                    ),
                decreases items.len() - i,
            {
                match seek_defect(&items[i], budget - 1) {
                    Some(d) => {
                        return Some(d);
                    },
                    None => {},
                }
                i = i + 1;
            }
            None
        },
        TomlValue::Table(entries) => {
            if budget == 0 {
                return Some(Defect::TooDeep);
            }
            if !keys_distinct(entries) {
                return Some(Defect::DuplicateKey);
            }
            let ghost keys = value@->Table_0;
            let ghost trees = value@->Table_1;
            let mut i: usize = 0;
            while i < entries.len()
                invariant
                    i <= entries.len(),
                    budget > 0,
                    *value == TomlValue::Table(*entries),
                    value@ == Tree::Table(keys, trees),
                    trees.len() == entries.len(),
                    keys.len() == entries.len(),
                    keys.no_duplicates(),
                    forall|k: int| 0 <= k < entries.len() ==> trees[k] == entries[k].1@,
                    first_defect(trees, (budget - 1) as nat, 0) == first_defect(
                        trees,
                        (budget - 1) as nat,
                        i as int,
                    ),
                decreases entries.len() - i,
            {
                match seek_defect(&entries[i].1, budget - 1) {
                    Some(d) => {
                        return Some(d);
                    },
                    None => {},
                }
                i = i + 1;
            }
            None
        },
        _ => None,
    }
}

impl TomlValue {
    /// The first defect of the value, read from the top down and from left
    /// to right, or `None` where it is a document.
    ///
    /// The keys of each table are compared with one another, so the time
    /// taken grows with the square of the size of the largest table.
    pub fn find_defect(&self) -> (r: Option<Defect>)
        ensures
            r == self@.defect(MAX_DEPTH as nat),
    {
        seek_defect(self, MAX_DEPTH)
    }
}

/// Where none of `items[from..]` is the first with a defect, none has one.
pub proof fn lemma_no_defects(items: Seq<Tree>, budget: nat, from: int)
    requires
        0 <= from,
        first_defect(items, budget, from) is None,
    ensures
        forall|j: int| from <= j < items.len() ==> (#[trigger] items[j]).defect(budget) is None,
    decreases items.len() - from,
{
    if from < items.len() {
        lemma_no_defects(items, budget, from + 1);
    }
}

/// No item is deeper than the deepest.
pub proof fn lemma_deepest(items: Seq<Tree>, n: int)
    requires
        0 <= n <= items.len(),
    ensures
        forall|j: int| 0 <= j < n ==> (#[trigger] items[j]).depth() <= deepest(items, n),
        n > 0 ==> exists|j: int| 0 <= j < n && (#[trigger] items[j]).depth() == deepest(items, n),
    decreases n,
{
    if n > 0 {
        lemma_deepest(items, n - 1);
        if n > 1 {
            let j = choose|j: int| 0 <= j < n - 1 && (#[trigger] items[j]).depth() == deepest(
                items,
                n - 1,
            );
            assert(items[j].depth() == deepest(items, n - 1));
        }
        assert(items[n - 1].depth() <= deepest(items, n));
    }
}

/// What a tree without a defect is: no deeper than the levels allowed,
/// without a key twice in a table, with valid dates and times only.
pub proof fn lemma_without_defect(t: Tree, budget: nat)
    requires
        t.defect(budget) is None,
    ensures
        t.depth() <= budget,
        t.keys_distinct(),
        t.datetimes_valid(),
    decreases t,
{
    match t {
        Tree::Array(items) => {
            let inner = (budget - 1) as nat;
            lemma_no_defects(items, inner, 0);
            lemma_deepest(items, items.len() as int);
            assert forall|j: int| 0 <= j < items.len() implies (#[trigger] items[j]).depth()
                <= inner && items[j].keys_distinct() && items[j].datetimes_valid() by {
                lemma_without_defect(items[j], inner);
            }
        },
        Tree::Table(keys, values) => {
            let inner = (budget - 1) as nat;
            lemma_no_defects(values, inner, 0);
            lemma_deepest(values, values.len() as int);
            assert forall|j: int| 0 <= j < values.len() implies (#[trigger] values[j]).depth()
                <= inner && values[j].keys_distinct() && values[j].datetimes_valid() by {
                lemma_without_defect(values[j], inner);
            }
        },
        _ => {},
    }
}

/// A tree that is no deeper than the levels allowed, without a key twice
/// in a table and with valid dates and times only, has no defect.
pub proof fn lemma_sound_has_no_defect(t: Tree, budget: nat)
    requires
        t.depth() <= budget,
        t.keys_distinct(),
        t.datetimes_valid(),
    ensures
        t.defect(budget) is None,
    decreases t,
{
    match t {
        Tree::Array(items) => {
            let inner = (budget - 1) as nat;
            lemma_deepest(items, items.len() as int);
            if first_defect(items, inner, 0) is Some {
                lemma_first_defect_is_one(items, inner, 0);
                let j = choose|j: int| 0 <= j < items.len() && (#[trigger] items[j]).defect(inner) is Some;
                lemma_sound_has_no_defect(items[j], inner);
            }
        },
        Tree::Table(keys, values) => {
            let inner = (budget - 1) as nat;
            lemma_deepest(values, values.len() as int);
            if first_defect(values, inner, 0) is Some {
                lemma_first_defect_is_one(values, inner, 0);
                let j = choose|j: int| 0 <= j < values.len() && (#[trigger] values[j]).defect(inner) is Some;
                lemma_sound_has_no_defect(values[j], inner);
            }
        },
        _ => {},
    }
}

/// The first defect among items is the defect of one of them.
pub proof fn lemma_first_defect_is_one(items: Seq<Tree>, budget: nat, from: int)
    requires
        0 <= from,
        first_defect(items, budget, from) is Some,
    ensures
        exists|j: int| from <= j < items.len() && (#[trigger] items[j]).defect(budget) is Some,
    decreases items.len() - from,
{
    if from < items.len() {
        if items[from].defect(budget) is Some {
            assert(items[from].defect(budget) is Some);
        } else {
            lemma_first_defect_is_one(items, budget, from + 1);
            let j = choose|j: int| from + 1 <= j < items.len() && (#[trigger] items[j]).defect(budget) is Some;
            assert(items[j].defect(budget) is Some);
        }
    }
}

} // verus!
