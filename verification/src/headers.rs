//! The header fields of a request: each name once, in the order in which the
//! names first came.

use crate::text::same_text;
use vstd::prelude::*;

verus! {

/// A header field as a mathematical value: its name and its value.
pub type Field = (Seq<char>, Seq<char>);

/// The index of the field named `name`, if there is one.
pub open spec fn position(fields: Seq<Field>, name: Seq<char>) -> Option<int> {
    if exists|i: int| 0 <= i < fields.len() && fields[i].0 == name {
        Some(choose|i: int| 0 <= i < fields.len() && fields[i].0 == name)
    } else {
        None
    }
}

/// No two fields have the same name.
pub open spec fn distinct_names(fields: Seq<Field>) -> bool {
    forall|i: int, j: int|
        0 <= i < fields.len() && 0 <= j < fields.len() && i != j ==> (#[trigger] fields[i]).0 != (
        #[trigger] fields[j]).0
}

/// The fields after `name` was set to `value`: a field of that name keeps
/// its place and changes its value, a new name goes to the end.
pub open spec fn put(fields: Seq<Field>, name: Seq<char>, value: Seq<char>) -> Seq<Field> {
    match position(fields, name) {
        Some(i) => fields.update(i, (name, value)),
        None => fields.push((name, value)),
    }
}

/// The fields after each field of `more` was set in turn.
pub open spec fn put_all(fields: Seq<Field>, more: Seq<Field>) -> Seq<Field>
    decreases more.len(),
{
    if more.len() == 0 {
        fields
    } else {
        put_all(put(fields, more[0].0, more[0].1), more.drop_first())
    }
}

/// The fields as a map from name to value.
pub open spec fn as_map(fields: Seq<Field>) -> Map<Seq<char>, Seq<char>> {
    Map::new(
        |name: Seq<char>| position(fields, name) is Some,
        |name: Seq<char>| fields[position(fields, name)->0].1,
    )
}

/// With distinct names, a field is found at its own index.
pub proof fn lemma_position(fields: Seq<Field>, i: int)
    requires
        distinct_names(fields),
        0 <= i < fields.len(),
    ensures
        position(fields, fields[i].0) == Some(i),
{
    let name = fields[i].0;
    let c = choose|k: int| 0 <= k < fields.len() && fields[k].0 == name;
    if c != i {
        assert(fields[c].0 != fields[i].0);
    }
}

/// Setting a field keeps the names distinct, and on the map it is an insert.
pub proof fn lemma_put(fields: Seq<Field>, name: Seq<char>, value: Seq<char>)
    requires
        distinct_names(fields),
    ensures
        distinct_names(put(fields, name, value)),
        as_map(put(fields, name, value)) == as_map(fields).insert(name, value),
{
    let after = put(fields, name, value);
    match position(fields, name) {
        Some(i) => {
            assert forall|a: int, b: int|
                0 <= a < after.len() && 0 <= b < after.len() && a != b implies (
            #[trigger] after[a]).0 != (#[trigger] after[b]).0 by {
                assert(fields[a].0 != fields[b].0);
            }
            assert forall|key: Seq<char>| #[trigger]
                as_map(after).dom().contains(key) == as_map(fields).insert(
                    name,
                    value,
                ).dom().contains(key) by {
                if position(fields, key) is Some {
                    let k = position(fields, key)->0;
                    assert(after[k].0 == key);
                }
                if position(after, key) is Some {
                    let k = position(after, key)->0;
                    assert(fields[k].0 == key || key == name);
                }
            }
            assert forall|key: Seq<char>| as_map(after).dom().contains(key) implies #[trigger]
                as_map(after)[key] == as_map(fields).insert(name, value)[key] by {
                let k = position(after, key)->0;
                lemma_position(after, k);
                if key != name {
                    assert(fields[k].0 == key);
                    lemma_position(fields, k);
                } else {
                    lemma_position(after, i);
                }
            }
        },
        None => {
            assert forall|a: int, b: int|
                0 <= a < after.len() && 0 <= b < after.len() && a != b implies (
            #[trigger] after[a]).0 != (#[trigger] after[b]).0 by {
                if a < fields.len() && b < fields.len() {
                    assert(fields[a].0 != fields[b].0);
                } else if a < fields.len() {
                    assert(fields[a].0 != name);
                } else {
                    assert(fields[b].0 != name);
                }
            }
            assert forall|key: Seq<char>| #[trigger]
                as_map(after).dom().contains(key) == as_map(fields).insert(
                    name,
                    value,
                ).dom().contains(key) by {
                if position(fields, key) is Some {
                    let k = position(fields, key)->0;
                    assert(after[k].0 == key);
                }
                if key == name {
                    assert(after[fields.len() as int].0 == key);
                }
                if position(after, key) is Some {
                    let k = position(after, key)->0;
                    if k < fields.len() {
                        assert(fields[k].0 == key);
                    }
                }
            }
            assert forall|key: Seq<char>| as_map(after).dom().contains(key) implies #[trigger]
                as_map(after)[key] == as_map(fields).insert(name, value)[key] by {
                let k = position(after, key)->0;
                lemma_position(after, k);
                if key != name {
                    assert(fields[k].0 == key);
                    lemma_position(fields, k);
                } else {
                    lemma_position(after, fields.len() as int);
                }
            }
        },
    }
    assert(as_map(after) =~= as_map(fields).insert(name, value));
}

/// Setting fields one after the other keeps the names distinct.
pub proof fn lemma_put_all(fields: Seq<Field>, more: Seq<Field>)
    requires
        distinct_names(fields),
    ensures
        distinct_names(put_all(fields, more)),
    decreases more.len(),
{
    if more.len() > 0 {
        lemma_put(fields, more[0].0, more[0].1);
        lemma_put_all(put(fields, more[0].0, more[0].1), more.drop_first());
    }
}

/// The header fields of one request.
#[derive(Debug)]
pub struct Headers {
    entries: Vec<(String, String)>,
}

impl View for Headers {
    type V = Seq<Field>;

    closed spec fn view(&self) -> Seq<Field> {
        Seq::new(self.entries@.len(), |i: int| (self.entries@[i].0@, self.entries@[i].1@))
    }
}

impl Headers {
    /// No name occurs twice.
    #[verifier::type_invariant]
    pub open spec fn wf(&self) -> bool {
        distinct_names(self@)
    }

    /// No fields.
    pub fn new() -> (h: Headers)
        ensures
            h@ == Seq::<Field>::empty(),
    {
        let entries: Vec<(String, String)> = Vec::new();
        proof {
            assert(Seq::new(entries@.len(), |i: int| (entries@[i].0@, entries@[i].1@))
                =~= Seq::<Field>::empty());
        }
        Headers { entries }
    }

    /// The number of fields.
    pub fn len(&self) -> (n: usize)
        ensures
            n == self@.len(),
    {
        self.entries.len()
    }

    /// The name and the value of the field at index `i`.
    pub fn field(&self, i: usize) -> (f: (&String, &String))
        requires
            i < self@.len(),
        ensures
            f.0@ == self@[i as int].0,
            f.1@ == self@[i as int].1,
    {
        let entry = &self.entries[i];
        (&entry.0, &entry.1)
    }

    /// The index of the field named `name`.
    pub fn index_of(&self, name: &str) -> (r: Option<usize>)
        ensures
            match r {
                Some(i) => position(self@, name@) == Some(i as int),
                None => position(self@, name@) is None,
            },
    {
        proof {
            use_type_invariant(self);
        }
        let n: usize = self.entries.len();
        let mut i: usize = 0;
        while i < n
            invariant
                n == self@.len(),
                n == self.entries@.len(),
                i <= n,
                self.wf(),
                forall|j: int| 0 <= j < i ==> (#[trigger] self@[j]).0 != name@,
            decreases n - i,
        {
            if same_text(self.entries[i].0.as_str(), name) {
                proof {
                    assert(self@[i as int].0 == name@);
                    lemma_position(self@, i as int);
                }
                return Some(i);
            }
            i += 1;
        }
        None
    }

    /// The value of the field named `name`.
    pub fn get(&self, name: &str) -> (r: Option<&String>)
        ensures
            match r {
                Some(value) => as_map(self@).dom().contains(name@) && value@ == as_map(
                    self@,
                )[name@],
                None => !as_map(self@).dom().contains(name@),
            },
    {
        match self.index_of(name) {
            Some(i) => Some(&self.entries[i].1),
            None => None,
        }
    }

    /// Sets the field named `name` to `value`: a field of that name keeps its
    /// place, a new name goes to the end.
    pub fn insert(&mut self, name: String, value: String)
        ensures
            final(self)@ == put(old(self)@, name@, value@),
            as_map(final(self)@) == as_map(old(self)@).insert(name@, value@),
    {
        proof {
            use_type_invariant(&*self);
            lemma_put(self@, name@, value@);
        }
        let ghost after = put(self@, name@, value@);
        let found = self.index_of(name.as_str());
        let mut taken = Headers::new();
        core::mem::swap(self, &mut taken);
        let mut entries = taken.entries;
        match found {
            Some(i) => {
                entries.set(i, (name, value));
            },
            None => {
                entries.push((name, value));
            },
        }
        proof {
            assert(Seq::new(entries@.len(), |k: int| (entries@[k].0@, entries@[k].1@)) =~= after);
        }
        *self = Headers { entries };
    }
}

} // verus!
