//! Header fields: a mapping from name to value that remembers the order in
//! which the names were first set.

use crate::text::{is_trimmed, lemma_scan, lemma_scan_is, no_line_feed, same_text, scan};
use vstd::prelude::*;

verus! {

/// The mathematical model of a header mapping: its fields as pairs of name and
/// value, in the order in which they are written out.
pub type Fields = Seq<(Seq<char>, Seq<char>)>;

/// The predicate "is the field called `name`".
pub open spec fn named(name: Seq<char>) -> spec_fn((Seq<char>, Seq<char>)) -> bool {
    |field: (Seq<char>, Seq<char>)| field.0 == name
}

/// The index of the first field called `name`, or `fields.len()` without one.
pub open spec fn position(fields: Fields, name: Seq<char>) -> int {
    scan(fields, 0, named(name))
}

/// True when a field is called `name`.
pub open spec fn has_name(fields: Fields, name: Seq<char>) -> bool {
    position(fields, name) < fields.len()
}

/// The value of the field called `name`, if there is one.
pub open spec fn lookup(fields: Fields, name: Seq<char>) -> Option<Seq<char>> {
    if has_name(fields, name) {
        Some(fields[position(fields, name)].1)
    } else {
        None
    }
}

/// The fields after `name` is set to `value`: the field of that name takes the
/// new value where it stands; a new name goes to the end.
pub open spec fn put(fields: Fields, name: Seq<char>, value: Seq<char>) -> Fields {
    if has_name(fields, name) {
        fields.update(position(fields, name), (name, value))
    } else {
        fields.push((name, value))
    }
}

/// True when no two fields share a name.
pub open spec fn distinct_names(fields: Fields) -> bool {
    forall|i: int, j: int|
        0 <= i < fields.len() && 0 <= j < fields.len() && i != j ==> (#[trigger] fields[i]).0 != (
        #[trigger] fields[j]).0
}

/// `position` is in range, and names the first field of that name, if any.
pub proof fn lemma_position(fields: Fields, name: Seq<char>)
    ensures
        0 <= position(fields, name) <= fields.len(),
        has_name(fields, name) ==> fields[position(fields, name)].0 == name,
        forall|i: int| 0 <= i < position(fields, name) ==> (#[trigger] fields[i]).0 != name,
{
    lemma_scan(fields, 0, named(name));
}

/// Among distinct names, the field called `name` is found wherever it stands.
pub proof fn lemma_position_of(fields: Fields, at: int)
    requires
        distinct_names(fields),
        0 <= at < fields.len(),
    ensures
        position(fields, fields[at].0) == at,
        lookup(fields, fields[at].0) == Some(fields[at].1),
{
    let name = fields[at].0;
    assert forall|i: int| 0 <= i < at implies !named(name)(#[trigger] fields[i]) by {}
    lemma_scan_is(fields, 0, named(name), at);
}

/// Setting a field keeps the names distinct, gives that name its new value
/// and leaves every other name as it was.
pub proof fn lemma_put(fields: Fields, name: Seq<char>, value: Seq<char>)
    requires
        distinct_names(fields),
    ensures
        distinct_names(put(fields, name, value)),
        lookup(put(fields, name, value), name) == Some(value),
        forall|other: Seq<char>|
            other != name ==> #[trigger] lookup(put(fields, name, value), other) == lookup(
                fields,
                other,
            ),
        has_name(fields, name) ==> put(fields, name, value).len() == fields.len(),
        !has_name(fields, name) ==> put(fields, name, value).len() == fields.len() + 1,
{
    let after = put(fields, name, value);
    let at = position(fields, name);
    lemma_position(fields, name);
    assert(after[at] == (name, value));
    assert forall|i: int, j: int|
        0 <= i < after.len() && 0 <= j < after.len() && i != j implies (#[trigger] after[i]).0 != (
    #[trigger] after[j]).0 by {
        if i < fields.len() && i != at {
            assert(after[i] == fields[i]);
        }
        if j < fields.len() && j != at {
            assert(after[j] == fields[j]);
        }
    }
    lemma_position_of(after, at);
    assert forall|other: Seq<char>| other != name implies #[trigger] lookup(after, other)
        == lookup(fields, other) by {
        let p = position(fields, other);
        lemma_position(fields, other);
        assert forall|i: int| 0 <= i < p implies !named(other)(#[trigger] after[i]) by {
            if i != at {
                assert(after[i] == fields[i]);
            }
        }
        if p < fields.len() {
            assert(p != at);
            assert(after[p] == fields[p]);
            lemma_scan_is(after, 0, named(other), p);
        } else {
            if at < fields.len() {
                lemma_scan_is(after, 0, named(other), p);
            } else {
                assert(!named(other)(after[at]));
                lemma_scan_is(after, 0, named(other), after.len() as int);
            }
        }
    }
}

/// True for a header field as a parser reads it off a line: name and value
/// without white space at their ends and without line feed, and no colon in
/// the name.
pub open spec fn clean_field(field: (Seq<char>, Seq<char>)) -> bool {
    &&& is_trimmed(field.0)
    &&& is_trimmed(field.1)
    &&& no_line_feed(field.0)
    &&& no_line_feed(field.1)
    &&& forall|i: int| 0 <= i < field.0.len() ==> #[trigger] field.0[i] != ':'
}

/// True when every field is clean.
pub open spec fn clean(fields: Fields) -> bool {
    forall|i: int| 0 <= i < fields.len() ==> clean_field(#[trigger] fields[i])
}

/// Setting a clean field keeps clean fields clean.
pub proof fn lemma_put_clean(fields: Fields, name: Seq<char>, value: Seq<char>)
    requires
        clean(fields),
        clean_field((name, value)),
    ensures
        clean(put(fields, name, value)),
{
    let after = put(fields, name, value);
    lemma_position(fields, name);
    assert forall|i: int| 0 <= i < after.len() implies clean_field(#[trigger] after[i]) by {
        if i < fields.len() && i != position(fields, name) {
            assert(after[i] == fields[i]);
        }
    }
}

/// A set of header fields. No name occurs twice, and the fields keep the
/// order in which their names were first set.
#[derive(Debug, PartialEq, Eq)]
pub struct Headers {
    entries: Vec<(String, String)>,
}

impl View for Headers {
    type V = Fields;

    closed spec fn view(&self) -> Fields {
        Seq::new(self.entries@.len(), |i: int| (self.entries@[i].0@, self.entries@[i].1@))
    }
}

impl Clone for Headers {
    /// A copy with the same fields in the same order.
    fn clone(&self) -> (copy: Headers)
        ensures
            copy@ == self@,
    {
        let mut entries: Vec<(String, String)> = Vec::new();
        let mut i: usize = 0;
        while i < self.entries.len()
            invariant
                i <= self.entries.len(),
                entries@.len() == i,
                forall|j: int|
                    0 <= j < i ==> (#[trigger] entries@[j]).0@ == self.entries@[j].0@
                        && entries@[j].1@ == self.entries@[j].1@,
            decreases self.entries.len() - i,
        {
            let name = self.entries[i].0.clone();
            let value = self.entries[i].1.clone();
            entries.push((name, value));
            i += 1;
        }
        proof {
            use_type_invariant(self);
            assert(Seq::new(entries@.len(), |i: int| (entries@[i].0@, entries@[i].1@)) =~= self@);
        }
        Headers { entries }
    }
}

impl Headers {
    /// Every value of this type holds distinct names.
    #[verifier::type_invariant]
    pub open spec fn well_formed(&self) -> bool {
        distinct_names(self@)
    }

    /// The empty set of fields.
    pub fn new() -> (headers: Headers)
        ensures
            headers@ == Fields::empty(),
    {
        let headers = Headers { entries: Vec::new() };
        assert(headers@ =~= Fields::empty());
        headers
    }

    /// The number of fields.
    pub fn len(&self) -> (n: usize)
        ensures
            n == self@.len(),
    {
        self.entries.len()
    }

    /// Tells whether there is no field.
    pub fn is_empty(&self) -> (res: bool)
        ensures
            res == (self@.len() == 0),
    {
        self.entries.len() == 0
    }

    /// The field at `index` in writing order, as name and value.
    pub fn entry(&self, index: usize) -> (res: Option<(&String, &String)>)
        ensures
            res is Some == (index < self@.len()),
            res matches Some(field) ==> (field.0@, field.1@) == self@[index as int],
    {
        if index < self.entries.len() {
            let pair = &self.entries[index];
            Some((&pair.0, &pair.1))
        } else {
            None
        }
    }

    /// The index of the field called `name`, or the number of fields.
    fn find(&self, name: &str) -> (at: usize)
        ensures
            at == position(self@, name@),
            at <= self@.len(),
    {
        let mut at: usize = 0;
        while at < self.entries.len() && !same_text(self.entries[at].0.as_str(), name)
            invariant
                at <= self.entries.len(),
                self@.len() == self.entries.len(),
                forall|i: int| 0 <= i < at ==> !named(name@)(#[trigger] self@[i]),
            decreases self.entries.len() - at,
        {
            at += 1;
        }
        proof {
            lemma_scan_is(self@, 0, named(name@), at as int);
        }
        at
    }

    /// The value of the field called `name`, if there is one.
    pub fn get(&self, name: &str) -> (res: Option<&String>)
        ensures
            res is Some == lookup(self@, name@) is Some,
            res matches Some(value) ==> lookup(self@, name@) == Some(value@),
    {
        let at = self.find(name);
        if at < self.entries.len() {
            Some(&self.entries[at].1)
        } else {
            None
        }
    }

    /// Tells whether a field is called `name`.
    pub fn contains_key(&self, name: &str) -> (res: bool)
        ensures
            res == has_name(self@, name@),
    {
        self.find(name) < self.entries.len()
    }

    /// Sets the field called `name` to `value`. A name that is already there
    /// keeps its place and takes the new value; a new one goes to the end.
    pub fn insert(&mut self, name: String, value: String)
        ensures
            final(self)@ == put(old(self)@, name@, value@),
    {
        proof {
            use_type_invariant(&*self);
            lemma_put(self@, name@, value@);
        }
        let at = self.find(name.as_str());
        let ghost before = self@;
        let mut entries: Vec<(String, String)> = Vec::new();
        core::mem::swap(&mut self.entries, &mut entries);
        if at < entries.len() {
            entries.set(at, (name, value));
        } else {
            entries.push((name, value));
        }
        let ghost after = Seq::new(entries@.len(), |i: int| (entries@[i].0@, entries@[i].1@));
        assert(after =~= put(before, name@, value@));
        core::mem::swap(&mut self.entries, &mut entries);
        assert(self@ =~= after);
    }
}

} // verus!
