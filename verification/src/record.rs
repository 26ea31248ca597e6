//! One parsed row of delimited text.

use vstd::prelude::*;
use vstd::std_specs::cmp::PartialEqSpecImpl;
use crate::error::ViewerError;

verus! {

/// The text of each string of `fields`, in order.
pub open spec fn texts(fields: Seq<String>) -> Seq<Seq<char>> {
    Seq::new(fields.len(), |i: int| fields[i]@)
}

/// The fields of each record of `records`, in order.
pub open spec fn rows_of(records: Seq<Record>) -> Seq<Seq<Seq<char>>> {
    Seq::new(records.len(), |i: int| records[i]@)
}

/// An ordered sequence of string fields. Two records are equal when they
/// have the same number of fields and equal text at each index.
#[derive(Debug)]
pub struct Record {
    fields: Vec<String>,
}

impl View for Record {
    type V = Seq<Seq<char>>;

    closed spec fn view(&self) -> Seq<Seq<char>> {
        texts(self.fields@)
    }
}

impl Record {
    /// A record without fields.
    pub fn new() -> (record: Record)
        ensures
            record@ == Seq::<Seq<char>>::empty(),
    {
        let record = Record { fields: Vec::new() };
        record
    }

    /// The record whose fields are `fields`, in that order.
    pub fn from_fields(fields: Vec<String>) -> (record: Record)
        ensures
            record@ == texts(fields@),
    {
        Record { fields }
    }

    /// The number of fields.
    pub fn len(&self) -> (n: usize)
        ensures
            n == self@.len(),
    {
        self.fields.len()
    }

    /// Whether the record has no field.
    pub fn is_empty(&self) -> (empty: bool)
        ensures
            empty == (self@.len() == 0),
    {
        self.fields.len() == 0
    }

    /// The field at index `i`, or `OutOfRange` where the record has no such
    /// field.
    pub fn get(&self, i: usize) -> (field: Result<&String, ViewerError>)
        ensures
            i < self@.len() ==> field is Ok && field.unwrap()@ == self@[i as int],
            i >= self@.len() ==> field == Err::<&String, ViewerError>(ViewerError::OutOfRange),
    {
        if i < self.fields.len() {
            Ok(&self.fields[i])
        } else {
            Err(ViewerError::OutOfRange)
        }
    }

    /// The fields in order. Walking the returned vector again gives the same
    /// fields again.
    pub fn fields(&self) -> (fields: &Vec<String>)
        ensures
            texts(fields@) == self@,
    {
        &self.fields
    }

    /// Whether `self` and `other` hold the same fields in the same order.
    pub fn matches(&self, other: &Record) -> (same: bool)
        ensures
            same == (self@ == other@),
    {
        if self.fields.len() != other.fields.len() {
            assert(self@.len() != other@.len());
            return false;
        }
        let mut i: usize = 0;
        while i < self.fields.len()
            invariant
                i <= self.fields.len(),
                self.fields.len() == other.fields.len(),
                forall|j: int| 0 <= j < i ==> self@[j] == other@[j],
            decreases self.fields.len() - i,
        {
            if self.fields[i] != other.fields[i] {
                assert(self@[i as int] != other@[i as int]);
                return false;
            }
            i = i + 1;
        }
        assert(self@ =~= other@);
        true
    }
}

impl Clone for Record {
    fn clone(&self) -> (copy: Record)
        ensures
            copy@ == self@,
    {
        let mut fields: Vec<String> = Vec::new();
        let mut i: usize = 0;
        while i < self.fields.len()
            invariant
                i <= self.fields.len(),
                fields.len() == i,
                forall|j: int| 0 <= j < i ==> fields@[j]@ == self.fields@[j]@,
            decreases self.fields.len() - i,
        {
            fields.push(self.fields[i].clone());
            i = i + 1;
        }
        let copy = Record { fields };
        copy
    }
}

impl PartialEq for Record {
    fn eq(&self, other: &Record) -> (same: bool) {
        self.matches(other)
    }
}

impl PartialEqSpecImpl for Record {
    open spec fn obeys_eq_spec() -> bool {
        true
    }

    open spec fn eq_spec(&self, other: &Record) -> bool {
        self@ == other@
    }
}

} // verus!
