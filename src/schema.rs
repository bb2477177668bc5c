//! A schema: the ordered fields of the rows of an index.
use vstd::prelude::*;

use crate::fields::FieldKind;
use crate::persisted_vec::PersistentVec;
use crate::split::SplitMut;

verus! {

/// A single field in a schema.
#[derive(Debug, Clone, PartialEq, Eq)]
pub struct SchemaField {
    pub name: String,
    pub kind: FieldKind,
}

/// The number of bytes that a row with `fields` takes: the sum of the fields' sizes.
pub open spec fn row_size_of(fields: Seq<SchemaField>) -> nat
    decreases fields.len(),
{
    if fields.len() == 0 {
        0
    } else {
        row_size_of(fields.drop_last()) + fields.last().kind.spec_size()
    }
}

/// The position of the first field named `name` in `fields`, if any.
pub open spec fn position_of(fields: Seq<SchemaField>, name: Seq<char>) -> Option<int> {
    if exists|i: int| 0 <= i < fields.len() && (#[trigger] fields[i]).name@ == name {
        Some(choose|i: int| {
            &&& 0 <= i < fields.len()
            &&& (#[trigger] fields[i]).name@ == name
            &&& forall|j: int| 0 <= j < i ==> (#[trigger] fields[j]).name@ != name
        })
    } else {
        None
    }
}

/// A schema: an ordered array of fields.
#[derive(Debug)]
pub struct Schema {
    fields: Vec<SchemaField>,
}

impl View for Schema {
    type V = Seq<SchemaField>;

    closed spec fn view(&self) -> Seq<SchemaField> {
        self.fields@
    }
}

impl Schema {
    /// Creates an empty schema.
    pub fn new() -> (r: Schema)
        ensures
            r@ == Seq::<SchemaField>::empty(),
    {
        Schema { fields: Vec::new() }
    }

    /// Creates a schema of `fields`, in order.
    pub fn from_fields(fields: Vec<SchemaField>) -> (r: Schema)
        ensures
            r@ == fields@,
    {
        Schema { fields }
    }

    /// Gets the number of fields.
    pub fn len(&self) -> (r: usize)
        ensures
            r == self@.len(),
    {
        self.fields.len()
    }

    /// Appends `field`.
    pub fn push(&mut self, field: SchemaField)
        ensures
            final(self)@ == old(self)@.push(field),
    {
        self.fields.push(field);
    }

    /// Gets an iterator over the fields.
    pub fn iter(&self) -> (r: SchemaIter<'_>)
        ensures
            r.members() == self@,
            r.position() == 0,
    {
        SchemaIter { members: &self.fields, index: 0 }
    }

    /// Gets the field at `index`, if there is one.
    pub fn get_at(&self, index: usize) -> (r: Option<&SchemaField>)
        ensures
            index < self@.len() ==> r == Some(&self@[index as int]),
            index >= self@.len() ==> r is None,
    {
        if index < self.fields.len() {
            Some(&self.fields[index])
        } else {
            None
        }
    }

    /// Gets a mutable reference to the field at `index`, if there is one.
    pub fn get_at_mut(&mut self, index: usize) -> (r: Option<&mut SchemaField>)
        ensures
            index < old(self)@.len() ==> r is Some && *r->0 == old(self)@[index as int]
                && final(self)@ == old(self)@.update(index as int, *final(r->0)),
            index >= old(self)@.len() ==> r is None && final(self)@ == old(self)@,
    {
        if index < self.fields.len() {
            Some(&mut self.fields[index])
        } else {
            None
        }
    }

    fn find(&self, name: &str) -> (r: Option<usize>)
        ensures
            r matches Some(i) ==> i < self@.len() && position_of(self@, name@) == Some(i as int),
            r is None ==> position_of(self@, name@) is None,
    {
        let key: String = name.to_owned();
        let mut i: usize = 0;
        while i < self.fields.len()
            invariant
                i <= self@.len(),
                key@ == name@,
                forall|j: int| 0 <= j < i ==> (#[trigger] self@[j]).name@ != name@,
            decreases self@.len() - i,
        {
            if self.fields[i].name == key {
                proof {
                    assert(self@[i as int].name@ == name@);
                    assert(exists|p: int| {
                        &&& 0 <= p < self@.len()
                        &&& (#[trigger] self@[p]).name@ == name@
                        &&& forall|j: int| 0 <= j < p ==> (#[trigger] self@[j]).name@ != name@
                    });
                    let p = choose|p: int| {
                        &&& 0 <= p < self@.len()
                        &&& (#[trigger] self@[p]).name@ == name@
                        &&& forall|j: int| 0 <= j < p ==> (#[trigger] self@[j]).name@ != name@
                    };
                    assert(self@[i as int].name@ == name@);
                    if p < i {
                        assert(self@[p].name@ != name@);
                    }
                    if p > i {
                        assert(self@[i as int].name@ != name@);
                    }
                }
                return Some(i);
            }
            i = i + 1;
        }
        None
    }

    /// Gets the first field named `name`, if any.
    pub fn get(&self, name: &str) -> (r: Option<&SchemaField>)
        ensures
            position_of(self@, name@) matches Some(i) ==> r == Some(&self@[i]),
            position_of(self@, name@) is None ==> r is None,
    {
        match self.find(name) {
            Some(i) => Some(&self.fields[i]),
            None => None,
        }
    }

    /// Gets a mutable reference to the first field named `name`, if any.
    pub fn get_mut(&mut self, name: &str) -> (r: Option<&mut SchemaField>)
        ensures
            position_of(old(self)@, name@) is Some ==> r is Some && *r->0 == old(self)@[position_of(
                old(self)@,
                name@,
            )->0] && final(self)@ == old(self)@.update(position_of(old(self)@, name@)->0, *final(r->0)),
            position_of(old(self)@, name@) is None ==> r is None && final(self)@ == old(self)@,
    {
        match self.find(name) {
            Some(i) => Some(&mut self.fields[i]),
            None => None,
        }
    }

    /// Gets the number of bytes needed to store one row of the schema.
    pub fn row_size(&self) -> (r: usize)
        requires
            row_size_of(self@) <= usize::MAX,
        ensures
            r == row_size_of(self@),
    {
        let mut total: usize = 0;
        let mut i: usize = 0;
        while i < self.fields.len()
            invariant
                i <= self@.len(),
                row_size_of(self@) <= usize::MAX,
                total == row_size_of(self@.subrange(0, i as int)),
            decreases self@.len() - i,
        {
            proof {
                let next = self@.subrange(0, i + 1);
                assert(next.drop_last() =~= self@.subrange(0, i as int));
                lemma_row_size_prefix(self@, i + 1);
            }
            total = total + self.fields[i].kind.size();
            i = i + 1;
        }
        proof {
            assert(self@.subrange(0, i as int) =~= self@);
        }
        total
    }

    /// Views the bytes of `p_vec` as rows of this schema, one chunk per row.
    pub fn row_bytes(&self, p_vec: PersistentVec<u8>) -> (r: SplitMut<u8>)
        requires
            p_vec.wf(),
            0 < row_size_of(self@) <= usize::MAX,
        ensures
            r.wf(),
            r.elements() == p_vec@,
            r.chunk_size() == row_size_of(self@),
    {
        let size = self.row_size();
        p_vec.split_mut(size)
    }
}

proof fn lemma_row_size_prefix(fields: Seq<SchemaField>, n: int)
    requires
        0 <= n <= fields.len(),
    ensures
        row_size_of(fields.subrange(0, n)) <= row_size_of(fields),
    decreases fields.len(),
{
    if n < fields.len() {
        assert(fields.drop_last().subrange(0, n) =~= fields.subrange(0, n));
        lemma_row_size_prefix(fields.drop_last(), n);
    } else {
        assert(fields.subrange(0, n) =~= fields);
    }
}

/// An iterator over the fields of a schema.
#[derive(Debug)]
pub struct SchemaIter<'a> {
    members: &'a Vec<SchemaField>,
    index: usize,
}

impl<'a> SchemaIter<'a> {
    /// The fields iterated over.
    pub closed spec fn members(&self) -> Seq<SchemaField> {
        self.members@
    }

    /// How many fields were handed out.
    pub closed spec fn position(&self) -> nat {
        self.index as nat
    }

    /// Hands out the next field, if any is left.
    pub fn next(&mut self) -> (r: Option<&'a SchemaField>)
        ensures
            final(self).members() == old(self).members(),
            old(self).position() < old(self).members().len() ==> r == Some(&old(self).members()[old(self).position() as int])
                && final(self).position() == old(self).position() + 1,
            old(self).position() >= old(self).members().len() ==> r is None && final(self).position() == old(self).position(),
    {
        if self.index < self.members.len() {
            let out = &self.members[self.index];
            self.index = self.index + 1;
            Some(out)
        } else {
            None
        }
    }
}

} // verus!
