//! The flat schema of a record collection: field names in first-seen order,
//! each with an optional data type and a nullability flag.
use vstd::prelude::*;
use crate::error::{Error, ErrorKind};

verus! {

/// The data type of a column.
///
/// Dates have three encodings: text with a time zone, text without one, and
/// a count of non-leap milliseconds since the epoch. All three are stored as
/// 64 bit millisecond counts.
#[derive(Clone, Copy, Debug, PartialEq, Eq, Structural)]
pub enum DataType {
    Bool,
    I8,
    I16,
    I32,
    I64,
    U8,
    U16,
    U32,
    U64,
    F32,
    F64,
    /// A date time as text with a time zone
    DateTimeStr,
    /// A date time as text without a time zone
    NaiveDateTimeStr,
    /// A date time as non-leap milliseconds since the epoch
    DateTimeMilliseconds,
    /// Text
    Str,
}

impl DataType {
    /// The name of the data type, as written in source code.
    pub open spec fn spec_name(self) -> Seq<char> {
        match self {
            DataType::Bool => "Bool"@,
            DataType::I8 => "I8"@,
            DataType::I16 => "I16"@,
            DataType::I32 => "I32"@,
            DataType::I64 => "I64"@,
            DataType::U8 => "U8"@,
            DataType::U16 => "U16"@,
            DataType::U32 => "U32"@,
            DataType::U64 => "U64"@,
            DataType::F32 => "F32"@,
            DataType::F64 => "F64"@,
            DataType::DateTimeStr => "DateTimeStr"@,
            DataType::NaiveDateTimeStr => "NaiveDateTimeStr"@,
            DataType::DateTimeMilliseconds => "DateTimeMilliseconds"@,
            DataType::Str => "Str"@,
        }
    }

    /// The name of the data type as text.
    pub fn to_string(&self) -> (s: String)
        ensures
            s@ == self.spec_name(),
    {
        match self {
            DataType::Bool => "Bool".to_owned(),
            DataType::I8 => "I8".to_owned(),
            DataType::I16 => "I16".to_owned(),
            DataType::I32 => "I32".to_owned(),
            DataType::I64 => "I64".to_owned(),
            DataType::U8 => "U8".to_owned(),
            DataType::U16 => "U16".to_owned(),
            DataType::U32 => "U32".to_owned(),
            DataType::U64 => "U64".to_owned(),
            DataType::F32 => "F32".to_owned(),
            DataType::F64 => "F64".to_owned(),
            DataType::DateTimeStr => "DateTimeStr".to_owned(),
            DataType::NaiveDateTimeStr => "NaiveDateTimeStr".to_owned(),
            DataType::DateTimeMilliseconds => "DateTimeMilliseconds".to_owned(),
            DataType::Str => "Str".to_owned(),
        }
    }
}

/// The schema of a collection of records.
///
/// A field, once added, stays; its data type and nullability can be set and
/// overwritten. Field names are kept in the order in which they were added.
#[derive(Debug)]
pub struct Schema {
    fields: Vec<String>,
    data_type: Vec<Option<DataType>>,
    nullable: Vec<bool>,
}

/// The position of `name` among `names`, if it occurs.
pub open spec fn position(names: Seq<String>, name: Seq<char>) -> Option<int>
    decreases names.len(),
{
    if names.len() == 0 {
        None
    } else if names.last()@ == name {
        match position(names.drop_last(), name) {
            Some(i) => Some(i),
            None => Some(names.len() - 1),
        }
    } else {
        position(names.drop_last(), name)
    }
}

/// `position` finds the first index that holds `name`, and none when no index does.
pub proof fn lemma_position(names: Seq<String>, name: Seq<char>)
    ensures
        match position(names, name) {
            Some(i) => 0 <= i < names.len() && names[i]@ == name && forall|j: int|
                0 <= j < i ==> names[j]@ != name,
            None => forall|j: int| 0 <= j < names.len() ==> names[j]@ != name,
        },
    decreases names.len(),
{
    if names.len() > 0 {
        lemma_position(names.drop_last(), name);
        assert(forall|j: int| 0 <= j < names.len() - 1 ==> names.drop_last()[j] == names[j]);
    }
}

/// Adding a name at the end keeps the position of every name already there.
pub proof fn lemma_position_push(names: Seq<String>, added: String, name: Seq<char>)
    ensures
        position(names.push(added), name) == match position(names, name) {
            Some(i) => Some(i),
            None => if added@ == name {
                Some(names.len() as int)
            } else {
                None
            },
        },
{
    assert(names.push(added).drop_last() == names);
}

impl Schema {
    /// No name occurs twice, and every field has a data type slot and a flag.
    #[verifier::type_invariant]
    pub closed spec fn well_formed(&self) -> bool {
        &&& self.fields@.len() == self.data_type@.len()
        &&& self.fields@.len() == self.nullable@.len()
        &&& forall|i: int, j: int|
            0 <= i < j < self.fields@.len() ==> self.fields@[i]@ != self.fields@[j]@
    }

    /// The field names, in the order in which they were added.
    pub closed spec fn spec_fields(&self) -> Seq<String> {
        self.fields@
    }

    /// Whether a field of that name was added.
    pub closed spec fn spec_exists(&self, field: Seq<char>) -> bool {
        position(self.fields@, field) is Some
    }

    /// The data type of a field; `None` for a field without one and for an unknown field.
    pub closed spec fn spec_data_type(&self, field: Seq<char>) -> Option<DataType> {
        match position(self.fields@, field) {
            Some(i) => self.data_type@[i],
            None => None,
        }
    }

    /// Whether a field is nullable; `false` for an unknown field.
    pub closed spec fn spec_is_nullable(&self, field: Seq<char>) -> bool {
        match position(self.fields@, field) {
            Some(i) => self.nullable@[i],
            None => false,
        }
    }

    /// A field exists exactly if its name is among the field names, and no name is listed twice.
    pub proof fn lemma_fields(&self, field: Seq<char>)
        requires
            self.well_formed(),
        ensures
            self.spec_exists(field) <==> exists|i: int|
                0 <= i < self.spec_fields().len() && #[trigger] self.spec_fields()[i]@ == field,
            forall|i: int, j: int|
                0 <= i < j < self.spec_fields().len() ==> self.spec_fields()[i]@
                    != self.spec_fields()[j]@,
            !self.spec_exists(field) ==> self.spec_data_type(field) is None
                && !self.spec_is_nullable(field),
    {
        lemma_position(self.fields@, field);
        if let Some(i) = position(self.fields@, field) {
            assert(self.spec_fields()[i]@ == field);
        }
    }

    /// The empty schema.
    pub fn new() -> (s: Schema)
        ensures
            s.spec_fields().len() == 0,
            forall|f: Seq<char>| !s.spec_exists(f),
            forall|f: Seq<char>| s.spec_data_type(f) is None,
            forall|f: Seq<char>| !s.spec_is_nullable(f),
    {
        Schema { fields: Vec::new(), data_type: Vec::new(), nullable: Vec::new() }
    }

    fn find(&self, field: &str) -> (r: Option<usize>)
        ensures
            match r {
                Some(i) => position(self.fields@, field@) == Some(i as int) && i
                    < self.fields@.len(),
                None => position(self.fields@, field@) is None,
            },
    {
        proof {
            use_type_invariant(self);
            lemma_position(self.fields@, field@);
        }
        let mut i: usize = 0;
        while i < self.fields.len()
            invariant
                i <= self.fields@.len(),
                forall|j: int| 0 <= j < i ==> self.fields@[j]@ != field@,
            decreases self.fields@.len() - i,
        {
            if str_eq(self.fields[i].as_str(), field) {
                proof {
                    lemma_position(self.fields@, field@);
                    let k = position(self.fields@, field@)->Some_0;
                    assert(self.fields@[i as int]@ == field@);
                    if k < i {
                        assert(self.fields@[k]@ != field@);
                    }
                }
                return Some(i);
            }
            i += 1;
        }
        None
    }

    /// Get the names of the fields
    pub fn fields(&self) -> (r: &[String])
        ensures
            r@ == self.spec_fields(),
    {
        self.fields.as_slice()
    }

    /// Check whether the given field was added
    pub fn has_field(&self, field: &str) -> (r: bool)
        ensures
            r == self.spec_exists(field@),
    {
        self.find(field).is_some()
    }

    /// Get the data type of a field
    ///
    /// Returns `None` for a field without a data type and for a field that
    /// does not exist.
    pub fn data_type(&self, field: &str) -> (r: Option<&DataType>)
        ensures
            match r {
                Some(t) => self.spec_data_type(field@) == Some(*t),
                None => self.spec_data_type(field@) is None,
            },
    {
        proof {
            use_type_invariant(self);
        }
        match self.find(field) {
            Some(i) => self.data_type[i].as_ref(),
            None => None,
        }
    }

    /// Check whether the field is nullable
    ///
    /// Returns `false` for a field that does not exist.
    pub fn is_nullable(&self, field: &str) -> (r: bool)
        ensures
            r == self.spec_is_nullable(field@),
    {
        proof {
            use_type_invariant(self);
        }
        match self.find(field) {
            Some(i) => self.nullable[i],
            None => false,
        }
    }

    /// What `add_field` does to the schema `old` with result `new`.
    pub open spec fn added(
        old: &Schema,
        new: &Schema,
        field: Seq<char>,
        data_type: Option<DataType>,
        nullable: Option<bool>,
    ) -> bool {
        &&& new.spec_exists(field)
        &&& if old.spec_exists(field) {
            new.spec_fields() == old.spec_fields()
        } else {
            &&& new.spec_fields().len() == old.spec_fields().len() + 1
            &&& new.spec_fields().drop_last() == old.spec_fields()
            &&& new.spec_fields().last()@ == field
        }
        &&& new.spec_data_type(field) == match data_type {
            Some(t) => Some(t),
            None => old.spec_data_type(field),
        }
        &&& new.spec_is_nullable(field) == match nullable {
            Some(b) => b,
            None => old.spec_is_nullable(field),
        }
        &&& forall|other: Seq<char>|
            other != field ==> {
                &&& new.spec_exists(other) == old.spec_exists(other)
                &&& new.spec_data_type(other) == old.spec_data_type(other)
                &&& new.spec_is_nullable(other) == old.spec_is_nullable(other)
            }
    }

    /// The schema with the field added, see [`Schema::add_field`].
    pub fn with_field(
        self,
        field: &str,
        data_type: Option<DataType>,
        nullable: Option<bool>,
    ) -> (r: Schema)
        ensures
            Schema::added(&self, &r, field@, data_type, nullable),
    {
        let mut schema = self;
        schema.add_field(field, data_type, nullable);
        schema
    }

    /// Add a new field
    ///
    /// A field that exists already keeps its place; its data type and
    /// nullability are overwritten where one is given.
    pub fn add_field(&mut self, field: &str, data_type: Option<DataType>, nullable: Option<bool>)
        ensures
            Schema::added(old(self), final(self), field@, data_type, nullable),
    {
        proof {
            use_type_invariant(&*self);
        }
        let found = self.find(field);
        let ghost before = *self;
        let mut taken = Schema::new();
        std::mem::swap(self, &mut taken);
        let mut fields = taken.fields;
        let mut types = taken.data_type;
        let mut flags = taken.nullable;
        let i = match found {
            Some(i) => i,
            None => {
                proof {
                    lemma_position(fields@, field@);
                }
                fields.push(field.to_owned());
                types.push(None);
                flags.push(false);
                fields.len() - 1
            },
        };
        if let Some(t) = data_type {
            types.set(i, Some(t));
        }
        if let Some(b) = nullable {
            flags.set(i, b);
        }
        let ghost at = i as int;
        proof {
            lemma_position(before.fields@, field@);
            if found is None {
                assert(fields@ == before.fields@.push(fields@.last()));
                assert(fields@.drop_last() == before.fields@);
            }
            assert forall|other: Seq<char>|
                #![trigger position(before.fields@, other)]
                #![trigger position(fields@, other)]
                match position(before.fields@, other) {
                    Some(k) => {
                        &&& position(fields@, other) == Some(k)
                        &&& (k == at <==> other == field@)
                        &&& k != at ==> types@[k] == before.data_type@[k] && flags@[k]
                            == before.nullable@[k]
                    },
                    None => position(fields@, other) == if other == field@ {
                        Some(at)
                    } else {
                        None
                    },
                } by {
                lemma_position(before.fields@, other);
                if found is None {
                    lemma_position_push(before.fields@, fields@.last(), other);
                }
            }
            assert forall|p: int, q: int| 0 <= p < q < fields@.len() implies fields@[p]@
                != fields@[q]@ by {
                if found is None && q == at {
                    assert(before.fields@[p]@ != field@);
                }
            }
        }
        *self = Schema { fields, data_type: types, nullable: flags };
    }

    /// Set or overwrite the data type of an existing field
    pub fn set_data_type(&mut self, field: &str, data_type: DataType) -> (r: Result<(), Error>)
        ensures
            match r {
                Ok(()) => old(self).spec_exists(field@) && Schema::added(
                    old(self),
                    final(self),
                    field@,
                    Some(data_type),
                    None,
                ),
                Err(e) => !old(self).spec_exists(field@) && e.kind
                    == ErrorKind::UnknownSchemaField && *final(self) == *old(self),
            },
    {
        if !self.has_field(field) {
            return Err(Error::new(ErrorKind::UnknownSchemaField));
        }
        self.add_field(field, Some(data_type), None);
        Ok(())
    }

    /// Mark an existing field as nullable or not
    pub fn set_nullable(&mut self, field: &str, nullable: bool) -> (r: Result<(), Error>)
        ensures
            match r {
                Ok(()) => old(self).spec_exists(field@) && Schema::added(
                    old(self),
                    final(self),
                    field@,
                    None,
                    Some(nullable),
                ),
                Err(e) => !old(self).spec_exists(field@) && e.kind
                    == ErrorKind::UnknownSchemaField && *final(self) == *old(self),
            },
    {
        if !self.has_field(field) {
            return Err(Error::new(ErrorKind::UnknownSchemaField));
        }
        self.add_field(field, None, Some(nullable));
        Ok(())
    }
}

impl Clone for Schema {
    fn clone(&self) -> (r: Schema)
        ensures
            r.spec_fields() == self.spec_fields(),
            forall|f: Seq<char>| r.spec_exists(f) == self.spec_exists(f),
            forall|f: Seq<char>| r.spec_data_type(f) == self.spec_data_type(f),
            forall|f: Seq<char>| r.spec_is_nullable(f) == self.spec_is_nullable(f),
    {
        proof {
            use_type_invariant(self);
        }
        let mut fields: Vec<String> = Vec::new();
        let mut types: Vec<Option<DataType>> = Vec::new();
        let mut flags: Vec<bool> = Vec::new();
        let mut i: usize = 0;
        while i < self.fields.len()
            invariant
                i <= self.fields@.len(),
                self.fields@.len() == self.data_type@.len(),
                self.fields@.len() == self.nullable@.len(),
                fields@ == self.fields@.take(i as int),
                types@ == self.data_type@.take(i as int),
                flags@ == self.nullable@.take(i as int),
            decreases self.fields@.len() - i,
        {
            fields.push(self.fields[i].clone());
            types.push(self.data_type[i]);
            flags.push(self.nullable[i]);
            i += 1;
        }
        assert(fields@ == self.fields@);
        assert(types@ == self.data_type@);
        assert(flags@ == self.nullable@);
        Schema { fields, data_type: types, nullable: flags }
    }
}

/// Whether two pieces of text hold the same characters.
pub fn str_eq(a: &str, b: &str) -> (r: bool)
    ensures
        r == (a@ == b@),
{
    let x = a.to_owned();
    let y = b.to_owned();
    x == y
}

} // verus!
