//! The field tree: named, typed, nullable descriptors of columns, with the
//! children of nested columns as subtrees.
use vstd::prelude::*;
use crate::event::IntKind;

verus! {

/// The data type of a field.
#[derive(Debug, Clone, Copy, PartialEq, Eq, Structural)]
pub enum GenericDataType {
    /// The type of a field that was only ever observed as null.
    Null,
    Bool,
    I8,
    I16,
    I32,
    I64,
    U8,
    U16,
    U32,
    U64,
    F32,
    F64,
    Utf8,
    /// A date and time, as non-leap milliseconds since the epoch.
    Date64,
    /// A date and time, as text without a time zone; stored as `Date64`.
    Date64NaiveStr,
    /// A date and time, as text with a time zone; stored as `Date64`.
    Date64UtcStr,
    /// A struct; the children are its fields, in first-seen order.
    Struct,
    /// A list; the one child is the type of its items.
    List,
    /// A map; the two children are the types of its keys and of its values.
    Mapping,
    /// A type that only a backend understands: its tag and payload.
    Backend { tag: u32, payload: u64 },
}

impl GenericDataType {
    /// The integer kind of an integer type.
    pub open spec fn int_kind(self) -> Option<IntKind> {
        match self {
            GenericDataType::I8 => Some(IntKind::I8),
            GenericDataType::I16 => Some(IntKind::I16),
            GenericDataType::I32 => Some(IntKind::I32),
            GenericDataType::I64 => Some(IntKind::I64),
            GenericDataType::U8 => Some(IntKind::U8),
            GenericDataType::U16 => Some(IntKind::U16),
            GenericDataType::U32 => Some(IntKind::U32),
            GenericDataType::U64 => Some(IntKind::U64),
            _ => None,
        }
    }

    /// Whether the type has no children: every type but struct, list and map.
    pub open spec fn is_leaf(self) -> bool {
        !(self is Struct || self is List || self is Mapping)
    }
}

/// A field as a mathematical value.
pub struct FieldModel {
    pub name: Seq<char>,
    pub data_type: GenericDataType,
    pub nullable: bool,
    pub children: Seq<FieldModel>,
}

/// A field: a name, a data type, whether it can be null, and its children.
#[derive(Debug, PartialEq, Eq)]
pub struct GenericField {
    pub name: String,
    pub data_type: GenericDataType,
    pub nullable: bool,
    pub children: Vec<GenericField>,
}

/// The field as a mathematical value.
pub open spec fn field_model(f: GenericField) -> FieldModel
    decreases f,
{
    FieldModel {
        name: f.name@,
        data_type: f.data_type,
        nullable: f.nullable,
        children: Seq::new(
            f.children@.len(),
            |i: int|
                if 0 <= i < f.children@.len() {
                    field_model(f.children@[i])
                } else {
                    arbitrary()
                },
        ),
    }
}

impl View for GenericField {
    type V = FieldModel;

    open spec fn view(&self) -> FieldModel {
        field_model(*self)
    }
}

/// The fields of a sequence, each as a mathematical value.
pub open spec fn models(fields: Seq<GenericField>) -> Seq<FieldModel> {
    Seq::new(fields.len(), |i: int| fields[i]@)
}

impl GenericField {
    /// The children of the view are the views of the children.
    pub proof fn lemma_view(&self)
        ensures
            self@.name == self.name@,
            self@.data_type == self.data_type,
            self@.nullable == self.nullable,
            self@.children == models(self.children@),
    {
        let children = self.view().children;
        assert(children.len() == self.children@.len());
        assert forall|i: int| 0 <= i < children.len() implies children[i] == models(
            self.children@,
        )[i] by {}
        assert(children =~= models(self.children@));
    }

    /// A field without children.
    pub fn new(name: &str, data_type: GenericDataType, nullable: bool) -> (f: GenericField)
        ensures
            f@ == (FieldModel { name: name@, data_type, nullable, children: Seq::empty() }),
    {
        let f = GenericField { name: name.to_owned(), data_type, nullable, children: Vec::new() };
        proof {
            f.lemma_view();
            assert(models(f.children@) =~= Seq::empty());
        }
        f
    }

    /// The field with one more child, added after the others.
    pub fn with_child(self, child: GenericField) -> (f: GenericField)
        ensures
            f@ == (FieldModel { children: self@.children.push(child@), ..self@ }),
    {
        let mut children = self.children;
        let ghost before = children@;
        children.push(child);
        let f = GenericField {
            name: self.name,
            data_type: self.data_type,
            nullable: self.nullable,
            children,
        };
        proof {
            self.lemma_view();
            f.lemma_view();
            assert(models(f.children@) =~= models(before).push(child@));
        }
        f
    }
}

impl GenericField {
    /// A copy of the field and of all its descendants.
    pub fn duplicate(&self) -> (f: GenericField)
        ensures
            f@ == self@,
        decreases self@,
    {
        proof {
            self.lemma_view();
        }
        let mut children: Vec<GenericField> = Vec::new();
        let mut j: usize = 0;
        while j < self.children.len()
            invariant
                j <= self.children@.len(),
                self@.children == models(self.children@),
                children@.len() == j,
                forall|i: int| 0 <= i < j ==> (#[trigger] children@[i])@ == self.children@[i]@,
            decreases self.children@.len() - j,
        {
            assert(self@.children[j as int] == self.children@[j as int]@);
            let child = self.children[j].duplicate();
            children.push(child);
            j = j + 1;
        }
        let f = GenericField {
            name: self.name.clone(),
            data_type: self.data_type,
            nullable: self.nullable,
            children,
        };
        proof {
            f.lemma_view();
            assert(models(f.children@) =~= models(self.children@));
        }
        f
    }
}

impl Clone for GenericField {
    fn clone(&self) -> (f: GenericField)
        ensures
            f@ == self@,
    {
        self.duplicate()
    }
}

} // verus!
