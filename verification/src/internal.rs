//! The entry points of a conversion: tracing the fields of a collection,
//! building buffers record by record, and reading a collection back.
use vstd::prelude::*;
use crate::buffers::Buffers;
use crate::error::{Error, ErrorKind};
use crate::event::{Event, EventView, views};
use crate::field::{models, FieldModel, GenericField};
use crate::interpreter::Interpreter;
use crate::layout::layout;
use crate::program::{compilable, compile_serialization, root_of, CompilationOptions};
use crate::source::{compile_deserialization, compiled, rows_of, shape_fits};
use crate::deserialization::check;
use crate::tracer::{accepted_records, finished, fresh, Tracer, TracingOptions};
use crate::field::GenericDataType;
use crate::layout::names_differ;
use crate::schema::{DataType, Schema};
use crate::value::{unparse, Value};

verus! {

/// The settings of the crate.
#[derive(Debug, Clone, Copy, PartialEq, Eq, Structural)]
pub struct Configuration {
    /// Whether a compiled program is to be shown for debugging.
    pub debug_print_program: bool,
}

impl Default for Configuration {
    fn default() -> (c: Configuration)
        ensures
            !c.debug_print_program,
    {
        Configuration { debug_print_program: false }
    }
}

/// Changes a configuration: the result is what `f` makes of it.
pub fn configure<F: FnOnce(Configuration) -> Configuration>(
    configuration: Configuration,
    f: F,
) -> (r: Configuration)
    requires
        f.requires((configuration,)),
    ensures
        f.ensures((configuration,), r),
{
    f(configuration)
}

/// The name of the root of a traced collection.
pub open spec fn path_root() -> Seq<char> {
    "$"@
}

/// The field tree that the records of a collection imply, under the given
/// name, or why there is none.
pub open spec fn traced_field(ev: Seq<EventView>, name: Seq<char>, options: TracingOptions) -> Result<
    FieldModel,
    ErrorKind,
> {
    match accepted_records(fresh(path_root(), false), ev, options) {
        Ok(root) => finished(root, name, options),
        Err(e) => Err(e),
    }
}

/// Traces the records of a collection and returns their fields: the
/// children of the struct that the records are.
///
/// The events must be exactly one sequence, whose items are the records.
pub fn serialize_into_fields(items: &Vec<Event>, options: TracingOptions) -> (r: Result<
    Vec<GenericField>,
    Error,
>)
    ensures
        match traced_field(views(items@), "root"@, options) {
            Ok(root) => r matches Ok(fields) && models(fields@) == root.children,
            Err(k) => r matches Err(e) && e.kind == k,
        },
{
    match serialize_into_field(items, "root", options) {
        Ok(root) => {
            proof {
                root.lemma_view();
            }
            Ok(root.children)
        },
        Err(e) => Err(e),
    }
}

/// What tracing the field of a collection returns.
pub open spec fn field_traced(
    ev: Seq<EventView>,
    name: Seq<char>,
    options: TracingOptions,
    r: Result<GenericField, Error>,
) -> bool {
    match traced_field(ev, name, options) {
        Ok(root) => r matches Ok(field) && field@ == root,
        Err(k) => r matches Err(e) && e.kind == k,
    }
}

/// Traces the records of a collection and returns the field that
/// describes one record, under the given name.
pub fn serialize_into_field(items: &Vec<Event>, name: &str, options: TracingOptions) -> (r: Result<
    GenericField,
    Error,
>)
    ensures
        field_traced(views(items@), name@, options, r),
{
    let mut tracer = Tracer::new("$".to_owned(), options);
    match tracer.accept_records(items) {
        Ok(()) => {},
        Err(e) => {
            return Err(e);
        },
    }
    tracer.to_field(name)
}

/// Builds buffers from records.
#[derive(Debug)]
pub struct GenericBuilder(pub Interpreter);

impl GenericBuilder {
    /// A builder for the items of one field: each item is a value of it.
    pub fn new_for_array(field: GenericField) -> (r: Result<GenericBuilder, Error>)
        ensures
            match r {
                Ok(builder) => {
                    &&& compilable(seq![field@], CompilationOptions { wrap_with_struct: false })
                    &&& builder.0.well_formed()
                    &&& builder.0.program.root@ == field@
                    &&& builder.0.buffers@ == crate::interpreter::allocated(layout(field@))
                    &&& builder.0.rows == 0
                    &&& !builder.0.open
                    &&& !builder.0.failed
                },
                Err(e) => !compilable(seq![field@], CompilationOptions { wrap_with_struct: false })
                    && e.kind == ErrorKind::UnsupportedField,
            },
    {
        let ghost model = field@;
        let mut fields: Vec<GenericField> = Vec::new();
        fields.push(field);
        proof {
            assert(models(fields@) =~= seq![model]);
        }
        let options = CompilationOptions::default().wrap_with_struct(false);
        match compile_serialization(fields.as_slice(), options) {
            Ok(program) => Ok(GenericBuilder(Interpreter::new(program))),
            Err(e) => Err(e),
        }
    }

    /// A builder for records with the given fields: each item is a struct
    /// of them.
    pub fn new_for_arrays(fields: &[GenericField]) -> (r: Result<GenericBuilder, Error>)
        ensures
            match r {
                Ok(builder) => {
                    &&& compilable(models(fields@), CompilationOptions { wrap_with_struct: true })
                    &&& builder.0.well_formed()
                    &&& builder.0.program.root@ == root_of(
                        models(fields@),
                        CompilationOptions { wrap_with_struct: true },
                    )
                    &&& builder.0.buffers@ == crate::interpreter::allocated(
                        layout(builder.0.program.root@),
                    )
                    &&& builder.0.rows == 0
                    &&& !builder.0.open
                    &&& !builder.0.failed
                },
                Err(e) => !compilable(
                    models(fields@),
                    CompilationOptions { wrap_with_struct: true },
                ) && e.kind == ErrorKind::UnsupportedField,
            },
    {
        match compile_serialization(fields, CompilationOptions::default()) {
            Ok(program) => Ok(GenericBuilder(Interpreter::new(program))),
            Err(e) => Err(e),
        }
    }

    /// Adds one record: the value that the events describe.
    pub fn push(&mut self, item: &Vec<Event>) -> (r: Result<(), Error>)
        requires
            old(self).0.well_formed(),
        ensures
            final(self).0.well_formed(),
            final(self).0.program == old(self).0.program,
            if old(self).0.failed {
                r matches Err(e) && e.kind == ErrorKind::Failed && final(self).0.failed
            } else if old(self).0.open {
                r matches Err(e) && e.kind == ErrorKind::UnbalancedNesting && final(self).0.failed
            } else if old(self).0.rows == usize::MAX {
                r matches Err(e) && e.kind == ErrorKind::OffsetOutOfRange && final(self).0.failed
            } else {
                match crate::interpreter::item_added(
                    old(self).0.program.root@,
                    views(item@),
                    old(self).0.buffers@,
                ) {
                    Ok(c) => {
                        &&& r is Ok
                        &&& final(self).0.buffers@ == c
                        &&& final(self).0.rows == old(self).0.rows + 1
                        &&& !final(self).0.open
                        &&& !final(self).0.failed
                    },
                    Err(k) => r matches Err(e) && e.kind == k && final(self).0.failed,
                }
            },
    {
        self.0.push(item)
    }

    /// Adds every record of a collection: the events must be exactly one
    /// sequence, whose items are the records.
    pub fn extend(&mut self, items: &Vec<Event>) -> (r: Result<(), Error>)
        requires
            old(self).0.well_formed(),
        ensures
            final(self).0.well_formed(),
            final(self).0.program == old(self).0.program,
            Interpreter::extended(&old(self).0, &final(self).0, views(items@), r),
    {
        self.0.extend(items)
    }

    /// Hands over the buffers and the number of rows in them, and starts
    /// again with empty buffers.
    pub fn finish(&mut self) -> (r: Result<(Buffers, usize), Error>)
        requires
            old(self).0.well_formed(),
        ensures
            final(self).0.well_formed(),
            final(self).0.program == old(self).0.program,
            if old(self).0.failed {
                r matches Err(e) && e.kind == ErrorKind::Failed && final(self).0.failed
            } else if old(self).0.open {
                r matches Err(e) && e.kind == ErrorKind::UnbalancedNesting && final(self).0.failed
            } else {
                &&& r matches Ok(done)
                &&& done.0 == old(self).0.buffers
                &&& done.1 == old(self).0.rows
                &&& final(self).0.buffers@ == crate::interpreter::allocated(
                    layout(old(self).0.program.root@),
                )
                &&& final(self).0.rows == 0
                &&& !final(self).0.open
                &&& !final(self).0.failed
            },
    {
        self.0.finish()
    }
}

/// The events of the collection that the buffers of a field hold: the
/// start of a sequence, the events of each of the `num_items` items in
/// order, and the end of the sequence.
///
/// Fails on a field without a layout and on buffers that are not
/// consistent with the field and the number of items.
pub fn deserialize_from_array(field: &GenericField, buffers: Buffers, num_items: usize) -> (r:
    Result<Vec<Event>, Error>)
    ensures
        if !compilable(seq![field@], CompilationOptions { wrap_with_struct: false }) {
            r matches Err(e) && e.kind == ErrorKind::UnsupportedField
        } else if !shape_fits(field@, buffers@) {
            r matches Err(e) && e.kind == ErrorKind::LengthMismatch
        } else {
            match check(field@, 0, buffers@, num_items as int, ErrorKind::LengthMismatch) {
                Ok(()) => r matches Ok(events) && views(events@) == unparse(
                    Value::Sequence(rows_of(field@, buffers@, num_items as int)),
                ),
                Err(k) => r matches Err(e) && e.kind == k,
            }
        },
{
    let mut fields: Vec<GenericField> = Vec::new();
    fields.push(field.duplicate());
    proof {
        assert(models(fields@) =~= seq![field@]);
    }
    let options = CompilationOptions::default().wrap_with_struct(false);
    match compile_deserialization(num_items, fields.as_slice(), buffers, options) {
        Ok(source) => Ok(source.events()),
        Err(e) => Err(e),
    }
}

/// The data type of a column of a flat schema for the type of a field;
/// none for nested fields and for fields without a resolved type.
pub open spec fn flat_type(data_type: GenericDataType) -> Option<DataType> {
    match data_type {
        GenericDataType::Bool => Some(DataType::Bool),
        GenericDataType::I8 => Some(DataType::I8),
        GenericDataType::I16 => Some(DataType::I16),
        GenericDataType::I32 => Some(DataType::I32),
        GenericDataType::I64 => Some(DataType::I64),
        GenericDataType::U8 => Some(DataType::U8),
        GenericDataType::U16 => Some(DataType::U16),
        GenericDataType::U32 => Some(DataType::U32),
        GenericDataType::U64 => Some(DataType::U64),
        GenericDataType::F32 => Some(DataType::F32),
        GenericDataType::F64 => Some(DataType::F64),
        GenericDataType::Utf8 => Some(DataType::Str),
        GenericDataType::Date64 => Some(DataType::DateTimeMilliseconds),
        GenericDataType::Date64NaiveStr => Some(DataType::NaiveDateTimeStr),
        GenericDataType::Date64UtcStr => Some(DataType::DateTimeStr),
        _ => None,
    }
}

/// The data type of a column of a flat schema for the type of a field.
pub fn flat_type_of(data_type: GenericDataType) -> (r: Option<DataType>)
    ensures
        r == flat_type(data_type),
{
    match data_type {
        GenericDataType::Bool => Some(DataType::Bool),
        GenericDataType::I8 => Some(DataType::I8),
        GenericDataType::I16 => Some(DataType::I16),
        GenericDataType::I32 => Some(DataType::I32),
        GenericDataType::I64 => Some(DataType::I64),
        GenericDataType::U8 => Some(DataType::U8),
        GenericDataType::U16 => Some(DataType::U16),
        GenericDataType::U32 => Some(DataType::U32),
        GenericDataType::U64 => Some(DataType::U64),
        GenericDataType::F32 => Some(DataType::F32),
        GenericDataType::F64 => Some(DataType::F64),
        GenericDataType::Utf8 => Some(DataType::Str),
        GenericDataType::Date64 => Some(DataType::DateTimeMilliseconds),
        GenericDataType::Date64NaiveStr => Some(DataType::NaiveDateTimeStr),
        GenericDataType::Date64UtcStr => Some(DataType::DateTimeStr),
        _ => None,
    }
}

/// Whether the schema lists the first `k` of the fields: a field of the
/// schema for each name, with the type and the nullability of the last
/// field of that name; and, where no two of the fields share a name, the
/// names in the order of the fields.
#[verifier::opaque]
pub open spec fn lists(schema: &Schema, fields: Seq<FieldModel>, k: int) -> bool {
    &&& forall|name: Seq<char>|
        schema.spec_exists(name) <==> exists|i: int|
            0 <= i < k && (#[trigger] fields[i]).name == name
    &&& forall|i: int|
        0 <= i < k && (forall|j: int| i < j < k ==> (#[trigger] fields[j]).name != fields[i].name)
            ==> schema.spec_data_type((#[trigger] fields[i]).name) == flat_type(
            fields[i].data_type,
        ) && schema.spec_is_nullable(fields[i].name) == fields[i].nullable
    &&& names_differ(fields) ==> schema.spec_fields().len() == k && forall|i: int|
        0 <= i < k ==> (#[trigger] schema.spec_fields()[i])@ == fields[i].name
}

/// Whether `after` is `before` with field `k` added.
pub open spec fn listed(
    before: &Schema,
    after: &Schema,
    fields: Seq<FieldModel>,
    k: int,
    data_type: DataType,
    nullable: bool,
) -> bool {
    &&& 0 <= k < fields.len()
    &&& lists(before, fields, k)
    &&& flat_type(fields[k].data_type) == Some(data_type)
    &&& fields[k].nullable == nullable
    &&& Schema::added(before, after, fields[k].name, Some(data_type), Some(nullable))
}

proof fn lemma_lists_exists(
    before: &Schema,
    after: &Schema,
    all: Seq<FieldModel>,
    k: int,
    data_type: DataType,
    nullable: bool,
)
    requires
        listed(before, after, all, k, data_type, nullable),
    ensures
        forall|name: Seq<char>|
            after.spec_exists(name) <==> exists|i: int|
                0 <= i < k + 1 && (#[trigger] all[i]).name == name,
{
    reveal(lists);
    let name = all[k].name;
    assert forall|other: Seq<char>| after.spec_exists(other) <==> exists|i: int|
        0 <= i < k + 1 && (#[trigger] all[i]).name == other by {
        if other == name {
            assert(all[k].name == other);
        } else {
            if before.spec_exists(other) {
                let i = choose|i: int| 0 <= i < k && (#[trigger] all[i]).name == other;
                assert(all[i].name == other);
            }
            if exists|i: int| 0 <= i < k + 1 && (#[trigger] all[i]).name == other {
                let i = choose|i: int| 0 <= i < k + 1 && (#[trigger] all[i]).name == other;
                assert(i < k);
                assert(all[i].name == other);
            }
        }
    }
}

proof fn lemma_lists_types(
    before: &Schema,
    after: &Schema,
    all: Seq<FieldModel>,
    k: int,
    data_type: DataType,
    nullable: bool,
)
    requires
        listed(before, after, all, k, data_type, nullable),
    ensures
        forall|i: int|
            0 <= i < k + 1 && (forall|j: int|
                i < j < k + 1 ==> (#[trigger] all[j]).name != all[i].name)
                ==> after.spec_data_type((#[trigger] all[i]).name) == flat_type(
                all[i].data_type,
            ) && after.spec_is_nullable(all[i].name) == all[i].nullable,
{
    reveal(lists);
    assert forall|i: int|
        0 <= i < k + 1 && (forall|j: int|
            i < j < k + 1 ==> (#[trigger] all[j]).name != all[i].name) implies after.spec_data_type(
        (#[trigger] all[i]).name,
    ) == flat_type(all[i].data_type) && after.spec_is_nullable(all[i].name)
        == all[i].nullable by {
        if i < k {
            assert(all[k].name != all[i].name);
            assert forall|j: int| i < j < k implies (#[trigger] all[j]).name != all[i].name by {}
        }
    }
}

proof fn lemma_lists_order(
    before: &Schema,
    after: &Schema,
    all: Seq<FieldModel>,
    k: int,
    data_type: DataType,
    nullable: bool,
)
    requires
        listed(before, after, all, k, data_type, nullable),
    ensures
        names_differ(all) ==> after.spec_fields().len() == k + 1 && forall|i: int|
            0 <= i < k + 1 ==> (#[trigger] after.spec_fields()[i])@ == all[i].name,
{
    reveal(lists);
    let name = all[k].name;
    if names_differ(all) {
        assert(!before.spec_exists(name)) by {
            if before.spec_exists(name) {
                let i = choose|i: int| 0 <= i < k && (#[trigger] all[i]).name == name;
                assert(all[i].name != all[k].name);
            }
        }
        assert forall|i: int| 0 <= i < k + 1 implies (#[trigger] after.spec_fields()[i])@
            == all[i].name by {
            if i < k {
                assert(after.spec_fields().drop_last()[i] == before.spec_fields()[i]);
            }
        }
    }
}

/// A schema that lists the first `k` fields lists one more after that
/// field was added.
proof fn lemma_lists_step(
    before: &Schema,
    after: &Schema,
    all: Seq<FieldModel>,
    k: int,
    data_type: DataType,
    nullable: bool,
)
    requires
        listed(before, after, all, k, data_type, nullable),
    ensures
        lists(after, all, k + 1),
{
    lemma_lists_exists(before, after, all, k, data_type, nullable);
    lemma_lists_types(before, after, all, k, data_type, nullable);
    lemma_lists_order(before, after, all, k, data_type, nullable);
    reveal(lists);
}

/// A schema without fields lists none.
proof fn lemma_lists_none(schema: &Schema, all: Seq<FieldModel>)
    requires
        schema.spec_fields().len() == 0,
        forall|f: Seq<char>| !schema.spec_exists(f),
    ensures
        lists(schema, all, 0),
{
    reveal(lists);
}

/// What tracing a flat schema returns.
pub open spec fn schema_traced(ev: Seq<EventView>, r: Result<Schema, Error>) -> bool {
    match traced_field(ev, "root"@, TracingOptions { allow_null_fields: false, map_as_struct: true }) {
        Ok(root) => if forall|i: int|
            0 <= i < root.children.len() ==> flat_type((#[trigger] root.children[i]).data_type)
                is Some {
            r matches Ok(schema) && lists(&schema, root.children, root.children.len() as int)
        } else {
            r matches Err(e) && e.kind == ErrorKind::UnsupportedValue
        },
        Err(k) => r matches Err(e) && e.kind == k,
    }
}

/// Traces the flat schema of the records of a collection: one column for
/// each field of the records. Fails where a field is nested.
pub fn trace_schema(records: &Vec<Event>) -> (r: Result<Schema, Error>)
    ensures
        schema_traced(views(records@), r),
{
    let fields = match serialize_into_fields(records, TracingOptions::default()) {
        Ok(fields) => fields,
        Err(e) => {
            return Err(e);
        },
    };
    let ghost all = models(fields@);
    let mut schema = Schema::new();
    proof {
        lemma_lists_none(&schema, all);
    }
    let mut k: usize = 0;
    while k < fields.len()
        invariant
            k <= fields@.len(),
            all == models(fields@),
            traced_field(
                views(records@),
                "root"@,
                TracingOptions { allow_null_fields: false, map_as_struct: true },
            ) matches Ok(root) && root.children == all,
            forall|i: int| 0 <= i < k ==> flat_type((#[trigger] all[i]).data_type) is Some,
            lists(&schema, all, k as int),
        decreases fields@.len() - k,
    {
        let field = &fields[k];
        let ghost before = schema;
        proof {
            field.lemma_view();
            assert(all[k as int] == field@);
        }
        let data_type = match flat_type_of(field.data_type) {
            Some(t) => t,
            None => {
                assert(flat_type(all[k as int].data_type) is None);
                return Err(Error::new(ErrorKind::UnsupportedValue));
            },
        };
        schema.add_field(field.name.as_str(), Some(data_type), Some(field.nullable));
        proof {
            lemma_lists_step(&before, &schema, all, k as int, data_type, field@.nullable);
        }
        k = k + 1;
    }
    Ok(schema)
}

impl Schema {
    /// Traces the flat schema of the records of a collection.
    pub fn from_records(records: &Vec<Event>) -> (r: Result<Schema, Error>)
        ensures
            schema_traced(views(records@), r),
    {
        trace_schema(records)
    }
}

/// The type of the field that stands for a column of a flat schema.
pub open spec fn generic_type(data_type: DataType) -> GenericDataType {
    match data_type {
        DataType::Bool => GenericDataType::Bool,
        DataType::I8 => GenericDataType::I8,
        DataType::I16 => GenericDataType::I16,
        DataType::I32 => GenericDataType::I32,
        DataType::I64 => GenericDataType::I64,
        DataType::U8 => GenericDataType::U8,
        DataType::U16 => GenericDataType::U16,
        DataType::U32 => GenericDataType::U32,
        DataType::U64 => GenericDataType::U64,
        DataType::F32 => GenericDataType::F32,
        DataType::F64 => GenericDataType::F64,
        DataType::Str => GenericDataType::Utf8,
        DataType::DateTimeMilliseconds => GenericDataType::Date64,
        DataType::NaiveDateTimeStr => GenericDataType::Date64NaiveStr,
        DataType::DateTimeStr => GenericDataType::Date64UtcStr,
    }
}

/// The type of the field that stands for a column of a flat schema.
pub fn generic_type_of(data_type: DataType) -> (r: GenericDataType)
    ensures
        r == generic_type(data_type),
        flat_type(r) == Some(data_type),
{
    match data_type {
        DataType::Bool => GenericDataType::Bool,
        DataType::I8 => GenericDataType::I8,
        DataType::I16 => GenericDataType::I16,
        DataType::I32 => GenericDataType::I32,
        DataType::I64 => GenericDataType::I64,
        DataType::U8 => GenericDataType::U8,
        DataType::U16 => GenericDataType::U16,
        DataType::U32 => GenericDataType::U32,
        DataType::U64 => GenericDataType::U64,
        DataType::F32 => GenericDataType::F32,
        DataType::F64 => GenericDataType::F64,
        DataType::Str => GenericDataType::Utf8,
        DataType::DateTimeMilliseconds => GenericDataType::Date64,
        DataType::NaiveDateTimeStr => GenericDataType::Date64NaiveStr,
        DataType::DateTimeStr => GenericDataType::Date64UtcStr,
    }
}

/// The fields that stand for the columns of a flat schema, in the order of
/// the schema. Fails where a column has no data type.
pub fn schema_fields(schema: &Schema) -> (r: Result<Vec<GenericField>, Error>)
    ensures
        match r {
            Ok(fields) => {
                &&& fields@.len() == schema.spec_fields().len()
                &&& forall|i: int|
                    0 <= i < fields@.len() ==> {
                        let name = schema.spec_fields()[i]@;
                        &&& schema.spec_data_type(name) is Some
                        &&& (#[trigger] fields@[i])@ == (FieldModel {
                            name,
                            data_type: generic_type(schema.spec_data_type(name)->Some_0),
                            nullable: schema.spec_is_nullable(name),
                            children: Seq::empty(),
                        })
                    }
            },
            Err(e) => e.kind == ErrorKind::NullOnlyField && exists|i: int|
                0 <= i < schema.spec_fields().len() && schema.spec_data_type(
                    (#[trigger] schema.spec_fields()[i])@,
                ) is None,
        },
{
    let names = schema.fields();
    let mut fields: Vec<GenericField> = Vec::new();
    let mut k: usize = 0;
    while k < names.len()
        invariant
            k <= names@.len(),
            names@ == schema.spec_fields(),
            fields@.len() == k,
            forall|i: int|
                0 <= i < k ==> {
                    let name = schema.spec_fields()[i]@;
                    &&& schema.spec_data_type(name) is Some
                    &&& (#[trigger] fields@[i])@ == (FieldModel {
                        name,
                        data_type: generic_type(schema.spec_data_type(name)->Some_0),
                        nullable: schema.spec_is_nullable(name),
                        children: Seq::empty(),
                    })
                },
        decreases names@.len() - k,
    {
        let name = names[k].as_str();
        let data_type = match schema.data_type(name) {
            Some(t) => *t,
            None => {
                assert(schema.spec_data_type(schema.spec_fields()[k as int]@) is None);
                return Err(Error::new(ErrorKind::NullOnlyField));
            },
        };
        let field = GenericField::new(name, generic_type_of(data_type), schema.is_nullable(name));
        fields.push(field);
        k = k + 1;
    }
    Ok(fields)
}

} // verus!
