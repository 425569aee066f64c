use serde_arrow::buffers::{Buffer, Buffers, ColumnKind, Scalar};
use serde_arrow::deserialization::check_columns;
use serde_arrow::error::{Error, ErrorCategory, ErrorKind};
use serde_arrow::event::Event;
use serde_arrow::field::{GenericDataType, GenericField};
use serde_arrow::internal::{
    configure, deserialize_from_array, schema_fields, serialize_into_field,
    serialize_into_fields, Configuration, GenericBuilder,
};
use serde_arrow::interpreter::Interpreter;
use serde_arrow::layout::Operation;
use serde_arrow::program::{compile_serialization, CompilationOptions, Instruction};
use serde_arrow::source::compile_deserialization;
use serde_arrow::tracer::{widen_types, Tracer, TracingOptions};
use serde_arrow::value::value_end;
use serde_arrow::{trace_schema, DataType, Schema};

fn key(text: &str) -> Event {
    Event::FieldName(text.to_owned())
}

fn string(text: &str) -> Event {
    Event::Str(text.to_owned())
}

fn record(fields: Vec<(&str, Vec<Event>)>) -> Vec<Event> {
    let mut events = vec![Event::StartStruct];
    for (name, value) in fields {
        events.push(key(name));
        events.extend(value);
    }
    events.push(Event::EndStruct);
    events
}

fn sequence(items: Vec<Vec<Event>>) -> Vec<Event> {
    let mut events = vec![Event::StartSequence];
    for item in items {
        events.extend(item);
    }
    events.push(Event::EndSequence);
    events
}

fn leaf(name: &str, data_type: GenericDataType, nullable: bool) -> GenericField {
    GenericField::new(name, data_type, nullable)
}

fn kind_of(result: Result<(), Error>) -> ErrorKind {
    result.unwrap_err().kind
}

fn round_trip(fields: &Vec<GenericField>, records: &Vec<Event>) -> Vec<Event> {
    let mut builder = GenericBuilder::new_for_arrays(fields).unwrap();
    builder.extend(records).unwrap();
    let (buffers, rows) = builder.finish().unwrap();
    let source =
        compile_deserialization(rows, fields, buffers, CompilationOptions::default()).unwrap();
    source.events()
}

#[test]
fn schema_keeps_fields_in_order() {
    let mut schema = Schema::new();
    assert_eq!(schema.fields().len(), 0);
    assert!(!schema.has_field("a"));
    schema.add_field("a", Some(DataType::I64), Some(false));
    schema.add_field("b", None, Some(true));
    schema.add_field("a", None, None);
    assert_eq!(schema.fields(), &["a".to_owned(), "b".to_owned()]);
    assert!(schema.has_field("a"));
    assert!(schema.has_field("b"));
    assert!(!schema.has_field("c"));
    assert_eq!(schema.data_type("a"), Some(&DataType::I64));
    assert_eq!(schema.data_type("b"), None);
    assert_eq!(schema.data_type("c"), None);
    assert!(!schema.is_nullable("a"));
    assert!(schema.is_nullable("b"));
    assert!(!schema.is_nullable("c"));
}

#[test]
fn schema_overwrites_type_and_nullability() {
    let schema = Schema::new()
        .with_field("a", Some(DataType::I8), Some(true))
        .with_field("a", Some(DataType::F32), Some(false));
    assert_eq!(schema.fields().len(), 1);
    assert_eq!(schema.data_type("a"), Some(&DataType::F32));
    assert!(!schema.is_nullable("a"));

    let mut schema = schema.clone();
    schema.set_data_type("a", DataType::Str).unwrap();
    schema.set_nullable("a", true).unwrap();
    assert_eq!(schema.data_type("a"), Some(&DataType::Str));
    assert!(schema.is_nullable("a"));
    schema.set_nullable("a", false).unwrap();
    assert!(!schema.is_nullable("a"));
}

#[test]
fn schema_rejects_unknown_fields() {
    let mut schema = Schema::new();
    let error = schema.set_data_type("missing", DataType::Bool).unwrap_err();
    assert_eq!(error.kind, ErrorKind::UnknownSchemaField);
    assert_eq!(error.category(), ErrorCategory::SchemaInference);
    let error = schema.set_nullable("missing", true).unwrap_err();
    assert_eq!(error.kind, ErrorKind::UnknownSchemaField);
    assert_eq!(schema.fields().len(), 0);
}

#[test]
fn data_type_names() {
    assert_eq!(DataType::Bool.to_string(), "Bool");
    assert_eq!(DataType::U64.to_string(), "U64");
    assert_eq!(DataType::DateTimeStr.to_string(), "DateTimeStr");
    assert_eq!(DataType::NaiveDateTimeStr.to_string(), "NaiveDateTimeStr");
    assert_eq!(DataType::DateTimeMilliseconds.to_string(), "DateTimeMilliseconds");
    assert_eq!(DataType::Str.to_string(), "Str");
}

#[test]
fn error_categories() {
    assert_eq!(ErrorKind::IncompatibleTypes.category(), ErrorCategory::SchemaInference);
    assert_eq!(ErrorKind::NoRecords.category(), ErrorCategory::SchemaInference);
    assert_eq!(ErrorKind::UnsupportedField.category(), ErrorCategory::Compilation);
    assert_eq!(ErrorKind::TypeMismatch.category(), ErrorCategory::Interpreter);
    assert_eq!(ErrorKind::Failed.category(), ErrorCategory::Interpreter);
    assert_eq!(ErrorKind::NonMonotonicOffsets.category(), ErrorCategory::DataIntegrity);
    assert_eq!(ErrorKind::LengthMismatch.category(), ErrorCategory::DataIntegrity);
    assert_eq!(
        Error::new(ErrorKind::NoRecords).message(),
        "no records found to determine schema"
    );
}

#[test]
fn configure_applies_the_change() {
    let configuration = Configuration::default();
    assert!(!configuration.debug_print_program);
    let changed = configure(configuration, |mut c| {
        c.debug_print_program = true;
        c
    });
    assert!(changed.debug_print_program);
}

#[test]
fn value_end_finds_the_end_of_nested_values() {
    let events = vec![
        Event::StartStruct,
        key("a"),
        Event::StartSequence,
        Event::I8(1),
        Event::Present,
        Event::I8(2),
        Event::EndSequence,
        key("b"),
        Event::StartMap,
        string("k"),
        Event::Null,
        Event::EndMap,
        Event::EndStruct,
        Event::Bool(true),
    ];
    assert_eq!(value_end(&events, 0), Some(13));
    assert_eq!(value_end(&events, 2), Some(7));
    assert_eq!(value_end(&events, 4), Some(6));
    assert_eq!(value_end(&events, 8), Some(12));
    assert_eq!(value_end(&events, 13), Some(14));
    assert_eq!(value_end(&events, 14), None);
    assert_eq!(value_end(&events, 1), None);
    assert_eq!(value_end(&vec![Event::StartSequence, Event::I8(1)], 0), None);
    assert_eq!(value_end(&vec![Event::StartStruct, Event::I8(1), Event::EndStruct], 0), None);
    assert_eq!(value_end(&vec![Event::Present], 0), None);
}

#[test]
fn tracing_widens_signed_integers_to_the_smallest_covering_kind() {
    assert_eq!(widen_types(GenericDataType::I8, GenericDataType::I32), Ok(GenericDataType::I32));
    assert_eq!(widen_types(GenericDataType::I64, GenericDataType::I16), Ok(GenericDataType::I64));
    assert_eq!(widen_types(GenericDataType::I16, GenericDataType::I16), Ok(GenericDataType::I16));
    assert_eq!(widen_types(GenericDataType::U8, GenericDataType::I8), Ok(GenericDataType::I16));
    assert_eq!(widen_types(GenericDataType::U8, GenericDataType::U16), Ok(GenericDataType::I32));
    assert_eq!(widen_types(GenericDataType::U32, GenericDataType::I8), Ok(GenericDataType::I64));
    assert_eq!(widen_types(GenericDataType::U64, GenericDataType::U64), Ok(GenericDataType::U64));
    assert_eq!(
        widen_types(GenericDataType::U64, GenericDataType::I8),
        Err(ErrorKind::IncompatibleTypes)
    );
}

#[test]
fn tracing_widens_integers_and_floats_to_the_wider_float() {
    assert_eq!(widen_types(GenericDataType::I8, GenericDataType::F32), Ok(GenericDataType::F32));
    assert_eq!(widen_types(GenericDataType::F32, GenericDataType::I32), Ok(GenericDataType::F32));
    assert_eq!(widen_types(GenericDataType::I64, GenericDataType::F32), Ok(GenericDataType::F64));
    assert_eq!(widen_types(GenericDataType::U16, GenericDataType::F64), Ok(GenericDataType::F64));
    assert_eq!(widen_types(GenericDataType::F32, GenericDataType::F64), Ok(GenericDataType::F64));
    assert_eq!(widen_types(GenericDataType::Null, GenericDataType::Utf8), Ok(GenericDataType::Utf8));
    assert_eq!(widen_types(GenericDataType::Bool, GenericDataType::Null), Ok(GenericDataType::Bool));
    assert_eq!(
        widen_types(GenericDataType::Utf8, GenericDataType::Bool),
        Err(ErrorKind::IncompatibleTypes)
    );
    assert_eq!(
        widen_types(GenericDataType::Bool, GenericDataType::I8),
        Err(ErrorKind::IncompatibleTypes)
    );
}

#[test]
fn tracing_infers_types_and_nullability() {
    let records = sequence(vec![
        record(vec![
            ("a", vec![Event::I8(1)]),
            ("b", vec![Event::Present, string("x")]),
            ("c", vec![Event::Null]),
        ]),
        record(vec![
            ("a", vec![Event::I32(2)]),
            ("b", vec![Event::Present, string("y")]),
            ("c", vec![Event::Present, Event::F32(1.5f32.to_bits())]),
            ("d", vec![Event::Bool(true)]),
        ]),
        record(vec![("b", vec![string("z")]), ("c", vec![Event::I64(7)]), ("d", vec![Event::Bool(false)])]),
    ]);
    let fields = serialize_into_fields(&records, TracingOptions::default()).unwrap();
    assert_eq!(
        fields,
        vec![
            leaf("a", GenericDataType::I32, true),
            leaf("b", GenericDataType::Utf8, false),
            leaf("c", GenericDataType::F64, true),
            leaf("d", GenericDataType::Bool, true),
        ]
    );
}

#[test]
fn tracing_twice_gives_the_same_fields() {
    let records = sequence(vec![
        record(vec![("x", vec![Event::U8(1)]), ("y", vec![Event::Null])]),
        record(vec![("y", vec![Event::I16(-1)]), ("x", vec![Event::U8(2)])]),
    ]);
    let first = serialize_into_field(&records, "root", TracingOptions::default()).unwrap();
    let second = serialize_into_field(&records, "root", TracingOptions::default()).unwrap();
    assert_eq!(first, second);
    assert_eq!(first.name, "root");
    assert_eq!(first.data_type, GenericDataType::Struct);
    assert_eq!(
        first.children,
        vec![leaf("x", GenericDataType::U8, false), leaf("y", GenericDataType::I16, true)]
    );
}

#[test]
fn tracing_nested_values() {
    let records = sequence(vec![
        record(vec![
            ("items", vec![Event::StartSequence, Event::I8(1), Event::Null, Event::EndSequence]),
            ("inner", record(vec![("flag", vec![Event::Bool(true)])])),
        ]),
        record(vec![
            ("items", vec![Event::StartSequence, Event::EndSequence]),
            ("inner", record(vec![("flag", vec![Event::Bool(false)]), ("n", vec![Event::U16(3)])])),
        ]),
    ]);
    let fields = serialize_into_fields(&records, TracingOptions::default()).unwrap();
    let items = GenericField::new("items", GenericDataType::List, false)
        .with_child(leaf("element", GenericDataType::I8, true));
    let inner = GenericField::new("inner", GenericDataType::Struct, false)
        .with_child(leaf("flag", GenericDataType::Bool, false))
        .with_child(leaf("n", GenericDataType::U16, true));
    assert_eq!(fields, vec![items, inner]);
}

#[test]
fn tracing_maps_as_maps_when_asked() {
    let records = sequence(vec![record(vec![(
        "m",
        vec![Event::StartMap, Event::I8(1), string("one"), Event::I8(2), Event::Null, Event::EndMap],
    )])]);
    let options = TracingOptions::default().map_as_struct(false);
    let fields = serialize_into_fields(&records, options).unwrap();
    let map = GenericField::new("m", GenericDataType::Mapping, false)
        .with_child(leaf("key", GenericDataType::I8, false))
        .with_child(leaf("value", GenericDataType::Utf8, true));
    assert_eq!(fields, vec![map]);

    let error = serialize_into_fields(&records, TracingOptions::default()).unwrap_err();
    assert_eq!(error.kind, ErrorKind::UnsupportedValue);
}

#[test]
fn tracing_an_empty_collection_is_an_error() {
    let error = serialize_into_fields(&sequence(vec![]), TracingOptions::default()).unwrap_err();
    assert_eq!(error.kind, ErrorKind::NoRecords);
    assert_eq!(error.category(), ErrorCategory::SchemaInference);
    assert_eq!(trace_schema(&sequence(vec![])).unwrap_err().kind, ErrorKind::NoRecords);
    assert_eq!(Schema::from_records(&sequence(vec![])).unwrap_err().kind, ErrorKind::NoRecords);
}

#[test]
fn tracing_a_field_that_is_always_null_is_an_error() {
    let records = sequence(vec![
        record(vec![("only", vec![Event::Null])]),
        record(vec![("only", vec![Event::Null])]),
    ]);
    let error = serialize_into_fields(&records, TracingOptions::default()).unwrap_err();
    assert_eq!(error.kind, ErrorKind::NullOnlyField);

    let allowed = TracingOptions::default().allow_null_fields(true);
    let fields = serialize_into_fields(&records, allowed).unwrap();
    assert_eq!(fields, vec![leaf("only", GenericDataType::Null, true)]);
}

#[test]
fn tracing_rejects_what_is_no_collection_of_records() {
    let scalars = sequence(vec![vec![Event::I8(1)], vec![Event::I8(2)]]);
    let error = serialize_into_fields(&scalars, TracingOptions::default()).unwrap_err();
    assert_eq!(error.kind, ErrorKind::RootNotRecords);

    let single = record(vec![("a", vec![Event::I8(1)])]);
    let error = serialize_into_fields(&single, TracingOptions::default()).unwrap_err();
    assert_eq!(error.kind, ErrorKind::RootNotRecords);

    let unbalanced = vec![Event::StartSequence, Event::StartStruct, Event::EndSequence];
    let error = serialize_into_fields(&unbalanced, TracingOptions::default()).unwrap_err();
    assert_eq!(error.kind, ErrorKind::UnbalancedNesting);

    let nulls = sequence(vec![vec![Event::Null]]);
    let error = serialize_into_fields(&nulls, TracingOptions::default()).unwrap_err();
    assert_eq!(error.kind, ErrorKind::NoRecords);
}

#[test]
fn tracing_rejects_incompatible_observations() {
    let records = sequence(vec![
        record(vec![("a", vec![string("text")])]),
        record(vec![("a", vec![Event::Bool(true)])]),
    ]);
    let error = serialize_into_fields(&records, TracingOptions::default()).unwrap_err();
    assert_eq!(error.kind, ErrorKind::IncompatibleTypes);

    let records = sequence(vec![
        record(vec![("a", vec![Event::I8(1)])]),
        record(vec![("a", vec![Event::StartSequence, Event::EndSequence])]),
    ]);
    let error = serialize_into_fields(&records, TracingOptions::default()).unwrap_err();
    assert_eq!(error.kind, ErrorKind::IncompatibleTypes);

    let records = sequence(vec![record(vec![("a", vec![Event::Bytes(vec![1, 2])])])]);
    let error = serialize_into_fields(&records, TracingOptions::default()).unwrap_err();
    assert_eq!(error.kind, ErrorKind::UnsupportedValue);
}

#[test]
fn tracer_accepts_values_one_by_one() {
    let mut tracer = Tracer::new("$".to_owned(), TracingOptions::default());
    assert_eq!(tracer.to_field("root").unwrap_err().kind, ErrorKind::NoRecords);
    tracer.accept(&record(vec![("a", vec![Event::I8(1)])])).unwrap();
    tracer.accept(&record(vec![("a", vec![Event::I16(1)]), ("b", vec![Event::Bool(true)])])).unwrap();
    let field = tracer.to_field("item").unwrap();
    assert_eq!(field.name, "item");
    assert_eq!(
        field.children,
        vec![leaf("a", GenericDataType::I16, false), leaf("b", GenericDataType::Bool, true)]
    );
    let error = tracer.accept(&vec![Event::StartStruct]).unwrap_err();
    assert_eq!(error.kind, ErrorKind::UnbalancedNesting);
}

#[test]
fn flat_schema_of_records() {
    let records = sequence(vec![
        record(vec![("a", vec![Event::I64(1)]), ("b", vec![string("x")])]),
        record(vec![("a", vec![Event::I64(2)])]),
    ]);
    let schema = trace_schema(&records).unwrap();
    assert_eq!(schema.fields(), &["a".to_owned(), "b".to_owned()]);
    assert_eq!(schema.data_type("a"), Some(&DataType::I64));
    assert_eq!(schema.data_type("b"), Some(&DataType::Str));
    assert!(!schema.is_nullable("a"));
    assert!(schema.is_nullable("b"));

    let fields = schema_fields(&schema).unwrap();
    assert_eq!(
        fields,
        vec![leaf("a", GenericDataType::I64, false), leaf("b", GenericDataType::Utf8, true)]
    );

    let nested = sequence(vec![record(vec![(
        "a",
        vec![Event::StartSequence, Event::I8(1), Event::EndSequence],
    )])]);
    assert_eq!(trace_schema(&nested).unwrap_err().kind, ErrorKind::UnsupportedValue);

    let untyped = Schema::new().with_field("a", None, None);
    assert_eq!(schema_fields(&untyped).unwrap_err().kind, ErrorKind::NullOnlyField);
}

#[test]
fn compilation_lists_the_buffers_depth_first() {
    let fields = vec![
        leaf("a", GenericDataType::I8, true),
        GenericField::new("b", GenericDataType::List, false)
            .with_child(leaf("element", GenericDataType::Utf8, true)),
        GenericField::new("c", GenericDataType::Struct, true)
            .with_child(leaf("x", GenericDataType::F64, false))
            .with_child(leaf("y", GenericDataType::Date64NaiveStr, false)),
    ];
    let program = compile_serialization(&fields, CompilationOptions::default()).unwrap();
    let expected = vec![
        Operation::PushValidity,
        Operation::PushValue(ColumnKind::Int(serde_arrow::event::IntKind::I8)),
        Operation::PushOffset,
        Operation::PushValidity,
        Operation::PushValue(ColumnKind::Utf8),
        Operation::PushValidity,
        Operation::PushValue(ColumnKind::F64),
        Operation::PushValue(ColumnKind::Int(serde_arrow::event::IntKind::I64)),
    ];
    let instructions: Vec<Instruction> = expected
        .into_iter()
        .enumerate()
        .map(|(buffer, operation)| Instruction { buffer, operation })
        .collect();
    assert_eq!(program.instructions, instructions);
    assert_eq!(program.root.name, "$");
    assert_eq!(program.root.children, fields);
}

#[test]
fn compilation_rejects_unsupported_trees() {
    let nullable_key = GenericField::new("m", GenericDataType::Mapping, false)
        .with_child(leaf("key", GenericDataType::Utf8, true))
        .with_child(leaf("value", GenericDataType::I8, false));
    let error = compile_serialization(&[nullable_key], CompilationOptions::default()).unwrap_err();
    assert_eq!(error.kind, ErrorKind::UnsupportedField);
    assert_eq!(error.category(), ErrorCategory::Compilation);

    let childless = GenericField::new("l", GenericDataType::List, false);
    assert!(compile_serialization(&[childless], CompilationOptions::default()).is_err());

    let untyped = leaf("n", GenericDataType::Null, true);
    assert!(GenericBuilder::new_for_array(untyped).is_err());

    let backend = leaf("n", GenericDataType::Backend { tag: 1, payload: 2 }, true);
    assert!(GenericBuilder::new_for_array(backend).is_err());

    let twice = vec![leaf("a", GenericDataType::I8, false), leaf("a", GenericDataType::I8, false)];
    assert!(GenericBuilder::new_for_arrays(&twice).is_err());

    let two = vec![leaf("a", GenericDataType::I8, false), leaf("b", GenericDataType::I8, false)];
    let single = CompilationOptions::default().wrap_with_struct(false);
    assert!(compile_serialization(&two, single).is_err());
    assert!(compile_serialization(&two, CompilationOptions::default()).is_ok());
}

#[test]
fn serialization_fills_buffers() {
    let fields = vec![
        leaf("a", GenericDataType::I32, true),
        GenericField::new("b", GenericDataType::List, false)
            .with_child(leaf("element", GenericDataType::Utf8, false)),
    ];
    let mut builder = GenericBuilder::new_for_arrays(&fields).unwrap();
    builder
        .push(&record(vec![
            ("a", vec![Event::I8(7)]),
            ("b", sequence(vec![vec![string("x")], vec![string("y")]])),
        ]))
        .unwrap();
    builder
        .push(&record(vec![("b", sequence(vec![])), ("a", vec![Event::Null])]))
        .unwrap();
    builder.push(&record(vec![("b", sequence(vec![vec![string("z")]]))])).unwrap();
    let (buffers, rows) = builder.finish().unwrap();
    assert_eq!(rows, 3);
    assert_eq!(
        buffers.buffers,
        vec![
            Buffer::Bits(vec![true, false, false]),
            Buffer::I32(vec![7, 0, 0]),
            Buffer::Offsets(vec![0, 2, 2, 3]),
            Buffer::Utf8(vec!["x".to_owned(), "y".to_owned(), "z".to_owned()]),
        ]
    );
}

#[test]
fn push_and_extend_fill_the_same_buffers() {
    let fields = vec![leaf("a", GenericDataType::U16, false), leaf("b", GenericDataType::Bool, true)];
    let first = record(vec![("a", vec![Event::U8(1)]), ("b", vec![Event::Bool(true)])]);
    let second = record(vec![("a", vec![Event::U16(500)])]);

    let mut pushed = GenericBuilder::new_for_arrays(&fields).unwrap();
    pushed.push(&first).unwrap();
    pushed.push(&second).unwrap();

    let mut extended = GenericBuilder::new_for_arrays(&fields).unwrap();
    extended.extend(&sequence(vec![first, second])).unwrap();

    assert_eq!(pushed.finish().unwrap(), extended.finish().unwrap());
}

#[test]
fn round_trip_of_nested_records() {
    let fields = vec![
        leaf("id", GenericDataType::U64, false),
        leaf("name", GenericDataType::Utf8, true),
        GenericField::new("tags", GenericDataType::List, true)
            .with_child(leaf("element", GenericDataType::I16, true)),
        GenericField::new("point", GenericDataType::Struct, true)
            .with_child(leaf("x", GenericDataType::F32, false))
            .with_child(leaf("y", GenericDataType::F64, true)),
        GenericField::new("scores", GenericDataType::Mapping, false)
            .with_child(leaf("key", GenericDataType::Utf8, false))
            .with_child(leaf("value", GenericDataType::I8, true)),
    ];
    let records = sequence(vec![
        record(vec![
            ("id", vec![Event::U64(u64::MAX)]),
            ("name", vec![Event::Present, string("first")]),
            (
                "tags",
                vec![
                    Event::Present,
                    Event::StartSequence,
                    Event::Present,
                    Event::I16(-3),
                    Event::Null,
                    Event::EndSequence,
                ],
            ),
            (
                "point",
                vec![
                    Event::Present,
                    Event::StartStruct,
                    key("x"),
                    Event::F32(1.5f32.to_bits()),
                    key("y"),
                    Event::Null,
                    Event::EndStruct,
                ],
            ),
            (
                "scores",
                vec![
                    Event::StartMap,
                    string("a"),
                    Event::Present,
                    Event::I8(1),
                    string("b"),
                    Event::Null,
                    Event::EndMap,
                ],
            ),
        ]),
        record(vec![
            ("id", vec![Event::U64(0)]),
            ("name", vec![Event::Null]),
            ("tags", vec![Event::Null]),
            ("point", vec![Event::Null]),
            ("scores", vec![Event::StartMap, Event::EndMap]),
        ]),
        record(vec![
            ("id", vec![Event::U64(3)]),
            ("name", vec![Event::Present, string("")]),
            ("tags", vec![Event::Present, Event::StartSequence, Event::EndSequence]),
            (
                "point",
                vec![
                    Event::Present,
                    Event::StartStruct,
                    key("x"),
                    Event::F32(0),
                    key("y"),
                    Event::Present,
                    Event::F64(2.5f64.to_bits()),
                    Event::EndStruct,
                ],
            ),
            ("scores", vec![Event::StartMap, string("c"), Event::Present, Event::I8(-1), Event::EndMap]),
        ]),
    ]);
    assert_eq!(round_trip(&fields, &records), records);
}

#[test]
fn deserialization_normalizes_order_markers_and_kinds() {
    let fields = vec![leaf("a", GenericDataType::I32, false), leaf("b", GenericDataType::Utf8, true)];
    let records = sequence(vec![
        record(vec![("b", vec![string("x")]), ("a", vec![Event::Present, Event::U8(1)])]),
        record(vec![("a", vec![Event::I64(-2)])]),
    ]);
    let expected = sequence(vec![
        record(vec![("a", vec![Event::I32(1)]), ("b", vec![Event::Present, string("x")])]),
        record(vec![("a", vec![Event::I32(-2)]), ("b", vec![Event::Null])]),
    ]);
    assert_eq!(round_trip(&fields, &records), expected);
}

#[test]
fn single_array_round_trip() {
    let field = GenericField::new("values", GenericDataType::List, false)
        .with_child(leaf("element", GenericDataType::Bool, false));
    let items = sequence(vec![
        sequence(vec![vec![Event::Bool(true)], vec![Event::Bool(false)]]),
        sequence(vec![]),
    ]);
    let mut builder = GenericBuilder::new_for_array(field.clone()).unwrap();
    builder.extend(&items).unwrap();
    let (buffers, rows) = builder.finish().unwrap();
    assert_eq!(rows, 2);
    assert_eq!(
        buffers.buffers,
        vec![Buffer::Offsets(vec![0, 2, 2]), Buffer::Bits(vec![true, false])]
    );
    assert_eq!(deserialize_from_array(&field, buffers, rows).unwrap(), items);
}

#[test]
fn dates_with_time_zone_are_stored_as_milliseconds() {
    let fields = vec![leaf("at", GenericDataType::Date64UtcStr, false)];
    let records = sequence(vec![
        record(vec![("at", vec![string("1970-01-02T09:00:00Z")])]),
        record(vec![("at", vec![string("1970-01-01T01:00:00.250+01:00")])]),
    ]);
    let mut builder = GenericBuilder::new_for_arrays(&fields).unwrap();
    builder.extend(&records).unwrap();
    let (buffers, rows) = builder.finish().unwrap();
    assert_eq!(buffers.buffers, vec![Buffer::I64(vec![(24 + 9) * 60 * 60 * 1000, 250])]);
    let source =
        compile_deserialization(rows, &fields, buffers, CompilationOptions::default()).unwrap();
    assert_eq!(
        source.events(),
        sequence(vec![
            record(vec![("at", vec![string("1970-01-02T09:00:00Z")])]),
            record(vec![("at", vec![string("1970-01-01T00:00:00.250Z")])]),
        ])
    );
}

#[test]
fn dates_without_time_zone_are_stored_as_milliseconds() {
    let fields = vec![leaf("at", GenericDataType::Date64NaiveStr, true)];
    let records = sequence(vec![
        record(vec![("at", vec![Event::Present, string("1970-01-13T12:00:00")])]),
        record(vec![("at", vec![Event::Null])]),
        record(vec![("at", vec![Event::Present, string("1969-12-31T23:59:59.500")])]),
    ]);
    let mut builder = GenericBuilder::new_for_arrays(&fields).unwrap();
    builder.extend(&records).unwrap();
    let (buffers, rows) = builder.finish().unwrap();
    assert_eq!(
        buffers.buffers,
        vec![
            Buffer::Bits(vec![true, false, true]),
            Buffer::I64(vec![(12 * 24 + 12) * 3600 * 1000, 0, -500]),
        ]
    );
    let source =
        compile_deserialization(rows, &fields, buffers, CompilationOptions::default()).unwrap();
    assert_eq!(source.events(), records);
}

#[test]
fn dates_out_of_range_read_as_null() {
    let field = leaf("at", GenericDataType::Date64NaiveStr, false);
    let buffers = Buffers { buffers: vec![Buffer::I64(vec![i64::MAX, 1000])] };
    let events = deserialize_from_array(&field, buffers, 2).unwrap();
    assert_eq!(events, sequence(vec![vec![Event::Null], vec![string("1970-01-01T00:00:01")]]));
}

#[test]
fn serialization_errors() {
    let fields = vec![leaf("a", GenericDataType::I8, false), leaf("b", GenericDataType::Date64NaiveStr, true)];
    let builder = || GenericBuilder::new_for_arrays(&fields).unwrap();

    let ok = record(vec![("a", vec![Event::I8(1)])]);
    assert!(builder().push(&ok).is_ok());

    let too_large = record(vec![("a", vec![Event::I16(128)])]);
    assert_eq!(kind_of(builder().push(&too_large)), ErrorKind::TypeMismatch);

    let wrong_kind = record(vec![("a", vec![string("1")])]);
    assert_eq!(kind_of(builder().push(&wrong_kind)), ErrorKind::TypeMismatch);

    let null = record(vec![("a", vec![Event::Null])]);
    assert_eq!(kind_of(builder().push(&null)), ErrorKind::TypeMismatch);

    let missing = record(vec![("b", vec![Event::Null])]);
    assert_eq!(kind_of(builder().push(&missing)), ErrorKind::MissingField);

    let unknown = record(vec![("a", vec![Event::I8(1)]), ("z", vec![Event::I8(1)])]);
    assert_eq!(kind_of(builder().push(&unknown)), ErrorKind::UnknownField);

    let repeated = record(vec![("a", vec![Event::I8(1)]), ("a", vec![Event::I8(2)])]);
    assert_eq!(kind_of(builder().push(&repeated)), ErrorKind::UnknownField);

    let no_date = record(vec![("a", vec![Event::I8(1)]), ("b", vec![string("yesterday")])]);
    assert_eq!(kind_of(builder().push(&no_date)), ErrorKind::InvalidDate);

    let scalar = vec![Event::I8(1)];
    assert_eq!(kind_of(builder().push(&scalar)), ErrorKind::TypeMismatch);

    let unbalanced = vec![Event::StartStruct, key("a"), Event::I8(1)];
    assert_eq!(kind_of(builder().push(&unbalanced)), ErrorKind::UnbalancedNesting);

    let two = vec![Event::I8(1), Event::I8(2)];
    assert_eq!(kind_of(builder().push(&two)), ErrorKind::UnbalancedNesting);

    assert_eq!(kind_of(builder().extend(&ok)), ErrorKind::TypeMismatch);
    assert_eq!(kind_of(builder().extend(&vec![Event::StartSequence])), ErrorKind::UnbalancedNesting);
}

#[test]
fn interpreter_tracks_the_outermost_sequence() {
    let fields = vec![leaf("a", GenericDataType::I8, false)];
    let program = compile_serialization(&fields, CompilationOptions::default()).unwrap();
    let item = record(vec![("a", vec![Event::I8(1)])]);

    let mut interpreter = Interpreter::new(program);
    interpreter.accept_start_sequence().unwrap();
    interpreter.accept_item(&item).unwrap();
    interpreter.accept_item(&item).unwrap();
    interpreter.accept_end_sequence().unwrap();
    let (buffers, rows) = interpreter.finish().unwrap();
    assert_eq!(rows, 2);
    assert_eq!(buffers.buffers, vec![Buffer::I8(vec![1, 1])]);

    interpreter.push(&item).unwrap();
    let (buffers, rows) = interpreter.finish().unwrap();
    assert_eq!(rows, 1);
    assert_eq!(buffers.buffers, vec![Buffer::I8(vec![1])]);

    interpreter.accept_start_sequence().unwrap();
    assert_eq!(interpreter.finish().unwrap_err().kind, ErrorKind::UnbalancedNesting);
    assert_eq!(kind_of(interpreter.push(&item)), ErrorKind::Failed);
    assert_eq!(kind_of(interpreter.accept_start_sequence()), ErrorKind::Failed);
    assert_eq!(kind_of(interpreter.accept_end_sequence()), ErrorKind::Failed);
    assert_eq!(interpreter.finish().unwrap_err().kind, ErrorKind::Failed);

    let program = compile_serialization(&fields, CompilationOptions::default()).unwrap();
    let mut interpreter = Interpreter::new(program);
    assert_eq!(kind_of(interpreter.accept_item(&item)), ErrorKind::UnbalancedNesting);

    let program = compile_serialization(&fields, CompilationOptions::default()).unwrap();
    let mut interpreter = Interpreter::new(program);
    assert_eq!(kind_of(interpreter.accept_end_sequence()), ErrorKind::UnbalancedNesting);

    let program = compile_serialization(&fields, CompilationOptions::default()).unwrap();
    let mut interpreter = Interpreter::new(program);
    interpreter.accept_start_sequence().unwrap();
    assert_eq!(kind_of(interpreter.accept_start_sequence()), ErrorKind::UnbalancedNesting);
}

#[test]
fn deserialization_checks_the_buffers() {
    let field = GenericField::new("l", GenericDataType::List, true)
        .with_child(leaf("element", GenericDataType::I8, false));
    let good = || {
        vec![
            Buffer::Bits(vec![true, false]),
            Buffer::Offsets(vec![0, 2, 2]),
            Buffer::I8(vec![1, 2]),
        ]
    };
    let kind = |buffers: Vec<Buffer>, rows: usize| {
        deserialize_from_array(&field, Buffers { buffers }, rows).unwrap_err().kind
    };

    assert!(deserialize_from_array(&field, Buffers { buffers: good() }, 2).is_ok());
    assert_eq!(kind(good(), 3), ErrorKind::LengthMismatch);

    let mut short = good();
    short[0] = Buffer::Bits(vec![true]);
    assert_eq!(kind(short, 2), ErrorKind::LengthMismatch);

    let mut decreasing = good();
    decreasing[1] = Buffer::Offsets(vec![0, 2, 1]);
    assert_eq!(kind(decreasing, 2), ErrorKind::NonMonotonicOffsets);

    let mut beyond = good();
    beyond[1] = Buffer::Offsets(vec![0, 2, 3]);
    assert_eq!(kind(beyond, 2), ErrorKind::OffsetOutOfRange);

    let mut wrong_kind = good();
    wrong_kind[2] = Buffer::I16(vec![1, 2]);
    assert_eq!(kind(wrong_kind, 2), ErrorKind::LengthMismatch);

    let mut too_few = good();
    too_few.pop();
    assert_eq!(kind(too_few, 2), ErrorKind::LengthMismatch);

    let ok = Buffers { buffers: good() };
    assert!(check_columns(&field, 0, &ok, 2, ErrorKind::LengthMismatch).is_ok());
}

#[test]
fn source_reads_rows_one_by_one() {
    let fields = vec![leaf("a", GenericDataType::U8, true)];
    let buffers = Buffers {
        buffers: vec![Buffer::Bits(vec![true, false]), Buffer::U8(vec![9, 0])],
    };
    let mut source =
        compile_deserialization(2, &fields, buffers, CompilationOptions::default()).unwrap();
    assert_eq!(source.num_items(), 2);
    let first = record(vec![("a", vec![Event::Present, Event::U8(9)])]);
    let second = record(vec![("a", vec![Event::Null])]);
    assert_eq!(source.row(1).unwrap(), second);
    assert_eq!(source.row(2).unwrap_err().kind, ErrorKind::OffsetOutOfRange);
    assert_eq!(source.next_row(), Some(first.clone()));
    assert_eq!(source.next_row(), Some(second.clone()));
    assert_eq!(source.next_row(), None);
    assert_eq!(source.next_row(), None);
    assert_eq!(source.events(), sequence(vec![first, second]));
}

#[test]
fn buffers_grow_cell_by_cell() {
    let mut buffers = Buffers::new();
    buffers.allocate(ColumnKind::Offsets);
    buffers.allocate(ColumnKind::Utf8);
    assert_eq!(buffers.len(), 2);
    assert_eq!(buffers.kind(0), ColumnKind::Offsets);
    assert_eq!(buffers.rows(0), 1);
    assert_eq!(buffers.rows(1), 0);
    buffers.push(1, Scalar::Text("a".to_owned()));
    buffers.push(0, Scalar::Int(1));
    assert_eq!(buffers.get(0, 1), Scalar::Int(1));
    assert_eq!(buffers.get(1, 0), Scalar::Text("a".to_owned()));
    assert_eq!(Buffer::filler(ColumnKind::Bits), Scalar::Bit(false));
    assert_eq!(Buffer::filler(ColumnKind::F64), Scalar::Int(0));
    assert_eq!(Buffer::new(ColumnKind::F32), Buffer::F32(vec![]));
}
