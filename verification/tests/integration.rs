use std::collections::HashMap;

use serde_arrow::buffers::{Buffer, Buffers};
use serde_arrow::event::Event;
use serde_arrow::field::GenericField;
use serde_arrow::internal::{schema_fields, GenericBuilder};
use serde_arrow::program::CompilationOptions;
use serde_arrow::source::compile_deserialization;
use serde_arrow::{DataType, Schema};

fn name(text: &str) -> Event {
    Event::FieldName(text.to_owned())
}

fn text(text: &str) -> Event {
    Event::Str(text.to_owned())
}

fn naive(seconds: i64) -> String {
    let time = chrono::DateTime::from_timestamp(seconds, 0).unwrap().naive_utc();
    format!("{:?}", time)
}

fn collection(records: Vec<Vec<Event>>) -> Vec<Event> {
    let mut events = vec![Event::StartSequence];
    for record in records {
        events.extend(record);
    }
    events.push(Event::EndSequence);
    events
}

/// Builds the buffers of the records under the schema, as a record batch would hold them.
fn to_buffers(records: &Vec<Event>, schema: &Schema) -> (Vec<GenericField>, Buffers, usize) {
    let fields = schema_fields(schema).unwrap();
    let mut builder = GenericBuilder::new_for_arrays(&fields).unwrap();
    builder.extend(records).unwrap();
    let (buffers, rows) = builder.finish().unwrap();
    (fields, buffers, rows)
}

/// Reads the records back from the buffers.
fn from_buffers(fields: &Vec<GenericField>, buffers: Buffers, rows: usize) -> Vec<Event> {
    let source =
        compile_deserialization(rows, fields, buffers, CompilationOptions::default()).unwrap();
    source.events()
}

/// The records of a collection of structs of integers, as maps.
fn as_maps(events: &Vec<Event>) -> Vec<HashMap<String, i32>> {
    let mut maps = Vec::new();
    let mut current: Option<HashMap<String, i32>> = None;
    let mut key: Option<String> = None;
    for event in &events[1..events.len() - 1] {
        match event {
            Event::StartStruct | Event::StartMap => current = Some(HashMap::new()),
            Event::EndStruct | Event::EndMap => maps.push(current.take().unwrap()),
            Event::FieldName(k) => key = Some(k.clone()),
            Event::Str(k) => key = Some(k.clone()),
            Event::I8(x) => {
                current.as_mut().unwrap().insert(key.take().unwrap(), *x as i32);
            }
            Event::I32(x) => {
                current.as_mut().unwrap().insert(key.take().unwrap(), *x);
            }
            other => panic!("unexpected event {:?}", other),
        }
    }
    maps
}

fn example(int8: i8, int32: i32, float32: f32, date64: &str, boolean: bool) -> Vec<Event> {
    vec![
        Event::StartStruct,
        name("int8"),
        Event::I8(int8),
        name("int32"),
        Event::I32(int32),
        name("float32"),
        Event::F32(float32.to_bits()),
        name("date64"),
        text(date64),
        name("boolean"),
        Event::Bool(boolean),
        Event::EndStruct,
    ]
}

/// Test that a structure with different fields can be handled
#[test]
fn item_multi_field_structure() {
    let examples = collection(vec![
        example(1, 4, 1.0, &naive(0), true),
        example(2, 5, 2.0, &naive(5 * 24 * 60 * 60), false),
    ]);

    let mut schema = Schema::from_records(&examples).unwrap();
    schema.set_data_type("date64", DataType::NaiveDateTimeStr).unwrap();

    let (fields, buffers, rows) = to_buffers(&examples, &schema);
    let round_tripped = from_buffers(&fields, buffers, rows);

    assert_eq!(round_tripped, examples);
}

fn map_record(entries: &[(&str, i32)]) -> Vec<Event> {
    let mut events = vec![Event::StartMap];
    for (key, value) in entries {
        events.push(text(key));
        events.push(Event::I32(*value));
    }
    events.push(Event::EndMap);
    events
}

/// Test that maps are correctly handled
#[test]
fn item_maps() {
    let examples = collection(vec![
        map_record(&[("a", 42), ("b", 32)]),
        map_record(&[("a", 42), ("b", 32)]),
    ]);

    let schema = Schema::from_records(&examples).unwrap();
    let (fields, buffers, rows) = to_buffers(&examples, &schema);
    let round_tripped = from_buffers(&fields, buffers, rows);

    assert_eq!(as_maps(&round_tripped), as_maps(&examples));
}

fn flattened(int8: i8, int32: i32, extra: &[(&str, i32)]) -> Vec<Event> {
    let mut events = vec![Event::StartMap, text("int8"), Event::I8(int8), text("int32")];
    events.push(Event::I32(int32));
    for (key, value) in extra {
        events.push(text(key));
        events.push(Event::I32(*value));
    }
    events.push(Event::EndMap);
    events
}

/// Test that also children that are flattened into their parent are correctly handled
#[test]
fn item_flattened_structures() {
    let examples = collection(vec![
        flattened(1, 4, &[("a", 2), ("b", 3)]),
        flattened(2, 5, &[("b", 4), ("a", 3)]),
    ]);

    let schema = Schema::from_records(&examples).unwrap();
    let (fields, buffers, rows) = to_buffers(&examples, &schema);

    assert_eq!(fields.len(), 4);

    let round_tripped = from_buffers(&fields, buffers, rows);
    assert_eq!(as_maps(&round_tripped), as_maps(&examples));
}

fn val_record(value: Event) -> Vec<Event> {
    vec![Event::StartStruct, name("val"), value, Event::EndStruct]
}

/// Test that dates as RFC 3339 strings are correctly handled
#[test]
fn dtype_date64_str() {
    let records = collection(vec![
        val_record(text(&naive(12 * 60 * 60 * 24))),
        val_record(text(&naive(9 * 60 * 60 * 24))),
    ]);

    let mut schema = Schema::from_records(&records).unwrap();
    schema.set_data_type("val", DataType::NaiveDateTimeStr).unwrap();

    let (fields, buffers, rows) = to_buffers(&records, &schema);

    assert_eq!(
        buffers.buffers[0],
        Buffer::I64(vec![12_000 * 60 * 60 * 24, 9_000 * 60 * 60 * 24])
    );

    let round_tripped = from_buffers(&fields, buffers, rows);
    assert_eq!(round_tripped, records);
}

fn utc_millis(year: i32, month: u32, day: u32, hour: u32) -> i64 {
    chrono::NaiveDate::from_ymd_opt(year, month, day)
        .unwrap()
        .and_hms_opt(hour, 0, 0)
        .unwrap()
        .and_utc()
        .timestamp_millis()
}

/// Test that dates in i64 milliseconds are correctly handled
#[test]
fn dtype_date64_int() {
    let records = collection(vec![
        val_record(Event::I64(utc_millis(1970, 1, 13, 12))),
        val_record(Event::I64(utc_millis(1970, 1, 2, 9))),
    ]);

    let mut schema = Schema::from_records(&records).unwrap();
    schema.set_data_type("val", DataType::DateTimeMilliseconds).unwrap();

    let (fields, buffers, rows) = to_buffers(&records, &schema);

    assert_eq!(
        buffers.buffers[0],
        Buffer::I64(vec![(12 * 24 + 12) * 60 * 60 * 1000, (1 * 24 + 9) * 60 * 60 * 1000])
    );

    let round_tripped = from_buffers(&fields, buffers, rows);
    assert_eq!(round_tripped, records);
}
