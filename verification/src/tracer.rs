//! Tracing: the field tree that a sequence of observed values implies.
//!
//! Every observation of a field is merged into what was known of it before:
//! data types widen, and a field that was null or absent once is nullable.
use vstd::prelude::*;
use crate::error::{Error, ErrorKind};
use crate::event::{Event, EventView, IntKind, views};
use crate::field::{models, FieldModel, GenericDataType, GenericField};
use crate::serialization::{
    as_struct, entries_at, entry_name, find_name, first_index, is_end_map, is_end_sequence,
    names_of, scan_struct, value_at,
};
use crate::schema::str_eq;
use crate::value::{
    lemma_parse_bounds, parse_entries, parse_items, parse_value, value_end,
};
use crate::value::Value;

verus! {

/// How to trace.
#[derive(Debug, Clone, Copy, PartialEq, Eq, Structural)]
pub struct TracingOptions {
    /// Whether a field that was only ever observed as null is accepted,
    /// with the null type, when the tree is finished.
    pub allow_null_fields: bool,
    /// Whether a map with text keys is traced as a struct, with one field
    /// for each key.
    pub map_as_struct: bool,
}

impl Default for TracingOptions {
    fn default() -> (options: TracingOptions)
        ensures
            !options.allow_null_fields,
            options.map_as_struct,
    {
        TracingOptions { allow_null_fields: false, map_as_struct: true }
    }
}

impl TracingOptions {
    pub fn allow_null_fields(self, value: bool) -> (options: TracingOptions)
        ensures
            options == (TracingOptions { allow_null_fields: value, ..self }),
    {
        TracingOptions { allow_null_fields: value, map_as_struct: self.map_as_struct }
    }

    pub fn map_as_struct(self, value: bool) -> (options: TracingOptions)
        ensures
            options == (TracingOptions { map_as_struct: value, ..self }),
    {
        TracingOptions { allow_null_fields: self.allow_null_fields, map_as_struct: value }
    }
}

/// The data type of integers of a kind.
pub open spec fn int_type(kind: IntKind) -> GenericDataType {
    match kind {
        IntKind::I8 => GenericDataType::I8,
        IntKind::I16 => GenericDataType::I16,
        IntKind::I32 => GenericDataType::I32,
        IntKind::I64 => GenericDataType::I64,
        IntKind::U8 => GenericDataType::U8,
        IntKind::U16 => GenericDataType::U16,
        IntKind::U32 => GenericDataType::U32,
        IntKind::U64 => GenericDataType::U64,
    }
}

/// Whether every integer of kind `a` is one of kind `b`.
pub open spec fn covers(b: IntKind, a: IntKind) -> bool {
    b.min() <= a.min() && a.max() <= b.max()
}

/// The kind that two integer kinds widen to: the kind itself where the two
/// are equal, else the smallest signed kind that covers both. There is
/// none where one of two different kinds is `U64`.
pub open spec fn widen_int(a: IntKind, b: IntKind) -> Option<IntKind> {
    if a == b {
        Some(a)
    } else if covers(IntKind::I8, a) && covers(IntKind::I8, b) {
        Some(IntKind::I8)
    } else if covers(IntKind::I16, a) && covers(IntKind::I16, b) {
        Some(IntKind::I16)
    } else if covers(IntKind::I32, a) && covers(IntKind::I32, b) {
        Some(IntKind::I32)
    } else if covers(IntKind::I64, a) && covers(IntKind::I64, b) {
        Some(IntKind::I64)
    } else {
        None
    }
}

/// The number of bits of an integer kind.
pub open spec fn int_bits(kind: IntKind) -> int {
    match kind {
        IntKind::I8 | IntKind::U8 => 8,
        IntKind::I16 | IntKind::U16 => 16,
        IntKind::I32 | IntKind::U32 => 32,
        IntKind::I64 | IntKind::U64 => 64,
    }
}

/// The number of bits of a floating point type.
pub open spec fn float_bits(data_type: GenericDataType) -> Option<int> {
    match data_type {
        GenericDataType::F32 => Some(32),
        GenericDataType::F64 => Some(64),
        _ => None,
    }
}

/// The floating point type with at least the given number of bits.
pub open spec fn float_type(bits: int) -> GenericDataType {
    if bits <= 32 {
        GenericDataType::F32
    } else {
        GenericDataType::F64
    }
}

/// The data type that two observed data types of one field widen to.
///
/// The null type stands for no observation and yields the other type. Two
/// integers widen as `widen_int` says. An integer and a floating point
/// number, and two floating point numbers, widen to the floating point type
/// with the bits of the wider of the two. Any other two different types are
/// incompatible.
pub open spec fn widen(a: GenericDataType, b: GenericDataType) -> Result<
    GenericDataType,
    ErrorKind,
> {
    if a is Null {
        Ok(b)
    } else if b is Null {
        Ok(a)
    } else if a == b {
        Ok(a)
    } else {
        match (a.int_kind(), b.int_kind(), float_bits(a), float_bits(b)) {
            (Some(x), Some(y), _, _) => match widen_int(x, y) {
                Some(k) => Ok(int_type(k)),
                None => Err(ErrorKind::IncompatibleTypes),
            },
            (Some(x), _, _, Some(n)) => Ok(
                float_type(if int_bits(x) >= n {
                    int_bits(x)
                } else {
                    n
                }),
            ),
            (_, Some(y), Some(n), _) => Ok(
                float_type(if int_bits(y) >= n {
                    int_bits(y)
                } else {
                    n
                }),
            ),
            (_, _, Some(n), Some(m)) => Ok(
                float_type(if n >= m {
                    n
                } else {
                    m
                }),
            ),
            _ => Err(ErrorKind::IncompatibleTypes),
        }
    }
}

/// A field of which nothing was observed yet.
pub open spec fn fresh(name: Seq<char>, nullable: bool) -> FieldModel {
    FieldModel { name, data_type: GenericDataType::Null, nullable, children: Seq::empty() }
}

/// The name of the child of a list.
pub open spec fn element_name() -> Seq<char> {
    "element"@
}

/// The name of the first child of a map.
pub open spec fn key_name() -> Seq<char> {
    "key"@
}

/// The name of the second child of a map.
pub open spec fn value_name() -> Seq<char> {
    "value"@
}

/// The field after one more observation of a scalar of the given type.
pub open spec fn trace_scalar(t: FieldModel, observed: GenericDataType) -> Result<
    FieldModel,
    ErrorKind,
> {
    if !t.data_type.is_leaf() {
        Err(ErrorKind::IncompatibleTypes)
    } else {
        match widen(t.data_type, observed) {
            Ok(data_type) => Ok(FieldModel { data_type, ..t }),
            Err(e) => Err(e),
        }
    }
}

/// The children with every child marked nullable whose name is not among `names`.
pub open spec fn mark_missing(children: Seq<FieldModel>, names: Seq<Seq<char>>) -> Seq<
    FieldModel,
> {
    Seq::new(
        children.len(),
        |j: int|
            if first_index(names, children[j].name, 0) is None {
                FieldModel { nullable: true, ..children[j] }
            } else {
                children[j]
            },
    )
}

/// The field tree after one more observation: the value `v` for the field `t`.
///
/// A marker of presence is ignored. Null makes the field nullable and
/// leaves its type alone. A scalar widens the type. A struct merges each of
/// its fields into the child of that name, adds children for new names
/// after the others, and makes every child nullable that the struct lacks;
/// a child that is added to a struct seen before is nullable too. A
/// sequence merges each item into the one child of a list. A map is traced
/// like a struct where the options say so, else its keys and values are
/// merged into the two children of a map.
pub open spec fn trace(t: FieldModel, v: Value, options: TracingOptions) -> Result<
    FieldModel,
    ErrorKind,
>
    decreases v, 1int, 0int,
{
    match v {
        Value::Present(inner) => match *inner {
            Value::Present(_) => Err(ErrorKind::UnsupportedValue),
            _ => trace(t, *inner, options),
        },
        Value::Null => Ok(FieldModel { nullable: true, ..t }),
        Value::Bool(_) => trace_scalar(t, GenericDataType::Bool),
        Value::Int(k, _) => trace_scalar(t, int_type(k)),
        Value::F32(_) => trace_scalar(t, GenericDataType::F32),
        Value::F64(_) => trace_scalar(t, GenericDataType::F64),
        Value::Str(_) => trace_scalar(t, GenericDataType::Utf8),
        Value::Bytes(_) => Err(ErrorKind::UnsupportedValue),
        Value::Sequence(items) => if t.data_type is Null || (t.data_type is List
            && t.children.len() == 1) {
            let child = if t.data_type is Null {
                fresh(element_name(), false)
            } else {
                t.children[0]
            };
            match trace_items(child, items, 0, options) {
                Ok(c) => Ok(
                    FieldModel { data_type: GenericDataType::List, children: seq![c], ..t },
                ),
                Err(e) => Err(e),
            }
        } else {
            Err(ErrorKind::IncompatibleTypes)
        },
        Value::Struct(names, values) => if t.data_type is Null || t.data_type is Struct {
            match trace_fields(t.children, names, values, 0, t.data_type is Struct, options) {
                Ok(children) => Ok(
                    FieldModel {
                        data_type: GenericDataType::Struct,
                        children: mark_missing(children, names),
                        ..t
                    },
                ),
                Err(e) => Err(e),
            }
        } else {
            Err(ErrorKind::IncompatibleTypes)
        },
        Value::Mapping(entries) => if options.map_as_struct {
            if as_struct(v) is None {
                Err(ErrorKind::UnsupportedValue)
            } else if t.data_type is Null || t.data_type is Struct {
                match trace_keyed(t.children, entries, 0, t.data_type is Struct, options) {
                    Ok(children) => Ok(
                        FieldModel {
                            data_type: GenericDataType::Struct,
                            children: mark_missing(children, keys_of(entries)),
                            ..t
                        },
                    ),
                    Err(e) => Err(e),
                }
            } else {
                Err(ErrorKind::IncompatibleTypes)
            }
        } else if t.data_type is Null || (t.data_type is Mapping && t.children.len() == 2) {
            let key = if t.data_type is Null {
                fresh(key_name(), false)
            } else {
                t.children[0]
            };
            let value = if t.data_type is Null {
                fresh(value_name(), false)
            } else {
                t.children[1]
            };
            match trace_entries(key, value, entries, 0, options) {
                Ok((k, v)) => Ok(
                    FieldModel { data_type: GenericDataType::Mapping, children: seq![k, v], ..t },
                ),
                Err(e) => Err(e),
            }
        } else {
            Err(ErrorKind::IncompatibleTypes)
        },
    }
}

/// The text of the keys of the entries; empty text for a key that is no text.
pub open spec fn keys_of(entries: Seq<(Value, Value)>) -> Seq<Seq<char>> {
    Seq::new(
        entries.len(),
        |i: int|
            match entries[i].0 {
                Value::Str(s) => s,
                _ => Seq::empty(),
            },
    )
}

/// The child of a list after the items from index `k` on were merged into it.
pub open spec fn trace_items(child: FieldModel, items: Seq<Value>, k: int, options: TracingOptions) -> Result<
    FieldModel,
    ErrorKind,
>
    decreases items, items.len() - k,
{
    if k < 0 || k >= items.len() {
        Ok(child)
    } else {
        match trace(child, items[k], options) {
            Ok(c) => trace_items(c, items, k + 1, options),
            Err(e) => Err(e),
        }
    }
}

/// The children of a struct after the fields from index `i` on were merged
/// into them. `seen` says whether the struct was observed before.
pub open spec fn trace_fields(
    children: Seq<FieldModel>,
    names: Seq<Seq<char>>,
    values: Seq<Value>,
    i: int,
    seen: bool,
    options: TracingOptions,
) -> Result<Seq<FieldModel>, ErrorKind>
    decreases values, values.len() - i,
{
    if i < 0 || i >= values.len() || i >= names.len() {
        Ok(children)
    } else {
        let target = match first_index(names_of(children), names[i], 0) {
            Some(j) => children[j],
            None => fresh(names[i], seen),
        };
        match trace(target, values[i], options) {
            Ok(c) => trace_fields(
                put_child(children, names[i], c),
                names,
                values,
                i + 1,
                seen,
                options,
            ),
            Err(e) => Err(e),
        }
    }
}

/// The children with `c` in the place of the child named `name`, or after
/// the others where no child has that name.
pub open spec fn put_child(children: Seq<FieldModel>, name: Seq<char>, c: FieldModel) -> Seq<
    FieldModel,
> {
    match first_index(names_of(children), name, 0) {
        Some(j) => children.update(j, c),
        None => children.push(c),
    }
}

/// The children of a struct after the entries of a map from index `i` on
/// were merged into them, each key the name of a field. Fails on a key that
/// is no text.
pub open spec fn trace_keyed(
    children: Seq<FieldModel>,
    entries: Seq<(Value, Value)>,
    i: int,
    seen: bool,
    options: TracingOptions,
) -> Result<Seq<FieldModel>, ErrorKind>
    decreases entries, entries.len() - i,
{
    if i < 0 || i >= entries.len() {
        Ok(children)
    } else {
        match entries[i].0 {
            Value::Str(name) => {
                let target = match first_index(names_of(children), name, 0) {
                    Some(j) => children[j],
                    None => fresh(name, seen),
                };
                match trace(target, entries[i].1, options) {
                    Ok(c) => trace_keyed(
                        put_child(children, name, c),
                        entries,
                        i + 1,
                        seen,
                        options,
                    ),
                    Err(e) => Err(e),
                }
            },
            _ => Err(ErrorKind::UnsupportedValue),
        }
    }
}

/// The two children of a map after the entries from index `i` on were
/// merged into them.
pub open spec fn trace_entries(
    key: FieldModel,
    value: FieldModel,
    entries: Seq<(Value, Value)>,
    i: int,
    options: TracingOptions,
) -> Result<(FieldModel, FieldModel), ErrorKind>
    decreases entries, entries.len() - i,
{
    if i < 0 || i >= entries.len() {
        Ok((key, value))
    } else {
        match trace(key, entries[i].0, options) {
            Ok(k) => match trace(value, entries[i].1, options) {
                Ok(v) => trace_entries(k, v, entries, i + 1, options),
                Err(e) => Err(e),
            },
            Err(e) => Err(e),
        }
    }
}

/// For a map whose keys are all text, merging its entries is merging the
/// fields of the struct that it stands for.
pub proof fn lemma_keyed_is_fields(
    children: Seq<FieldModel>,
    entries: Seq<(Value, Value)>,
    i: int,
    seen: bool,
    options: TracingOptions,
)
    requires
        as_struct(Value::Mapping(entries)) is Some,
        0 <= i,
    ensures
        trace_keyed(children, entries, i, seen, options) == trace_fields(
            children,
            as_struct(Value::Mapping(entries))->Some_0.0,
            as_struct(Value::Mapping(entries))->Some_0.1,
            i,
            seen,
            options,
        ),
        keys_of(entries) == as_struct(Value::Mapping(entries))->Some_0.0,
    decreases entries.len() - i,
{
    let names = as_struct(Value::Mapping(entries))->Some_0.0;
    let values = as_struct(Value::Mapping(entries))->Some_0.1;
    assert(keys_of(entries) =~= names);
    if i < entries.len() {
        assert(entries[i].0 is Str);
        let name = names[i];
        let target = match first_index(names_of(children), name, 0) {
            Some(j) => children[j],
            None => fresh(name, seen),
        };
        match trace(target, values[i], options) {
            Ok(c) => {
                lemma_keyed_is_fields(put_child(children, name, c), entries, i + 1, seen, options);
            },
            Err(_) => {},
        }
    }
}

/// The kind that two integer kinds widen to.
fn widen_kinds(a: IntKind, b: IntKind) -> (r: Option<IntKind>)
    ensures
        r == widen_int(a, b),
{
    let (alo, ahi): (i128, i128) = kind_range(a);
    let (blo, bhi): (i128, i128) = kind_range(b);
    let lo = if alo < blo {
        alo
    } else {
        blo
    };
    let hi = if ahi > bhi {
        ahi
    } else {
        bhi
    };
    if kind_same(a, b) {
        Some(a)
    } else if -0x80 <= lo && hi <= 0x7f {
        Some(IntKind::I8)
    } else if -0x8000 <= lo && hi <= 0x7fff {
        Some(IntKind::I16)
    } else if -0x8000_0000 <= lo && hi <= 0x7fff_ffff {
        Some(IntKind::I32)
    } else if -0x8000_0000_0000_0000 <= lo && hi <= 0x7fff_ffff_ffff_ffff {
        Some(IntKind::I64)
    } else {
        None
    }
}

fn kind_same(a: IntKind, b: IntKind) -> (r: bool)
    ensures
        r == (a == b),
{
    a == b
}

/// The smallest and the largest integer of a kind.
fn kind_range(kind: IntKind) -> (r: (i128, i128))
    ensures
        r.0 == kind.min(),
        r.1 == kind.max(),
{
    match kind {
        IntKind::I8 => (-0x80, 0x7f),
        IntKind::I16 => (-0x8000, 0x7fff),
        IntKind::I32 => (-0x8000_0000, 0x7fff_ffff),
        IntKind::I64 => (-0x8000_0000_0000_0000, 0x7fff_ffff_ffff_ffff),
        IntKind::U8 => (0, 0xff),
        IntKind::U16 => (0, 0xffff),
        IntKind::U32 => (0, 0xffff_ffff),
        IntKind::U64 => (0, 0xffff_ffff_ffff_ffff),
    }
}

/// What is known of a scalar type for widening: its integer kind, or its
/// bits where it is a floating point type.
fn scalar_class(data_type: GenericDataType) -> (r: (Option<IntKind>, Option<u8>))
    ensures
        r.0 == data_type.int_kind(),
        match r.1 {
            Some(n) => float_bits(data_type) == Some(n as int),
            None => float_bits(data_type) is None,
        },
        r.0 matches Some(k) ==> (match k {
            IntKind::I8 | IntKind::U8 => 8int,
            IntKind::I16 | IntKind::U16 => 16int,
            IntKind::I32 | IntKind::U32 => 32int,
            IntKind::I64 | IntKind::U64 => 64int,
        }) == int_bits(k),
{
    match data_type {
        GenericDataType::I8 => (Some(IntKind::I8), None),
        GenericDataType::I16 => (Some(IntKind::I16), None),
        GenericDataType::I32 => (Some(IntKind::I32), None),
        GenericDataType::I64 => (Some(IntKind::I64), None),
        GenericDataType::U8 => (Some(IntKind::U8), None),
        GenericDataType::U16 => (Some(IntKind::U16), None),
        GenericDataType::U32 => (Some(IntKind::U32), None),
        GenericDataType::U64 => (Some(IntKind::U64), None),
        GenericDataType::F32 => (None, Some(32)),
        GenericDataType::F64 => (None, Some(64)),
        _ => (None, None),
    }
}

fn bits_of(kind: IntKind) -> (n: u8)
    ensures
        n == int_bits(kind),
{
    match kind {
        IntKind::I8 | IntKind::U8 => 8,
        IntKind::I16 | IntKind::U16 => 16,
        IntKind::I32 | IntKind::U32 => 32,
        IntKind::I64 | IntKind::U64 => 64,
    }
}

fn type_of_kind(kind: IntKind) -> (t: GenericDataType)
    ensures
        t == int_type(kind),
{
    match kind {
        IntKind::I8 => GenericDataType::I8,
        IntKind::I16 => GenericDataType::I16,
        IntKind::I32 => GenericDataType::I32,
        IntKind::I64 => GenericDataType::I64,
        IntKind::U8 => GenericDataType::U8,
        IntKind::U16 => GenericDataType::U16,
        IntKind::U32 => GenericDataType::U32,
        IntKind::U64 => GenericDataType::U64,
    }
}

fn float_of(a: u8, b: u8) -> (t: GenericDataType)
    ensures
        t == float_type(if a >= b {
            a as int
        } else {
            b as int
        }),
{
    if a <= 32 && b <= 32 {
        GenericDataType::F32
    } else {
        GenericDataType::F64
    }
}

/// The data type that two observed data types of one field widen to.
pub fn widen_types(a: GenericDataType, b: GenericDataType) -> (r: Result<GenericDataType, ErrorKind>)
    ensures
        r == widen(a, b),
{
    if let GenericDataType::Null = a {
        return Ok(b);
    }
    if let GenericDataType::Null = b {
        return Ok(a);
    }
    if a == b {
        return Ok(a);
    }
    let (ai, af) = scalar_class(a);
    let (bi, bf) = scalar_class(b);
    match (ai, bi, af, bf) {
        (Some(x), Some(y), _, _) => match widen_kinds(x, y) {
            Some(k) => Ok(type_of_kind(k)),
            None => Err(ErrorKind::IncompatibleTypes),
        },
        (Some(x), _, _, Some(n)) => Ok(float_of(bits_of(x), n)),
        (_, Some(y), Some(n), _) => Ok(float_of(bits_of(y), n)),
        (_, _, Some(n), Some(m)) => Ok(float_of(n, m)),
        _ => Err(ErrorKind::IncompatibleTypes),
    }
}

/// What a step that stands for `expected` has to return.
pub open spec fn trace_result(
    expected: Result<FieldModel, ErrorKind>,
    r: Result<GenericField, Error>,
) -> bool {
    match expected {
        Ok(m) => r matches Ok(f) && f@ == m,
        Err(k) => r matches Err(e) && e.kind == k,
    }
}

/// The field, marked nullable.
fn made_nullable(t: GenericField) -> (r: GenericField)
    ensures
        r@ == (FieldModel { nullable: true, ..t@ }),
{
    proof {
        t.lemma_view();
    }
    let r = GenericField {
        name: t.name,
        data_type: t.data_type,
        nullable: true,
        children: t.children,
    };
    proof {
        r.lemma_view();
    }
    r
}

/// The field with another type and other children.
fn rebuilt(
    name: String,
    data_type: GenericDataType,
    nullable: bool,
    children: Vec<GenericField>,
) -> (r: GenericField)
    ensures
        r@ == (FieldModel { name: name@, data_type, nullable, children: models(children@) }),
{
    let r = GenericField { name, data_type, nullable, children };
    proof {
        r.lemma_view();
    }
    r
}

fn type_is_leaf(data_type: GenericDataType) -> (r: bool)
    ensures
        r == data_type.is_leaf(),
{
    match data_type {
        GenericDataType::Struct | GenericDataType::List | GenericDataType::Mapping => false,
        _ => true,
    }
}

/// Merges the observation of a scalar of the given type into the field.
fn trace_leaf(t: GenericField, observed: GenericDataType) -> (r: Result<GenericField, Error>)
    ensures
        trace_result(trace_scalar(t@, observed), r),
{
    proof {
        t.lemma_view();
    }
    if !type_is_leaf(t.data_type) {
        return Err(Error::new(ErrorKind::IncompatibleTypes));
    }
    match widen_types(t.data_type, observed) {
        Ok(data_type) => Ok(rebuilt(t.name, data_type, t.nullable, t.children)),
        Err(k) => Err(Error::new(k)),
    }
}

/// The index of the first of the fields with the given name.
fn find_in(children: &Vec<GenericField>, name: &str) -> (r: Option<usize>)
    ensures
        match r {
            Some(j) => first_index(names_of(models(children@)), name@, 0) == Some(j as int) && j
                < children@.len(),
            None => first_index(names_of(models(children@)), name@, 0) is None,
        },
{
    let ghost names = names_of(models(children@));
    let mut j: usize = 0;
    while j < children.len()
        invariant
            j <= children@.len(),
            names == names_of(models(children@)),
            first_index(names, name@, 0) == first_index(names, name@, j as int),
        decreases children@.len() - j,
    {
        proof {
            children@[j as int].lemma_view();
        }
        if str_eq(children[j].name.as_str(), name) {
            return Some(j);
        }
        j = j + 1;
    }
    None
}

/// Merges the value that starts at `pos` into the field.
pub fn trace_value(t: GenericField, events: &Vec<Event>, pos: usize, options: TracingOptions) -> (r:
    Result<GenericField, Error>)
    requires
        parse_value(views(events@), pos as int) is Some,
    ensures
        trace_result(trace(t@, value_at(views(events@), pos as int), options), r),
    decreases events@.len() - pos, 1int,
{
    let ghost ev = views(events@);
    let total = events.len();
    proof {
        lemma_parse_bounds(ev, pos as int);
    }
    match &events[pos] {
        Event::Present => {
            proof {
                lemma_parse_bounds(ev, pos + 1);
            }
            match &events[pos + 1] {
                Event::Present => Err(Error::new(ErrorKind::UnsupportedValue)),
                _ => trace_value(t, events, pos + 1, options),
            }
        },
        Event::Null => Ok(made_nullable(t)),
        Event::Bool(_) => trace_leaf(t, GenericDataType::Bool),
        Event::I8(_) => trace_leaf(t, GenericDataType::I8),
        Event::I16(_) => trace_leaf(t, GenericDataType::I16),
        Event::I32(_) => trace_leaf(t, GenericDataType::I32),
        Event::I64(_) => trace_leaf(t, GenericDataType::I64),
        Event::U8(_) => trace_leaf(t, GenericDataType::U8),
        Event::U16(_) => trace_leaf(t, GenericDataType::U16),
        Event::U32(_) => trace_leaf(t, GenericDataType::U32),
        Event::U64(_) => trace_leaf(t, GenericDataType::U64),
        Event::F32(_) => trace_leaf(t, GenericDataType::F32),
        Event::F64(_) => trace_leaf(t, GenericDataType::F64),
        Event::Str(_) => trace_leaf(t, GenericDataType::Utf8),
        Event::Bytes(_) => Err(Error::new(ErrorKind::UnsupportedValue)),
        Event::StartSequence => trace_list(t, events, pos, options),
        Event::StartStruct => trace_struct(t, events, pos, options),
        Event::StartMap => if options.map_as_struct {
            trace_struct(t, events, pos, options)
        } else {
            trace_map(t, events, pos, options)
        },
        _ => Err(Error::new(ErrorKind::UnbalancedNesting)),
    }
}

/// Merges the sequence that starts at `pos` into the field.
#[verifier::loop_isolation(false)]
fn trace_list(t: GenericField, events: &Vec<Event>, pos: usize, options: TracingOptions) -> (r:
    Result<GenericField, Error>)
    requires
        parse_value(views(events@), pos as int) is Some,
        events@[pos as int]@ is StartSequence,
    ensures
        trace_result(trace(t@, value_at(views(events@), pos as int), options), r),
    decreases events@.len() - pos, 0int,
{
    let ghost ev = views(events@);
    let ghost before = t@;
    let total = events.len();
    proof {
        lemma_parse_bounds(ev, pos as int);
        lemma_parse_bounds(ev, pos + 1);
        t.lemma_view();
    }
    let ghost items = parse_items(ev, pos + 1)->Some_0.0;
    let name = t.name;
    let nullable = t.nullable;
    let mut children = t.children;
    let mut child = match t.data_type {
        GenericDataType::Null => GenericField::new("element", GenericDataType::Null, false),
        GenericDataType::List => {
            if children.len() != 1 {
                return Err(Error::new(ErrorKind::IncompatibleTypes));
            }
            match children.pop() {
                Some(c) => c,
                None => {
                    return Err(Error::new(ErrorKind::IncompatibleTypes));
                },
            }
        },
        _ => {
            return Err(Error::new(ErrorKind::IncompatibleTypes));
        },
    };
    let ghost first = child@;
    let mut q: usize = pos + 1;
    let ghost mut k: int = 0;
    proof {
        assert(items.skip(0) == items);
    }
    while !is_end_sequence(&events[q])
        invariant
            pos < q < events@.len(),
            0 <= k <= items.len(),
            ev == views(events@),
            parse_items(ev, q as int) is Some,
            parse_items(ev, q as int)->Some_0.0 == items.skip(k),
            trace_items(first, items, 0, options) == trace_items(child@, items, k, options),
        decreases events@.len() - q,
    {
        proof {
            lemma_parse_bounds(ev, q as int);
            let next = parse_value(ev, q as int)->Some_0.1;
            lemma_parse_bounds(ev, next);
            let rest = parse_items(ev, next)->Some_0.0;
            assert(parse_items(ev, q as int)->Some_0.0 == seq![value_at(ev, q as int)] + rest);
            assert(items.skip(k).len() >= 1);
            assert(items.skip(k)[0] == items[k]);
            assert(items.skip(k + 1) =~= rest) by {
                assert(items.skip(k).skip(1) =~= items.skip(k + 1));
                assert((seq![items[k]] + rest).skip(1) =~= rest);
            }
        }
        child = match trace_value(child, events, q, options) {
            Ok(c) => c,
            Err(e) => {
                proof {
                    assert(trace_items(first, items, 0, options) is Err);
                }
                return Err(e.within(&name));
            },
        };
        match value_end(events, q) {
            Some(next) => {
                q = next;
            },
            None => {
                return Err(Error::new(ErrorKind::UnbalancedNesting));
            },
        }
        proof {
            k = k + 1;
        }
    }
    proof {
        assert(items.skip(k).len() == 0);
    }
    let mut list: Vec<GenericField> = Vec::new();
    list.push(child);
    let r = rebuilt(name, GenericDataType::List, nullable, list);
    proof {
        assert(r@.children =~= seq![child@]);
    }
    Ok(r)
}

/// Merges the struct that starts at `pos`, or the map with text keys that
/// stands for one, into the field.
#[verifier::loop_isolation(false)]
fn trace_struct(t: GenericField, events: &Vec<Event>, pos: usize, options: TracingOptions) -> (r:
    Result<GenericField, Error>)
    requires
        parse_value(views(events@), pos as int) is Some,
        events@[pos as int]@ is StartStruct || (events@[pos as int]@ is StartMap
            && options.map_as_struct),
    ensures
        trace_result(trace(t@, value_at(views(events@), pos as int), options), r),
    decreases events@.len() - pos, 0int,
{
    let ghost ev = views(events@);
    let ghost w = value_at(ev, pos as int);
    let total = events.len();
    proof {
        lemma_parse_bounds(ev, pos as int);
        t.lemma_view();
    }
    let (kpos, vpos) = match scan_struct(events, pos) {
        Some(found) => found,
        None => {
            return Err(Error::new(ErrorKind::UnsupportedValue));
        },
    };
    let ghost names = as_struct(w)->Some_0.0;
    let ghost values = as_struct(w)->Some_0.1;
    let seen = match t.data_type {
        GenericDataType::Null => false,
        GenericDataType::Struct => true,
        _ => {
            return Err(Error::new(ErrorKind::IncompatibleTypes));
        },
    };
    let ghost first = t@.children;
    proof {
        if let Value::Mapping(entries) = w {
            lemma_keyed_is_fields(first, entries, 0, seen, options);
        }
    }
    let ghost expected = match trace_fields(first, names, values, 0, seen, options) {
        Ok(children) => Ok(
            FieldModel {
                data_type: GenericDataType::Struct,
                children: mark_missing(children, names),
                ..t@
            },
        ),
        Err(e) => Err(e),
    };
    assert(trace(t@, w, options) == expected);
    let name = t.name;
    let nullable = t.nullable;
    let mut children = t.children;
    let mut i: usize = 0;
    while i < kpos.len()
        invariant
            i <= kpos@.len(),
            ev == views(events@),
            entries_at(ev, names, values, kpos@, vpos@),
            forall|x: int| 0 <= x < vpos@.len() ==> pos < #[trigger] vpos@[x],
            trace_fields(first, names, values, 0, seen, options) == trace_fields(
                models(children@),
                names,
                values,
                i as int,
                seen,
                options,
            ),
            expected is Err <==> trace_fields(first, names, values, 0, seen, options) is Err,
            expected matches Err(k) ==> trace_fields(first, names, values, 0, seen, options)
                == Err::<Seq<FieldModel>, ErrorKind>(k),
        decreases kpos@.len() - i,
    {
        let ghost current = models(children@);
        proof {
            assert(kpos@[i as int] < ev.len());
            assert(pos < vpos@[i as int]);
        }
        let field = entry_name(events, kpos[i]);
        match find_in(&children, field) {
            Some(j) => {
                let child = children.remove(j);
                match trace_value(child, events, vpos[i], options) {
                    Ok(c) => {
                        let ghost merged = c@;
                        children.insert(j, c);
                        proof {
                            assert(models(children@) =~= current.update(j as int, merged));
                        }
                    },
                    Err(e) => {
                        return Err(e.within(&name));
                    },
                }
            },
            None => {
                let child = GenericField::new(field, GenericDataType::Null, seen);
                match trace_value(child, events, vpos[i], options) {
                    Ok(c) => {
                        let ghost merged = c@;
                        children.push(c);
                        proof {
                            assert(models(children@) =~= current.push(merged));
                        }
                    },
                    Err(e) => {
                        return Err(e.within(&name));
                    },
                }
            },
        }
        i = i + 1;
    }
    let ghost merged = models(children@);
    let mut j: usize = 0;
    while j < children.len()
        invariant
            j <= children@.len(),
            children@.len() == merged.len(),
            ev == views(events@),
            entries_at(ev, names, values, kpos@, vpos@),
            forall|x: int|
                0 <= x < j ==> (#[trigger] models(children@)[x]) == mark_missing(merged, names)[x],
            forall|x: int| j <= x < merged.len() ==> (#[trigger] models(children@)[x]) == merged[x],
        decreases children@.len() - j,
    {
        let ghost current = models(children@);
        proof {
            children@[j as int].lemma_view();
            assert(current[j as int] == merged[j as int]);
        }
        if find_name(events, &kpos, children[j].name.as_str(), Ghost(names)).is_none() {
            let c = children.remove(j);
            let marked = made_nullable(c);
            let ghost m = marked@;
            children.insert(j, marked);
            proof {
                assert(models(children@) =~= current.update(j as int, m));
            }
        }
        j = j + 1;
    }
    proof {
        assert(models(children@) =~= mark_missing(merged, names));
    }
    Ok(rebuilt(name, GenericDataType::Struct, nullable, children))
}

/// Merges the map that starts at `pos` into the field: its keys into the
/// first child, its values into the second.
#[verifier::loop_isolation(false)]
fn trace_map(t: GenericField, events: &Vec<Event>, pos: usize, options: TracingOptions) -> (r:
    Result<GenericField, Error>)
    requires
        parse_value(views(events@), pos as int) is Some,
        events@[pos as int]@ is StartMap,
        !options.map_as_struct,
    ensures
        trace_result(trace(t@, value_at(views(events@), pos as int), options), r),
    decreases events@.len() - pos, 0int,
{
    let ghost ev = views(events@);
    let total = events.len();
    proof {
        lemma_parse_bounds(ev, pos as int);
        lemma_parse_bounds(ev, pos + 1);
        t.lemma_view();
    }
    let ghost entries = parse_entries(ev, pos + 1)->Some_0.0;
    let name = t.name;
    let nullable = t.nullable;
    let mut children = t.children;
    let (mut key, mut value) = match t.data_type {
        GenericDataType::Null => (
            GenericField::new("key", GenericDataType::Null, false),
            GenericField::new("value", GenericDataType::Null, false),
        ),
        GenericDataType::Mapping => {
            if children.len() != 2 {
                return Err(Error::new(ErrorKind::IncompatibleTypes));
            }
            let second = children.pop();
            let first = children.pop();
            match (first, second) {
                (Some(k), Some(v)) => (k, v),
                _ => {
                    return Err(Error::new(ErrorKind::IncompatibleTypes));
                },
            }
        },
        _ => {
            return Err(Error::new(ErrorKind::IncompatibleTypes));
        },
    };
    let ghost key0 = key@;
    let ghost value0 = value@;
    let mut q: usize = pos + 1;
    let ghost mut k: int = 0;
    proof {
        assert(entries.skip(0) == entries);
    }
    while !is_end_map(&events[q])
        invariant
            pos < q < events@.len(),
            0 <= k <= entries.len(),
            ev == views(events@),
            parse_entries(ev, q as int) is Some,
            parse_entries(ev, q as int)->Some_0.0 == entries.skip(k),
            trace_entries(key0, value0, entries, 0, options) == trace_entries(
                key@,
                value@,
                entries,
                k,
                options,
            ),
        decreases events@.len() - q,
    {
        proof {
            lemma_parse_bounds(ev, q as int);
            let mid = parse_value(ev, q as int)->Some_0.1;
            lemma_parse_bounds(ev, mid);
            let next = parse_value(ev, mid)->Some_0.1;
            lemma_parse_bounds(ev, next);
            let rest = parse_entries(ev, next)->Some_0.0;
            assert(parse_entries(ev, q as int)->Some_0.0 == seq![
                (value_at(ev, q as int), value_at(ev, mid)),
            ] + rest);
            assert(entries.skip(k).len() >= 1);
            assert(entries.skip(k)[0] == entries[k]);
            assert(entries.skip(k + 1) =~= rest) by {
                assert(entries.skip(k).skip(1) =~= entries.skip(k + 1));
                assert((seq![entries[k]] + rest).skip(1) =~= rest);
            }
        }
        key = match trace_value(key, events, q, options) {
            Ok(c) => c,
            Err(e) => {
                return Err(e.within(&name));
            },
        };
        let mid = match value_end(events, q) {
            Some(mid) => mid,
            None => {
                return Err(Error::new(ErrorKind::UnbalancedNesting));
            },
        };
        value = match trace_value(value, events, mid, options) {
            Ok(c) => c,
            Err(e) => {
                return Err(e.within(&name));
            },
        };
        match value_end(events, mid) {
            Some(next) => {
                q = next;
            },
            None => {
                return Err(Error::new(ErrorKind::UnbalancedNesting));
            },
        }
        proof {
            k = k + 1;
        }
    }
    proof {
        assert(entries.skip(k).len() == 0);
    }
    let mut pair: Vec<GenericField> = Vec::new();
    let ghost kv = key@;
    let ghost vv = value@;
    pair.push(key);
    pair.push(value);
    let r = rebuilt(name, GenericDataType::Mapping, nullable, pair);
    proof {
        assert(r@.children =~= seq![kv, vv]);
    }
    Ok(r)
}

/// Whether a type was resolved for the field and for every descendant.
pub open spec fn resolved(t: FieldModel) -> bool
    decreases t,
{
    &&& !(t.data_type is Null)
    &&& forall|j: int| 0 <= j < t.children.len() ==> resolved(#[trigger] t.children[j])
}

/// The field tree after the value that the events describe was merged into
/// it. The events must be exactly one balanced value.
pub open spec fn accepted(root: FieldModel, ev: Seq<EventView>, options: TracingOptions) -> Result<
    FieldModel,
    ErrorKind,
> {
    match parse_value(ev, 0) {
        Some((v, end)) => if end == ev.len() {
            trace(root, v, options)
        } else {
            Err(ErrorKind::UnbalancedNesting)
        },
        None => Err(ErrorKind::UnbalancedNesting),
    }
}

/// The field tree after every record of the collection that the events
/// describe was merged into it. The events must be exactly one sequence;
/// its items are the records.
pub open spec fn accepted_records(root: FieldModel, ev: Seq<EventView>, options: TracingOptions) -> Result<
    FieldModel,
    ErrorKind,
> {
    match parse_value(ev, 0) {
        Some((v, end)) => if end == ev.len() {
            match v {
                Value::Sequence(items) => trace_items(root, items, 0, options),
                _ => Err(ErrorKind::RootNotRecords),
            }
        } else {
            Err(ErrorKind::UnbalancedNesting)
        },
        None => Err(ErrorKind::UnbalancedNesting),
    }
}

/// The finished field tree under the given name.
///
/// Fails where nothing but null was observed, where the root is no struct,
/// and, unless the options allow it, where a field was only ever null.
pub open spec fn finished(root: FieldModel, name: Seq<char>, options: TracingOptions) -> Result<
    FieldModel,
    ErrorKind,
> {
    if root.data_type is Null {
        Err(ErrorKind::NoRecords)
    } else if !(root.data_type is Struct) {
        Err(ErrorKind::RootNotRecords)
    } else if !options.allow_null_fields && !resolved(root) {
        Err(ErrorKind::NullOnlyField)
    } else {
        Ok(FieldModel { name, ..root })
    }
}

/// Whether a type was resolved for the field and for every descendant.
pub fn is_resolved(t: &GenericField) -> (r: bool)
    ensures
        r == resolved(t@),
    decreases t@,
{
    proof {
        t.lemma_view();
    }
    if let GenericDataType::Null = t.data_type {
        return false;
    }
    let mut j: usize = 0;
    while j < t.children.len()
        invariant
            j <= t.children@.len(),
            t@.children == models(t.children@),
            !(t@.data_type is Null),
            forall|i: int| 0 <= i < j ==> resolved(#[trigger] t@.children[i]),
        decreases t.children@.len() - j,
    {
        assert(t@.children[j as int] == t.children@[j as int]@);
        if !is_resolved(&t.children[j]) {
            assert(!resolved(t@.children[j as int]));
            return false;
        }
        j = j + 1;
    }
    true
}

/// Infers a field tree from the values it is shown.
#[derive(Debug)]
pub struct Tracer {
    pub root: GenericField,
    pub options: TracingOptions,
}

impl Tracer {
    /// A tracer that has observed nothing.
    pub fn new(name: String, options: TracingOptions) -> (t: Tracer)
        ensures
            t.root@ == fresh(name@, false),
            t.options == options,
    {
        Tracer { root: GenericField::new(name.as_str(), GenericDataType::Null, false), options }
    }

    /// Merges one value into the tree. The events must be exactly one
    /// balanced value. After a failure the tracer must not be used again.
    pub fn accept(&mut self, events: &Vec<Event>) -> (r: Result<(), Error>)
        ensures
            final(self).options == old(self).options,
            match accepted(old(self).root@, views(events@), old(self).options) {
                Ok(m) => r is Ok && final(self).root@ == m,
                Err(k) => r matches Err(e) && e.kind == k,
            },
    {
        match value_end(events, 0) {
            Some(end) => {
                if end != events.len() {
                    return Err(Error::new(ErrorKind::UnbalancedNesting));
                }
            },
            None => {
                return Err(Error::new(ErrorKind::UnbalancedNesting));
            },
        }
        let mut root = GenericField::new("", GenericDataType::Null, false);
        std::mem::swap(&mut root, &mut self.root);
        match trace_value(root, events, 0, self.options) {
            Ok(merged) => {
                self.root = merged;
                Ok(())
            },
            Err(e) => Err(e),
        }
    }

    /// Merges every record of a collection into the tree. The events must
    /// be exactly one sequence, whose items are the records. After a
    /// failure the tracer must not be used again.
    #[verifier::loop_isolation(false)]
    pub fn accept_records(&mut self, events: &Vec<Event>) -> (r: Result<(), Error>)
        ensures
            final(self).options == old(self).options,
            match accepted_records(old(self).root@, views(events@), old(self).options) {
                Ok(m) => r is Ok && final(self).root@ == m,
                Err(k) => r matches Err(e) && e.kind == k,
            },
    {
        let ghost ev = views(events@);
        let options = self.options;
        match value_end(events, 0) {
            Some(end) => {
                if end != events.len() {
                    return Err(Error::new(ErrorKind::UnbalancedNesting));
                }
            },
            None => {
                return Err(Error::new(ErrorKind::UnbalancedNesting));
            },
        }
        proof {
            lemma_parse_bounds(ev, 0);
            lemma_parse_bounds(ev, 1);
        }
        if !is_start_sequence(&events[0]) {
            return Err(Error::new(ErrorKind::RootNotRecords));
        }
        let ghost items = parse_items(ev, 1)->Some_0.0;
        let mut root = GenericField::new("", GenericDataType::Null, false);
        std::mem::swap(&mut root, &mut self.root);
        let ghost first = root@;
        let mut q: usize = 1;
        let ghost mut k: int = 0;
        proof {
            assert(items.skip(0) == items);
        }
        while !is_end_sequence(&events[q])
            invariant
                0 < q < events@.len(),
                0 <= k <= items.len(),
                self.options == options,
                parse_items(ev, q as int) is Some,
                parse_items(ev, q as int)->Some_0.0 == items.skip(k),
                trace_items(first, items, 0, options) == trace_items(root@, items, k, options),
            decreases events@.len() - q,
        {
            proof {
                lemma_parse_bounds(ev, q as int);
                let next = parse_value(ev, q as int)->Some_0.1;
                lemma_parse_bounds(ev, next);
                let rest = parse_items(ev, next)->Some_0.0;
                assert(parse_items(ev, q as int)->Some_0.0 == seq![value_at(ev, q as int)]
                    + rest);
                assert(items.skip(k).len() >= 1);
                assert(items.skip(k)[0] == items[k]);
                assert(items.skip(k + 1) =~= rest) by {
                    assert(items.skip(k).skip(1) =~= items.skip(k + 1));
                    assert((seq![items[k]] + rest).skip(1) =~= rest);
                }
            }
            root = match trace_value(root, events, q, options) {
                Ok(c) => c,
                Err(e) => {
                    return Err(e);
                },
            };
            match value_end(events, q) {
                Some(next) => {
                    q = next;
                },
                None => {
                    return Err(Error::new(ErrorKind::UnbalancedNesting));
                },
            }
            proof {
                k = k + 1;
            }
        }
        proof {
            assert(items.skip(k).len() == 0);
        }
        self.root = root;
        Ok(())
    }

    /// The finished field tree under the given name.
    pub fn to_field(&self, name: &str) -> (r: Result<GenericField, Error>)
        ensures
            trace_result(finished(self.root@, name@, self.options), r),
    {
        proof {
            self.root.lemma_view();
        }
        match self.root.data_type {
            GenericDataType::Null => {
                return Err(Error::new(ErrorKind::NoRecords));
            },
            GenericDataType::Struct => {},
            _ => {
                return Err(Error::new(ErrorKind::RootNotRecords));
            },
        }
        if !self.options.allow_null_fields && !is_resolved(&self.root) {
            return Err(Error::new(ErrorKind::NullOnlyField));
        }
        let copy = self.root.duplicate();
        proof {
            copy.lemma_view();
        }
        let r = GenericField {
            name: name.to_owned(),
            data_type: copy.data_type,
            nullable: copy.nullable,
            children: copy.children,
        };
        proof {
            r.lemma_view();
        }
        Ok(r)
    }
}

fn is_start_sequence(event: &Event) -> (r: bool)
    ensures
        r == (event@ is StartSequence),
{
    match event {
        Event::StartSequence => true,
        _ => false,
    }
}

} // verus!
