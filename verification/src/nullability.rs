//! Nullability inference: after tracing a collection of records, there is
//! one field for each name that occurs in a record, and a field is
//! nullable exactly if it was absent or null in at least one record.
//!
//! A record is a struct or, where maps are traced as structs, a map whose
//! keys are all text.
use vstd::prelude::*;
use crate::field::FieldModel;
use crate::layout::names_differ;
use crate::serialization::{as_struct, first_index, names_of, strip};
use crate::tracer::{
    fresh, lemma_keyed_is_fields, mark_missing, put_child, trace, trace_fields, trace_items,
    TracingOptions,
};
use crate::value::Value;

verus! {

/// Whether the value is null, with or without a marker of presence.
pub open spec fn is_null(v: Value) -> bool {
    strip(v) is Null
}

/// Whether one of the fields has the name.
pub open spec fn has_child(children: Seq<FieldModel>, x: Seq<char>) -> bool {
    first_index(names_of(children), x, 0) is Some
}

/// Whether the first field with the name is nullable.
pub open spec fn nullable_of(children: Seq<FieldModel>, x: Seq<char>) -> bool {
    children[first_index(names_of(children), x, 0)->Some_0].nullable
}

/// Whether one of the fields of a struct from index `i` on has the name
/// and a null value.
pub open spec fn null_from(names: Seq<Seq<char>>, values: Seq<Value>, x: Seq<char>, i: int) -> bool
    decreases names.len() - i,
{
    if i < 0 || i >= names.len() || i >= values.len() {
        false
    } else {
        (names[i] == x && is_null(values[i])) || null_from(names, values, x, i + 1)
    }
}

/// Whether one of the fields of a struct from index `i` on has the name.
pub open spec fn occurs_from(names: Seq<Seq<char>>, x: Seq<char>, i: int) -> bool
    decreases names.len() - i,
{
    if i < 0 || i >= names.len() {
        false
    } else {
        names[i] == x || occurs_from(names, x, i + 1)
    }
}

/// Whether the value is a record: a struct with a value for each of its
/// names, or a map with text keys where such maps are traced as structs.
pub open spec fn is_record(v: Value, options: TracingOptions) -> bool {
    match v {
        Value::Struct(names, values) => names.len() == values.len(),
        Value::Mapping(_) => options.map_as_struct && as_struct(v) is Some,
        _ => false,
    }
}

/// Whether the record has a field of the name.
pub open spec fn present_in(record: Value, x: Seq<char>) -> bool {
    as_struct(record) matches Some((names, _)) && occurs_from(names, x, 0)
}

/// Whether the record lacks a field of the name, or has one with a null value.
pub open spec fn absent_or_null(record: Value, x: Seq<char>) -> bool {
    match as_struct(record) {
        Some((names, values)) => !occurs_from(names, x, 0) || null_from(names, values, x, 0),
        None => true,
    }
}

/// Whether one of the first `k` records has a field of the name.
pub open spec fn occurs_before(items: Seq<Value>, x: Seq<char>, k: int) -> bool
    decreases k,
{
    if k <= 0 || k > items.len() {
        false
    } else {
        occurs_before(items, x, k - 1) || present_in(items[k - 1], x)
    }
}

/// Whether in one of the first `k` records the field of the name is
/// absent or null.
pub open spec fn flagged(items: Seq<Value>, x: Seq<char>, k: int) -> bool
    decreases k,
{
    if k <= 0 || k > items.len() {
        false
    } else {
        flagged(items, x, k - 1) || absent_or_null(items[k - 1], x)
    }
}

/// An observation keeps the name of a field, and makes it nullable
/// exactly if it was nullable before or the observed value is null.
pub proof fn lemma_trace_node(t: FieldModel, v: Value, options: TracingOptions)
    requires
        trace(t, v, options) is Ok,
    ensures
        trace(t, v, options)->Ok_0.name == t.name,
        trace(t, v, options)->Ok_0.nullable == (t.nullable || is_null(v)),
    decreases v,
{
    match v {
        Value::Present(inner) => {
            lemma_trace_node(t, *inner, options);
        },
        _ => {},
    }
}

/// Looking a name up from `from` on finds it where some index from there on holds it.
pub proof fn lemma_first_index(names: Seq<Seq<char>>, x: Seq<char>, from: int)
    requires
        0 <= from,
    ensures
        first_index(names, x, from) is Some <==> occurs_from(names, x, from),
        first_index(names, x, from) matches Some(k) ==> from <= k < names.len() && names[k] == x,
    decreases names.len() - from,
{
    if from < names.len() {
        lemma_first_index(names, x, from + 1);
    }
}

/// Looking a name up after one more name was added at the end.
pub proof fn lemma_first_index_push(names: Seq<Seq<char>>, added: Seq<char>, x: Seq<char>, from: int)
    requires
        0 <= from <= names.len(),
    ensures
        first_index(names.push(added), x, from) == match first_index(names, x, from) {
            Some(k) => Some(k),
            None => if added == x {
                Some(names.len() as int)
            } else {
                None
            },
        },
    decreases names.len() - from,
{
    let longer = names.push(added);
    if from < names.len() {
        assert(longer[from] == names[from]);
        lemma_first_index_push(names, added, x, from + 1);
    } else {
        assert(longer[from] == added);
        assert(first_index(longer, x, from + 1) is None);
    }
}

/// What is known of the children after one observed field was put among them.
pub proof fn lemma_put_child(children: Seq<FieldModel>, name: Seq<char>, c: FieldModel, x: Seq<char>)
    requires
        c.name == name,
    ensures
        has_child(put_child(children, name, c), x) == (has_child(children, x) || x == name),
        x != name && has_child(children, x) ==> nullable_of(put_child(children, name, c), x)
            == nullable_of(children, x),
        nullable_of(put_child(children, name, c), name) == c.nullable,
        has_child(put_child(children, name, c), name),
{
    let names = names_of(children);
    let after = put_child(children, name, c);
    lemma_first_index(names, name, 0);
    lemma_first_index(names, x, 0);
    match first_index(names, name, 0) {
        Some(j) => {
            assert(names_of(after) =~= names);
        },
        None => {
            assert(names_of(after) =~= names.push(name));
            lemma_first_index_push(names, name, x, 0);
            lemma_first_index_push(names, name, name, 0);
        },
    }
}

/// What the first field of a name is to be after the fields of a struct
/// from index `i` on were merged: nullable if it was so before, or was
/// added to a struct seen before, or one of these fields has the name and
/// a null value.
pub open spec fn nullable_after(
    children: Seq<FieldModel>,
    names: Seq<Seq<char>>,
    values: Seq<Value>,
    i: int,
    seen: bool,
    x: Seq<char>,
) -> bool {
    (if has_child(children, x) {
        nullable_of(children, x)
    } else {
        seen
    }) || null_from(names, values, x, i)
}

/// Merging the fields of a struct from index `i` on: the children after
/// it are those before it and those named by these fields, and each is
/// nullable as `nullable_after` says.
pub proof fn lemma_trace_fields(
    children: Seq<FieldModel>,
    names: Seq<Seq<char>>,
    values: Seq<Value>,
    i: int,
    seen: bool,
    options: TracingOptions,
    x: Seq<char>,
)
    requires
        0 <= i,
        names.len() == values.len(),
        trace_fields(children, names, values, i, seen, options) is Ok,
    ensures
        has_child(trace_fields(children, names, values, i, seen, options)->Ok_0, x) == (has_child(
            children,
            x,
        ) || occurs_from(names, x, i)),
        has_child(trace_fields(children, names, values, i, seen, options)->Ok_0, x) ==> nullable_of(
            trace_fields(children, names, values, i, seen, options)->Ok_0,
            x,
        ) == nullable_after(children, names, values, i, seen, x),
    decreases values.len() - i,
{
    if i < values.len() {
        let name = names[i];
        let target = match first_index(names_of(children), name, 0) {
            Some(j) => children[j],
            None => fresh(name, seen),
        };
        lemma_first_index(names_of(children), name, 0);
        lemma_trace_node(target, values[i], options);
        let c = trace(target, values[i], options)->Ok_0;
        let next = put_child(children, name, c);
        lemma_put_child(children, name, c, x);
        lemma_trace_fields(next, names, values, i + 1, seen, options, x);
    }
}

/// Marking the children that a struct lacks leaves their names alone and
/// makes the first child of a name nullable if the struct lacks the name.
pub proof fn lemma_mark_missing(children: Seq<FieldModel>, names: Seq<Seq<char>>, x: Seq<char>)
    ensures
        has_child(mark_missing(children, names), x) == has_child(children, x),
        has_child(children, x) ==> nullable_of(mark_missing(children, names), x) == (nullable_of(
            children,
            x,
        ) || !occurs_from(names, x, 0)),
{
    let after = mark_missing(children, names);
    assert(names_of(after) =~= names_of(children));
    lemma_first_index(names_of(children), x, 0);
    lemma_first_index(names, x, 0);
}

/// One record: after a record was merged into a field that is a struct or
/// was not observed yet, the children are those before and those that the
/// record names; a child is nullable if it was so before, or is new in a
/// struct seen before, or is absent or null in this record.
pub proof fn lemma_trace_record(t: FieldModel, record: Value, options: TracingOptions, x: Seq<char>)
    requires
        is_record(record, options),
        trace(t, record, options) is Ok,
    ensures
        trace(t, record, options)->Ok_0.data_type is Struct,
        has_child(trace(t, record, options)->Ok_0.children, x) == (has_child(t.children, x) || present_in(
            record,
            x,
        )),
        has_child(trace(t, record, options)->Ok_0.children, x) ==> nullable_of(
            trace(t, record, options)->Ok_0.children,
            x,
        ) == ((if has_child(t.children, x) {
            nullable_of(t.children, x)
        } else {
            t.data_type is Struct
        }) || absent_or_null(record, x)),
{
    let names = as_struct(record)->Some_0.0;
    let values = as_struct(record)->Some_0.1;
    let seen = t.data_type is Struct;
    if let Value::Mapping(entries) = record {
        lemma_keyed_is_fields(t.children, entries, 0, seen, options);
    }
    lemma_trace_fields(t.children, names, values, 0, seen, options, x);
    let merged = trace_fields(t.children, names, values, 0, seen, options)->Ok_0;
    lemma_mark_missing(merged, names, x);
}

/// A name that is not found from `from` on is at no index from there on.
pub proof fn lemma_not_found(names: Seq<Seq<char>>, x: Seq<char>, from: int, i: int)
    requires
        0 <= from <= i < names.len(),
        first_index(names, x, from) is None,
    ensures
        names[i] != x,
    decreases i - from,
{
    if from < i {
        lemma_not_found(names, x, from + 1, i);
    }
}

/// Putting an observed field among children with different names leaves
/// the names different.
pub proof fn lemma_put_child_distinct(children: Seq<FieldModel>, name: Seq<char>, c: FieldModel)
    requires
        c.name == name,
        names_differ(children),
    ensures
        names_differ(put_child(children, name, c)),
{
    let names = names_of(children);
    let after = put_child(children, name, c);
    lemma_first_index(names, name, 0);
    match first_index(names, name, 0) {
        Some(j) => {
            assert forall|a: int, b: int| 0 <= a < b < after.len() implies (#[trigger] after[a]).name
                != (#[trigger] after[b]).name by {
                assert(names[j] == name);
                assert(children[a].name != children[b].name);
            }
        },
        None => {
            assert forall|a: int, b: int| 0 <= a < b < after.len() implies (#[trigger] after[a]).name
                != (#[trigger] after[b]).name by {
                if b < children.len() {
                    assert(children[a].name != children[b].name);
                } else {
                    lemma_not_found(names, name, 0, a);
                    assert(names[a] == children[a].name);
                }
            }
        },
    }
}

/// Merging the fields of a struct leaves the names of the children different.
pub proof fn lemma_trace_fields_distinct(
    children: Seq<FieldModel>,
    names: Seq<Seq<char>>,
    values: Seq<Value>,
    i: int,
    seen: bool,
    options: TracingOptions,
)
    requires
        0 <= i,
        names_differ(children),
        trace_fields(children, names, values, i, seen, options) is Ok,
    ensures
        names_differ(trace_fields(children, names, values, i, seen, options)->Ok_0),
    decreases values.len() - i,
{
    if i < values.len() && i < names.len() {
        let name = names[i];
        let target = match first_index(names_of(children), name, 0) {
            Some(j) => children[j],
            None => fresh(name, seen),
        };
        lemma_first_index(names_of(children), name, 0);
        lemma_trace_node(target, values[i], options);
        let c = trace(target, values[i], options)->Ok_0;
        lemma_put_child_distinct(children, name, c);
        lemma_trace_fields_distinct(put_child(children, name, c), names, values, i + 1, seen, options);
    }
}

/// Merging a record leaves the names of the children different.
pub proof fn lemma_trace_record_distinct(t: FieldModel, record: Value, options: TracingOptions)
    requires
        is_record(record, options),
        names_differ(t.children),
        trace(t, record, options) is Ok,
    ensures
        names_differ(trace(t, record, options)->Ok_0.children),
{
    let names = as_struct(record)->Some_0.0;
    let values = as_struct(record)->Some_0.1;
    let seen = t.data_type is Struct;
    if let Value::Mapping(entries) = record {
        lemma_keyed_is_fields(t.children, entries, 0, seen, options);
    }
    lemma_trace_fields_distinct(t.children, names, values, 0, seen, options);
    let merged = trace_fields(t.children, names, values, 0, seen, options)->Ok_0;
    let after = mark_missing(merged, names);
    assert forall|a: int, b: int| 0 <= a < b < after.len() implies (#[trigger] after[a]).name != (
    #[trigger] after[b]).name by {
        assert(merged[a].name != merged[b].name);
    }
}

/// Merging records leaves the names of the children different.
pub proof fn lemma_trace_collection_distinct(
    root: FieldModel,
    items: Seq<Value>,
    k: int,
    options: TracingOptions,
)
    requires
        0 <= k <= items.len(),
        forall|r: int| 0 <= r < items.len() ==> is_record(#[trigger] items[r], options),
        names_differ(root.children),
        trace_items(root, items, k, options) is Ok,
    ensures
        names_differ(trace_items(root, items, k, options)->Ok_0.children),
    decreases items.len() - k,
{
    if k < items.len() {
        assert(is_record(items[k], options));
        lemma_trace_record_distinct(root, items[k], options);
        lemma_trace_collection_distinct(trace(root, items[k], options)->Ok_0, items, k + 1, options);
    }
}

/// Whether the field tree is what tracing the first `k` records leaves:
/// nothing before the first record, and after it a struct whose children
/// are the fields that occurred, each nullable exactly if it was absent or
/// null in one of the records.
pub open spec fn summarizes(root: FieldModel, items: Seq<Value>, k: int, x: Seq<char>) -> bool {
    &&& if k == 0 {
        root.data_type is Null && root.children.len() == 0
    } else {
        root.data_type is Struct
    }
    &&& has_child(root.children, x) == occurs_before(items, x, k)
    &&& has_child(root.children, x) ==> nullable_of(root.children, x) == flagged(items, x, k)
}

/// A field that did not occur in the first `k` records, of which there is
/// at least one, is absent in one of them.
pub proof fn lemma_absent_is_flagged(items: Seq<Value>, x: Seq<char>, k: int)
    requires
        0 < k <= items.len(),
        !occurs_before(items, x, k),
    ensures
        flagged(items, x, k),
    decreases k,
{
}

/// Merging the records from index `k` on into a field tree that
/// summarizes the records before leaves one that summarizes all records.
pub proof fn lemma_trace_collection(
    root: FieldModel,
    items: Seq<Value>,
    k: int,
    options: TracingOptions,
    x: Seq<char>,
)
    requires
        0 <= k <= items.len(),
        forall|r: int| 0 <= r < items.len() ==> is_record(#[trigger] items[r], options),
        summarizes(root, items, k, x),
        trace_items(root, items, k, options) is Ok,
    ensures
        summarizes(trace_items(root, items, k, options)->Ok_0, items, items.len() as int, x),
    decreases items.len() - k,
{
    if k < items.len() {
        let record = items[k];
        assert(is_record(record, options));
        lemma_trace_record(root, record, options, x);
        let next = trace(root, record, options)->Ok_0;
        lemma_first_index(names_of(root.children), x, 0);
        if k > 0 && !occurs_before(items, x, k) {
            lemma_absent_is_flagged(items, x, k);
        }
        assert(occurs_before(items, x, k + 1) == (occurs_before(items, x, k) || present_in(
            record,
            x,
        )));
        assert(flagged(items, x, k + 1) == (flagged(items, x, k) || absent_or_null(record, x)));
        if k == 0 {
            assert(!flagged(items, x, 0));
            assert(!has_child(root.children, x)) by {
                assert(names_of(root.children) =~= Seq::empty());
            }
        }
        assert(next.data_type is Struct);
        assert(has_child(next.children, x) == occurs_before(items, x, k + 1));
        if has_child(next.children, x) {
            assert(nullable_of(next.children, x) == flagged(items, x, k + 1));
        }
        assert(summarizes(next, items, k + 1, x));
        lemma_trace_collection(next, items, k + 1, options, x);
    }
}

/// One column for each name: in the field tree traced from a collection
/// of records, no two fields share a name, and there is a field of a name
/// exactly if the name occurs in some record, whether the record declares
/// it or names it as the key of a map.
pub proof fn law_one_field_per_name(
    name: Seq<char>,
    items: Seq<Value>,
    options: TracingOptions,
    x: Seq<char>,
)
    requires
        forall|r: int| 0 <= r < items.len() ==> is_record(#[trigger] items[r], options),
        trace_items(fresh(name, false), items, 0, options) is Ok,
    ensures
        names_differ(trace_items(fresh(name, false), items, 0, options)->Ok_0.children),
        has_child(trace_items(fresh(name, false), items, 0, options)->Ok_0.children, x)
            == occurs_before(items, x, items.len() as int),
{
    let root = fresh(name, false);
    lemma_trace_collection_distinct(root, items, 0, options);
    law_nullability(name, items, options, x);
}

/// Nullability inference: in the field tree traced from a collection of
/// records, the fields are those that occur in some record, and a field is
/// nullable exactly if it is absent or null in at least one record; a
/// field that is present and not null in every record is not nullable.
pub proof fn law_nullability(
    name: Seq<char>,
    items: Seq<Value>,
    options: TracingOptions,
    x: Seq<char>,
)
    requires
        forall|r: int| 0 <= r < items.len() ==> is_record(#[trigger] items[r], options),
        trace_items(fresh(name, false), items, 0, options) is Ok,
    ensures
        has_child(trace_items(fresh(name, false), items, 0, options)->Ok_0.children, x)
            == occurs_before(items, x, items.len() as int),
        has_child(trace_items(fresh(name, false), items, 0, options)->Ok_0.children, x) ==> nullable_of(
            trace_items(fresh(name, false), items, 0, options)->Ok_0.children,
            x,
        ) == flagged(items, x, items.len() as int),
{
    let root = fresh(name, false);
    assert(names_of(root.children) =~= Seq::empty());
    lemma_trace_collection(root, items, 0, options, x);
}

} // verus!
