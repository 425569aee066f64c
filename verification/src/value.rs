//! Values as mathematical trees, and the correspondence between a value and
//! the events of its traversal.
use vstd::prelude::*;
use crate::event::{Event, EventView, IntKind, views};

verus! {

/// A value: what a balanced run of events describes.
pub enum Value {
    /// An absent optional value.
    Null,
    /// A present optional value.
    Present(Box<Value>),
    Bool(bool),
    Int(IntKind, int),
    F32(u32),
    F64(u64),
    Str(Seq<char>),
    Bytes(Seq<u8>),
    /// A sequence of items.
    Sequence(Seq<Value>),
    /// A struct: the names of its fields and, at the same indices, their values.
    Struct(Seq<Seq<char>>, Seq<Value>),
    /// A map: its entries, each a key and a value.
    Mapping(Seq<(Value, Value)>),
}

/// The value that starts at `pos`, and the position after its last event.
pub open spec fn parse_value(ev: Seq<EventView>, pos: int) -> Option<(Value, int)>
    decreases ev.len() - pos, 0int,
{
    if pos < 0 || pos >= ev.len() {
        None
    } else {
        match ev[pos] {
            EventView::StartSequence => match parse_items(ev, pos + 1) {
                Some((items, end)) => Some((Value::Sequence(items), end)),
                None => None,
            },
            EventView::StartStruct => match parse_fields(ev, pos + 1) {
                Some((names, values, end)) => Some((Value::Struct(names, values), end)),
                None => None,
            },
            EventView::StartMap => match parse_entries(ev, pos + 1) {
                Some((entries, end)) => Some((Value::Mapping(entries), end)),
                None => None,
            },
            EventView::EndSequence
            | EventView::EndStruct
            | EventView::EndMap
            | EventView::FieldName(_) => None,
            EventView::Present => match parse_value(ev, pos + 1) {
                Some((v, end)) => Some((Value::Present(Box::new(v)), end)),
                None => None,
            },
            EventView::Null => Some((Value::Null, pos + 1)),
            EventView::Bool(b) => Some((Value::Bool(b), pos + 1)),
            EventView::Int(k, x) => Some((Value::Int(k, x), pos + 1)),
            EventView::F32(x) => Some((Value::F32(x), pos + 1)),
            EventView::F64(x) => Some((Value::F64(x), pos + 1)),
            EventView::Str(s) => Some((Value::Str(s), pos + 1)),
            EventView::Bytes(b) => Some((Value::Bytes(b), pos + 1)),
        }
    }
}

/// The items from `pos` up to the end of the enclosing sequence, and the
/// position after the event that ends it.
pub open spec fn parse_items(ev: Seq<EventView>, pos: int) -> Option<(Seq<Value>, int)>
    decreases ev.len() - pos, 1int,
{
    if pos < 0 || pos >= ev.len() {
        None
    } else if ev[pos] is EndSequence {
        Some((Seq::empty(), pos + 1))
    } else {
        match parse_value(ev, pos) {
            Some((v, next)) => if next <= pos || next > ev.len() {
                None
            } else {
                match parse_items(ev, next) {
                    Some((rest, end)) => Some((seq![v] + rest, end)),
                    None => None,
                }
            },
            None => None,
        }
    }
}

/// The fields from `pos` up to the end of the enclosing struct.
pub open spec fn parse_fields(ev: Seq<EventView>, pos: int) -> Option<
    (Seq<Seq<char>>, Seq<Value>, int),
>
    decreases ev.len() - pos, 1int,
{
    if pos < 0 || pos >= ev.len() {
        None
    } else {
        match ev[pos] {
            EventView::EndStruct => Some((Seq::empty(), Seq::empty(), pos + 1)),
            EventView::FieldName(name) => match parse_value(ev, pos + 1) {
                Some((v, next)) => if next <= pos || next > ev.len() {
                    None
                } else {
                    match parse_fields(ev, next) {
                        Some((names, values, end)) => Some(
                            (seq![name] + names, seq![v] + values, end),
                        ),
                        None => None,
                    }
                },
                None => None,
            },
            _ => None,
        }
    }
}

/// The entries from `pos` up to the end of the enclosing map.
pub open spec fn parse_entries(ev: Seq<EventView>, pos: int) -> Option<
    (Seq<(Value, Value)>, int),
>
    decreases ev.len() - pos, 1int,
{
    if pos < 0 || pos >= ev.len() {
        None
    } else if ev[pos] is EndMap {
        Some((Seq::empty(), pos + 1))
    } else {
        match parse_value(ev, pos) {
            Some((k, mid)) => if mid <= pos || mid > ev.len() {
                None
            } else {
                match parse_value(ev, mid) {
                    Some((v, next)) => if next <= mid || next > ev.len() {
                        None
                    } else {
                        match parse_entries(ev, next) {
                            Some((entries, end)) => Some((seq![(k, v)] + entries, end)),
                            None => None,
                        }
                    },
                    None => None,
                }
            },
            None => None,
        }
    }
}

/// The events of the traversal of a value.
pub open spec fn unparse(v: Value) -> Seq<EventView>
    decreases v, 0int,
{
    match v {
        Value::Null => seq![EventView::Null],
        Value::Present(inner) => seq![EventView::Present] + unparse(*inner),
        Value::Bool(b) => seq![EventView::Bool(b)],
        Value::Int(k, x) => seq![EventView::Int(k, x)],
        Value::F32(x) => seq![EventView::F32(x)],
        Value::F64(x) => seq![EventView::F64(x)],
        Value::Str(s) => seq![EventView::Str(s)],
        Value::Bytes(b) => seq![EventView::Bytes(b)],
        Value::Sequence(items) => seq![EventView::StartSequence] + unparse_items(items, 0)
            + seq![EventView::EndSequence],
        Value::Struct(names, values) => seq![EventView::StartStruct] + unparse_fields(
            names,
            values,
            0,
        ) + seq![EventView::EndStruct],
        Value::Mapping(entries) => seq![EventView::StartMap] + unparse_entries(entries, 0)
            + seq![EventView::EndMap],
    }
}

/// The events of the items from index `from` on.
pub open spec fn unparse_items(items: Seq<Value>, from: int) -> Seq<EventView>
    decreases items, items.len() - from,
{
    if from < 0 || from >= items.len() {
        Seq::empty()
    } else {
        unparse(items[from]) + unparse_items(items, from + 1)
    }
}

/// The events of the fields from index `from` on.
pub open spec fn unparse_fields(names: Seq<Seq<char>>, values: Seq<Value>, from: int) -> Seq<
    EventView,
>
    decreases values, values.len() - from,
{
    if from < 0 || from >= values.len() || from >= names.len() {
        Seq::empty()
    } else {
        seq![EventView::FieldName(names[from])] + unparse(values[from]) + unparse_fields(
            names,
            values,
            from + 1,
        )
    }
}

/// The events of the entries from index `from` on.
pub open spec fn unparse_entries(entries: Seq<(Value, Value)>, from: int) -> Seq<EventView>
    decreases entries, entries.len() - from,
{
    if from < 0 || from >= entries.len() {
        Seq::empty()
    } else {
        unparse(entries[from].0) + unparse(entries[from].1) + unparse_entries(entries, from + 1)
    }
}

/// The position after the value that starts at `pos`.
pub open spec fn value_end_at(ev: Seq<EventView>, pos: int) -> Option<int> {
    match parse_value(ev, pos) {
        Some((_, end)) => Some(end),
        None => None,
    }
}

pub open spec fn items_end_at(ev: Seq<EventView>, pos: int) -> Option<int> {
    match parse_items(ev, pos) {
        Some((_, end)) => Some(end),
        None => None,
    }
}

pub open spec fn fields_end_at(ev: Seq<EventView>, pos: int) -> Option<int> {
    match parse_fields(ev, pos) {
        Some((_, _, end)) => Some(end),
        None => None,
    }
}

pub open spec fn entries_end_at(ev: Seq<EventView>, pos: int) -> Option<int> {
    match parse_entries(ev, pos) {
        Some((_, end)) => Some(end),
        None => None,
    }
}

/// A value takes at least one event and ends within the events.
pub proof fn lemma_parse_bounds(ev: Seq<EventView>, pos: int)
    ensures
        parse_value(ev, pos) matches Some((_, end)) ==> 0 <= pos < end <= ev.len(),
        parse_items(ev, pos) matches Some((_, end)) ==> 0 <= pos < end <= ev.len(),
        parse_fields(ev, pos) matches Some((names, values, end)) ==> 0 <= pos < end <= ev.len()
            && names.len() == values.len(),
        parse_entries(ev, pos) matches Some((_, end)) ==> 0 <= pos < end <= ev.len(),
    decreases ev.len() - pos,
{
    if 0 <= pos < ev.len() {
        lemma_parse_bounds(ev, pos + 1);
        if let Some((_, next)) = parse_value(ev, pos) {
            if next > pos {
                lemma_parse_bounds(ev, next);
                if let Some((_, after)) = parse_value(ev, next) {
                    if after > next {
                        lemma_parse_bounds(ev, after);
                    }
                }
            }
        }
        if let Some((_, next)) = parse_value(ev, pos + 1) {
            if next > pos {
                lemma_parse_bounds(ev, next);
            }
        }
    }
}

/// The position after the value that starts at `pos`, or `None` where the
/// events from `pos` on do not start with a balanced value.
#[verifier::loop_isolation(false)]
pub fn value_end(events: &Vec<Event>, pos: usize) -> (r: Option<usize>)
    ensures
        match r {
            Some(end) => value_end_at(views(events@), pos as int) == Some(end as int) && pos < end
                <= events@.len(),
            None => value_end_at(views(events@), pos as int) is None,
        },
    decreases events@.len() - pos,
{
    let ghost ev = views(events@);
    proof {
        lemma_parse_bounds(ev, pos as int);
    }
    if pos >= events.len() {
        return None;
    }
    match &events[pos] {
        Event::StartSequence => {
            let mut p: usize = pos + 1;
            loop
                invariant
                    pos < p <= events@.len(),
                    ev == views(events@),
                    items_end_at(ev, pos + 1) == items_end_at(ev, p as int),
                decreases events@.len() - p,
            {
                proof {
                    lemma_parse_bounds(ev, p as int);
                }
                if p >= events.len() {
                    return None;
                }
                if let Event::EndSequence = &events[p] {
                    return Some(p + 1);
                }
                match value_end(events, p) {
                    Some(next) => {
                        p = next;
                    },
                    None => {
                        return None;
                    },
                }
            }
        },
        Event::StartStruct => {
            let mut p: usize = pos + 1;
            loop
                invariant
                    pos < p <= events@.len(),
                    ev == views(events@),
                    fields_end_at(ev, pos + 1) == fields_end_at(ev, p as int),
                decreases events@.len() - p,
            {
                proof {
                    lemma_parse_bounds(ev, p as int);
                }
                if p >= events.len() {
                    return None;
                }
                match &events[p] {
                    Event::EndStruct => {
                        return Some(p + 1);
                    },
                    Event::FieldName(_) => {
                        match value_end(events, p + 1) {
                            Some(next) => {
                                p = next;
                            },
                            None => {
                                return None;
                            },
                        }
                    },
                    _ => {
                        return None;
                    },
                }
            }
        },
        Event::StartMap => {
            let mut p: usize = pos + 1;
            loop
                invariant
                    pos < p <= events@.len(),
                    ev == views(events@),
                    entries_end_at(ev, pos + 1) == entries_end_at(ev, p as int),
                decreases events@.len() - p,
            {
                proof {
                    lemma_parse_bounds(ev, p as int);
                }
                if p >= events.len() {
                    return None;
                }
                if let Event::EndMap = &events[p] {
                    return Some(p + 1);
                }
                let mid = match value_end(events, p) {
                    Some(mid) => mid,
                    None => {
                        return None;
                    },
                };
                proof {
                    lemma_parse_bounds(ev, mid as int);
                }
                match value_end(events, mid) {
                    Some(next) => {
                        p = next;
                    },
                    None => {
                        return None;
                    },
                }
            }
        },
        Event::EndSequence | Event::EndStruct | Event::EndMap | Event::FieldName(_) => None,
        Event::Present => value_end(events, pos + 1),
        _ => Some(pos + 1),
    }
}

/// The events from which a value was read are the events of the value.
pub proof fn lemma_unparse_parse(ev: Seq<EventView>, pos: int)
    requires
        parse_value(ev, pos) is Some,
    ensures
        ev.subrange(pos, parse_value(ev, pos)->Some_0.1) == unparse(parse_value(ev, pos)->Some_0.0),
    decreases ev.len() - pos, 0int,
{
    lemma_parse_bounds(ev, pos);
    lemma_parse_bounds(ev, pos + 1);
    let (v, end) = parse_value(ev, pos)->Some_0;
    assert(ev.subrange(pos, end) =~= seq![ev[pos]] + ev.subrange(pos + 1, end));
    match ev[pos] {
        EventView::StartSequence => {
            lemma_unparse_parse_items(ev, pos + 1);
            let items = parse_items(ev, pos + 1)->Some_0.0;
            assert(ev.subrange(pos, end) =~= unparse(Value::Sequence(items)));
        },
        EventView::StartStruct => {
            lemma_unparse_parse_fields(ev, pos + 1);
            let parsed = parse_fields(ev, pos + 1)->Some_0;
            assert(ev.subrange(pos, end) =~= unparse(Value::Struct(parsed.0, parsed.1)));
        },
        EventView::StartMap => {
            lemma_unparse_parse_entries(ev, pos + 1);
            let entries = parse_entries(ev, pos + 1)->Some_0.0;
            assert(ev.subrange(pos, end) =~= unparse(Value::Mapping(entries)));
        },
        EventView::Present => {
            lemma_unparse_parse(ev, pos + 1);
            let inner = parse_value(ev, pos + 1)->Some_0.0;
            assert(ev.subrange(pos, end) =~= unparse(Value::Present(Box::new(inner))));
        },
        _ => {
            assert(ev.subrange(pos, end) =~= unparse(v));
        },
    }
}

/// The events from which items were read are the events of the items and
/// the end of the sequence.
pub proof fn lemma_unparse_parse_items(ev: Seq<EventView>, pos: int)
    requires
        parse_items(ev, pos) is Some,
    ensures
        ev.subrange(pos, parse_items(ev, pos)->Some_0.1) == unparse_items(
            parse_items(ev, pos)->Some_0.0,
            0,
        ) + seq![EventView::EndSequence],
    decreases ev.len() - pos, 1int,
{
    lemma_parse_bounds(ev, pos);
    let (items, end) = parse_items(ev, pos)->Some_0;
    if ev[pos] is EndSequence {
        assert(unparse_items(items, 0) =~= Seq::empty());
        assert(ev.subrange(pos, end) =~= seq![EventView::EndSequence]);
    } else {
        let (v, next) = parse_value(ev, pos)->Some_0;
        lemma_parse_bounds(ev, next);
        lemma_unparse_parse(ev, pos);
        lemma_unparse_parse_items(ev, next);
        let rest = parse_items(ev, next)->Some_0.0;
        lemma_unparse_prepend_items(v, rest);
        assert(ev.subrange(pos, end) =~= ev.subrange(pos, next) + ev.subrange(next, end));
    }
}

/// The events from which fields were read are the events of the fields and
/// the end of the struct.
pub proof fn lemma_unparse_parse_fields(ev: Seq<EventView>, pos: int)
    requires
        parse_fields(ev, pos) is Some,
    ensures
        ev.subrange(pos, parse_fields(ev, pos)->Some_0.2) == unparse_fields(
            parse_fields(ev, pos)->Some_0.0,
            parse_fields(ev, pos)->Some_0.1,
            0,
        ) + seq![EventView::EndStruct],
    decreases ev.len() - pos, 1int,
{
    lemma_parse_bounds(ev, pos);
    lemma_parse_bounds(ev, pos + 1);
    let (names, values, end) = parse_fields(ev, pos)->Some_0;
    if ev[pos] is EndStruct {
        assert(unparse_fields(names, values, 0) =~= Seq::empty());
        assert(ev.subrange(pos, end) =~= seq![EventView::EndStruct]);
    } else {
        let name = ev[pos]->FieldName_0;
        let (v, next) = parse_value(ev, pos + 1)->Some_0;
        lemma_parse_bounds(ev, next);
        lemma_unparse_parse(ev, pos + 1);
        lemma_unparse_parse_fields(ev, next);
        let rest = parse_fields(ev, next)->Some_0;
        lemma_unparse_prepend_fields(name, v, rest.0, rest.1);
        assert(ev.subrange(pos, end) =~= seq![ev[pos]] + ev.subrange(pos + 1, next)
            + ev.subrange(next, end));
    }
}

/// The events from which entries were read are the events of the entries
/// and the end of the map.
pub proof fn lemma_unparse_parse_entries(ev: Seq<EventView>, pos: int)
    requires
        parse_entries(ev, pos) is Some,
    ensures
        ev.subrange(pos, parse_entries(ev, pos)->Some_0.1) == unparse_entries(
            parse_entries(ev, pos)->Some_0.0,
            0,
        ) + seq![EventView::EndMap],
    decreases ev.len() - pos, 1int,
{
    lemma_parse_bounds(ev, pos);
    let (entries, end) = parse_entries(ev, pos)->Some_0;
    if ev[pos] is EndMap {
        assert(unparse_entries(entries, 0) =~= Seq::empty());
        assert(ev.subrange(pos, end) =~= seq![EventView::EndMap]);
    } else {
        let (k, mid) = parse_value(ev, pos)->Some_0;
        lemma_parse_bounds(ev, mid);
        let (v, next) = parse_value(ev, mid)->Some_0;
        lemma_parse_bounds(ev, next);
        lemma_unparse_parse(ev, pos);
        lemma_unparse_parse(ev, mid);
        lemma_unparse_parse_entries(ev, next);
        let rest = parse_entries(ev, next)->Some_0.0;
        lemma_unparse_prepend_entries((k, v), rest);
        assert(ev.subrange(pos, end) =~= ev.subrange(pos, mid) + ev.subrange(mid, next)
            + ev.subrange(next, end));
    }
}

/// The events of items after one more item was put in front of them.
pub proof fn lemma_unparse_prepend_items(v: Value, rest: Seq<Value>)
    ensures
        unparse_items(seq![v] + rest, 0) == unparse(v) + unparse_items(rest, 0),
{
    let all = seq![v] + rest;
    lemma_unparse_shift_items(v, rest, 0);
    assert(all[0] == v);
}

proof fn lemma_unparse_shift_items(v: Value, rest: Seq<Value>, from: int)
    requires
        0 <= from,
    ensures
        unparse_items(seq![v] + rest, from + 1) == unparse_items(rest, from),
    decreases rest.len() - from,
{
    let all = seq![v] + rest;
    if from < rest.len() {
        assert(all[from + 1] == rest[from]);
        lemma_unparse_shift_items(v, rest, from + 1);
    }
}

/// The events of fields after one more field was put in front of them.
pub proof fn lemma_unparse_prepend_fields(
    name: Seq<char>,
    v: Value,
    names: Seq<Seq<char>>,
    values: Seq<Value>,
)
    requires
        names.len() == values.len(),
    ensures
        unparse_fields(seq![name] + names, seq![v] + values, 0) == seq![
            EventView::FieldName(name),
        ] + unparse(v) + unparse_fields(names, values, 0),
{
    lemma_unparse_shift_fields(name, v, names, values, 0);
    assert((seq![name] + names)[0] == name);
    assert((seq![v] + values)[0] == v);
}

proof fn lemma_unparse_shift_fields(
    name: Seq<char>,
    v: Value,
    names: Seq<Seq<char>>,
    values: Seq<Value>,
    from: int,
)
    requires
        0 <= from,
        names.len() == values.len(),
    ensures
        unparse_fields(seq![name] + names, seq![v] + values, from + 1) == unparse_fields(
            names,
            values,
            from,
        ),
    decreases values.len() - from,
{
    if from < values.len() {
        assert((seq![name] + names)[from + 1] == names[from]);
        assert((seq![v] + values)[from + 1] == values[from]);
        lemma_unparse_shift_fields(name, v, names, values, from + 1);
    }
}

/// The events of entries after one more entry was put in front of them.
pub proof fn lemma_unparse_prepend_entries(entry: (Value, Value), rest: Seq<(Value, Value)>)
    ensures
        unparse_entries(seq![entry] + rest, 0) == unparse(entry.0) + unparse(entry.1)
            + unparse_entries(rest, 0),
{
    lemma_unparse_shift_entries(entry, rest, 0);
    assert((seq![entry] + rest)[0] == entry);
}

proof fn lemma_unparse_shift_entries(entry: (Value, Value), rest: Seq<(Value, Value)>, from: int)
    requires
        0 <= from,
    ensures
        unparse_entries(seq![entry] + rest, from + 1) == unparse_entries(rest, from),
    decreases rest.len() - from,
{
    if from < rest.len() {
        assert((seq![entry] + rest)[from + 1] == rest[from]);
        lemma_unparse_shift_entries(entry, rest, from + 1);
    }
}

} // verus!
