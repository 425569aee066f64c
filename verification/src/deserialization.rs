//! Deserialization: the value that a row of the buffers of a field tree
//! holds, the check that buffers are consistent, and the source that turns
//! rows back into events.
use vstd::prelude::*;
use crate::buffers::{Buffers, Cell, Column, ColumnKind, Scalar};
use crate::dates::{format_naive, format_utc, naive_text, utc_text};
use crate::error::{Error, ErrorKind};
use crate::event::{Event, EventView, IntKind, views};
use crate::field::{models, FieldModel, GenericDataType, GenericField};
use crate::layout::{
    child_base, count, head, layout, lemma_child_layout, lemma_shape_child, own_index,
    own_operation, shape_ok, slot_ok, supported, Operation,
};
use crate::serialization::{buffer_count, names_of, own_op};
use crate::value::{unparse, unparse_entries, unparse_fields, unparse_items, Value};

verus! {

/// Whether the offsets of the rows up to `n` start at 0 or above and never decrease.
pub open spec fn monotone(col: Column, n: int) -> bool {
    &&& 0 <= col.number(0)
    &&& forall|i: int, j: int|
        #![trigger col.number(i), col.number(j)]
        0 <= i <= j <= n ==> col.number(i) <= col.number(j)
}

/// Whether the buffers of the field hold exactly `n` rows, or what is wrong
/// with them. `miss` is the failure to report for a buffer of the wrong
/// length; below a list it is that an offset is out of range.
pub open spec fn check(f: FieldModel, base: int, cols: Seq<Column>, n: int, miss: ErrorKind) -> Result<
    (),
    ErrorKind,
>
    decreases f, 1int, 0int,
{
    let own = own_index(f, base);
    if f.nullable && cols[base].cells.len() != n {
        Err(miss)
    } else {
        match own_operation(f.data_type) {
            Some(Operation::PushOffset) => if cols[own].cells.len() != n + 1 {
                Err(miss)
            } else if !monotone(cols[own], n) {
                Err(ErrorKind::NonMonotonicOffsets)
            } else {
                check_children(f, base, 0, cols, cols[own].number(n), ErrorKind::OffsetOutOfRange)
            },
            Some(_) => if cols[own].cells.len() != n {
                Err(miss)
            } else {
                Ok(())
            },
            None => check_children(f, base, 0, cols, n, miss),
        }
    }
}

/// The check of the children from index `j` on.
pub open spec fn check_children(
    f: FieldModel,
    base: int,
    j: int,
    cols: Seq<Column>,
    n: int,
    miss: ErrorKind,
) -> Result<(), ErrorKind>
    decreases f, 0int, f.children.len() - j,
{
    if j < 0 || j >= f.children.len() {
        Ok(())
    } else {
        match check(f.children[j], child_base(f, base, j), cols, n, miss) {
            Ok(()) => check_children(f, base, j + 1, cols, n, miss),
            Err(e) => Err(e),
        }
    }
}

/// Whether the buffers of the field hold exactly `n` rows: every validity
/// and value buffer has `n` cells, every offset buffer one more, offsets
/// never decrease, and the children of a list hold as many rows as its last
/// offset says.
pub open spec fn columns_ok(f: FieldModel, base: int, cols: Seq<Column>, n: int) -> bool {
    check(f, base, cols, n, ErrorKind::LengthMismatch) is Ok
}

/// The failure to report for a buffer of the wrong length does not decide
/// whether the check passes.
pub proof fn lemma_check_miss(
    f: FieldModel,
    base: int,
    cols: Seq<Column>,
    n: int,
    m1: ErrorKind,
    m2: ErrorKind,
)
    ensures
        check(f, base, cols, n, m1) is Ok <==> check(f, base, cols, n, m2) is Ok,
    decreases f, 1int, 0int,
{
    match own_operation(f.data_type) {
        Some(Operation::PushOffset) => {},
        Some(_) => {},
        None => {
            lemma_check_children_miss(f, base, 0, cols, n, m1, m2);
        },
    }
}

pub proof fn lemma_check_children_miss(
    f: FieldModel,
    base: int,
    j: int,
    cols: Seq<Column>,
    n: int,
    m1: ErrorKind,
    m2: ErrorKind,
)
    ensures
        check_children(f, base, j, cols, n, m1) is Ok <==> check_children(f, base, j, cols, n, m2)
            is Ok,
    decreases f, 0int, f.children.len() - j,
{
    if 0 <= j < f.children.len() {
        lemma_check_miss(f.children[j], child_base(f, base, j), cols, n, m1, m2);
        lemma_check_children_miss(f, base, j + 1, cols, n, m1, m2);
    }
}

/// Where the check of the children passes, it passes for each child.
pub proof fn lemma_check_child(
    f: FieldModel,
    base: int,
    from: int,
    j: int,
    cols: Seq<Column>,
    n: int,
    miss: ErrorKind,
)
    requires
        0 <= from <= j < f.children.len(),
        check_children(f, base, from, cols, n, miss) is Ok,
    ensures
        columns_ok(f.children[j], child_base(f, base, j), cols, n),
    decreases j - from,
{
    if from < j {
        lemma_check_child(f, base, from + 1, j, cols, n, miss);
    } else {
        lemma_check_miss(
            f.children[j],
            child_base(f, base, j),
            cols,
            n,
            miss,
            ErrorKind::LengthMismatch,
        );
    }
}

/// The number of rows that the children of `f` hold where `f` holds `n`:
/// for a list or map its last offset, else `n`.
pub open spec fn child_rows(f: FieldModel, base: int, cols: Seq<Column>, n: int) -> int {
    if own_operation(f.data_type) == Some(Operation::PushOffset) {
        cols[own_index(f, base)].number(n)
    } else {
        n
    }
}

/// What consistent buffers of a field say of its own buffers and of its children.
pub proof fn lemma_columns_ok(f: FieldModel, base: int, cols: Seq<Column>, n: int, j: int)
    requires
        columns_ok(f, base, cols, n),
    ensures
        f.nullable ==> cols[base].cells.len() == n,
        match own_operation(f.data_type) {
            Some(Operation::PushOffset) => cols[own_index(f, base)].cells.len() == n + 1
                && monotone(cols[own_index(f, base)], n),
            Some(_) => cols[own_index(f, base)].cells.len() == n,
            None => true,
        },
        0 <= j < f.children.len() && !(own_operation(f.data_type) matches Some(
            Operation::PushValue(_),
        )) ==> columns_ok(
            f.children[j],
            child_base(f, base, j),
            cols,
            child_rows(f, base, cols, n),
        ),
{
    if 0 <= j < f.children.len() {
        match own_operation(f.data_type) {
            Some(Operation::PushOffset) => {
                lemma_check_child(
                    f,
                    base,
                    0,
                    j,
                    cols,
                    cols[own_index(f, base)].number(n),
                    ErrorKind::OffsetOutOfRange,
                );
            },
            Some(_) => {},
            None => {
                lemma_check_child(f, base, 0, j, cols, n, ErrorKind::LengthMismatch);
            },
        }
    }
}

/// The value that a cell of a leaf of the given type holds. A date that
/// cannot be written as text reads as null.
pub open spec fn leaf_of(data_type: GenericDataType, cell: Cell) -> Value {
    match (data_type, cell) {
        (GenericDataType::Bool, Cell::Bit(b)) => Value::Bool(b),
        (GenericDataType::F32, Cell::Int(x)) => Value::F32(x as u32),
        (GenericDataType::F64, Cell::Int(x)) => Value::F64(x as u64),
        (GenericDataType::Utf8, Cell::Text(s)) => Value::Str(s),
        (GenericDataType::Date64, Cell::Int(x)) => Value::Int(IntKind::I64, x),
        (GenericDataType::Date64NaiveStr, Cell::Int(x)) => match naive_text(x as i64) {
            Some(s) => Value::Str(s),
            None => Value::Null,
        },
        (GenericDataType::Date64UtcStr, Cell::Int(x)) => match utc_text(x as i64) {
            Some(s) => Value::Str(s),
            None => Value::Null,
        },
        (_, Cell::Int(x)) => match data_type.int_kind() {
            Some(k) => Value::Int(k, x),
            None => Value::Null,
        },
        _ => Value::Null,
    }
}

/// The value in a row of the field whose first buffer has index `base`.
///
/// A row of a nullable field is null where its validity says so, else a
/// present value.
pub open spec fn de(f: FieldModel, base: int, cols: Seq<Column>, row: int) -> Value
    decreases f, 1int,
{
    if f.nullable {
        if cols[base].bit(row) {
            Value::Present(Box::new(de_inner(f, base, cols, row)))
        } else {
            Value::Null
        }
    } else {
        de_inner(f, base, cols, row)
    }
}

/// The value in a row that is not null, by the type of the field.
pub open spec fn de_inner(f: FieldModel, base: int, cols: Seq<Column>, row: int) -> Value
    decreases f, 0int,
{
    let own = own_index(f, base);
    match f.data_type {
        GenericDataType::Struct => Value::Struct(
            names_of(f.children),
            Seq::new(
                f.children.len(),
                |j: int|
                    if 0 <= j < f.children.len() {
                        de(f.children[j], child_base(f, base, j), cols, row)
                    } else {
                        Value::Null
                    },
            ),
        ),
        GenericDataType::List => if f.children.len() >= 1 {
            let from = cols[own].number(row);
            let to = cols[own].number(row + 1);
            Value::Sequence(
                Seq::new(
                    (to - from) as nat,
                    |k: int| de(f.children[0], child_base(f, base, 0), cols, from + k),
                ),
            )
        } else {
            Value::Null
        },
        GenericDataType::Mapping => if f.children.len() >= 2 {
            let from = cols[own].number(row);
            let to = cols[own].number(row + 1);
            Value::Mapping(
                Seq::new(
                    (to - from) as nat,
                    |k: int|
                        (
                            de(f.children[0], child_base(f, base, 0), cols, from + k),
                            de(f.children[1], child_base(f, base, 1), cols, from + k),
                        ),
                ),
            )
        } else {
            Value::Null
        },
        _ => leaf_of(f.data_type, cols[own].cells[row]),
    }
}

/// What a check that stands for `expected` has to return.
pub open spec fn check_result(expected: Result<(), ErrorKind>, r: Result<(), Error>) -> bool {
    match expected {
        Ok(()) => r is Ok,
        Err(k) => r matches Err(e) && e.kind == k,
    }
}

/// The integer in a cell, or 0 for a cell that holds none.
fn scalar_int(item: &Scalar) -> (x: i128)
    ensures
        item@ matches Cell::Int(y) ==> x == y,
{
    match item {
        Scalar::Int(x) => *x,
        _ => 0,
    }
}

/// Whether the offsets in the buffer `own` never decrease.
fn offsets_monotone(bufs: &Buffers, own: usize, n: usize) -> (r: bool)
    requires
        own < bufs@.len(),
        bufs@[own as int].cells.len() == n + 1,
        bufs@[own as int].kind == ColumnKind::Offsets,
    ensures
        r == monotone(bufs@[own as int], n as int),
{
    let ghost col = bufs@[own as int];
    proof {
        bufs.lemma_typed();
        assert(col.typed());
        assert(ColumnKind::Offsets.fits(col.cells[0]));
    }
    let mut i: usize = 0;
    while i < n
        invariant
            i <= n,
            own < bufs@.len(),
            col == bufs@[own as int],
            col.cells.len() == n + 1,
            col.typed(),
            col.kind == ColumnKind::Offsets,
            0 <= col.number(0),
            forall|a: int, b: int| 0 <= a <= b <= i ==> col.number(a) <= col.number(b),
        decreases n - i,
    {
        let x = scalar_int(&bufs.get(own, i));
        let y = scalar_int(&bufs.get(own, i + 1));
        proof {
            assert(ColumnKind::Offsets.fits(col.cells[i as int]));
            assert(ColumnKind::Offsets.fits(col.cells[i + 1]));
        }
        if x > y {
            assert(!(col.number(i as int) <= col.number(i + 1)));
            return false;
        }
        assert forall|a: int, b: int| 0 <= a <= b <= i + 1 implies col.number(a) <= col.number(
            b,
        ) by {
            if b == i + 1 && a <= i {
                assert(col.number(a) <= col.number(i as int));
            }
        }
        i = i + 1;
    }
    true
}

/// Checks that the buffers of the field hold exactly `n` rows.
#[verifier::loop_isolation(false)]
pub fn check_columns(f: &GenericField, base: usize, bufs: &Buffers, n: usize, miss: ErrorKind) -> (r:
    Result<(), Error>)
    requires
        shape_ok(f@, base as int, bufs@),
    ensures
        check_result(check(f@, base as int, bufs@, n as int, miss), r),
    decreases f@,
{
    let buffers = bufs.len();
    proof {
        f.lemma_view();
        bufs.lemma_typed();
        assert(count(f@) >= head(f@).len());
        if count(f@) > 0 {
            assert(slot_ok(layout(f@)[0], bufs@[base as int + 0]));
        }
        if count(f@) > 1 {
            assert(slot_ok(layout(f@)[1], bufs@[base as int + 1]));
        }
    }
    let mut own = base;
    if f.nullable {
        if bufs.rows(base) != n {
            return Err(Error::new(miss));
        }
        own = base + 1;
    }
    let mut rows = n;
    let mut below = miss;
    let mut cb = own;
    match own_op(f.data_type) {
        Some(Operation::PushOffset) => {
            let held = bufs.rows(own);
            if n == usize::MAX || held != n + 1 {
                return Err(Error::new(miss));
            }
            if !offsets_monotone(bufs, own, n) {
                return Err(Error::new(ErrorKind::NonMonotonicOffsets));
            }
            proof {
                assert(bufs@[own as int].typed());
                assert(ColumnKind::Offsets.fits(bufs@[own as int].cells[n as int]));
            }
            rows = scalar_int(&bufs.get(own, n)) as usize;
            below = ErrorKind::OffsetOutOfRange;
            cb = own + 1;
        },
        Some(_) => {
            if bufs.rows(own) != n {
                return Err(Error::new(miss));
            }
            return Ok(());
        },
        None => {},
    }
    let mut j: usize = 0;
    while j < f.children.len()
        invariant
            j <= f.children@.len(),
            f@.children == models(f.children@),
            shape_ok(f@, base as int, bufs@),
            bufs@.len() <= usize::MAX,
            cb == child_base(f@, base as int, j as int),
            check_children(f@, base as int, 0, bufs@, rows as int, below) == check_children(
                f@,
                base as int,
                j as int,
                bufs@,
                rows as int,
                below,
            ),
        decreases f.children@.len() - j,
    {
        proof {
            lemma_shape_child(f@, base as int, bufs@, j as int);
            lemma_child_layout(f@, base as int, j as int);
            assert(f@.children[j as int] == f.children@[j as int]@);
        }
        match check_columns(&f.children[j], cb, bufs, rows, below) {
            Ok(()) => {},
            Err(e) => {
                return Err(e.within(&f.children[j].name));
            },
        }
        cb = cb + buffer_count(&f.children[j]);
        j = j + 1;
    }
    Ok(())
}

/// Adds an event at the end.
fn emit_event(out: &mut Vec<Event>, event: Event)
    ensures
        views(final(out)@) == views(old(out)@).push(event@),
        final(out)@.len() == old(out)@.len() + 1,
{
    let ghost before = out@;
    let ghost e = event@;
    out.push(event);
    assert(views(out@) =~= views(before).push(e));
}

/// The event for a cell of a leaf of the given type.
fn leaf_event(data_type: GenericDataType, item: Scalar) -> (e: Event)
    requires
        own_operation(data_type) matches Some(Operation::PushValue(k)) && k.fits(item@),
    ensures
        unparse(leaf_of(data_type, item@)) == seq![e@],
{
    match (data_type, item) {
        (GenericDataType::Bool, Scalar::Bit(b)) => Event::Bool(b),
        (GenericDataType::I8, Scalar::Int(x)) => Event::I8(x as i8),
        (GenericDataType::I16, Scalar::Int(x)) => Event::I16(x as i16),
        (GenericDataType::I32, Scalar::Int(x)) => Event::I32(x as i32),
        (GenericDataType::I64, Scalar::Int(x)) => Event::I64(x as i64),
        (GenericDataType::U8, Scalar::Int(x)) => Event::U8(x as u8),
        (GenericDataType::U16, Scalar::Int(x)) => Event::U16(x as u16),
        (GenericDataType::U32, Scalar::Int(x)) => Event::U32(x as u32),
        (GenericDataType::U64, Scalar::Int(x)) => Event::U64(x as u64),
        (GenericDataType::F32, Scalar::Int(x)) => Event::F32(x as u32),
        (GenericDataType::F64, Scalar::Int(x)) => Event::F64(x as u64),
        (GenericDataType::Utf8, Scalar::Text(s)) => Event::Str(s),
        (GenericDataType::Date64, Scalar::Int(x)) => Event::I64(x as i64),
        (GenericDataType::Date64NaiveStr, Scalar::Int(x)) => match format_naive(x as i64) {
            Some(s) => Event::Str(s),
            None => Event::Null,
        },
        (GenericDataType::Date64UtcStr, Scalar::Int(x)) => match format_utc(x as i64) {
            Some(s) => Event::Str(s),
            None => Event::Null,
        },
        _ => Event::Null,
    }
}

/// What the value of a row of a struct is.
pub proof fn lemma_de_struct(f: FieldModel, base: int, cols: Seq<Column>, row: int)
    requires
        f.data_type is Struct,
    ensures
        de_inner(f, base, cols, row) is Struct,
        de_inner(f, base, cols, row)->Struct_0 == names_of(f.children),
        de_inner(f, base, cols, row)->Struct_1.len() == f.children.len(),
        forall|j: int|
            0 <= j < f.children.len() ==> #[trigger] de_inner(f, base, cols, row)->Struct_1[j]
                == de(f.children[j], child_base(f, base, j), cols, row),
{
}

/// What the value of a row of a list is.
pub proof fn lemma_de_list(f: FieldModel, base: int, cols: Seq<Column>, row: int)
    requires
        f.data_type is List,
        f.children.len() >= 1,
        cols[own_index(f, base)].number(row) <= cols[own_index(f, base)].number(row + 1),
    ensures
        de_inner(f, base, cols, row) is Sequence,
        de_inner(f, base, cols, row)->Sequence_0.len() == cols[own_index(f, base)].number(row + 1)
            - cols[own_index(f, base)].number(row),
        forall|i: int|
            0 <= i < de_inner(f, base, cols, row)->Sequence_0.len() ==> #[trigger] de_inner(
                f,
                base,
                cols,
                row,
            )->Sequence_0[i] == de(
                f.children[0],
                child_base(f, base, 0),
                cols,
                cols[own_index(f, base)].number(row) + i,
            ),
{
}

/// What the value of a row of a map is.
pub proof fn lemma_de_map(f: FieldModel, base: int, cols: Seq<Column>, row: int)
    requires
        f.data_type is Mapping,
        f.children.len() >= 2,
        cols[own_index(f, base)].number(row) <= cols[own_index(f, base)].number(row + 1),
    ensures
        de_inner(f, base, cols, row) is Mapping,
        de_inner(f, base, cols, row)->Mapping_0.len() == cols[own_index(f, base)].number(row + 1)
            - cols[own_index(f, base)].number(row),
        forall|i: int|
            0 <= i < de_inner(f, base, cols, row)->Mapping_0.len() ==> #[trigger] de_inner(
                f,
                base,
                cols,
                row,
            )->Mapping_0[i] == (
                de(
                    f.children[0],
                    child_base(f, base, 0),
                    cols,
                    cols[own_index(f, base)].number(row) + i,
                ),
                de(
                    f.children[1],
                    child_base(f, base, 1),
                    cols,
                    cols[own_index(f, base)].number(row) + i,
                ),
            ),
{
}

/// The events of the fields from `j` on start with those of field `j`.
pub proof fn lemma_fields_step(
    before: Seq<EventView>,
    after: Seq<EventView>,
    names: Seq<Seq<char>>,
    values: Seq<Value>,
    j: int,
)
    requires
        0 <= j < values.len(),
        j < names.len(),
        after == before.push(EventView::FieldName(names[j])) + unparse(values[j]),
    ensures
        after + unparse_fields(names, values, j + 1) == before + unparse_fields(names, values, j),
{
    assert(after + unparse_fields(names, values, j + 1) =~= before + unparse_fields(
        names,
        values,
        j,
    ));
}

/// The events of the items from `k` on start with those of item `k`.
pub proof fn lemma_items_step(
    before: Seq<EventView>,
    after: Seq<EventView>,
    items: Seq<Value>,
    k: int,
)
    requires
        0 <= k < items.len(),
        after == before + unparse(items[k]),
    ensures
        after + unparse_items(items, k + 1) == before + unparse_items(items, k),
{
    assert(after + unparse_items(items, k + 1) =~= before + unparse_items(items, k));
}

/// The events of the entries from `k` on start with those of entry `k`.
pub proof fn lemma_entries_step(
    before: Seq<EventView>,
    after: Seq<EventView>,
    entries: Seq<(Value, Value)>,
    k: int,
)
    requires
        0 <= k < entries.len(),
        after == before + unparse(entries[k].0) + unparse(entries[k].1),
    ensures
        after + unparse_entries(entries, k + 1) == before + unparse_entries(entries, k),
{
    assert(after + unparse_entries(entries, k + 1) =~= before + unparse_entries(entries, k));
}

/// The events between the start and the end of a composite value, put
/// between the two, are the events of the value.
pub proof fn lemma_close(
    start: Seq<EventView>,
    opened: Seq<EventView>,
    filled: Seq<EventView>,
    after: Seq<EventView>,
    value: Value,
)
    requires
        match value {
            Value::Struct(names, values) => {
                &&& opened == start.push(EventView::StartStruct)
                &&& filled + unparse_fields(names, values, values.len() as int) == opened
                    + unparse_fields(names, values, 0)
                &&& after == filled.push(EventView::EndStruct)
            },
            Value::Sequence(items) => {
                &&& opened == start.push(EventView::StartSequence)
                &&& filled + unparse_items(items, items.len() as int) == opened + unparse_items(
                    items,
                    0,
                )
                &&& after == filled.push(EventView::EndSequence)
            },
            Value::Mapping(entries) => {
                &&& opened == start.push(EventView::StartMap)
                &&& filled + unparse_entries(entries, entries.len() as int) == opened
                    + unparse_entries(entries, 0)
                &&& after == filled.push(EventView::EndMap)
            },
            _ => false,
        },
    ensures
        after == start + unparse(value),
{
    match value {
        Value::Struct(names, values) => {
            assert(unparse_fields(names, values, values.len() as int) =~= Seq::empty());
            assert(filled =~= opened + unparse_fields(names, values, 0));
        },
        Value::Sequence(items) => {
            assert(unparse_items(items, items.len() as int) =~= Seq::empty());
            assert(filled =~= opened + unparse_items(items, 0));
        },
        Value::Mapping(entries) => {
            assert(unparse_entries(entries, entries.len() as int) =~= Seq::empty());
            assert(filled =~= opened + unparse_entries(entries, 0));
        },
        _ => {},
    }
    assert(after =~= start + unparse(value));
}

/// A present value is its marker and then the value.
pub proof fn lemma_present(start: Seq<EventView>, after: Seq<EventView>, inner: Value)
    requires
        after == start.push(EventView::Present) + unparse(inner),
    ensures
        after == start + unparse(Value::Present(Box::new(inner))),
{
    assert(after =~= start + unparse(Value::Present(Box::new(inner))));
}

/// Adds the events of a row of the field to `out`.
pub fn de_value(
    f: &GenericField,
    base: usize,
    bufs: &Buffers,
    rows: usize,
    row: usize,
    out: &mut Vec<Event>,
)
    requires
        supported(f@),
        shape_ok(f@, base as int, bufs@),
        columns_ok(f@, base as int, bufs@, rows as int),
        row < rows,
    ensures
        views(final(out)@) == views(old(out)@) + unparse(de(f@, base as int, bufs@, row as int)),
    decreases f@, 1int,
{
    let ghost start = views(out@);
    let ghost cols = bufs@;
    let ghost n = rows as int;
    let buffers = bufs.len();
    proof {
        f.lemma_view();
        bufs.lemma_typed();
        lemma_columns_ok(f@, base as int, cols, n, 0);
        assert(count(f@) >= head(f@).len());
        if count(f@) > 0 {
            assert(slot_ok(layout(f@)[0], cols[base as int + 0]));
            assert(cols[base as int].typed());
        }
        if count(f@) > 1 {
            assert(slot_ok(layout(f@)[1], cols[base as int + 1]));
            assert(cols[base as int + 1].typed());
        }
    }
    let mut own = base;
    if f.nullable {
        own = base + 1;
        proof {
            assert(ColumnKind::Bits.fits(cols[base as int].cells[row as int]));
        }
        match bufs.get(base, row) {
            Scalar::Bit(true) => {
                emit_event(out, Event::Present);
            },
            _ => {
                emit_event(out, Event::Null);
                assert(views(out@) =~= start + unparse(Value::Null));
                return ;
            },
        }
    }
    let ghost opened = views(out@);
    match f.data_type {
        GenericDataType::Struct => de_struct(f, base, bufs, rows, row, out),
        GenericDataType::List => de_list(f, base, bufs, rows, row, out),
        GenericDataType::Mapping => de_map(f, base, bufs, rows, row, out),
        _ => {
            proof {
                assert(own_operation(f@.data_type) matches Some(Operation::PushValue(k))
                    && k.fits(cols[own as int].cells[row as int]));
            }
            let e = leaf_event(f.data_type, bufs.get(own, row));
            emit_event(out, e);
            assert(views(out@) =~= opened + seq![e@]);
        },
    }
    proof {
        let inner = de_inner(f@, base as int, cols, row as int);
        if f@.nullable {
            lemma_present(start, views(out@), inner);
        }
    }
}

/// Adds the events of a row of a struct field, after its marker of presence.
fn de_struct(
    f: &GenericField,
    base: usize,
    bufs: &Buffers,
    rows: usize,
    row: usize,
    out: &mut Vec<Event>,
)
    requires
        supported(f@),
        f@.data_type is Struct,
        shape_ok(f@, base as int, bufs@),
        columns_ok(f@, base as int, bufs@, rows as int),
        row < rows,
    ensures
        views(final(out)@) == views(old(out)@) + unparse(
            de_inner(f@, base as int, bufs@, row as int),
        ),
    decreases f@, 0int,
{
    let ghost start = views(out@);
    let ghost cols = bufs@;
    let ghost n = rows as int;
    let buffers = bufs.len();
    proof {
        f.lemma_view();
        assert(count(f@) >= head(f@).len());
        lemma_de_struct(f@, base as int, cols, row as int);
    }
    let ghost names = names_of(f@.children);
    let ghost values = de_inner(f@, base as int, cols, row as int)->Struct_1;
    emit_event(out, Event::StartStruct);
    let ghost opened = views(out@);
    let mut j: usize = 0;
    let mut cb: usize = if f.nullable {
        base + 1
    } else {
        base
    };
    while j < f.children.len()
        invariant
            j <= f.children@.len(),
            f@.children == models(f.children@),
            cols == bufs@,
            cols.len() <= usize::MAX,
            row < rows,
            n == rows,
            supported(f@),
            f@.data_type is Struct,
            shape_ok(f@, base as int, cols),
            columns_ok(f@, base as int, cols, n),
            names == names_of(f@.children),
            values.len() == f@.children.len(),
            forall|i: int|
                0 <= i < f@.children.len() ==> #[trigger] values[i] == de(
                    f@.children[i],
                    child_base(f@, base as int, i),
                    cols,
                    row as int,
                ),
            cb == child_base(f@, base as int, j as int),
            views(out@) + unparse_fields(names, values, j as int) == opened + unparse_fields(
                names,
                values,
                0,
            ),
        decreases f.children@.len() - j,
    {
        let child = &f.children[j];
        let ghost before = views(out@);
        proof {
            child.lemma_view();
            assert(child@ == f@.children[j as int]);
            lemma_shape_child(f@, base as int, cols, j as int);
            lemma_child_layout(f@, base as int, j as int);
            lemma_columns_ok(f@, base as int, cols, n, j as int);
            assert(supported(f@.children[j as int]));
            assert(values[j as int] == de(child@, cb as int, cols, row as int));
            assert(names[j as int] == child.name@);
        }
        emit_event(out, Event::FieldName(child.name.clone()));
        de_value(child, cb, bufs, rows, row, out);
        proof {
            lemma_fields_step(before, views(out@), names, values, j as int);
        }
        cb = cb + buffer_count(child);
        j = j + 1;
    }
    let ghost filled = views(out@);
    emit_event(out, Event::EndStruct);
    proof {
        lemma_close(start, opened, filled, views(out@), Value::Struct(names, values));
    }
}

/// The offsets that bound a row of a list or map.
fn row_bounds(bufs: &Buffers, own: usize, row: usize, Ghost(n): Ghost<int>) -> (r: (usize, usize))
    requires
        own < bufs@.len(),
        bufs@[own as int].kind == ColumnKind::Offsets,
        bufs@[own as int].cells.len() == n + 1,
        monotone(bufs@[own as int], n),
        row < n,
    ensures
        r.0 == bufs@[own as int].number(row as int),
        r.1 == bufs@[own as int].number(row + 1),
        r.0 <= r.1 <= bufs@[own as int].number(n),
{
    proof {
        bufs.lemma_typed();
        assert(bufs@[own as int].typed());
        assert(ColumnKind::Offsets.fits(bufs@[own as int].cells[row as int]));
        assert(ColumnKind::Offsets.fits(bufs@[own as int].cells[row + 1]));
    }
    let held = bufs.rows(own);
    let from = scalar_int(&bufs.get(own, row)) as usize;
    let to = scalar_int(&bufs.get(own, row + 1)) as usize;
    proof {
        let col = bufs@[own as int];
        assert(col.number(row as int) <= col.number(row + 1));
        assert(col.number(row + 1) <= col.number(n));
    }
    (from, to)
}

/// The last offset of an offset buffer.
fn last_row(bufs: &Buffers, own: usize, rows: usize) -> (r: usize)
    requires
        own < bufs@.len(),
        bufs@[own as int].kind == ColumnKind::Offsets,
        bufs@[own as int].cells.len() == rows + 1,
    ensures
        r == bufs@[own as int].number(rows as int),
{
    proof {
        bufs.lemma_typed();
        assert(bufs@[own as int].typed());
        assert(ColumnKind::Offsets.fits(bufs@[own as int].cells[rows as int]));
    }
    scalar_int(&bufs.get(own, rows)) as usize
}

/// Adds the events of a row of a list field, after its marker of presence.
fn de_list(
    f: &GenericField,
    base: usize,
    bufs: &Buffers,
    rows: usize,
    row: usize,
    out: &mut Vec<Event>,
)
    requires
        supported(f@),
        f@.data_type is List,
        shape_ok(f@, base as int, bufs@),
        columns_ok(f@, base as int, bufs@, rows as int),
        row < rows,
    ensures
        views(final(out)@) == views(old(out)@) + unparse(
            de_inner(f@, base as int, bufs@, row as int),
        ),
    decreases f@, 0int,
{
    let ghost start = views(out@);
    let ghost cols = bufs@;
    let ghost n = rows as int;
    let buffers = bufs.len();
    proof {
        f.lemma_view();
        assert(count(f@) >= head(f@).len());
        lemma_columns_ok(f@, base as int, cols, n, 0);
        lemma_shape_child(f@, base as int, cols, 0);
        lemma_child_layout(f@, base as int, 0);
        assert(supported(f@.children[0]));
    }
    let own: usize = if f.nullable {
        base + 1
    } else {
        base
    };
    proof {
        assert(slot_ok(layout(f@)[own - base], cols[base as int + (own - base)]));
    }
    let child = &f.children[0];
    let cb = own + 1;
    let (from, to) = row_bounds(bufs, own, row, Ghost(n));
    let below = last_row(bufs, own, rows);
    let ghost items = de_inner(f@, base as int, cols, row as int)->Sequence_0;
    emit_event(out, Event::StartSequence);
    let ghost opened = views(out@);
    proof {
        child.lemma_view();
        assert(child@ == f@.children[0]);
        assert(cb == child_base(f@, base as int, 0));
        lemma_de_list(f@, base as int, cols, row as int);
    }
    let mut k: usize = from;
    while k < to
        invariant
            from <= k <= to,
            to <= below,
            cols == bufs@,
            supported(child@),
            shape_ok(child@, cb as int, cols),
            columns_ok(child@, cb as int, cols, below as int),
            items.len() == to - from,
            child@ == f@.children[0],
            f@.children.len() == 1,
            forall|i: int|
                0 <= i < items.len() ==> #[trigger] items[i] == de(
                    child@,
                    cb as int,
                    cols,
                    from + i,
                ),
            views(out@) + unparse_items(items, k - from) == opened + unparse_items(items, 0),
        decreases to - k,
    {
        let ghost before = views(out@);
        proof {
            assert(items[k - from] == de(child@, cb as int, cols, k as int));
        }
        de_value(child, cb, bufs, below, k, out);
        proof {
            lemma_items_step(before, views(out@), items, k - from);
        }
        k = k + 1;
    }
    let ghost filled = views(out@);
    emit_event(out, Event::EndSequence);
    proof {
        lemma_close(start, opened, filled, views(out@), Value::Sequence(items));
    }
}

/// Adds the events of a row of a map field, after its marker of presence.
fn de_map(
    f: &GenericField,
    base: usize,
    bufs: &Buffers,
    rows: usize,
    row: usize,
    out: &mut Vec<Event>,
)
    requires
        supported(f@),
        f@.data_type is Mapping,
        shape_ok(f@, base as int, bufs@),
        columns_ok(f@, base as int, bufs@, rows as int),
        row < rows,
    ensures
        views(final(out)@) == views(old(out)@) + unparse(
            de_inner(f@, base as int, bufs@, row as int),
        ),
    decreases f@, 0int,
{
    let ghost start = views(out@);
    let ghost cols = bufs@;
    let ghost n = rows as int;
    let buffers = bufs.len();
    proof {
        f.lemma_view();
        assert(count(f@) >= head(f@).len());
        lemma_columns_ok(f@, base as int, cols, n, 0);
        lemma_columns_ok(f@, base as int, cols, n, 1);
        lemma_shape_child(f@, base as int, cols, 0);
        lemma_shape_child(f@, base as int, cols, 1);
        lemma_child_layout(f@, base as int, 0);
        lemma_child_layout(f@, base as int, 1);
        assert(supported(f@.children[0]));
        assert(supported(f@.children[1]));
    }
    let own: usize = if f.nullable {
        base + 1
    } else {
        base
    };
    proof {
        assert(slot_ok(layout(f@)[own - base], cols[base as int + (own - base)]));
    }
    let key = &f.children[0];
    let value = &f.children[1];
    let kb = own + 1;
    let vb = kb + buffer_count(key);
    let (from, to) = row_bounds(bufs, own, row, Ghost(n));
    let below = last_row(bufs, own, rows);
    let ghost entries = de_inner(f@, base as int, cols, row as int)->Mapping_0;
    emit_event(out, Event::StartMap);
    let ghost opened = views(out@);
    proof {
        key.lemma_view();
        value.lemma_view();
        assert(key@ == f@.children[0]);
        assert(value@ == f@.children[1]);
        assert(kb == child_base(f@, base as int, 0));
        assert(vb == child_base(f@, base as int, 1));
        lemma_de_map(f@, base as int, cols, row as int);
    }
    let mut k: usize = from;
    while k < to
        invariant
            from <= k <= to,
            to <= below,
            cols == bufs@,
            supported(key@),
            supported(value@),
            shape_ok(key@, kb as int, cols),
            shape_ok(value@, vb as int, cols),
            columns_ok(key@, kb as int, cols, below as int),
            columns_ok(value@, vb as int, cols, below as int),
            entries.len() == to - from,
            key@ == f@.children[0],
            value@ == f@.children[1],
            f@.children.len() == 2,
            forall|i: int|
                0 <= i < entries.len() ==> #[trigger] entries[i] == (
                    de(key@, kb as int, cols, from + i),
                    de(value@, vb as int, cols, from + i),
                ),
            views(out@) + unparse_entries(entries, k - from) == opened + unparse_entries(
                entries,
                0,
            ),
        decreases to - k,
    {
        let ghost before = views(out@);
        proof {
            assert(entries[k - from] == (
                de(key@, kb as int, cols, k as int),
                de(value@, vb as int, cols, k as int),
            ));
        }
        de_value(key, kb, bufs, below, k, out);
        de_value(value, vb, bufs, below, k, out);
        proof {
            lemma_entries_step(before, views(out@), entries, k - from);
        }
        k = k + 1;
    }
    let ghost filled = views(out@);
    emit_event(out, Event::EndMap);
    proof {
        lemma_close(start, opened, filled, views(out@), Value::Mapping(entries));
    }
}

} // verus!
