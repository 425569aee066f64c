//! Serialization followed by deserialization gives back what was stored.
//!
//! A value conforms to a field where it has the exact shape that
//! deserialization produces for the field. Adding such a value to
//! consistent buffers leaves them consistent with one more row; the new
//! row reads as the value, and every earlier row reads as before.
use vstd::prelude::*;
use crate::buffers::{Cell, Column};
use crate::dates::{naive_millis, naive_text, utc_millis, utc_text};
use crate::deserialization::{
    check, check_children, columns_ok, de, de_inner, leaf_of, lemma_check_miss, lemma_columns_ok,
    monotone,
};
use crate::error::ErrorKind;
use crate::event::IntKind;
use crate::field::{FieldModel, GenericDataType};
use crate::layout::{
    child_base, count, head, layout, layout_children, lemma_child_layout, lemma_shape_child,
    own_index, own_operation, shape_ok, slot_ok, supported, Operation,
};
use crate::serialization::{
    fill, fill_children, first_index, last_offset, names_known, names_of, push_at, scalar_cell,
    ser, ser_child, ser_children, ser_entries, ser_inner, ser_items,
};
use crate::event::EventView;
use crate::interpreter::{allocated, items_added, records_of, ser_records};
use crate::source::{rows_of, shape_fits};
use crate::value::{lemma_parse_bounds, lemma_unparse_parse, unparse, Value};

verus! {

/// Whether `b` starts with the cells of `a`.
pub open spec fn starts_with(b: Seq<Cell>, a: Seq<Cell>) -> bool {
    &&& a.len() <= b.len()
    &&& forall|r: int| 0 <= r < a.len() ==> #[trigger] b[r] == a[r]
}

/// Whether `after` holds the columns of `before`, each of the same kind and
/// starting with the cells it had, and unchanged outside of the columns
/// from `lo` up to `hi`.
pub open spec fn extends(before: Seq<Column>, after: Seq<Column>, lo: int, hi: int) -> bool {
    &&& after.len() == before.len()
    &&& forall|i: int|
        0 <= i < before.len() ==> {
            &&& (#[trigger] after[i]).kind == before[i].kind
            &&& starts_with(after[i].cells, before[i].cells)
            &&& !(lo <= i < hi) ==> after[i] == before[i]
        }
}

/// Columns extend themselves.
pub proof fn lemma_extends_refl(cols: Seq<Column>, lo: int, hi: int)
    ensures
        extends(cols, cols, lo, hi),
{
}

/// Adding a cell extends the columns.
pub proof fn lemma_extends_push(cols: Seq<Column>, ix: int, cell: Cell, lo: int, hi: int)
    requires
        0 <= ix < cols.len(),
        lo <= ix < hi,
    ensures
        extends(cols, push_at(cols, ix, cell), lo, hi),
{
    let after = push_at(cols, ix, cell);
    assert forall|i: int| 0 <= i < cols.len() implies {
        &&& (#[trigger] after[i]).kind == cols[i].kind
        &&& starts_with(after[i].cells, cols[i].cells)
        &&& !(lo <= i < hi) ==> after[i] == cols[i]
    } by {}
}

/// Extending twice is extending once, within a range that holds both.
pub proof fn lemma_extends_trans(
    a: Seq<Column>,
    b: Seq<Column>,
    c: Seq<Column>,
    lo1: int,
    hi1: int,
    lo2: int,
    hi2: int,
    lo: int,
    hi: int,
)
    requires
        extends(a, b, lo1, hi1),
        extends(b, c, lo2, hi2),
        lo <= lo1,
        hi1 <= hi,
        lo <= lo2,
        hi2 <= hi,
    ensures
        extends(a, c, lo, hi),
{
    assert forall|i: int| 0 <= i < a.len() implies {
        &&& (#[trigger] c[i]).kind == a[i].kind
        &&& starts_with(c[i].cells, a[i].cells)
        &&& !(lo <= i < hi) ==> c[i] == a[i]
    } by {
        assert(b[i].kind == a[i].kind);
        assert(starts_with(b[i].cells, a[i].cells));
        assert(starts_with(c[i].cells, b[i].cells));
        assert forall|r: int| 0 <= r < a[i].cells.len() implies #[trigger] c[i].cells[r]
            == a[i].cells[r] by {
            assert(b[i].cells[r] == a[i].cells[r]);
        }
    }
}

/// Columns that fit a field still fit after they were extended.
pub proof fn lemma_extends_shape(f: FieldModel, base: int, before: Seq<Column>, after: Seq<Column>, lo: int, hi: int)
    requires
        shape_ok(f, base, before),
        extends(before, after, lo, hi),
    ensures
        shape_ok(f, base, after),
{
    assert forall|i: int| 0 <= i < count(f) implies slot_ok(
        #[trigger] layout(f)[i],
        after[base + i],
    ) by {
        assert(slot_ok(layout(f)[i], before[base + i]));
        assert(after[base + i].kind == before[base + i].kind);
    }
}

/// Whether the two hold the same columns from `lo` up to `hi`.
pub open spec fn same_on(a: Seq<Column>, b: Seq<Column>, lo: int, hi: int) -> bool {
    forall|i: int| lo <= i < hi ==> #[trigger] b[i] == a[i]
}

/// The check of a field reads only the columns of the field.
pub proof fn lemma_check_same(
    f: FieldModel,
    base: int,
    a: Seq<Column>,
    b: Seq<Column>,
    n: int,
    miss: ErrorKind,
)
    requires
        same_on(a, b, base, base + count(f)),
    ensures
        check(f, base, b, n, miss) == check(f, base, a, n, miss),
    decreases f, 1int, 0int,
{
    assert(count(f) >= head(f).len());
    assert(layout_children(f, 0).len() == 0);
    let own = own_index(f, base);
    if f.nullable {
        assert(b[base] == a[base]);
    }
    match own_operation(f.data_type) {
        Some(Operation::PushOffset) => {
            assert(b[own] == a[own]);
            lemma_check_children_same(f, base, 0, a, b, a[own].number(n), ErrorKind::OffsetOutOfRange);
        },
        Some(_) => {
            assert(b[own] == a[own]);
        },
        None => {
            lemma_check_children_same(f, base, 0, a, b, n, miss);
        },
    }
}

pub proof fn lemma_check_children_same(
    f: FieldModel,
    base: int,
    j: int,
    a: Seq<Column>,
    b: Seq<Column>,
    n: int,
    miss: ErrorKind,
)
    requires
        same_on(a, b, child_base(f, base, j), base + count(f)),
        0 <= j,
    ensures
        check_children(f, base, j, b, n, miss) == check_children(f, base, j, a, n, miss),
    decreases f, 0int, f.children.len() - j,
{
    if j < f.children.len() {
        lemma_child_layout(f, base, j);
        assert(same_on(a, b, child_base(f, base, j), child_base(f, base, j) + count(f.children[j])));
        lemma_check_same(f.children[j], child_base(f, base, j), a, b, n, miss);
        lemma_check_children_same(f, base, j + 1, a, b, n, miss);
    }
}

/// Where the check passes for each child, it passes for the children.
pub proof fn lemma_check_children_ok(
    f: FieldModel,
    base: int,
    j: int,
    cols: Seq<Column>,
    n: int,
    miss: ErrorKind,
)
    requires
        0 <= j,
        forall|i: int|
            j <= i < f.children.len() ==> columns_ok(
                #[trigger] f.children[i],
                child_base(f, base, i),
                cols,
                n,
            ),
    ensures
        check_children(f, base, j, cols, n, miss) is Ok,
    decreases f.children.len() - j,
{
    if j < f.children.len() {
        assert(columns_ok(f.children[j], child_base(f, base, j), cols, n));
        lemma_check_miss(
            f.children[j],
            child_base(f, base, j),
            cols,
            n,
            miss,
            ErrorKind::LengthMismatch,
        );
        lemma_check_children_ok(f, base, j + 1, cols, n, miss);
    }
}

/// The rows that consistent columns hold read the same after the columns
/// were extended.
pub proof fn lemma_de_stable(
    f: FieldModel,
    base: int,
    before: Seq<Column>,
    after: Seq<Column>,
    n: int,
    row: int,
)
    requires
        shape_ok(f, base, before),
        columns_ok(f, base, before, n),
        extends(before, after, 0, before.len() as int),
        0 <= row < n,
    ensures
        de(f, base, after, row) == de(f, base, before, row),
    decreases f, 1int,
{
    assert(count(f) >= head(f).len());
    lemma_columns_ok(f, base, before, n, 0);
    if f.nullable {
        assert(after[base].kind == before[base].kind);
        assert(after[base].cells[row] == before[base].cells[row]);
    }
    lemma_de_inner_stable(f, base, before, after, n, row);
}

pub proof fn lemma_de_inner_stable(
    f: FieldModel,
    base: int,
    before: Seq<Column>,
    after: Seq<Column>,
    n: int,
    row: int,
)
    requires
        shape_ok(f, base, before),
        columns_ok(f, base, before, n),
        extends(before, after, 0, before.len() as int),
        0 <= row < n,
    ensures
        de_inner(f, base, after, row) == de_inner(f, base, before, row),
    decreases f, 0int,
{
    assert(count(f) >= head(f).len());
    let own = own_index(f, base);
    lemma_columns_ok(f, base, before, n, 0);
    match f.data_type {
        GenericDataType::Struct => {
            let a = de_inner(f, base, after, row)->Struct_1;
            let b = de_inner(f, base, before, row)->Struct_1;
            assert forall|j: int| 0 <= j < f.children.len() implies a[j] == b[j] by {
                lemma_columns_ok(f, base, before, n, j);
                lemma_shape_child(f, base, before, j);
                lemma_de_stable(f.children[j], child_base(f, base, j), before, after, n, row);
            }
            assert(a =~= b);
        },
        GenericDataType::List => {
            if f.children.len() >= 1 {
                assert(after[own].kind == before[own].kind);
                assert(after[own].cells[row] == before[own].cells[row]);
                assert(after[own].cells[row + 1] == before[own].cells[row + 1]);
                let from = before[own].number(row);
                let to = before[own].number(row + 1);
                let m = before[own].number(n);
                assert(before[own].number(0) <= from);
                assert(to <= m);
                lemma_shape_child(f, base, before, 0);
                let a = de_inner(f, base, after, row)->Sequence_0;
                let b = de_inner(f, base, before, row)->Sequence_0;
                assert forall|k: int| 0 <= k < to - from implies a[k] == b[k] by {
                    if 0 <= from + k {
                        lemma_de_stable(
                            f.children[0],
                            child_base(f, base, 0),
                            before,
                            after,
                            m,
                            from + k,
                        );
                    }
                }
                assert(a =~= b);
            }
        },
        GenericDataType::Mapping => {
            if f.children.len() >= 2 {
                assert(after[own].kind == before[own].kind);
                assert(after[own].cells[row] == before[own].cells[row]);
                assert(after[own].cells[row + 1] == before[own].cells[row + 1]);
                let from = before[own].number(row);
                let to = before[own].number(row + 1);
                let m = before[own].number(n);
                assert(before[own].number(0) <= from);
                assert(to <= m);
                lemma_shape_child(f, base, before, 0);
                lemma_shape_child(f, base, before, 1);
                lemma_columns_ok(f, base, before, n, 1);
                let a = de_inner(f, base, after, row)->Mapping_0;
                let b = de_inner(f, base, before, row)->Mapping_0;
                assert forall|k: int| 0 <= k < to - from implies a[k] == b[k] by {
                    if 0 <= from + k {
                        lemma_de_stable(
                            f.children[0],
                            child_base(f, base, 0),
                            before,
                            after,
                            m,
                            from + k,
                        );
                        lemma_de_stable(
                            f.children[1],
                            child_base(f, base, 1),
                            before,
                            after,
                            m,
                            from + k,
                        );
                    }
                }
                assert(a =~= b);
            }
        },
        _ => {
            if own_operation(f.data_type) is Some {
                assert(after[own].kind == before[own].kind);
                assert(after[own].cells[row] == before[own].cells[row]);
            } else {
                assert(leaf_of(f.data_type, after[own].cells[row]) == Value::Null);
            }
        },
    }
}

/// The first buffer of a child does not come before that of an earlier child.
pub proof fn lemma_child_order(f: FieldModel, base: int, i: int, j: int)
    requires
        0 <= i <= j <= f.children.len(),
    ensures
        child_base(f, base, i) <= child_base(f, base, j),
        base + head(f).len() <= child_base(f, base, i),
        child_base(f, base, j) <= base + count(f),
{
    crate::layout::lemma_children_prefix(f, i, j);
    crate::layout::lemma_children_prefix(f, j, f.children.len() as int);
}

/// Whether a value has the exact shape that deserialization produces for a
/// leaf of the given type. Text that stands for a date is the text that is
/// written for the milliseconds it is read as.
pub open spec fn leaf_conforms(data_type: GenericDataType, w: Value) -> bool {
    match (data_type, w) {
        (GenericDataType::Bool, Value::Bool(_)) => true,
        (GenericDataType::F32, Value::F32(_)) => true,
        (GenericDataType::F64, Value::F64(_)) => true,
        (GenericDataType::Utf8, Value::Str(_)) => true,
        (GenericDataType::Date64, Value::Int(k, x)) => k == IntKind::I64 && k.holds(x),
        (GenericDataType::Date64NaiveStr, Value::Str(s)) => naive_millis(s) matches Some(ms)
            && naive_text(ms) == Some(s),
        (GenericDataType::Date64UtcStr, Value::Str(s)) => utc_millis(s) matches Some(ms)
            && utc_text(ms) == Some(s),
        (_, Value::Int(k, x)) => data_type.int_kind() == Some(k) && k.holds(x),
        _ => false,
    }
}

/// Whether a value has the exact shape that deserialization produces for
/// the field: null or a present value for a nullable field, else the value
/// itself.
pub open spec fn conforms(f: FieldModel, v: Value) -> bool
    decreases f, 1int,
{
    if f.nullable {
        match v {
            Value::Null => true,
            Value::Present(inner) => conforms_inner(f, *inner),
            _ => false,
        }
    } else {
        conforms_inner(f, v)
    }
}

/// Whether a value that is not null has the shape of the type of the
/// field: a struct has the fields of the struct field, in its order; the
/// items of a sequence and the keys and values of a map conform to the
/// children.
pub open spec fn conforms_inner(f: FieldModel, w: Value) -> bool
    decreases f, 0int,
{
    match f.data_type {
        GenericDataType::Struct => match w {
            Value::Struct(names, values) => {
                &&& names == names_of(f.children)
                &&& values.len() == f.children.len()
                &&& forall|j: int|
                    0 <= j < f.children.len() ==> conforms(f.children[j], #[trigger] values[j])
            },
            _ => false,
        },
        GenericDataType::List => match w {
            Value::Sequence(items) => f.children.len() >= 1 ==> forall|k: int|
                0 <= k < items.len() ==> conforms(f.children[0], #[trigger] items[k]),
            _ => false,
        },
        GenericDataType::Mapping => match w {
            Value::Mapping(entries) => f.children.len() >= 2 ==> forall|k: int|
                0 <= k < entries.len() ==> conforms(f.children[0], (#[trigger] entries[k]).0)
                    && conforms(f.children[1], entries[k].1),
            _ => false,
        },
        _ => leaf_conforms(f.data_type, w),
    }
}

/// A conforming leaf value is stored in a cell that reads as the value.
pub proof fn lemma_leaf_round_trip(data_type: GenericDataType, w: Value)
    requires
        leaf_conforms(data_type, w),
    ensures
        scalar_cell(data_type, w) matches Ok(cell) && leaf_of(data_type, cell) == w,
        own_operation(data_type) matches Some(Operation::PushValue(_)),
        !(w is Null),
        !(w is Present),
{
}

/// What adding a row without a value does: the columns of the field are
/// extended and hold one more row; in a nullable field it reads as null.
pub open spec fn filled(
    f: FieldModel,
    base: int,
    before: Seq<Column>,
    after: Seq<Column>,
    n: int,
) -> bool {
    &&& extends(before, after, base, base + count(f))
    &&& columns_ok(f, base, after, n + 1)
    &&& f.nullable ==> de(f, base, after, n) == Value::Null
}

/// Whether the columns are consistent buffers of a supported field with `n` rows.
pub open spec fn holds(f: FieldModel, base: int, cols: Seq<Column>, n: int) -> bool {
    &&& 0 <= n
    &&& supported(f)
    &&& shape_ok(f, base, cols)
    &&& columns_ok(f, base, cols, n)
}

/// The columns with the validity of a present value added, where the field has one.
pub open spec fn marked(f: FieldModel, base: int, cols: Seq<Column>, present: bool) -> Seq<Column> {
    if f.nullable {
        push_at(cols, base, Cell::Bit(present))
    } else {
        cols
    }
}

/// What is known of the columns after the validity was added.
pub proof fn lemma_marked(f: FieldModel, base: int, cols: Seq<Column>, n: int, present: bool)
    requires
        holds(f, base, cols, n),
    ensures
        extends(cols, marked(f, base, cols, present), base, own_index(f, base)),
        shape_ok(f, base, marked(f, base, cols, present)),
        f.nullable ==> marked(f, base, cols, present)[base].cells.len() == n + 1 && marked(
            f,
            base,
            cols,
            present,
        )[base].bit(n) == present,
        same_on(cols, marked(f, base, cols, present), own_index(f, base), base + count(f)),
{
    assert(count(f) >= head(f).len());
    lemma_columns_ok(f, base, cols, n, 0);
    let after = marked(f, base, cols, present);
    if f.nullable {
        lemma_extends_push(cols, base, Cell::Bit(present), base, base + 1);
    } else {
        lemma_extends_refl(cols, base, base);
    }
    lemma_extends_shape(f, base, cols, after, base, own_index(f, base));
}

/// Adding a row without a value keeps the columns of a field consistent.
pub proof fn lemma_fill(f: FieldModel, base: int, cols: Seq<Column>, n: int)
    requires
        holds(f, base, cols, n),
    ensures
        filled(f, base, cols, fill(f, base, cols), n),
    decreases f, 1int, 0int,
{
    assert(count(f) >= head(f).len());
    assert(layout_children(f, 0).len() == 0);
    lemma_columns_ok(f, base, cols, n, 0);
    lemma_marked(f, base, cols, n, false);
    let own = own_index(f, base);
    let cols1 = marked(f, base, cols, false);
    let after = fill(f, base, cols);
    if count(f) > 0 {
        assert(slot_ok(layout(f)[0], cols[base + 0]));
    }
    if count(f) > 1 {
        assert(slot_ok(layout(f)[1], cols[base + 1]));
    }
    match own_operation(f.data_type) {
        Some(Operation::PushOffset) => {
            let last = last_offset(cols1, own);
            assert(cols1[own] == cols[own]);
            assert(last == cols[own].number(n));
            lemma_extends_push(cols1, own, Cell::Int(last), own, base + count(f));
            lemma_extends_trans(
                cols,
                cols1,
                after,
                base,
                own,
                own,
                base + count(f),
                base,
                base + count(f),
            );
            assert(after[own].cells == cols[own].cells.push(Cell::Int(last)));
            lemma_monotone_push(cols[own], n, last);
            assert(after[own].number(n + 1) == last);
            assert(same_on(cols, after, child_base(f, base, 0), base + count(f)));
            lemma_check_children_same(f, base, 0, cols, after, last, ErrorKind::OffsetOutOfRange);
        },
        Some(op) => {
            lemma_extends_push(cols1, own, op.spec_kind().filler(), own, base + count(f));
            lemma_extends_trans(
                cols,
                cols1,
                after,
                base,
                own,
                own,
                base + count(f),
                base,
                base + count(f),
            );
        },
        None => {
            assert forall|i: int| 0 <= i < f.children.len() implies columns_ok(
                #[trigger] f.children[i],
                child_base(f, base, i),
                cols1,
                n,
            ) by {
                lemma_columns_ok(f, base, cols, n, i);
                lemma_child_layout(f, base, i);
                lemma_child_order(f, base, 0, i);
                assert(same_on(
                    cols,
                    cols1,
                    child_base(f, base, i),
                    child_base(f, base, i) + count(f.children[i]),
                ));
                lemma_check_same(
                    f.children[i],
                    child_base(f, base, i),
                    cols,
                    cols1,
                    n,
                    ErrorKind::LengthMismatch,
                );
            }
            lemma_fill_children(f, base, f.children.len() as int, cols1, n);
            lemma_child_layout_end(f, base);
            lemma_extends_trans(
                cols,
                cols1,
                after,
                base,
                own,
                own,
                base + count(f),
                base,
                base + count(f),
            );
            lemma_check_children_ok(f, base, 0, after, n + 1, ErrorKind::LengthMismatch);
        },
    }
    if f.nullable {
        assert(after[base] == cols1[base]);
    }
}

/// Offsets that never decrease still do so after an offset was added
/// that is not below the last one.
pub proof fn lemma_monotone_push(col: Column, n: int, x: int)
    requires
        0 <= n,
        col.cells.len() == n + 1,
        monotone(col, n),
        col.number(n) <= x,
    ensures
        monotone(col.push(Cell::Int(x)), n + 1),
        col.push(Cell::Int(x)).number(n + 1) == x,
        forall|i: int| 0 <= i <= n ==> #[trigger] col.push(Cell::Int(x)).number(i) == col.number(i),
{
    let after = col.push(Cell::Int(x));
    assert forall|i: int| 0 <= i <= n implies #[trigger] after.number(i) == col.number(i) by {
        assert(after.cells[i] == col.cells[i]);
    }
    assert(after.cells[n + 1] == Cell::Int(x));
    assert forall|i: int, j: int|
        #![trigger after.number(i), after.number(j)]
        0 <= i <= j <= n + 1 implies after.number(i) <= after.number(j) by {
        if j <= n {
            assert(after.number(i) == col.number(i));
            assert(after.number(j) == col.number(j));
            assert(col.number(i) <= col.number(j));
        } else if i <= n {
            assert(after.number(i) == col.number(i));
            assert(col.number(i) <= col.number(n));
        }
    }
    assert(after.number(0) == col.number(0));
}

/// The buffers of the children end where those of the field end.
pub proof fn lemma_child_layout_end(f: FieldModel, base: int)
    ensures
        child_base(f, base, f.children.len() as int) == base + count(f),
        child_base(f, base, 0) == base + head(f).len(),
{
    assert(layout_children(f, 0).len() == 0);
}

/// Adding a row without a value to each of the first `k` children keeps
/// the columns of every child consistent.
pub proof fn lemma_fill_children(f: FieldModel, base: int, k: int, cols: Seq<Column>, n: int)
    requires
        0 <= n,
        0 <= k <= f.children.len(),
        supported(f),
        shape_ok(f, base, cols),
        forall|i: int|
            0 <= i < f.children.len() ==> columns_ok(
                #[trigger] f.children[i],
                child_base(f, base, i),
                cols,
                n,
            ),
    ensures
        extends(
            cols,
            fill_children(f, base, k, cols),
            child_base(f, base, 0),
            child_base(f, base, k),
        ),
        forall|i: int|
            0 <= i < f.children.len() ==> columns_ok(
                #[trigger] f.children[i],
                child_base(f, base, i),
                fill_children(f, base, k, cols),
                if i < k {
                    n + 1
                } else {
                    n
                },
            ),
    decreases f, 0int, k,
{
    if k == 0 {
        lemma_extends_refl(cols, child_base(f, base, 0), child_base(f, base, 0));
    } else {
        lemma_fill_children(f, base, k - 1, cols, n);
        let prev = fill_children(f, base, k - 1, cols);
        let child = f.children[k - 1];
        let cb = child_base(f, base, k - 1);
        let after = fill_children(f, base, k, cols);
        lemma_child_layout(f, base, k - 1);
        lemma_child_order(f, base, 0, k - 1);
        lemma_shape_child(f, base, cols, k - 1);
        lemma_extends_shape(child, cb, cols, prev, child_base(f, base, 0), cb);
        assert(columns_ok(f.children[k - 1], cb, prev, n));
        assert(supported(f.children[k - 1]));
        lemma_fill(child, cb, prev, n);
        lemma_extends_trans(
            cols,
            prev,
            after,
            child_base(f, base, 0),
            cb,
            cb,
            cb + count(child),
            child_base(f, base, 0),
            child_base(f, base, k),
        );
        assert forall|i: int| 0 <= i < f.children.len() implies columns_ok(
            #[trigger] f.children[i],
            child_base(f, base, i),
            after,
            if i < k {
                n + 1
            } else {
                n
            },
        ) by {
            if i != k - 1 {
                lemma_child_layout(f, base, i);
                if i < k - 1 {
                    lemma_child_order(f, base, i + 1, k - 1);
                } else {
                    lemma_child_order(f, base, k, i);
                }
                assert(same_on(
                    prev,
                    after,
                    child_base(f, base, i),
                    child_base(f, base, i) + count(f.children[i]),
                ));
                lemma_check_same(
                    f.children[i],
                    child_base(f, base, i),
                    prev,
                    after,
                    if i < k {
                        n + 1
                    } else {
                        n
                    },
                    ErrorKind::LengthMismatch,
                );
            }
        }
    }
}

/// What adding a value does: the columns of the field are extended and
/// hold one more row, which reads as the value.
pub open spec fn stored(
    f: FieldModel,
    base: int,
    before: Seq<Column>,
    after: Seq<Column>,
    n: int,
    v: Value,
) -> bool {
    &&& extends(before, after, base, base + count(f))
    &&& columns_ok(f, base, after, n + 1)
    &&& de(f, base, after, n) == v
}

/// Among fields with different names, the first field with the name of
/// field `j` is field `j`.
pub proof fn lemma_first_index_distinct(children: Seq<FieldModel>, j: int, from: int)
    requires
        crate::layout::names_differ(children),
        0 <= from <= j < children.len(),
    ensures
        first_index(names_of(children), children[j].name, from) == Some(j),
    decreases j - from,
{
    let names = names_of(children);
    assert(names[j] == children[j].name);
    if from < j {
        assert(names[from] == children[from].name);
        assert(children[from].name != children[j].name);
        lemma_first_index_distinct(children, j, from + 1);
    }
}

/// The names of fields with different names are known and differ.
pub proof fn lemma_names_known(children: Seq<FieldModel>)
    requires
        crate::layout::names_differ(children),
    ensures
        names_known(children, names_of(children)),
{
    let names = names_of(children);
    assert forall|i: int| 0 <= i < names.len() implies first_index(
        names_of(children),
        #[trigger] names[i],
        0,
    ) is Some by {
        lemma_first_index_distinct(children, i, 0);
    }
    assert forall|i: int, j: int| 0 <= i < j < names.len() implies names[i] != names[j] by {
        assert(children[i].name != children[j].name);
    }
}

/// Whether child `i` is consistent in the columns: with one more row that
/// reads as its value where it comes before child `upto`, else with `n` rows.
pub open spec fn child_state(
    f: FieldModel,
    base: int,
    cols: Seq<Column>,
    n: int,
    values: Seq<Value>,
    i: int,
    upto: int,
) -> bool {
    if i < upto {
        columns_ok(f.children[i], child_base(f, base, i), cols, n + 1) && de(
            f.children[i],
            child_base(f, base, i),
            cols,
            n,
        ) == values[i]
    } else {
        columns_ok(f.children[i], child_base(f, base, i), cols, n)
    }
}

/// Columns that change outside of the buffers of a child leave the child as it was.
pub proof fn lemma_child_kept(
    f: FieldModel,
    base: int,
    before: Seq<Column>,
    after: Seq<Column>,
    n: int,
    values: Seq<Value>,
    i: int,
    upto: int,
    lo: int,
    hi: int,
)
    requires
        0 <= n,
        0 <= i < f.children.len(),
        shape_ok(f, base, before),
        extends(before, after, lo, hi),
        hi <= child_base(f, base, i) || child_base(f, base, i + 1) <= lo,
        child_state(f, base, before, n, values, i, upto),
    ensures
        child_state(f, base, after, n, values, i, upto),
{
    let done = i < upto;
    let child = f.children[i];
    let cb = child_base(f, base, i);
    lemma_child_layout(f, base, i);
    lemma_shape_child(f, base, before, i);
    assert(same_on(before, after, cb, cb + count(child)));
    lemma_check_same(child, cb, before, after, n, ErrorKind::LengthMismatch);
    lemma_check_same(child, cb, before, after, n + 1, ErrorKind::LengthMismatch);
    if done {
        lemma_extends_full(before, after, lo, hi);
        lemma_de_stable(child, cb, before, after, n + 1, n);
    }
}

/// Columns that extend within some range extend within the range of all columns.
pub proof fn lemma_extends_full(a: Seq<Column>, b: Seq<Column>, lo: int, hi: int)
    requires
        extends(a, b, lo, hi),
    ensures
        extends(a, b, 0, a.len() as int),
{
    assert forall|i: int| 0 <= i < a.len() implies {
        &&& (#[trigger] b[i]).kind == a[i].kind
        &&& starts_with(b[i].cells, a[i].cells)
        &&& !(0 <= i < a.len()) ==> b[i] == a[i]
    } by {}
}

/// Adding a conforming value to consistent columns leaves them consistent
/// with one more row, and that row reads as the value.
pub proof fn lemma_ser(f: FieldModel, base: int, v: Value, cols: Seq<Column>, n: int)
    requires
        holds(f, base, cols, n),
        conforms(f, v),
        ser(f, base, v, cols) is Ok,
    ensures
        stored(f, base, cols, ser(f, base, v, cols)->Ok_0, n, v),
    decreases f, 2int, 0int,
{
    let after = ser(f, base, v, cols)->Ok_0;
    match v {
        Value::Null => {
            lemma_fill(f, base, cols, n);
        },
        Value::Present(inner) => {
            lemma_ser_inner(f, base, *inner, cols, n);
        },
        _ => {
            lemma_ser_inner(f, base, v, cols, n);
        },
    }
}

/// Adding a conforming value that is not null, after its validity.
pub proof fn lemma_ser_inner(f: FieldModel, base: int, w: Value, cols: Seq<Column>, n: int)
    requires
        holds(f, base, cols, n),
        conforms_inner(f, w),
        ser_inner(f, base, w, marked(f, base, cols, true)) is Ok,
    ensures
        !(w is Null),
        !(w is Present),
        extends(
            cols,
            ser_inner(f, base, w, marked(f, base, cols, true))->Ok_0,
            base,
            base + count(f),
        ),
        columns_ok(f, base, ser_inner(f, base, w, marked(f, base, cols, true))->Ok_0, n + 1),
        de_inner(f, base, ser_inner(f, base, w, marked(f, base, cols, true))->Ok_0, n) == w,
        f.nullable ==> ser_inner(f, base, w, marked(f, base, cols, true))->Ok_0[base].bit(n),
    decreases f, 1int, 0int,
{
    assert(count(f) >= head(f).len());
    lemma_child_layout_end(f, base);
    lemma_columns_ok(f, base, cols, n, 0);
    lemma_marked(f, base, cols, n, true);
    let own = own_index(f, base);
    let cols1 = marked(f, base, cols, true);
    let after = ser_inner(f, base, w, cols1)->Ok_0;
    if count(f) > 0 {
        assert(slot_ok(layout(f)[0], cols[base + 0]));
    }
    if count(f) > 1 {
        assert(slot_ok(layout(f)[1], cols[base + 1]));
    }
    match f.data_type {
        GenericDataType::Struct => {
            let names = w->Struct_0;
            let values = w->Struct_1;
            lemma_names_known(f.children);
            assert forall|i: int| 0 <= i < f.children.len() implies child_state(
                f,
                base,
                cols1,
                n,
                values,
                i,
                0,
            ) by {
                lemma_columns_ok(f, base, cols, n, i);
                lemma_child_order(f, base, 0, i);
                lemma_child_order(f, base, i + 1, f.children.len() as int);
                assert(child_state(f, base, cols, n, values, i, 0));
                lemma_child_kept(f, base, cols, cols1, n, values, i, 0, base, own);
            }
            lemma_ser_children(f, base, 0, values, cols1, n);
            lemma_extends_trans(
                cols,
                cols1,
                after,
                base,
                own,
                own,
                base + count(f),
                base,
                base + count(f),
            );
            assert forall|i: int| 0 <= i < f.children.len() implies columns_ok(
                #[trigger] f.children[i],
                child_base(f, base, i),
                after,
                n + 1,
            ) by {
                assert(child_state(f, base, after, n, values, i, f.children.len() as int));
            }
            lemma_check_children_ok(f, base, 0, after, n + 1, ErrorKind::LengthMismatch);
            let got = de_inner(f, base, after, n)->Struct_1;
            assert forall|i: int| 0 <= i < f.children.len() implies got[i] == values[i] by {
                assert(child_state(f, base, after, n, values, i, f.children.len() as int));
            }
            assert(got =~= values);
            if f.nullable {
                assert(after[base] == cols1[base]);
            }
        },
        GenericDataType::List => {
            let items = w->Sequence_0;
            let child = f.children[0];
            let cb = child_base(f, base, 0);
            let m = cols[own].number(n);
            assert(cols[own].number(0) <= m);
            lemma_child_layout(f, base, 0);
            lemma_shape_child(f, base, cols1, 0);
            assert(same_on(cols, cols1, cb, cb + count(child)));
            lemma_check_same(child, cb, cols, cols1, m, ErrorKind::LengthMismatch);
            assert(supported(f.children[0]));
            lemma_ser_items(f, base, items, 0, cols1, m);
            let c = ser_items(f, base, items, 0, cols1)->Ok_0;
            assert(c[own] == cols[own]);
            let last = last_offset(c, own);
            assert(last == m);
            lemma_extends_push(c, own, Cell::Int(last + items.len()), own, base + count(f));
            lemma_extends_trans(
                cols1,
                c,
                after,
                cb,
                cb + count(child),
                own,
                base + count(f),
                own,
                base + count(f),
            );
            lemma_extends_trans(
                cols,
                cols1,
                after,
                base,
                own,
                own,
                base + count(f),
                base,
                base + count(f),
            );
            lemma_monotone_push(cols[own], n, last + items.len());
            assert(after[own] == cols[own].push(Cell::Int(last + items.len())));
            assert(same_on(c, after, cb, cb + count(child)));
            lemma_check_same(child, cb, c, after, m + items.len(), ErrorKind::LengthMismatch);
            assert forall|i: int| 0 <= i < f.children.len() implies columns_ok(
                #[trigger] f.children[i],
                child_base(f, base, i),
                after,
                m + items.len(),
            ) by {}
            lemma_check_children_ok(
                f,
                base,
                0,
                after,
                m + items.len(),
                ErrorKind::OffsetOutOfRange,
            );
            if f.nullable {
                assert(after[base] == cols1[base]);
            }
            lemma_extends_shape(child, cb, cols1, c, cb, cb + count(child));
            lemma_extends_full(c, after, own, base + count(f));
            let got = de_inner(f, base, after, n)->Sequence_0;
            assert(got.len() == items.len());
            assert forall|k: int| 0 <= k < items.len() implies got[k] == items[k] by {
                lemma_de_stable(child, cb, c, after, m + items.len(), m + k);
                assert(de(child, cb, c, m + (k - 0)) == items[k]);
            }
            assert(got =~= items);
        },
        GenericDataType::Mapping => {
            let entries = w->Mapping_0;
            let key = f.children[0];
            let value = f.children[1];
            let kb = child_base(f, base, 0);
            let vb = child_base(f, base, 1);
            let m = cols[own].number(n);
            assert(cols[own].number(0) <= m);
            lemma_child_layout(f, base, 0);
            lemma_child_layout(f, base, 1);
            lemma_columns_ok(f, base, cols, n, 1);
            lemma_shape_child(f, base, cols1, 0);
            lemma_shape_child(f, base, cols1, 1);
            assert(same_on(cols, cols1, kb, kb + count(key)));
            assert(same_on(cols, cols1, vb, vb + count(value)));
            lemma_check_same(key, kb, cols, cols1, m, ErrorKind::LengthMismatch);
            lemma_check_same(value, vb, cols, cols1, m, ErrorKind::LengthMismatch);
            assert(supported(f.children[0]));
            assert(supported(f.children[1]));
            lemma_ser_entries(f, base, entries, 0, cols1, m);
            let c = ser_entries(f, base, entries, 0, cols1)->Ok_0;
            assert(c[own] == cols[own]);
            let last = last_offset(c, own);
            assert(last == m);
            lemma_extends_push(c, own, Cell::Int(last + entries.len()), own, base + count(f));
            lemma_extends_trans(
                cols1,
                c,
                after,
                kb,
                vb + count(value),
                own,
                base + count(f),
                own,
                base + count(f),
            );
            lemma_extends_trans(
                cols,
                cols1,
                after,
                base,
                own,
                own,
                base + count(f),
                base,
                base + count(f),
            );
            lemma_monotone_push(cols[own], n, last + entries.len());
            assert(after[own] == cols[own].push(Cell::Int(last + entries.len())));
            assert(same_on(c, after, kb, kb + count(key)));
            assert(same_on(c, after, vb, vb + count(value)));
            lemma_check_same(key, kb, c, after, m + entries.len(), ErrorKind::LengthMismatch);
            lemma_check_same(value, vb, c, after, m + entries.len(), ErrorKind::LengthMismatch);
            assert forall|i: int| 0 <= i < f.children.len() implies columns_ok(
                #[trigger] f.children[i],
                child_base(f, base, i),
                after,
                m + entries.len(),
            ) by {}
            lemma_check_children_ok(
                f,
                base,
                0,
                after,
                m + entries.len(),
                ErrorKind::OffsetOutOfRange,
            );
            if f.nullable {
                assert(after[base] == cols1[base]);
            }
            lemma_extends_shape(key, kb, cols1, c, kb, vb + count(value));
            lemma_extends_shape(value, vb, cols1, c, kb, vb + count(value));
            lemma_extends_full(c, after, own, base + count(f));
            let got = de_inner(f, base, after, n)->Mapping_0;
            assert(got.len() == entries.len());
            assert forall|k: int| 0 <= k < entries.len() implies got[k] == entries[k] by {
                lemma_de_stable(key, kb, c, after, m + entries.len(), m + k);
                lemma_de_stable(value, vb, c, after, m + entries.len(), m + k);
                assert(de(key, kb, c, m + (k - 0)) == entries[k].0);
                assert(de(value, vb, c, m + (k - 0)) == entries[k].1);
            }
            assert(got =~= entries);
        },
        _ => {
            lemma_leaf_round_trip(f.data_type, w);
            let cell = scalar_cell(f.data_type, w)->Ok_0;
            lemma_extends_push(cols1, own, cell, own, base + count(f));
            lemma_extends_trans(
                cols,
                cols1,
                after,
                base,
                own,
                own,
                base + count(f),
                base,
                base + count(f),
            );
            assert(cols1[own] == cols[own]);
        },
    }
}

/// Adding the fields of a conforming struct to the children from `j` on.
pub proof fn lemma_ser_children(
    f: FieldModel,
    base: int,
    j: int,
    values: Seq<Value>,
    cols: Seq<Column>,
    n: int,
)
    requires
        0 <= n,
        supported(f),
        f.data_type is Struct,
        shape_ok(f, base, cols),
        0 <= j <= f.children.len(),
        values.len() == f.children.len(),
        forall|i: int| 0 <= i < f.children.len() ==> conforms(f.children[i], #[trigger] values[i]),
        forall|i: int|
            0 <= i < f.children.len() ==> #[trigger] child_state(f, base, cols, n, values, i, j),
        ser_children(f, base, j, names_of(f.children), values, cols) is Ok,
    ensures
        extends(
            cols,
            ser_children(f, base, j, names_of(f.children), values, cols)->Ok_0,
            child_base(f, base, j),
            base + count(f),
        ),
        forall|i: int|
            0 <= i < f.children.len() ==> #[trigger] child_state(
                f,
                base,
                ser_children(f, base, j, names_of(f.children), values, cols)->Ok_0,
                n,
                values,
                i,
                f.children.len() as int,
            ),
    decreases f, 0int, f.children.len() - j,
{
    let names = names_of(f.children);
    lemma_child_layout_end(f, base);
    if j >= f.children.len() {
        lemma_extends_refl(cols, child_base(f, base, j), base + count(f));
        assert forall|i: int| 0 <= i < f.children.len() implies #[trigger] child_state(
            f,
            base,
            cols,
            n,
            values,
            i,
            f.children.len() as int,
        ) by {
            assert(child_state(f, base, cols, n, values, i, j));
        }
    } else {
        let child = f.children[j];
        let cb = child_base(f, base, j);
        lemma_first_index_distinct(f.children, j, 0);
        lemma_child_layout(f, base, j);
        lemma_shape_child(f, base, cols, j);
        assert(child_state(f, base, cols, n, values, j, j));
        assert(supported(f.children[j]));
        assert(conforms(child, values[j]));
        assert(ser_child(f, base, j, names, values, cols) == ser(child, cb, values[j], cols));
        lemma_ser(child, cb, values[j], cols, n);
        let next = ser(child, cb, values[j], cols)->Ok_0;
        lemma_extends_shape(f, base, cols, next, cb, cb + count(child));
        assert forall|i: int| 0 <= i < f.children.len() implies #[trigger] child_state(
            f,
            base,
            next,
            n,
            values,
            i,
            j + 1,
        ) by {
            assert(child_state(f, base, cols, n, values, i, j));
            if i < j {
                lemma_child_order(f, base, i + 1, j);
                lemma_child_kept(f, base, cols, next, n, values, i, j, cb, cb + count(child));
            } else if i > j {
                lemma_child_order(f, base, j + 1, i);
                lemma_child_kept(f, base, cols, next, n, values, i, j, cb, cb + count(child));
            }
        }
        lemma_ser_children(f, base, j + 1, values, next, n);
        let after = ser_children(f, base, j + 1, names, values, next)->Ok_0;
        lemma_child_order(f, base, j + 1, f.children.len() as int);
        lemma_extends_trans(
            cols,
            next,
            after,
            cb,
            cb + count(child),
            child_base(f, base, j + 1),
            base + count(f),
            cb,
            base + count(f),
        );
    }
}

/// Adding conforming items to the child of a list, from item `k` on.
pub proof fn lemma_ser_items(
    f: FieldModel,
    base: int,
    items: Seq<Value>,
    k: int,
    cols: Seq<Column>,
    m: int,
)
    requires
        f.children.len() >= 1,
        holds(f.children[0], child_base(f, base, 0), cols, m),
        0 <= k <= items.len(),
        forall|i: int| 0 <= i < items.len() ==> conforms(f.children[0], #[trigger] items[i]),
        ser_items(f, base, items, k, cols) is Ok,
    ensures
        extends(
            cols,
            ser_items(f, base, items, k, cols)->Ok_0,
            child_base(f, base, 0),
            child_base(f, base, 0) + count(f.children[0]),
        ),
        columns_ok(
            f.children[0],
            child_base(f, base, 0),
            ser_items(f, base, items, k, cols)->Ok_0,
            m + (items.len() - k),
        ),
        forall|i: int|
            k <= i < items.len() ==> de(
                f.children[0],
                child_base(f, base, 0),
                ser_items(f, base, items, k, cols)->Ok_0,
                m + (i - k),
            ) == #[trigger] items[i],
    decreases f, 0int, items.len() - k,
{
    let child = f.children[0];
    let cb = child_base(f, base, 0);
    if k >= items.len() {
        lemma_extends_refl(cols, cb, cb + count(child));
    } else {
        assert(conforms(child, items[k]));
        lemma_ser(child, cb, items[k], cols, m);
        let next = ser(child, cb, items[k], cols)->Ok_0;
        lemma_extends_shape(child, cb, cols, next, cb, cb + count(child));
        lemma_ser_items(f, base, items, k + 1, next, m + 1);
        let after = ser_items(f, base, items, k + 1, next)->Ok_0;
        lemma_extends_trans(
            cols,
            next,
            after,
            cb,
            cb + count(child),
            cb,
            cb + count(child),
            cb,
            cb + count(child),
        );
        lemma_extends_full(next, after, cb, cb + count(child));
        lemma_de_stable(child, cb, next, after, m + 1, m);
        assert forall|i: int| k <= i < items.len() implies de(child, cb, after, m + (i - k))
            == #[trigger] items[i] by {
            if i > k {
                assert(de(child, cb, after, m + 1 + (i - (k + 1))) == items[i]);
            }
        }
    }
}

/// Adding conforming entries to the two children of a map, from entry `k` on.
pub proof fn lemma_ser_entries(
    f: FieldModel,
    base: int,
    entries: Seq<(Value, Value)>,
    k: int,
    cols: Seq<Column>,
    m: int,
)
    requires
        f.children.len() >= 2,
        holds(f.children[0], child_base(f, base, 0), cols, m),
        holds(f.children[1], child_base(f, base, 1), cols, m),
        0 <= k <= entries.len(),
        forall|i: int|
            0 <= i < entries.len() ==> conforms(f.children[0], (#[trigger] entries[i]).0)
                && conforms(f.children[1], entries[i].1),
        ser_entries(f, base, entries, k, cols) is Ok,
    ensures
        extends(
            cols,
            ser_entries(f, base, entries, k, cols)->Ok_0,
            child_base(f, base, 0),
            child_base(f, base, 1) + count(f.children[1]),
        ),
        columns_ok(
            f.children[0],
            child_base(f, base, 0),
            ser_entries(f, base, entries, k, cols)->Ok_0,
            m + (entries.len() - k),
        ),
        columns_ok(
            f.children[1],
            child_base(f, base, 1),
            ser_entries(f, base, entries, k, cols)->Ok_0,
            m + (entries.len() - k),
        ),
        forall|i: int|
            k <= i < entries.len() ==> de(
                f.children[0],
                child_base(f, base, 0),
                ser_entries(f, base, entries, k, cols)->Ok_0,
                m + (i - k),
            ) == (#[trigger] entries[i]).0 && de(
                f.children[1],
                child_base(f, base, 1),
                ser_entries(f, base, entries, k, cols)->Ok_0,
                m + (i - k),
            ) == entries[i].1,
    decreases f, 0int, entries.len() - k,
{
    let key = f.children[0];
    let value = f.children[1];
    let kb = child_base(f, base, 0);
    let vb = child_base(f, base, 1);
    lemma_child_layout(f, base, 0);
    lemma_child_layout(f, base, 1);
    if k >= entries.len() {
        lemma_extends_refl(cols, kb, vb + count(value));
    } else {
        assert(conforms(key, entries[k].0));
        assert(conforms(value, entries[k].1));
        lemma_ser(key, kb, entries[k].0, cols, m);
        let keyed = ser(key, kb, entries[k].0, cols)->Ok_0;
        lemma_extends_shape(key, kb, cols, keyed, kb, kb + count(key));
        lemma_extends_shape(value, vb, cols, keyed, kb, kb + count(key));
        assert(same_on(cols, keyed, vb, vb + count(value)));
        lemma_check_same(value, vb, cols, keyed, m, ErrorKind::LengthMismatch);
        lemma_ser(value, vb, entries[k].1, keyed, m);
        let next = ser(value, vb, entries[k].1, keyed)->Ok_0;
        lemma_extends_shape(key, kb, keyed, next, vb, vb + count(value));
        lemma_extends_shape(value, vb, keyed, next, vb, vb + count(value));
        assert(same_on(keyed, next, kb, kb + count(key)));
        lemma_check_same(key, kb, keyed, next, m + 1, ErrorKind::LengthMismatch);
        lemma_extends_full(keyed, next, vb, vb + count(value));
        lemma_de_stable(key, kb, keyed, next, m + 1, m);
        lemma_ser_entries(f, base, entries, k + 1, next, m + 1);
        let after = ser_entries(f, base, entries, k + 1, next)->Ok_0;
        lemma_extends_trans(
            cols,
            keyed,
            next,
            kb,
            kb + count(key),
            vb,
            vb + count(value),
            kb,
            vb + count(value),
        );
        lemma_extends_trans(
            cols,
            next,
            after,
            kb,
            vb + count(value),
            kb,
            vb + count(value),
            kb,
            vb + count(value),
        );
        lemma_extends_full(next, after, kb, vb + count(value));
        lemma_de_stable(key, kb, next, after, m + 1, m);
        lemma_de_stable(value, vb, next, after, m + 1, m);
        assert forall|i: int| k <= i < entries.len() implies de(key, kb, after, m + (i - k)) == (
        #[trigger] entries[i]).0 && de(value, vb, after, m + (i - k)) == entries[i].1 by {
            if i > k {
                assert(de(key, kb, after, m + 1 + (i - (k + 1))) == entries[i].0);
                assert(de(value, vb, after, m + 1 + (i - (k + 1))) == entries[i].1);
            }
        }
    }
}

/// Whether the columns of the field hold no row: each is as it was allocated.
pub open spec fn fresh_on(f: FieldModel, base: int, cols: Seq<Column>) -> bool {
    forall|i: int|
        0 <= i < count(f) ==> cols[base + i].cells == (#[trigger] layout(f)[i]).spec_kind().initial()
}

/// Columns without rows are consistent.
pub proof fn lemma_fresh_ok(f: FieldModel, base: int, cols: Seq<Column>)
    requires
        shape_ok(f, base, cols),
        fresh_on(f, base, cols),
    ensures
        columns_ok(f, base, cols, 0),
    decreases f,
{
    assert(count(f) >= head(f).len());
    lemma_child_layout_end(f, base);
    let own = own_index(f, base);
    if count(f) > 0 {
        assert(cols[base + 0].cells == layout(f)[0].spec_kind().initial());
    }
    if count(f) > 1 {
        assert(cols[base + 1].cells == layout(f)[1].spec_kind().initial());
    }
    assert forall|j: int| 0 <= j < f.children.len() implies columns_ok(
        #[trigger] f.children[j],
        child_base(f, base, j),
        cols,
        0,
    ) by {
        let child = f.children[j];
        let cb = child_base(f, base, j);
        lemma_child_layout(f, base, j);
        lemma_shape_child(f, base, cols, j);
        assert forall|i: int| 0 <= i < count(child) implies cols[cb + i].cells == (
        #[trigger] layout(child)[i]).spec_kind().initial() by {
            let k = child_base(f, 0, j) + i;
            assert(layout(child)[i] == layout(f)[k]);
            assert(cols[base + k].cells == layout(f)[k].spec_kind().initial());
        }
        lemma_fresh_ok(child, cb, cols);
    }
    match own_operation(f.data_type) {
        Some(Operation::PushOffset) => {
            assert(cols[own].cells =~= seq![Cell::Int(0)]);
            assert(cols[own].number(0) == 0);
            lemma_check_children_ok(f, base, 0, cols, 0, ErrorKind::OffsetOutOfRange);
        },
        Some(_) => {},
        None => {
            lemma_check_children_ok(f, base, 0, cols, 0, ErrorKind::LengthMismatch);
        },
    }
}

/// Adding conforming records, from record `k` on, to consistent columns.
pub proof fn lemma_ser_records(
    root: FieldModel,
    items: Seq<Value>,
    k: int,
    cols: Seq<Column>,
    n: int,
)
    requires
        holds(root, 0, cols, n),
        0 <= k <= items.len(),
        forall|i: int| 0 <= i < items.len() ==> conforms(root, #[trigger] items[i]),
        ser_records(root, items, k, cols) is Ok,
    ensures
        extends(cols, ser_records(root, items, k, cols)->Ok_0, 0, count(root)),
        columns_ok(root, 0, ser_records(root, items, k, cols)->Ok_0, n + (items.len() - k)),
        forall|i: int|
            k <= i < items.len() ==> de(
                root,
                0,
                ser_records(root, items, k, cols)->Ok_0,
                n + (i - k),
            ) == #[trigger] items[i],
        forall|row: int|
            0 <= row < n ==> #[trigger] de(root, 0, ser_records(root, items, k, cols)->Ok_0, row)
                == de(root, 0, cols, row),
    decreases items.len() - k,
{
    if k >= items.len() {
        lemma_extends_refl(cols, 0, count(root));
    } else {
        assert(conforms(root, items[k]));
        lemma_ser(root, 0, items[k], cols, n);
        let next = ser(root, 0, items[k], cols)->Ok_0;
        lemma_extends_shape(root, 0, cols, next, 0, count(root));
        lemma_ser_records(root, items, k + 1, next, n + 1);
        let after = ser_records(root, items, k + 1, next)->Ok_0;
        lemma_extends_trans(cols, next, after, 0, count(root), 0, count(root), 0, count(root));
        lemma_extends_full(next, after, 0, count(root));
        lemma_extends_full(cols, next, 0, count(root));
        lemma_de_stable(root, 0, next, after, n + 1, n);
        assert forall|i: int| k <= i < items.len() implies de(root, 0, after, n + (i - k))
            == #[trigger] items[i] by {
            if i > k {
                assert(de(root, 0, after, n + 1 + (i - (k + 1))) == items[i]);
            }
        }
        assert forall|row: int| 0 <= row < n implies #[trigger] de(root, 0, after, row) == de(
            root,
            0,
            cols,
            row,
        ) by {
            lemma_de_stable(root, 0, cols, next, n, row);
            assert(de(root, 0, after, row) == de(root, 0, next, row));
        }
    }
}

/// Round trip of values: the rows of the buffers that conforming records
/// were added to, starting from buffers without rows, are the records.
///
/// The buffers that serialization leaves pass the check that
/// deserialization makes, and reading all rows gives back every record.
pub proof fn law_round_trip(root: FieldModel, items: Seq<Value>)
    requires
        supported(root),
        forall|i: int| 0 <= i < items.len() ==> conforms(root, #[trigger] items[i]),
        ser_records(root, items, 0, allocated(layout(root))) is Ok,
    ensures
        shape_fits(root, ser_records(root, items, 0, allocated(layout(root)))->Ok_0),
        check(
            root,
            0,
            ser_records(root, items, 0, allocated(layout(root)))->Ok_0,
            items.len() as int,
            ErrorKind::LengthMismatch,
        ) is Ok,
        rows_of(
            root,
            ser_records(root, items, 0, allocated(layout(root)))->Ok_0,
            items.len() as int,
        ) == items,
{
    let cols = allocated(layout(root));
    assert forall|i: int| 0 <= i < count(root) implies slot_ok(
        #[trigger] layout(root)[i],
        cols[0 + i],
    ) by {}
    lemma_fresh_ok(root, 0, cols);
    lemma_ser_records(root, items, 0, cols, 0);
    let after = ser_records(root, items, 0, cols)->Ok_0;
    lemma_extends_shape(root, 0, cols, after, 0, count(root));
    let rows = rows_of(root, after, items.len() as int);
    assert forall|i: int| 0 <= i < items.len() implies rows[i] == items[i] by {
        assert(de(root, 0, after, 0 + (i - 0)) == items[i]);
    }
    assert(rows =~= items);
}

/// Round trip of events: where the events of a collection of conforming
/// records were added to buffers without rows, the events that
/// deserialization produces for all rows are those events.
pub proof fn law_events_round_trip(root: FieldModel, ev: Seq<EventView>)
    requires
        supported(root),
        records_of(ev) is Ok,
        forall|i: int|
            0 <= i < records_of(ev)->Ok_0.len() ==> conforms(root, #[trigger] records_of(ev)->Ok_0[i]),
        items_added(root, ev, allocated(layout(root))) is Ok,
    ensures
        unparse(
            Value::Sequence(
                rows_of(
                    root,
                    items_added(root, ev, allocated(layout(root)))->Ok_0,
                    records_of(ev)->Ok_0.len() as int,
                ),
            ),
        ) == ev,
{
    let items = records_of(ev)->Ok_0;
    law_round_trip(root, items);
    lemma_parse_bounds(ev, 0);
    lemma_unparse_parse(ev, 0);
    assert(ev.subrange(0, ev.len() as int) =~= ev);
}

/// Whether adding a value succeeded, or failed only because an offset
/// cannot be stored.
pub open spec fn accepted(r: Result<Seq<Column>, ErrorKind>) -> bool {
    r is Ok || r == Err::<Seq<Column>, ErrorKind>(ErrorKind::OffsetOutOfRange)
}

/// A conforming value is accepted: adding it to the columns of a
/// supported field fails at most because an offset cannot be stored.
pub proof fn law_conforming_is_accepted(f: FieldModel, base: int, v: Value, cols: Seq<Column>)
    requires
        supported(f),
        conforms(f, v),
    ensures
        accepted(ser(f, base, v, cols)),
    decreases f, 2int, 0int,
{
    match v {
        Value::Null => {},
        Value::Present(inner) => {
            lemma_inner_accepted(f, base, *inner, marked(f, base, cols, true));
        },
        _ => {
            lemma_inner_accepted(f, base, v, marked(f, base, cols, true));
        },
    }
}

/// A conforming value that is not null is accepted after its validity.
pub proof fn lemma_inner_accepted(f: FieldModel, base: int, w: Value, cols: Seq<Column>)
    requires
        supported(f),
        conforms_inner(f, w),
    ensures
        !(w is Null),
        !(w is Present),
        accepted(ser_inner(f, base, w, cols)),
    decreases f, 1int, 0int,
{
    match f.data_type {
        GenericDataType::Struct => {
            lemma_names_known(f.children);
            lemma_children_accepted(f, base, 0, w->Struct_1, cols);
        },
        GenericDataType::List => {
            lemma_items_accepted(f, base, w->Sequence_0, 0, cols);
        },
        GenericDataType::Mapping => {
            lemma_entries_accepted(f, base, w->Mapping_0, 0, cols);
        },
        _ => {
            lemma_leaf_round_trip(f.data_type, w);
        },
    }
}

/// The fields of a conforming struct are accepted by the children from `j` on.
pub proof fn lemma_children_accepted(
    f: FieldModel,
    base: int,
    j: int,
    values: Seq<Value>,
    cols: Seq<Column>,
)
    requires
        supported(f),
        f.data_type is Struct,
        0 <= j <= f.children.len(),
        values.len() == f.children.len(),
        forall|i: int| 0 <= i < f.children.len() ==> conforms(f.children[i], #[trigger] values[i]),
    ensures
        accepted(ser_children(f, base, j, names_of(f.children), values, cols)),
    decreases f, 0int, f.children.len() - j,
{
    if j < f.children.len() {
        let child = f.children[j];
        let cb = child_base(f, base, j);
        lemma_first_index_distinct(f.children, j, 0);
        assert(supported(f.children[j]));
        assert(conforms(child, values[j]));
        assert(ser_child(f, base, j, names_of(f.children), values, cols) == ser(
            child,
            cb,
            values[j],
            cols,
        ));
        law_conforming_is_accepted(child, cb, values[j], cols);
        if let Ok(next) = ser(child, cb, values[j], cols) {
            lemma_children_accepted(f, base, j + 1, values, next);
        }
    }
}

/// Conforming items are accepted by the child of a list, from item `k` on.
pub proof fn lemma_items_accepted(
    f: FieldModel,
    base: int,
    items: Seq<Value>,
    k: int,
    cols: Seq<Column>,
)
    requires
        supported(f),
        f.data_type is List,
        0 <= k <= items.len(),
        forall|i: int| 0 <= i < items.len() ==> conforms(f.children[0], #[trigger] items[i]),
    ensures
        accepted(ser_items(f, base, items, k, cols)),
    decreases f, 0int, items.len() - k,
{
    if k < items.len() {
        assert(supported(f.children[0]));
        assert(conforms(f.children[0], items[k]));
        law_conforming_is_accepted(f.children[0], child_base(f, base, 0), items[k], cols);
        if let Ok(next) = ser(f.children[0], child_base(f, base, 0), items[k], cols) {
            lemma_items_accepted(f, base, items, k + 1, next);
        }
    }
}

/// Conforming entries are accepted by the children of a map, from entry `k` on.
pub proof fn lemma_entries_accepted(
    f: FieldModel,
    base: int,
    entries: Seq<(Value, Value)>,
    k: int,
    cols: Seq<Column>,
)
    requires
        supported(f),
        f.data_type is Mapping,
        0 <= k <= entries.len(),
        forall|i: int|
            0 <= i < entries.len() ==> conforms(f.children[0], (#[trigger] entries[i]).0)
                && conforms(f.children[1], entries[i].1),
    ensures
        accepted(ser_entries(f, base, entries, k, cols)),
    decreases f, 0int, entries.len() - k,
{
    if k < entries.len() {
        assert(supported(f.children[0]));
        assert(supported(f.children[1]));
        assert(conforms(f.children[0], entries[k].0));
        assert(conforms(f.children[1], entries[k].1));
        law_conforming_is_accepted(f.children[0], child_base(f, base, 0), entries[k].0, cols);
        if let Ok(keyed) = ser(f.children[0], child_base(f, base, 0), entries[k].0, cols) {
            law_conforming_is_accepted(f.children[1], child_base(f, base, 1), entries[k].1, keyed);
            if let Ok(next) = ser(f.children[1], child_base(f, base, 1), entries[k].1, keyed) {
                lemma_entries_accepted(f, base, entries, k + 1, next);
            }
        }
    }
}

/// Adding the records of a collection is adding its records one after
/// the other: the columns after all records and one more are the columns
/// after the one more was added to those after all records.
pub proof fn law_extend_is_repeated_push(
    root: FieldModel,
    items: Seq<Value>,
    v: Value,
    k: int,
    cols: Seq<Column>,
)
    requires
        0 <= k <= items.len(),
    ensures
        ser_records(root, items.push(v), k, cols) == match ser_records(root, items, k, cols) {
            Ok(c) => ser(root, 0, v, c),
            Err(e) => Err(e),
        },
    decreases items.len() - k,
{
    let longer = items.push(v);
    if k < items.len() {
        assert(longer[k] == items[k]);
        if let Ok(next) = ser(root, 0, items[k], cols) {
            law_extend_is_repeated_push(root, items, v, k + 1, next);
        }
    } else {
        assert(longer[k] == v);
        if let Ok(next) = ser(root, 0, v, cols) {
            assert(ser_records(root, longer, k + 1, next) == Ok::<Seq<Column>, ErrorKind>(next));
        }
    }
}

} // verus!
