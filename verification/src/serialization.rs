//! Serialization: what a value adds to the buffers of a field tree, and the
//! interpreter that fills buffers from events.
use vstd::prelude::*;
use crate::buffers::{Buffer, Buffers, Cell, Column, ColumnKind, Scalar};
use crate::dates::{naive_millis, parse_naive, parse_utc, utc_millis};
use crate::error::{Error, ErrorKind};
use crate::event::{Event, EventView, IntKind, views};
use crate::field::{models, FieldModel, GenericDataType, GenericField};
use crate::schema::str_eq;
use crate::layout::{
    child_base, count, grows, head, layout, layout_children, lemma_child_layout,
    lemma_shape_child, lemma_shape_grows, own_index, own_operation, shape_ok, slot_ok, supported,
    Operation,
};
use crate::value::{lemma_parse_bounds, parse_entries, parse_fields, parse_items, parse_value, value_end, Value};

verus! {

/// The value without its marker of presence, if it has one.
pub open spec fn strip(v: Value) -> Value {
    match v {
        Value::Present(inner) => *inner,
        _ => v,
    }
}

/// The columns with one more cell at the end of column `ix`.
pub open spec fn push_at(cols: Seq<Column>, ix: int, cell: Cell) -> Seq<Column> {
    cols.update(ix, cols[ix].push(cell))
}

/// The last offset of the offset column `ix`.
pub open spec fn last_offset(cols: Seq<Column>, ix: int) -> int {
    cols[ix].number(cols[ix].cells.len() - 1)
}

/// The columns after a list of `n` items was closed: the offset column `ix`
/// gains the last offset plus `n`. Fails where that offset cannot be stored.
pub open spec fn push_offset(cols: Seq<Column>, ix: int, n: int) -> Result<Seq<Column>, ErrorKind> {
    if last_offset(cols, ix) + n > usize::MAX {
        Err(ErrorKind::OffsetOutOfRange)
    } else {
        Ok(push_at(cols, ix, Cell::Int(last_offset(cols, ix) + n)))
    }
}

/// The cell that stores a value in a leaf of the given type.
///
/// An integer field takes every integer that its kind can hold, whatever the
/// kind of the event. Floating point fields take only their own kind. Dates
/// given as text are stored as the milliseconds that the text stands for.
pub open spec fn scalar_cell(data_type: GenericDataType, w: Value) -> Result<Cell, ErrorKind> {
    match (data_type, w) {
        (GenericDataType::Bool, Value::Bool(b)) => Ok(Cell::Bit(b)),
        (GenericDataType::F32, Value::F32(x)) => Ok(Cell::Int(x as int)),
        (GenericDataType::F64, Value::F64(x)) => Ok(Cell::Int(x as int)),
        (GenericDataType::Utf8, Value::Str(s)) => Ok(Cell::Text(s)),
        (GenericDataType::Date64, Value::Int(_, x)) => if IntKind::I64.holds(x) {
            Ok(Cell::Int(x))
        } else {
            Err(ErrorKind::TypeMismatch)
        },
        (GenericDataType::Date64NaiveStr, Value::Str(s)) => match naive_millis(s) {
            Some(ms) => Ok(Cell::Int(ms as int)),
            None => Err(ErrorKind::InvalidDate),
        },
        (GenericDataType::Date64UtcStr, Value::Str(s)) => match utc_millis(s) {
            Some(ms) => Ok(Cell::Int(ms as int)),
            None => Err(ErrorKind::InvalidDate),
        },
        (_, Value::Int(_, x)) => match data_type.int_kind() {
            Some(k) => if k.holds(x) {
                Ok(Cell::Int(x))
            } else {
                Err(ErrorKind::TypeMismatch)
            },
            None => Err(ErrorKind::TypeMismatch),
        },
        _ => Err(ErrorKind::TypeMismatch),
    }
}

/// The first index from `from` on at which `names` holds `name`.
pub open spec fn first_index(names: Seq<Seq<char>>, name: Seq<char>, from: int) -> Option<int>
    decreases names.len() - from,
{
    if from < 0 || from >= names.len() {
        None
    } else if names[from] == name {
        Some(from)
    } else {
        first_index(names, name, from + 1)
    }
}

/// The names of the fields.
pub open spec fn names_of(children: Seq<FieldModel>) -> Seq<Seq<char>> {
    Seq::new(children.len(), |j: int| children[j].name)
}

/// The names and values of a value that can fill a struct: those of a
/// struct, or of a map whose keys are all text.
pub open spec fn as_struct(w: Value) -> Option<(Seq<Seq<char>>, Seq<Value>)> {
    match w {
        Value::Struct(names, values) => Some((names, values)),
        Value::Mapping(entries) => if forall|i: int|
            0 <= i < entries.len() ==> (#[trigger] entries[i]).0 is Str {
            Some(
                (
                    Seq::new(entries.len(), |i: int| entries[i].0->Str_0),
                    Seq::new(entries.len(), |i: int| entries[i].1),
                ),
            )
        } else {
            None
        },
        _ => None,
    }
}

/// Whether every name is the name of a field, and no name occurs twice.
pub open spec fn names_known(children: Seq<FieldModel>, names: Seq<Seq<char>>) -> bool {
    &&& forall|i: int|
        0 <= i < names.len() ==> first_index(names_of(children), #[trigger] names[i], 0) is Some
    &&& forall|i: int, j: int| 0 <= i < j < names.len() ==> names[i] != names[j]
}

/// The columns after a slot without a value was added to the field: null
/// where the field is nullable, and in its own buffer the filler, or for a
/// list the last offset again; the fields of a struct each get such a slot.
pub open spec fn fill(f: FieldModel, base: int, cols: Seq<Column>) -> Seq<Column>
    decreases f, 1int, 0int,
{
    let cols1 = if f.nullable {
        push_at(cols, base, Cell::Bit(false))
    } else {
        cols
    };
    let own = own_index(f, base);
    match own_operation(f.data_type) {
        Some(Operation::PushOffset) => push_at(cols1, own, Cell::Int(last_offset(cols1, own))),
        Some(op) => push_at(cols1, own, op.spec_kind().filler()),
        None => fill_children(f, base, f.children.len() as int, cols1),
    }
}

/// The columns after each of the first `n` children got a slot without a value.
pub open spec fn fill_children(f: FieldModel, base: int, n: int, cols: Seq<Column>) -> Seq<Column>
    decreases f, 0int, n,
{
    if n <= 0 || n > f.children.len() {
        cols
    } else {
        fill(f.children[n - 1], child_base(f, base, n - 1), fill_children(f, base, n - 1, cols))
    }
}

/// The columns after the value was added to the field whose first buffer
/// has index `base`, or why the value cannot be added.
///
/// A marker of presence is ignored. Null needs a nullable field. Every
/// other value of a nullable field sets its validity and is then stored by
/// the type of the field.
pub open spec fn ser(f: FieldModel, base: int, v: Value, cols: Seq<Column>) -> Result<
    Seq<Column>,
    ErrorKind,
>
    decreases f, 2int, 0int,
{
    let w = strip(v);
    if w is Null {
        if f.nullable {
            Ok(fill(f, base, cols))
        } else {
            Err(ErrorKind::TypeMismatch)
        }
    } else {
        let cols1 = if f.nullable {
            push_at(cols, base, Cell::Bit(true))
        } else {
            cols
        };
        ser_inner(f, base, w, cols1)
    }
}

/// The columns after a value that is not null was stored by the type of the field.
pub open spec fn ser_inner(f: FieldModel, base: int, w: Value, cols: Seq<Column>) -> Result<
    Seq<Column>,
    ErrorKind,
>
    decreases f, 1int, 0int,
{
    let own = own_index(f, base);
    match f.data_type {
        GenericDataType::Struct => match as_struct(w) {
            Some((names, values)) => if names_known(f.children, names) {
                ser_children(f, base, 0, names, values, cols)
            } else {
                Err(ErrorKind::UnknownField)
            },
            None => Err(ErrorKind::TypeMismatch),
        },
        GenericDataType::List => match w {
            Value::Sequence(items) => match ser_items(f, base, items, 0, cols) {
                Ok(c) => push_offset(c, own, items.len() as int),
                Err(e) => Err(e),
            },
            _ => Err(ErrorKind::TypeMismatch),
        },
        GenericDataType::Mapping => match w {
            Value::Mapping(entries) => match ser_entries(f, base, entries, 0, cols) {
                Ok(c) => push_offset(c, own, entries.len() as int),
                Err(e) => Err(e),
            },
            _ => Err(ErrorKind::TypeMismatch),
        },
        _ => match scalar_cell(f.data_type, w) {
            Ok(cell) => Ok(push_at(cols, own, cell)),
            Err(e) => Err(e),
        },
    }
}

/// The columns after the children from index `j` on took their values from
/// the fields of a struct: each child the value of the field with its name,
/// or a slot without a value where no field has it and the child is
/// nullable.
pub open spec fn ser_children(
    f: FieldModel,
    base: int,
    j: int,
    names: Seq<Seq<char>>,
    values: Seq<Value>,
    cols: Seq<Column>,
) -> Result<Seq<Column>, ErrorKind>
    decreases f, 0int, f.children.len() - j,
{
    if j < 0 || j >= f.children.len() {
        Ok(cols)
    } else {
        match ser_child(f, base, j, names, values, cols) {
            Ok(c) => ser_children(f, base, j + 1, names, values, c),
            Err(e) => Err(e),
        }
    }
}

/// The columns after child `j` took its value from the fields of a struct.
pub open spec fn ser_child(
    f: FieldModel,
    base: int,
    j: int,
    names: Seq<Seq<char>>,
    values: Seq<Value>,
    cols: Seq<Column>,
) -> Result<Seq<Column>, ErrorKind>
    recommends
        0 <= j < f.children.len(),
    decreases f, 0int, 0int,
    when 0 <= j < f.children.len()
{
    let child = f.children[j];
    match first_index(names, child.name, 0) {
        Some(i) => ser(child, child_base(f, base, j), values[i], cols),
        None => if child.nullable {
            Ok(fill(child, child_base(f, base, j), cols))
        } else {
            Err(ErrorKind::MissingField)
        },
    }
}

/// The columns after the items from index `k` on were added to the child of a list.
pub open spec fn ser_items(
    f: FieldModel,
    base: int,
    items: Seq<Value>,
    k: int,
    cols: Seq<Column>,
) -> Result<Seq<Column>, ErrorKind>
    decreases f, 0int, items.len() - k,
{
    if k < 0 || k >= items.len() || f.children.len() < 1 {
        Ok(cols)
    } else {
        match ser(f.children[0], child_base(f, base, 0), items[k], cols) {
            Ok(c) => ser_items(f, base, items, k + 1, c),
            Err(e) => Err(e),
        }
    }
}

/// The columns after the entries from index `k` on were added to the two
/// children of a map: the key to the first, the value to the second.
pub open spec fn ser_entries(
    f: FieldModel,
    base: int,
    entries: Seq<(Value, Value)>,
    k: int,
    cols: Seq<Column>,
) -> Result<Seq<Column>, ErrorKind>
    decreases f, 0int, entries.len() - k,
{
    if k < 0 || k >= entries.len() || f.children.len() < 2 {
        Ok(cols)
    } else {
        match ser(f.children[0], child_base(f, base, 0), entries[k].0, cols) {
            Ok(c) => match ser(f.children[1], child_base(f, base, 1), entries[k].1, c) {
                Ok(c) => ser_entries(f, base, entries, k + 1, c),
                Err(e) => Err(e),
            },
            Err(e) => Err(e),
        }
    }
}

/// The operation on the buffer that a field of the given type owns.
pub fn own_op(data_type: GenericDataType) -> (r: Option<Operation>)
    ensures
        r == own_operation(data_type),
{
    match data_type {
        GenericDataType::Bool => Some(Operation::PushValue(ColumnKind::Bits)),
        GenericDataType::I8 => Some(Operation::PushValue(ColumnKind::Int(IntKind::I8))),
        GenericDataType::I16 => Some(Operation::PushValue(ColumnKind::Int(IntKind::I16))),
        GenericDataType::I32 => Some(Operation::PushValue(ColumnKind::Int(IntKind::I32))),
        GenericDataType::I64 => Some(Operation::PushValue(ColumnKind::Int(IntKind::I64))),
        GenericDataType::U8 => Some(Operation::PushValue(ColumnKind::Int(IntKind::U8))),
        GenericDataType::U16 => Some(Operation::PushValue(ColumnKind::Int(IntKind::U16))),
        GenericDataType::U32 => Some(Operation::PushValue(ColumnKind::Int(IntKind::U32))),
        GenericDataType::U64 => Some(Operation::PushValue(ColumnKind::Int(IntKind::U64))),
        GenericDataType::F32 => Some(Operation::PushValue(ColumnKind::F32)),
        GenericDataType::F64 => Some(Operation::PushValue(ColumnKind::F64)),
        GenericDataType::Utf8 => Some(Operation::PushValue(ColumnKind::Utf8)),
        GenericDataType::Date64
        | GenericDataType::Date64NaiveStr
        | GenericDataType::Date64UtcStr => Some(
            Operation::PushValue(ColumnKind::Int(IntKind::I64)),
        ),
        GenericDataType::List | GenericDataType::Mapping => Some(Operation::PushOffset),
        GenericDataType::Struct | GenericDataType::Null | GenericDataType::Backend { .. } => None,
    }
}

/// The number of buffers of the field and its descendants.
pub fn buffer_count(f: &GenericField) -> (n: usize)
    requires
        count(f@) <= usize::MAX,
    ensures
        n == count(f@),
    decreases f@,
{
    proof {
        f.lemma_view();
    }
    let mut n: usize = 0;
    if f.nullable {
        n = n + 1;
    }
    if own_op(f.data_type).is_some() {
        n = n + 1;
    }
    let mut j: usize = 0;
    while j < f.children.len()
        invariant
            j <= f.children@.len(),
            f@.children == crate::field::models(f.children@),
            count(f@) <= usize::MAX,
            n == head(f@).len() + layout_children(f@, j as int).len(),
        decreases f.children@.len() - j,
    {
        proof {
            lemma_child_layout(f@, 0, j as int);
        }
        let c = buffer_count(&f.children[j]);
        n = n + c;
        j = j + 1;
    }
    n
}

/// The value of a single event that is a value by itself.
pub open spec fn leaf_value(e: EventView) -> Option<Value> {
    match e {
        EventView::Null => Some(Value::Null),
        EventView::Bool(b) => Some(Value::Bool(b)),
        EventView::Int(k, x) => Some(Value::Int(k, x)),
        EventView::F32(x) => Some(Value::F32(x)),
        EventView::F64(x) => Some(Value::F64(x)),
        EventView::Str(s) => Some(Value::Str(s)),
        EventView::Bytes(b) => Some(Value::Bytes(b)),
        _ => None,
    }
}

/// The integer of an integer event.
fn event_int(event: &Event) -> (r: Option<i128>)
    ensures
        match r {
            Some(x) => event@ matches EventView::Int(_, y) && x == y,
            None => !(event@ is Int),
        },
{
    match event {
        Event::I8(x) => Some(*x as i128),
        Event::I16(x) => Some(*x as i128),
        Event::I32(x) => Some(*x as i128),
        Event::I64(x) => Some(*x as i128),
        Event::U8(x) => Some(*x as i128),
        Event::U16(x) => Some(*x as i128),
        Event::U32(x) => Some(*x as i128),
        Event::U64(x) => Some(*x as i128),
        _ => None,
    }
}

/// Whether an integer kind can hold `x`.
fn kind_holds(kind: IntKind, x: i128) -> (r: bool)
    ensures
        r == kind.holds(x as int),
{
    match kind {
        IntKind::I8 => -0x80 <= x && x <= 0x7f,
        IntKind::I16 => -0x8000 <= x && x <= 0x7fff,
        IntKind::I32 => -0x8000_0000 <= x && x <= 0x7fff_ffff,
        IntKind::I64 => -0x8000_0000_0000_0000 <= x && x <= 0x7fff_ffff_ffff_ffff,
        IntKind::U8 => 0 <= x && x <= 0xff,
        IntKind::U16 => 0 <= x && x <= 0xffff,
        IntKind::U32 => 0 <= x && x <= 0xffff_ffff,
        IntKind::U64 => 0 <= x && x <= 0xffff_ffff_ffff_ffff,
    }
}

/// The integer kind of an integer type.
fn int_kind_of(data_type: GenericDataType) -> (r: Option<IntKind>)
    ensures
        r == data_type.int_kind(),
{
    match data_type {
        GenericDataType::I8 => Some(IntKind::I8),
        GenericDataType::I16 => Some(IntKind::I16),
        GenericDataType::I32 => Some(IntKind::I32),
        GenericDataType::I64 => Some(IntKind::I64),
        GenericDataType::U8 => Some(IntKind::U8),
        GenericDataType::U16 => Some(IntKind::U16),
        GenericDataType::U32 => Some(IntKind::U32),
        GenericDataType::U64 => Some(IntKind::U64),
        _ => None,
    }
}

/// The scalar that stores the value of an event in a leaf of the given type.
///
/// `w` is the value that starts with the event: that of the event itself
/// where it is a value by itself, else some value that is no leaf.
fn scalar_for(data_type: GenericDataType, event: &Event, Ghost(w): Ghost<Value>) -> (r: Result<
    Scalar,
    ErrorKind,
>)
    requires
        match leaf_value(event@) {
            Some(v) => w == v,
            None => w is Sequence || w is Struct || w is Mapping || w is Present,
        },
    ensures
        match scalar_cell(data_type, w) {
            Ok(cell) => {
                &&& r matches Ok(s)
                &&& s@ == cell
                &&& own_operation(data_type) matches Some(op)
                &&& op.spec_kind().fits(cell)
            },
            Err(k) => r == Err::<Scalar, ErrorKind>(k),
        },
{
    match (data_type, event) {
        (GenericDataType::Bool, Event::Bool(b)) => Ok(Scalar::Bit(*b)),
        (GenericDataType::F32, Event::F32(x)) => Ok(Scalar::Int(*x as i128)),
        (GenericDataType::F64, Event::F64(x)) => Ok(Scalar::Int(*x as i128)),
        (GenericDataType::Utf8, Event::Str(s)) => Ok(Scalar::Text(s.clone())),
        (GenericDataType::Date64NaiveStr, Event::Str(s)) => match parse_naive(s.as_str()) {
            Some(ms) => Ok(Scalar::Int(ms as i128)),
            None => Err(ErrorKind::InvalidDate),
        },
        (GenericDataType::Date64UtcStr, Event::Str(s)) => match parse_utc(s.as_str()) {
            Some(ms) => Ok(Scalar::Int(ms as i128)),
            None => Err(ErrorKind::InvalidDate),
        },
        (_, _) => {
            let kind = match data_type {
                GenericDataType::Date64 => Some(IntKind::I64),
                _ => int_kind_of(data_type),
            };
            match (kind, event_int(event)) {
                (Some(k), Some(x)) => if kind_holds(k, x) {
                    Ok(Scalar::Int(x))
                } else {
                    Err(ErrorKind::TypeMismatch)
                },
                _ => Err(ErrorKind::TypeMismatch),
            }
        },
    }
}

/// Adds a slot without a value to the field whose first buffer has index `base`.
pub fn fill_value(f: &GenericField, base: usize, bufs: &mut Buffers)
    requires
        shape_ok(f@, base as int, old(bufs)@),
    ensures
        final(bufs)@ == fill(f@, base as int, old(bufs)@),
        grows(old(bufs)@, final(bufs)@),
    decreases f@,
{
    let ghost start = bufs@;
    let total = bufs.len();
    proof {
        f.lemma_view();
        bufs.lemma_typed();
        assert(count(f@) >= head(f@).len());
        if count(f@) > 0 {
            assert(slot_ok(layout(f@)[0], start[base as int + 0]));
        }
        if count(f@) > 1 {
            assert(slot_ok(layout(f@)[1], start[base as int + 1]));
        }
    }
    let mut own = base;
    if f.nullable {
        bufs.push(base, Scalar::Bit(false));
        own = base + 1;
    }
    let ghost cols1 = bufs@;
    match own_op(f.data_type) {
        Some(Operation::PushOffset) => {
            proof {
                bufs.lemma_typed();
                assert(bufs@[own as int].typed());
            }
            let rows = bufs.rows(own);
            let last = bufs.get(own, rows - 1);
            proof {
                assert(ColumnKind::Offsets.fits(bufs@[own as int].cells[rows - 1]));
            }
            bufs.push(own, last);
        },
        Some(op) => {
            bufs.push(own, Buffer::filler(op.kind()));
        },
        None => {
            let mut j: usize = 0;
            let mut cb: usize = own;
            while j < f.children.len()
                invariant
                    j <= f.children@.len(),
                    f@.children == crate::field::models(f.children@),
                    own_operation(f@.data_type) is None,
                    own == own_index(f@, base as int),
                    shape_ok(f@, base as int, start),
                    start.len() <= usize::MAX,
                    grows(start, bufs@),
                    cb == child_base(f@, base as int, j as int),
                    bufs@ == fill_children(f@, base as int, j as int, cols1),
                decreases f.children@.len() - j,
            {
                proof {
                    lemma_shape_grows(f@, base as int, start, bufs@);
                    lemma_shape_child(f@, base as int, bufs@, j as int);
                    lemma_child_layout(f@, base as int, j as int);
                }
                fill_value(&f.children[j], cb, bufs);
                cb = cb + buffer_count(&f.children[j]);
                j = j + 1;
            }
        },
    }
}

/// Adding a cell to a buffer makes the buffers grow.
pub proof fn lemma_push_grows(cols: Seq<Column>, ix: int, cell: Cell)
    requires
        0 <= ix < cols.len(),
    ensures
        grows(cols, push_at(cols, ix, cell)),
{
}

/// Growth is transitive.
pub proof fn lemma_grows_trans(a: Seq<Column>, b: Seq<Column>, c: Seq<Column>)
    requires
        grows(a, b),
        grows(b, c),
    ensures
        grows(a, c),
{
    assert forall|i: int| 0 <= i < a.len() implies (#[trigger] c[i]).kind == a[i].kind
        && c[i].cells.len() >= a[i].cells.len() by {
        assert(b[i].kind == a[i].kind);
    }
}

/// The value that starts at `pos`.
pub open spec fn value_at(ev: Seq<EventView>, pos: int) -> Value {
    parse_value(ev, pos)->Some_0.0
}

/// The text of an event that names a field: a field name, or the text key of a map.
pub open spec fn name_of(e: EventView) -> Option<Seq<char>> {
    match e {
        EventView::FieldName(s) => Some(s),
        EventView::Str(s) => Some(s),
        _ => None,
    }
}

/// Whether `kpos` and `vpos` hold, for each field of a struct, the position
/// of the event that names it and the position at which its value starts.
pub open spec fn entries_at(
    ev: Seq<EventView>,
    names: Seq<Seq<char>>,
    values: Seq<Value>,
    kpos: Seq<usize>,
    vpos: Seq<usize>,
) -> bool {
    &&& kpos.len() == names.len()
    &&& vpos.len() == names.len()
    &&& values.len() == names.len()
    &&& forall|i: int|
        0 <= i < names.len() ==> {
            &&& (#[trigger] kpos[i]) < ev.len()
            &&& name_of(ev[kpos[i] as int]) == Some(names[i])
            &&& parse_value(ev, vpos[i] as int) is Some
            &&& value_at(ev, vpos[i] as int) == values[i]
        }
}

/// The positions of the names and of the values of the fields of the struct
/// or map that starts at `pos`; `None` for a map with a key that is no text.
#[verifier::loop_isolation(false)]
pub(crate) fn scan_struct(events: &Vec<Event>, pos: usize) -> (r: Option<(Vec<usize>, Vec<usize>)>)
    requires
        pos < events@.len(),
        parse_value(views(events@), pos as int) is Some,
        events@[pos as int]@ is StartStruct || events@[pos as int]@ is StartMap,
    ensures
        match as_struct(value_at(views(events@), pos as int)) {
            Some((names, values)) => r matches Some((kpos, vpos)) && entries_at(
                views(events@),
                names,
                values,
                kpos@,
                vpos@,
            ),
            None => r is None,
        },
        r matches Some((kpos, vpos)) ==> forall|i: int|
            0 <= i < vpos@.len() ==> pos < #[trigger] vpos@[i],
{
    let ghost ev = views(events@);
    let total = events.len();
    let mut kpos: Vec<usize> = Vec::new();
    let mut vpos: Vec<usize> = Vec::new();
    let mut p: usize = pos + 1;
    if let Event::StartStruct = &events[pos] {
        let ghost parsed = parse_fields(ev, pos + 1)->Some_0;
        let ghost names = parsed.0;
        let ghost values = parsed.1;
        proof {
            lemma_parse_bounds(ev, pos + 1);
            assert(names.skip(0) == names);
            assert(values.skip(0) == values);
        }
        loop
            invariant
                pos < p < events@.len(),
                kpos@.len() == vpos@.len(),
                forall|i: int| 0 <= i < vpos@.len() ==> pos < #[trigger] vpos@[i],
                kpos@.len() <= names.len(),
                names.len() == values.len(),
                parse_fields(ev, p as int) is Some,
                parse_fields(ev, p as int)->Some_0.0 == names.skip(kpos@.len() as int),
                parse_fields(ev, p as int)->Some_0.1 == values.skip(kpos@.len() as int),
                forall|i: int|
                    0 <= i < kpos@.len() ==> {
                        &&& (#[trigger] kpos@[i]) < ev.len()
                        &&& name_of(ev[kpos@[i] as int]) == Some(names[i])
                        &&& parse_value(ev, vpos@[i] as int) is Some
                        &&& value_at(ev, vpos@[i] as int) == values[i]
                    },
            decreases events@.len() - p,
        {
            let ghost k = kpos@.len() as int;
            match &events[p] {
                Event::FieldName(_) => {
                    proof {
                        lemma_parse_bounds(ev, p + 1);
                        let next = parse_value(ev, p + 1)->Some_0.1;
                        lemma_parse_bounds(ev, next);
                        let rest = parse_fields(ev, next)->Some_0;
                        assert(names.skip(k)[0] == names[k]);
                        assert(values.skip(k)[0] == values[k]);
                        assert(names.skip(k + 1) =~= rest.0) by {
                            assert(names.skip(k).skip(1) =~= names.skip(k + 1));
                            assert((seq![names[k]] + rest.0).skip(1) =~= rest.0);
                        }
                        assert(values.skip(k + 1) =~= rest.1) by {
                            assert(values.skip(k).skip(1) =~= values.skip(k + 1));
                            assert((seq![values[k]] + rest.1).skip(1) =~= rest.1);
                        }
                    }
                    kpos.push(p);
                    vpos.push(p + 1);
                    match value_end(events, p + 1) {
                        Some(next) => {
                            p = next;
                        },
                        None => {
                            return None;
                        },
                    }
                },
                _ => {
                    proof {
                        assert(names.skip(k).len() == 0);
                    }
                    return Some((kpos, vpos));
                },
            }
        }
    } else {
        let ghost parsed = parse_entries(ev, pos + 1)->Some_0;
        let ghost entries = parsed.0;
        proof {
            lemma_parse_bounds(ev, pos + 1);
            assert(entries.skip(0) == entries);
        }
        loop
            invariant
                pos < p < events@.len(),
                kpos@.len() == vpos@.len(),
                forall|i: int| 0 <= i < vpos@.len() ==> pos < #[trigger] vpos@[i],
                kpos@.len() <= entries.len(),
                parse_entries(ev, p as int) is Some,
                parse_entries(ev, p as int)->Some_0.0 == entries.skip(kpos@.len() as int),
                forall|i: int|
                    0 <= i < kpos@.len() ==> {
                        &&& (#[trigger] kpos@[i]) < ev.len()
                        &&& entries[i].0 is Str
                        &&& name_of(ev[kpos@[i] as int]) == Some(entries[i].0->Str_0)
                        &&& parse_value(ev, vpos@[i] as int) is Some
                        &&& value_at(ev, vpos@[i] as int) == entries[i].1
                    },
            decreases events@.len() - p,
        {
            let ghost k = kpos@.len() as int;
            match &events[p] {
                Event::EndMap => {
                    proof {
                        assert(entries.skip(k).len() == 0);
                        assert forall|i: int| 0 <= i < entries.len() implies (
                        #[trigger] entries[i]).0 is Str by {
                            assert(kpos@[i] < ev.len());
                        }
                        let (names, values) = as_struct(Value::Mapping(entries))->Some_0;
                        assert forall|i: int| 0 <= i < names.len() implies {
                            &&& (#[trigger] kpos@[i]) < ev.len()
                            &&& name_of(ev[kpos@[i] as int]) == Some(names[i])
                            &&& parse_value(ev, vpos@[i] as int) is Some
                            &&& value_at(ev, vpos@[i] as int) == values[i]
                        } by {}
                        assert(entries_at(ev, names, values, kpos@, vpos@));
                    }
                    return Some((kpos, vpos));
                },
                Event::Str(_) => {
                    proof {
                        assert(ev[p as int] is Str);
                        assert(parse_value(ev, p as int) is Some);
                        assert(parse_value(ev, p as int)->Some_0.1 == p + 1);
                        assert(parse_value(ev, p + 1) is Some);
                        lemma_parse_bounds(ev, p + 1);
                        let next = parse_value(ev, p + 1)->Some_0.1;
                        lemma_parse_bounds(ev, next);
                        let rest = parse_entries(ev, next)->Some_0;
                        assert(entries.skip(k)[0] == entries[k]);
                        assert(entries.skip(k + 1) =~= rest.0) by {
                            assert(entries.skip(k).skip(1) =~= entries.skip(k + 1));
                            assert((seq![entries[k]] + rest.0).skip(1) =~= rest.0);
                        }
                    }
                    kpos.push(p);
                    vpos.push(p + 1);
                    match value_end(events, p + 1) {
                        Some(next) => {
                            p = next;
                        },
                        None => {
                            return None;
                        },
                    }
                },
                _ => {
                    proof {
                        lemma_parse_bounds(ev, p as int);
                        assert(entries.skip(k)[0] == entries[k]);
                        assert(!(entries[k].0 is Str));
                    }
                    return None;
                },
            }
        }
    }
}

/// The text of the event at `at`, which names a field.
pub(crate) fn entry_name(events: &Vec<Event>, at: usize) -> (r: &str)
    requires
        at < events@.len(),
        name_of(events@[at as int]@) is Some,
    ensures
        Some(r@) == name_of(events@[at as int]@),
{
    match &events[at] {
        Event::FieldName(s) => s.as_str(),
        Event::Str(s) => s.as_str(),
        _ => "",
    }
}

/// The index of the first child of `f` with the given name.
pub fn find_child(f: &GenericField, name: &str) -> (r: Option<usize>)
    ensures
        match r {
            Some(j) => first_index(names_of(f@.children), name@, 0) == Some(j as int) && j
                < f.children@.len(),
            None => first_index(names_of(f@.children), name@, 0) is None,
        },
{
    proof {
        f.lemma_view();
    }
    let ghost names = names_of(f@.children);
    let mut j: usize = 0;
    while j < f.children.len()
        invariant
            j <= f.children@.len(),
            names == names_of(f@.children),
            f@.children == models(f.children@),
            first_index(names, name@, 0) == first_index(names, name@, j as int),
        decreases f.children@.len() - j,
    {
        if str_eq(f.children[j].name.as_str(), name) {
            return Some(j);
        }
        j = j + 1;
    }
    None
}

/// The index of the first of the events at `kpos` that holds the given name.
pub(crate) fn find_name(events: &Vec<Event>, kpos: &Vec<usize>, name: &str, Ghost(names): Ghost<
    Seq<Seq<char>>,
>) -> (r: Option<usize>)
    requires
        kpos@.len() == names.len(),
        forall|i: int|
            0 <= i < names.len() ==> (#[trigger] kpos@[i]) < events@.len() && name_of(
                events@[kpos@[i] as int]@,
            ) == Some(names[i]),
    ensures
        match r {
            Some(i) => first_index(names, name@, 0) == Some(i as int) && i < names.len(),
            None => first_index(names, name@, 0) is None,
        },
{
    let mut i: usize = 0;
    while i < kpos.len()
        invariant
            i <= kpos@.len(),
            kpos@.len() == names.len(),
            forall|i: int|
                0 <= i < names.len() ==> (#[trigger] kpos@[i]) < events@.len() && name_of(
                    events@[kpos@[i] as int]@,
                ) == Some(names[i]),
            first_index(names, name@, 0) == first_index(names, name@, i as int),
        decreases kpos@.len() - i,
    {
        if str_eq(entry_name(events, kpos[i]), name) {
            return Some(i);
        }
        i = i + 1;
    }
    None
}

/// Whether every name at `kpos` is the name of a child of `f`, and no two
/// of the names are equal.
fn check_names(f: &GenericField, events: &Vec<Event>, kpos: &Vec<usize>, Ghost(names): Ghost<
    Seq<Seq<char>>,
>) -> (r: bool)
    requires
        kpos@.len() == names.len(),
        forall|i: int|
            0 <= i < names.len() ==> (#[trigger] kpos@[i]) < events@.len() && name_of(
                events@[kpos@[i] as int]@,
            ) == Some(names[i]),
    ensures
        r == names_known(f@.children, names),
{
    let mut i: usize = 0;
    while i < kpos.len()
        invariant
            i <= kpos@.len(),
            kpos@.len() == names.len(),
            forall|i: int|
                0 <= i < names.len() ==> (#[trigger] kpos@[i]) < events@.len() && name_of(
                    events@[kpos@[i] as int]@,
                ) == Some(names[i]),
            forall|a: int|
                0 <= a < i ==> first_index(names_of(f@.children), #[trigger] names[a], 0) is Some,
            forall|a: int, b: int| 0 <= a < b < names.len() && a < i ==> names[a] != names[b],
        decreases kpos@.len() - i,
    {
        let name = entry_name(events, kpos[i]);
        if find_child(f, name).is_none() {
            return false;
        }
        let mut j: usize = i + 1;
        while j < kpos.len()
            invariant
                i < j <= kpos@.len(),
                kpos@.len() == names.len(),
                name@ == names[i as int],
                forall|i: int|
                    0 <= i < names.len() ==> (#[trigger] kpos@[i]) < events@.len() && name_of(
                        events@[kpos@[i] as int]@,
                    ) == Some(names[i]),
                forall|b: int| i < b < j ==> names[i as int] != names[b],
            decreases kpos@.len() - j,
        {
            if str_eq(entry_name(events, kpos[j]), name) {
                return false;
            }
            j = j + 1;
        }
        i = i + 1;
    }
    true
}

/// What an exec step that stands for `expected` has to return and leave
/// in the buffers.
pub open spec fn ser_result(
    expected: Result<Seq<Column>, ErrorKind>,
    before: Seq<Column>,
    after: Seq<Column>,
    r: Result<(), Error>,
) -> bool {
    match expected {
        Ok(c) => r is Ok && after == c && grows(before, after),
        Err(k) => r matches Err(e) && e.kind == k,
    }
}

pub(crate) fn is_end_sequence(event: &Event) -> (r: bool)
    ensures
        r == (event@ is EndSequence),
{
    match event {
        Event::EndSequence => true,
        _ => false,
    }
}

pub(crate) fn is_end_map(event: &Event) -> (r: bool)
    ensures
        r == (event@ is EndMap),
{
    match event {
        Event::EndMap => true,
        _ => false,
    }
}

/// Adds the offset that closes a list of `n` items to the offset buffer `own`.
fn close_list(bufs: &mut Buffers, own: usize, n: usize) -> (r: Result<(), Error>)
    requires
        own < old(bufs)@.len(),
        old(bufs)@[own as int].kind == ColumnKind::Offsets,
        old(bufs)@[own as int].cells.len() >= 1,
    ensures
        ser_result(push_offset(old(bufs)@, own as int, n as int), old(bufs)@, final(bufs)@, r),
{
    proof {
        bufs.lemma_typed();
        assert(bufs@[own as int].typed());
    }
    let rows = bufs.rows(own);
    let last = bufs.get(own, rows - 1);
    proof {
        assert(ColumnKind::Offsets.fits(bufs@[own as int].cells[rows - 1]));
    }
    match last {
        Scalar::Int(x) => {
            let end: i128 = x + n as i128;
            if end > usize::MAX as i128 {
                Err(Error::new(ErrorKind::OffsetOutOfRange))
            } else {
                proof {
                    lemma_push_grows(bufs@, own as int, Cell::Int(end as int));
                }
                bufs.push(own, Scalar::Int(end));
                Ok(())
            }
        },
        _ => Err(Error::new(ErrorKind::OffsetOutOfRange)),
    }
}

/// Adds the value that starts at `pos` to the buffers of the field whose
/// first buffer has index `base`.
///
/// On failure the buffers are left as they were when the failure was found.
pub fn ser_value(
    f: &GenericField,
    base: usize,
    events: &Vec<Event>,
    pos: usize,
    bufs: &mut Buffers,
) -> (r: Result<(), Error>)
    requires
        supported(f@),
        shape_ok(f@, base as int, old(bufs)@),
        parse_value(views(events@), pos as int) is Some,
    ensures
        ser_result(
            ser(f@, base as int, value_at(views(events@), pos as int), old(bufs)@),
            old(bufs)@,
            final(bufs)@,
            r,
        ),
    decreases f@, 2int,
{
    let ghost ev = views(events@);
    let ghost start = bufs@;
    let total = events.len();
    let buffers = bufs.len();
    proof {
        lemma_parse_bounds(ev, pos as int);
        f.lemma_view();
        assert(count(f@) >= head(f@).len());
        if count(f@) > 0 {
            assert(slot_ok(layout(f@)[0], start[base as int + 0]));
        }
        if count(f@) > 1 {
            assert(slot_ok(layout(f@)[1], start[base as int + 1]));
        }
    }
    let mut p = pos;
    if let Event::Present = &events[pos] {
        proof {
            lemma_parse_bounds(ev, pos + 1);
        }
        p = pos + 1;
    }
    let ghost w = value_at(ev, p as int);
    assert(w == strip(value_at(ev, pos as int)));
    if let Event::Null = &events[p] {
        if f.nullable {
            fill_value(f, base, bufs);
            return Ok(());
        } else {
            return Err(Error::new(ErrorKind::TypeMismatch));
        }
    }
    assert(!(w is Null));
    let mut own = base;
    if f.nullable {
        proof {
            lemma_push_grows(start, base as int, Cell::Bit(true));
        }
        bufs.push(base, Scalar::Bit(true));
        own = base + 1;
    }
    let ghost cols1 = bufs@;
    proof {
        lemma_shape_grows(f@, base as int, start, cols1);
    }
    let r = match f.data_type {
        GenericDataType::Struct => ser_struct(f, base, events, p, bufs),
        GenericDataType::List => ser_list(f, base, events, p, bufs),
        GenericDataType::Mapping => ser_map(f, base, events, p, bufs),
        _ => {
            match scalar_for(f.data_type, &events[p], Ghost(w)) {
                Ok(s) => {
                    proof {
                        lemma_push_grows(cols1, own as int, s@);
                    }
                    bufs.push(own, s);
                    Ok(())
                },
                Err(k) => Err(Error::new(k)),
            }
        },
    };
    proof {
        if r is Ok {
            lemma_grows_trans(start, cols1, bufs@);
        }
    }
    r
}

/// Adds the struct or map that starts at `p` to the children of a struct field.
#[verifier::loop_isolation(false)]
fn ser_struct(
    f: &GenericField,
    base: usize,
    events: &Vec<Event>,
    p: usize,
    bufs: &mut Buffers,
) -> (r: Result<(), Error>)
    requires
        supported(f@),
        f@.data_type is Struct,
        shape_ok(f@, base as int, old(bufs)@),
        parse_value(views(events@), p as int) is Some,
    ensures
        ser_result(
            ser_inner(f@, base as int, value_at(views(events@), p as int), old(bufs)@),
            old(bufs)@,
            final(bufs)@,
            r,
        ),
    decreases f@, 1int,
{
    let ghost ev = views(events@);
    let ghost start = bufs@;
    let ghost w = value_at(ev, p as int);
    let total = events.len();
    let buffers = bufs.len();
    proof {
        lemma_parse_bounds(ev, p as int);
        f.lemma_view();
    }
    match &events[p] {
        Event::StartStruct | Event::StartMap => {},
        _ => {
            return Err(Error::new(ErrorKind::TypeMismatch));
        },
    }
    let (kpos, vpos) = match scan_struct(events, p) {
        Some(found) => found,
        None => {
            return Err(Error::new(ErrorKind::TypeMismatch));
        },
    };
    let ghost names = as_struct(w)->Some_0.0;
    let ghost values = as_struct(w)->Some_0.1;
    if !check_names(f, events, &kpos, Ghost(names)) {
        return Err(Error::new(ErrorKind::UnknownField));
    }
    let mut j: usize = 0;
    let mut cb: usize = if f.nullable {
        base + 1
    } else {
        base
    };
    while j < f.children.len()
        invariant
            j <= f.children@.len(),
            supported(f@),
            f@.children == models(f.children@),
            f@.data_type is Struct,
            shape_ok(f@, base as int, start),
            start.len() <= usize::MAX,
            grows(start, bufs@),
            cb == child_base(f@, base as int, j as int),
            ev == views(events@),
            entries_at(ev, names, values, kpos@, vpos@),
            ser_children(f@, base as int, 0, names, values, start) == ser_children(
                f@,
                base as int,
                j as int,
                names,
                values,
                bufs@,
            ),
        decreases f.children@.len() - j,
    {
        let ghost before = bufs@;
        proof {
            lemma_shape_grows(f@, base as int, start, before);
            lemma_shape_child(f@, base as int, before, j as int);
            lemma_child_layout(f@, base as int, j as int);
            assert(supported(f@.children[j as int]));
        }
        let child = &f.children[j];
        proof {
            child.lemma_view();
            assert(child@ == f@.children[j as int]);
            assert(ser_children(f@, base as int, j as int, names, values, before) == match ser_child(
                f@,
                base as int,
                j as int,
                names,
                values,
                before,
            ) {
                Ok(c) => ser_children(f@, base as int, j + 1, names, values, c),
                Err(e) => Err(e),
            });
        }
        match find_name(events, &kpos, child.name.as_str(), Ghost(names)) {
            Some(i) => {
                proof {
                    assert(kpos@[i as int] < ev.len());
                }
                match ser_value(child, cb, events, vpos[i], bufs) {
                    Ok(()) => {},
                    Err(e) => {
                        return Err(e.within(&child.name));
                    },
                }
            },
            None => {
                if child.nullable {
                    fill_value(child, cb, bufs);
                } else {
                    return Err(Error::new(ErrorKind::MissingField).within(&child.name));
                }
            },
        }
        proof {
            lemma_grows_trans(start, before, bufs@);
        }
        cb = cb + buffer_count(child);
        j = j + 1;
    }
    Ok(())
}

/// Adds the sequence that starts at `p` to a list field: its items to the
/// child, then the offset that closes it.
#[verifier::loop_isolation(false)]
fn ser_list(
    f: &GenericField,
    base: usize,
    events: &Vec<Event>,
    p: usize,
    bufs: &mut Buffers,
) -> (r: Result<(), Error>)
    requires
        supported(f@),
        f@.data_type is List,
        shape_ok(f@, base as int, old(bufs)@),
        parse_value(views(events@), p as int) is Some,
    ensures
        ser_result(
            ser_inner(f@, base as int, value_at(views(events@), p as int), old(bufs)@),
            old(bufs)@,
            final(bufs)@,
            r,
        ),
    decreases f@, 1int,
{
    let ghost ev = views(events@);
    let ghost start = bufs@;
    let total = events.len();
    let buffers = bufs.len();
    proof {
        lemma_parse_bounds(ev, p as int);
        lemma_parse_bounds(ev, p + 1);
        f.lemma_view();
        assert(count(f@) >= head(f@).len());
        lemma_child_layout(f@, base as int, 0);
        assert(supported(f@.children[0]));
    }
    match &events[p] {
        Event::StartSequence => {},
        _ => {
            return Err(Error::new(ErrorKind::TypeMismatch));
        },
    }
    let ghost items = parse_items(ev, p + 1)->Some_0.0;
    let own: usize = if f.nullable {
        base + 1
    } else {
        base
    };
    let cb: usize = own + 1;
    let child = &f.children[0];
    let mut q: usize = p + 1;
    let mut k: usize = 0;
    proof {
        assert(items.skip(0) == items);
        assert(slot_ok(layout(f@)[own - base], start[base as int + (own - base)]));
    }
    while !is_end_sequence(&events[q])
        invariant
            p < q < events@.len(),
            k < q,
            k <= items.len(),
            ev == views(events@),
            supported(f@.children[0]),
            f@.children.len() == 1,
            f@.children[0] == child@,
            cb == child_base(f@, base as int, 0),
            shape_ok(f@, base as int, start),
            grows(start, bufs@),
            parse_items(ev, q as int) is Some,
            parse_items(ev, q as int)->Some_0.0 == items.skip(k as int),
            ser_items(f@, base as int, items, 0, start) == ser_items(
                f@,
                base as int,
                items,
                k as int,
                bufs@,
            ),
        decreases events@.len() - q,
    {
        let ghost before = bufs@;
        proof {
            lemma_parse_bounds(ev, q as int);
            let next = parse_value(ev, q as int)->Some_0.1;
            lemma_parse_bounds(ev, next);
            let rest = parse_items(ev, next)->Some_0.0;
            assert(parse_items(ev, q as int)->Some_0.0 == seq![value_at(ev, q as int)] + rest);
            assert(items.skip(k as int).len() >= 1);
            assert(items.skip(k as int)[0] == items[k as int]);
            assert(items.skip(k + 1) =~= rest) by {
                assert(items.skip(k as int).skip(1) =~= items.skip(k + 1));
                assert((seq![items[k as int]] + rest).skip(1) =~= rest);
            }
            lemma_shape_grows(f@, base as int, start, before);
            lemma_shape_child(f@, base as int, before, 0);
        }
        match ser_value(child, cb, events, q, bufs) {
            Ok(()) => {},
            Err(e) => {
                return Err(e);
            },
        }
        proof {
            lemma_grows_trans(start, before, bufs@);
        }
        match value_end(events, q) {
            Some(next) => {
                q = next;
            },
            None => {
                return Err(Error::new(ErrorKind::UnbalancedNesting));
            },
        }
        k = k + 1;
    }
    proof {
        assert(items.skip(k as int).len() == 0);
    }
    let ghost filled = bufs@;
    let r = close_list(bufs, own, k);
    proof {
        if r is Ok {
            lemma_grows_trans(start, filled, bufs@);
        }
    }
    r
}

/// Adds the map that starts at `p` to a map field: keys to the first child,
/// values to the second, then the offset that closes it.
#[verifier::loop_isolation(false)]
fn ser_map(
    f: &GenericField,
    base: usize,
    events: &Vec<Event>,
    p: usize,
    bufs: &mut Buffers,
) -> (r: Result<(), Error>)
    requires
        supported(f@),
        f@.data_type is Mapping,
        shape_ok(f@, base as int, old(bufs)@),
        parse_value(views(events@), p as int) is Some,
    ensures
        ser_result(
            ser_inner(f@, base as int, value_at(views(events@), p as int), old(bufs)@),
            old(bufs)@,
            final(bufs)@,
            r,
        ),
    decreases f@, 1int,
{
    let ghost ev = views(events@);
    let ghost start = bufs@;
    let total = events.len();
    let buffers = bufs.len();
    proof {
        lemma_parse_bounds(ev, p as int);
        lemma_parse_bounds(ev, p + 1);
        f.lemma_view();
        assert(count(f@) >= head(f@).len());
        lemma_child_layout(f@, base as int, 0);
        lemma_child_layout(f@, base as int, 1);
        assert(supported(f@.children[0]));
        assert(supported(f@.children[1]));
    }
    match &events[p] {
        Event::StartMap => {},
        _ => {
            return Err(Error::new(ErrorKind::TypeMismatch));
        },
    }
    let ghost entries = parse_entries(ev, p + 1)->Some_0.0;
    let own: usize = if f.nullable {
        base + 1
    } else {
        base
    };
    let key = &f.children[0];
    let value = &f.children[1];
    let kb: usize = own + 1;
    let vb: usize = kb + buffer_count(key);
    let mut q: usize = p + 1;
    let mut k: usize = 0;
    proof {
        assert(entries.skip(0) == entries);
        assert(slot_ok(layout(f@)[own - base], start[base as int + (own - base)]));
    }
    while !is_end_map(&events[q])
        invariant
            p < q < events@.len(),
            k < q,
            k <= entries.len(),
            ev == views(events@),
            supported(f@.children[0]),
            supported(f@.children[1]),
            f@.children.len() == 2,
            f@.children[0] == key@,
            f@.children[1] == value@,
            kb == child_base(f@, base as int, 0),
            vb == child_base(f@, base as int, 1),
            shape_ok(f@, base as int, start),
            grows(start, bufs@),
            parse_entries(ev, q as int) is Some,
            parse_entries(ev, q as int)->Some_0.0 == entries.skip(k as int),
            ser_entries(f@, base as int, entries, 0, start) == ser_entries(
                f@,
                base as int,
                entries,
                k as int,
                bufs@,
            ),
        decreases events@.len() - q,
    {
        let ghost before = bufs@;
        proof {
            lemma_parse_bounds(ev, q as int);
            let mid = parse_value(ev, q as int)->Some_0.1;
            lemma_parse_bounds(ev, mid);
            let next = parse_value(ev, mid)->Some_0.1;
            lemma_parse_bounds(ev, next);
            let rest = parse_entries(ev, next)->Some_0.0;
            assert(parse_entries(ev, q as int)->Some_0.0 == seq![
                (value_at(ev, q as int), value_at(ev, mid)),
            ] + rest);
            assert(entries.skip(k as int).len() >= 1);
            assert(entries.skip(k as int)[0] == entries[k as int]);
            assert(entries.skip(k + 1) =~= rest) by {
                assert(entries.skip(k as int).skip(1) =~= entries.skip(k + 1));
                assert((seq![entries[k as int]] + rest).skip(1) =~= rest);
            }
            lemma_shape_grows(f@, base as int, start, before);
            lemma_shape_child(f@, base as int, before, 0);
        }
        match ser_value(key, kb, events, q, bufs) {
            Ok(()) => {},
            Err(e) => {
                return Err(e);
            },
        }
        let ghost keyed = bufs@;
        let mid = match value_end(events, q) {
            Some(mid) => mid,
            None => {
                return Err(Error::new(ErrorKind::UnbalancedNesting));
            },
        };
        proof {
            lemma_grows_trans(start, before, keyed);
            lemma_shape_grows(f@, base as int, start, keyed);
            lemma_shape_child(f@, base as int, keyed, 1);
        }
        match ser_value(value, vb, events, mid, bufs) {
            Ok(()) => {},
            Err(e) => {
                return Err(e);
            },
        }
        proof {
            lemma_grows_trans(start, keyed, bufs@);
        }
        match value_end(events, mid) {
            Some(next) => {
                q = next;
            },
            None => {
                return Err(Error::new(ErrorKind::UnbalancedNesting));
            },
        }
        k = k + 1;
    }
    proof {
        assert(entries.skip(k as int).len() == 0);
    }
    let ghost filled = bufs@;
    let r = close_list(bufs, own, k);
    proof {
        if r is Ok {
            lemma_grows_trans(start, filled, bufs@);
        }
    }
    r
}

} // verus!
