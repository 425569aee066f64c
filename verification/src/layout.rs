//! How a field tree is laid out in buffers: a depth-first linearization that
//! gives every validity, value and offset buffer of the tree a stable index.
use vstd::prelude::*;
use crate::buffers::{Column, ColumnKind};
use crate::event::IntKind;
use crate::field::{FieldModel, GenericDataType};

verus! {

/// What an instruction appends to its buffer.
#[derive(Debug, Clone, Copy, PartialEq, Eq, Structural)]
pub enum Operation {
    /// Append a validity bit: `true` for a value, `false` for null.
    PushValidity,
    /// Append a value of the given kind.
    PushValue(ColumnKind),
    /// Append the offset that ends the current list or map.
    PushOffset,
}

impl Operation {
    /// The kind of the buffer that the operation appends to.
    pub open spec fn spec_kind(self) -> ColumnKind {
        match self {
            Operation::PushValidity => ColumnKind::Bits,
            Operation::PushValue(k) => k,
            Operation::PushOffset => ColumnKind::Offsets,
        }
    }

    #[verifier::when_used_as_spec(spec_kind)]
    pub fn kind(self) -> (k: ColumnKind)
        ensures
            k == self.spec_kind(),
    {
        match self {
            Operation::PushValidity => ColumnKind::Bits,
            Operation::PushValue(k) => k,
            Operation::PushOffset => ColumnKind::Offsets,
        }
    }
}

/// The operation on the buffer that a field of the given type owns, apart
/// from its validity: none for a struct, which owns no buffer, and none for
/// the types that cannot be laid out.
pub open spec fn own_operation(data_type: GenericDataType) -> Option<Operation> {
    match data_type {
        GenericDataType::Bool => Some(Operation::PushValue(ColumnKind::Bits)),
        GenericDataType::I8 => Some(Operation::PushValue(ColumnKind::Int(IntKind::I8))),
        GenericDataType::I16 => Some(Operation::PushValue(ColumnKind::Int(IntKind::I16))),
        GenericDataType::I32 => Some(Operation::PushValue(ColumnKind::Int(IntKind::I32))),
        GenericDataType::I64 => Some(Operation::PushValue(ColumnKind::Int(IntKind::I64))),
        GenericDataType::U8 => Some(Operation::PushValue(ColumnKind::Int(IntKind::U8))),
        GenericDataType::U16 => Some(Operation::PushValue(ColumnKind::Int(IntKind::U16))),
        GenericDataType::U32 => Some(Operation::PushValue(ColumnKind::Int(IntKind::U32))),
        GenericDataType::U64 => Some(Operation::PushValue(ColumnKind::Int(IntKind::U64))),
        GenericDataType::F32 => Some(Operation::PushValue(ColumnKind::F32)),
        GenericDataType::F64 => Some(Operation::PushValue(ColumnKind::F64)),
        GenericDataType::Utf8 => Some(Operation::PushValue(ColumnKind::Utf8)),
        GenericDataType::Date64
        | GenericDataType::Date64NaiveStr
        | GenericDataType::Date64UtcStr => Some(
            Operation::PushValue(ColumnKind::Int(IntKind::I64)),
        ),
        GenericDataType::List | GenericDataType::Mapping => Some(Operation::PushOffset),
        GenericDataType::Struct | GenericDataType::Null | GenericDataType::Backend { .. } => None,
    }
}

/// Whether no two of the children share a name.
pub open spec fn names_differ(children: Seq<FieldModel>) -> bool {
    forall|i: int, j: int|
        0 <= i < j < children.len() ==> (#[trigger] children[i]).name != (
        #[trigger] children[j]).name
}

/// Whether the field tree can be laid out in buffers.
///
/// A leaf has no children and a type that a buffer can hold. A struct has
/// children with different names; a list has one child; a map has two, and
/// its key is not nullable. The null type and backend types have no layout.
pub open spec fn supported(f: FieldModel) -> bool
    decreases f,
{
    &&& match f.data_type {
        GenericDataType::Struct => names_differ(f.children),
        GenericDataType::List => f.children.len() == 1,
        GenericDataType::Mapping => f.children.len() == 2 && !f.children[0].nullable,
        GenericDataType::Null | GenericDataType::Backend { .. } => false,
        _ => f.children.len() == 0,
    }
    &&& forall|j: int| 0 <= j < f.children.len() ==> supported(#[trigger] f.children[j])
}

/// The operations of the field itself: its validity, if it is nullable,
/// then the operation on its own buffer, if it has one.
pub open spec fn head(f: FieldModel) -> Seq<Operation> {
    let validity = if f.nullable {
        seq![Operation::PushValidity]
    } else {
        Seq::empty()
    };
    match own_operation(f.data_type) {
        Some(op) => validity.push(op),
        None => validity,
    }
}

/// The operations of the field and, after them, those of its children in
/// order, each child with all of its descendants.
pub open spec fn layout(f: FieldModel) -> Seq<Operation>
    decreases f, 1int, 0int,
{
    head(f) + layout_children(f, f.children.len() as int)
}

/// The operations of the first `n` children of `f`.
pub open spec fn layout_children(f: FieldModel, n: int) -> Seq<Operation>
    decreases f, 0int, n,
{
    if n <= 0 || n > f.children.len() {
        Seq::empty()
    } else {
        layout_children(f, n - 1) + layout(f.children[n - 1])
    }
}

/// The number of buffers of the field and its descendants.
pub open spec fn count(f: FieldModel) -> int {
    layout(f).len() as int
}

/// The index of the validity buffer is `base`; this is the index of the
/// buffer that the field owns.
pub open spec fn own_index(f: FieldModel, base: int) -> int {
    base + if f.nullable {
        1int
    } else {
        0int
    }
}

/// The index of the first buffer of child `j`, where the first buffer of
/// `f` has index `base`.
pub open spec fn child_base(f: FieldModel, base: int, j: int) -> int {
    base + head(f).len() + layout_children(f, j).len()
}

/// The operations of the first `j` children are the start of those of the first `n`.
pub proof fn lemma_children_prefix(f: FieldModel, j: int, n: int)
    requires
        0 <= j <= n <= f.children.len(),
    ensures
        layout_children(f, j).len() <= layout_children(f, n).len(),
        layout_children(f, n).subrange(0, layout_children(f, j).len() as int) == layout_children(
            f,
            j,
        ),
    decreases n - j,
{
    if j < n {
        lemma_children_prefix(f, j, n - 1);
        assert(layout_children(f, n).subrange(0, layout_children(f, j).len() as int)
            =~= layout_children(f, n - 1).subrange(0, layout_children(f, j).len() as int));
    } else {
        assert(layout_children(f, n).subrange(0, layout_children(f, j).len() as int)
            =~= layout_children(f, j));
    }
}

/// The buffers of child `j` lie within those of `f`, after those of the
/// children before it, and hold the layout of the child.
pub proof fn lemma_child_layout(f: FieldModel, base: int, j: int)
    requires
        0 <= j < f.children.len(),
    ensures
        base + head(f).len() <= child_base(f, base, j),
        child_base(f, base, j) + count(f.children[j]) == child_base(f, base, j + 1),
        child_base(f, base, j + 1) <= base + count(f),
        child_base(f, base, f.children.len() as int) == base + count(f),
        forall|i: int|
            0 <= i < count(f.children[j]) ==> #[trigger] layout(f.children[j])[i] == layout(
                f,
            )[child_base(f, 0, j) + i],
{
    lemma_children_prefix(f, j + 1, f.children.len() as int);
    let all = layout_children(f, f.children.len() as int);
    let upto = layout_children(f, j + 1);
    let before = layout_children(f, j);
    assert(upto == before + layout(f.children[j]));
    assert forall|i: int| 0 <= i < count(f.children[j]) implies #[trigger] layout(
        f.children[j],
    )[i] == layout(f)[child_base(f, 0, j) + i] by {
        assert(upto[before.len() + i] == layout(f.children[j])[i]);
        assert(all.subrange(0, upto.len() as int)[before.len() + i] == all[before.len() + i]);
    }
}

/// Whether the buffers from `base` on have the kinds that the layout of `f`
/// asks for, and every offset buffer holds at least its first offset.
pub open spec fn shape_ok(f: FieldModel, base: int, cols: Seq<Column>) -> bool {
    &&& 0 <= base
    &&& base + count(f) <= cols.len()
    &&& forall|i: int| 0 <= i < count(f) ==> slot_ok(#[trigger] layout(f)[i], cols[base + i])
}

/// Whether a buffer can take the operation.
pub open spec fn slot_ok(op: Operation, col: Column) -> bool {
    &&& col.kind == op.spec_kind()
    &&& op is PushOffset ==> col.cells.len() >= 1
}

/// Whether `after` has the buffers of `before`, each of the same kind and
/// with at least as many cells.
pub open spec fn grows(before: Seq<Column>, after: Seq<Column>) -> bool {
    &&& before.len() == after.len()
    &&& forall|i: int|
        0 <= i < before.len() ==> (#[trigger] after[i]).kind == before[i].kind
            && after[i].cells.len() >= before[i].cells.len()
}

/// Buffers that fit a field fit each of its children.
pub proof fn lemma_shape_child(f: FieldModel, base: int, cols: Seq<Column>, j: int)
    requires
        shape_ok(f, base, cols),
        0 <= j < f.children.len(),
    ensures
        shape_ok(f.children[j], child_base(f, base, j), cols),
{
    lemma_child_layout(f, base, j);
    let c = f.children[j];
    let cb = child_base(f, base, j);
    assert forall|i: int| 0 <= i < count(c) implies slot_ok(#[trigger] layout(c)[i], cols[cb + i]) by {
        let k = child_base(f, 0, j) + i;
        assert(layout(c)[i] == layout(f)[k]);
        assert(slot_ok(layout(f)[k], cols[base + k]));
    }
}

/// Buffers that fit a field still fit after they have grown.
pub proof fn lemma_shape_grows(f: FieldModel, base: int, before: Seq<Column>, after: Seq<Column>)
    requires
        shape_ok(f, base, before),
        grows(before, after),
    ensures
        shape_ok(f, base, after),
{
    assert forall|i: int| 0 <= i < count(f) implies slot_ok(
        #[trigger] layout(f)[i],
        after[base + i],
    ) by {
        assert(slot_ok(layout(f)[i], before[base + i]));
        assert(after[base + i].kind == before[base + i].kind);
    }
}

} // verus!
