//! The events of a depth-first traversal of a value: the common currency of
//! tracing, serialization and deserialization.
//!
//! Floating point numbers travel as their bit patterns.
use vstd::prelude::*;

verus! {

/// One step of the traversal of a value.
#[derive(Debug, Clone, PartialEq, Eq)]
pub enum Event {
    StartSequence,
    EndSequence,
    StartStruct,
    EndStruct,
    StartMap,
    EndMap,
    /// The name of the struct field whose value follows.
    FieldName(String),
    /// Marks the value that follows as a present optional value.
    Present,
    /// An absent optional value.
    Null,
    Bool(bool),
    I8(i8),
    I16(i16),
    I32(i32),
    I64(i64),
    U8(u8),
    U16(u16),
    U32(u32),
    U64(u64),
    /// A 32 bit floating point number, as its bits.
    F32(u32),
    /// A 64 bit floating point number, as its bits.
    F64(u64),
    Str(String),
    Bytes(Vec<u8>),
}

/// The width and signedness of an integer.
#[derive(Debug, Clone, Copy, PartialEq, Eq, Structural)]
pub enum IntKind {
    I8,
    I16,
    I32,
    I64,
    U8,
    U16,
    U32,
    U64,
}

impl IntKind {
    /// The smallest integer of the kind.
    pub open spec fn min(self) -> int {
        match self {
            IntKind::I8 => -0x80,
            IntKind::I16 => -0x8000,
            IntKind::I32 => -0x8000_0000,
            IntKind::I64 => -0x8000_0000_0000_0000,
            _ => 0,
        }
    }

    /// The largest integer of the kind.
    pub open spec fn max(self) -> int {
        match self {
            IntKind::I8 => 0x7f,
            IntKind::I16 => 0x7fff,
            IntKind::I32 => 0x7fff_ffff,
            IntKind::I64 => 0x7fff_ffff_ffff_ffff,
            IntKind::U8 => 0xff,
            IntKind::U16 => 0xffff,
            IntKind::U32 => 0xffff_ffff,
            IntKind::U64 => 0xffff_ffff_ffff_ffff,
        }
    }

    /// Whether `x` is an integer of the kind.
    pub open spec fn holds(self, x: int) -> bool {
        self.min() <= x <= self.max()
    }

    pub open spec fn signed(self) -> bool {
        self is I8 || self is I16 || self is I32 || self is I64
    }
}

/// An event as a mathematical value: text is a sequence of characters,
/// integers carry their kind.
pub enum EventView {
    StartSequence,
    EndSequence,
    StartStruct,
    EndStruct,
    StartMap,
    EndMap,
    FieldName(Seq<char>),
    Present,
    Null,
    Bool(bool),
    Int(IntKind, int),
    F32(u32),
    F64(u64),
    Str(Seq<char>),
    Bytes(Seq<u8>),
}

impl View for Event {
    type V = EventView;

    open spec fn view(&self) -> EventView {
        match self {
            Event::StartSequence => EventView::StartSequence,
            Event::EndSequence => EventView::EndSequence,
            Event::StartStruct => EventView::StartStruct,
            Event::EndStruct => EventView::EndStruct,
            Event::StartMap => EventView::StartMap,
            Event::EndMap => EventView::EndMap,
            Event::FieldName(s) => EventView::FieldName(s@),
            Event::Present => EventView::Present,
            Event::Null => EventView::Null,
            Event::Bool(b) => EventView::Bool(*b),
            Event::I8(x) => EventView::Int(IntKind::I8, *x as int),
            Event::I16(x) => EventView::Int(IntKind::I16, *x as int),
            Event::I32(x) => EventView::Int(IntKind::I32, *x as int),
            Event::I64(x) => EventView::Int(IntKind::I64, *x as int),
            Event::U8(x) => EventView::Int(IntKind::U8, *x as int),
            Event::U16(x) => EventView::Int(IntKind::U16, *x as int),
            Event::U32(x) => EventView::Int(IntKind::U32, *x as int),
            Event::U64(x) => EventView::Int(IntKind::U64, *x as int),
            Event::F32(x) => EventView::F32(*x),
            Event::F64(x) => EventView::F64(*x),
            Event::Str(s) => EventView::Str(s@),
            Event::Bytes(b) => EventView::Bytes(b@),
        }
    }
}

/// The events of a sequence, each as a mathematical value.
pub open spec fn views(events: Seq<Event>) -> Seq<EventView> {
    Seq::new(events.len(), |i: int| events[i]@)
}

} // verus!
