//! Growable typed buffers, addressed by stable integer indices.
//!
//! A buffer holds validity bits, values of one fixed kind, text, or
//! offsets. Its mathematical view is a column: a kind and a sequence of cells.
use vstd::prelude::*;
use crate::event::IntKind;

verus! {

/// What a buffer holds.
#[derive(Debug, Clone, Copy, PartialEq, Eq, Structural)]
pub enum ColumnKind {
    /// Validity bits or boolean values.
    Bits,
    /// Integers of one kind.
    Int(IntKind),
    /// The bits of 32 bit floating point numbers.
    F32,
    /// The bits of 64 bit floating point numbers.
    F64,
    /// Text.
    Utf8,
    /// Offsets into the rows of a child.
    Offsets,
}

/// One entry of a column.
pub enum Cell {
    Bit(bool),
    Int(int),
    Text(Seq<char>),
}

/// A buffer as a mathematical value.
pub struct Column {
    pub kind: ColumnKind,
    pub cells: Seq<Cell>,
}

impl ColumnKind {
    /// Whether a column of this kind can hold the cell.
    pub open spec fn fits(self, cell: Cell) -> bool {
        match self {
            ColumnKind::Bits => cell is Bit,
            ColumnKind::Int(k) => cell matches Cell::Int(x) && k.holds(x),
            ColumnKind::F32 => cell matches Cell::Int(x) && 0 <= x <= u32::MAX,
            ColumnKind::F64 => cell matches Cell::Int(x) && 0 <= x <= u64::MAX,
            ColumnKind::Utf8 => cell is Text,
            ColumnKind::Offsets => cell matches Cell::Int(x) && 0 <= x <= usize::MAX,
        }
    }

    /// The cell that fills a slot without a value.
    pub open spec fn filler(self) -> Cell {
        match self {
            ColumnKind::Bits => Cell::Bit(false),
            ColumnKind::Utf8 => Cell::Text(Seq::empty()),
            _ => Cell::Int(0),
        }
    }

    /// The cells of a column of this kind before any row is added.
    pub open spec fn initial(self) -> Seq<Cell> {
        if self is Offsets {
            seq![Cell::Int(0)]
        } else {
            Seq::empty()
        }
    }
}

impl Column {
    /// The column with one more cell.
    pub open spec fn push(self, cell: Cell) -> Column {
        Column { kind: self.kind, cells: self.cells.push(cell) }
    }

    /// The bit in a row; `false` where the cell is no bit.
    pub open spec fn bit(self, row: int) -> bool {
        match self.cells[row] {
            Cell::Bit(b) => b,
            _ => false,
        }
    }

    /// The integer in a row; 0 where the cell is no integer.
    pub open spec fn number(self, row: int) -> int {
        match self.cells[row] {
            Cell::Int(x) => x,
            _ => 0,
        }
    }

    /// The text in a row; empty where the cell is no text.
    pub open spec fn text(self, row: int) -> Seq<char> {
        match self.cells[row] {
            Cell::Text(s) => s,
            _ => Seq::empty(),
        }
    }

    /// Every cell is one that the kind can hold.
    pub open spec fn typed(self) -> bool {
        forall|i: int| 0 <= i < self.cells.len() ==> self.kind.fits(#[trigger] self.cells[i])
    }
}

/// A value ready to be stored in a buffer, or read from one.
#[derive(Debug, Clone, PartialEq, Eq)]
pub enum Scalar {
    Bit(bool),
    Int(i128),
    Text(String),
}

impl View for Scalar {
    type V = Cell;

    open spec fn view(&self) -> Cell {
        match self {
            Scalar::Bit(b) => Cell::Bit(*b),
            Scalar::Int(x) => Cell::Int(*x as int),
            Scalar::Text(s) => Cell::Text(s@),
        }
    }
}

/// A growable buffer of one kind.
#[derive(Debug, Clone, PartialEq, Eq)]
pub enum Buffer {
    Bits(Vec<bool>),
    I8(Vec<i8>),
    I16(Vec<i16>),
    I32(Vec<i32>),
    I64(Vec<i64>),
    U8(Vec<u8>),
    U16(Vec<u16>),
    U32(Vec<u32>),
    U64(Vec<u64>),
    F32(Vec<u32>),
    F64(Vec<u64>),
    Utf8(Vec<String>),
    Offsets(Vec<usize>),
}

impl View for Buffer {
    type V = Column;

    open spec fn view(&self) -> Column {
        match self {
            Buffer::Bits(v) => Column {
                kind: ColumnKind::Bits,
                cells: Seq::new(v@.len(), |i: int| Cell::Bit(v@[i])),
            },
            Buffer::I8(v) => Column {
                kind: ColumnKind::Int(IntKind::I8),
                cells: Seq::new(v@.len(), |i: int| Cell::Int(v@[i] as int)),
            },
            Buffer::I16(v) => Column {
                kind: ColumnKind::Int(IntKind::I16),
                cells: Seq::new(v@.len(), |i: int| Cell::Int(v@[i] as int)),
            },
            Buffer::I32(v) => Column {
                kind: ColumnKind::Int(IntKind::I32),
                cells: Seq::new(v@.len(), |i: int| Cell::Int(v@[i] as int)),
            },
            Buffer::I64(v) => Column {
                kind: ColumnKind::Int(IntKind::I64),
                cells: Seq::new(v@.len(), |i: int| Cell::Int(v@[i] as int)),
            },
            Buffer::U8(v) => Column {
                kind: ColumnKind::Int(IntKind::U8),
                cells: Seq::new(v@.len(), |i: int| Cell::Int(v@[i] as int)),
            },
            Buffer::U16(v) => Column {
                kind: ColumnKind::Int(IntKind::U16),
                cells: Seq::new(v@.len(), |i: int| Cell::Int(v@[i] as int)),
            },
            Buffer::U32(v) => Column {
                kind: ColumnKind::Int(IntKind::U32),
                cells: Seq::new(v@.len(), |i: int| Cell::Int(v@[i] as int)),
            },
            Buffer::U64(v) => Column {
                kind: ColumnKind::Int(IntKind::U64),
                cells: Seq::new(v@.len(), |i: int| Cell::Int(v@[i] as int)),
            },
            Buffer::F32(v) => Column {
                kind: ColumnKind::F32,
                cells: Seq::new(v@.len(), |i: int| Cell::Int(v@[i] as int)),
            },
            Buffer::F64(v) => Column {
                kind: ColumnKind::F64,
                cells: Seq::new(v@.len(), |i: int| Cell::Int(v@[i] as int)),
            },
            Buffer::Utf8(v) => Column {
                kind: ColumnKind::Utf8,
                cells: Seq::new(v@.len(), |i: int| Cell::Text(v@[i]@)),
            },
            Buffer::Offsets(v) => Column {
                kind: ColumnKind::Offsets,
                cells: Seq::new(v@.len(), |i: int| Cell::Int(v@[i] as int)),
            },
        }
    }
}

impl Buffer {
    /// The view of a buffer holds only cells of its kind.
    pub proof fn lemma_typed(&self)
        ensures
            self@.typed(),
    {
    }

    /// A buffer of the given kind without rows: empty, but for offsets,
    /// which start with the offset 0.
    pub fn new(kind: ColumnKind) -> (b: Buffer)
        ensures
            b@ == (Column { kind, cells: kind.initial() }),
    {
        let b = match kind {
            ColumnKind::Bits => Buffer::Bits(Vec::new()),
            ColumnKind::Int(IntKind::I8) => Buffer::I8(Vec::new()),
            ColumnKind::Int(IntKind::I16) => Buffer::I16(Vec::new()),
            ColumnKind::Int(IntKind::I32) => Buffer::I32(Vec::new()),
            ColumnKind::Int(IntKind::I64) => Buffer::I64(Vec::new()),
            ColumnKind::Int(IntKind::U8) => Buffer::U8(Vec::new()),
            ColumnKind::Int(IntKind::U16) => Buffer::U16(Vec::new()),
            ColumnKind::Int(IntKind::U32) => Buffer::U32(Vec::new()),
            ColumnKind::Int(IntKind::U64) => Buffer::U64(Vec::new()),
            ColumnKind::F32 => Buffer::F32(Vec::new()),
            ColumnKind::F64 => Buffer::F64(Vec::new()),
            ColumnKind::Utf8 => Buffer::Utf8(Vec::new()),
            ColumnKind::Offsets => {
                let mut v: Vec<usize> = Vec::new();
                v.push(0);
                Buffer::Offsets(v)
            },
        };
        assert(b@.cells =~= kind.initial());
        b
    }

    /// What the buffer holds.
    pub fn kind(&self) -> (k: ColumnKind)
        ensures
            k == self@.kind,
    {
        match self {
            Buffer::Bits(_) => ColumnKind::Bits,
            Buffer::I8(_) => ColumnKind::Int(IntKind::I8),
            Buffer::I16(_) => ColumnKind::Int(IntKind::I16),
            Buffer::I32(_) => ColumnKind::Int(IntKind::I32),
            Buffer::I64(_) => ColumnKind::Int(IntKind::I64),
            Buffer::U8(_) => ColumnKind::Int(IntKind::U8),
            Buffer::U16(_) => ColumnKind::Int(IntKind::U16),
            Buffer::U32(_) => ColumnKind::Int(IntKind::U32),
            Buffer::U64(_) => ColumnKind::Int(IntKind::U64),
            Buffer::F32(_) => ColumnKind::F32,
            Buffer::F64(_) => ColumnKind::F64,
            Buffer::Utf8(_) => ColumnKind::Utf8,
            Buffer::Offsets(_) => ColumnKind::Offsets,
        }
    }

    /// The number of cells.
    pub fn len(&self) -> (n: usize)
        ensures
            n == self@.cells.len(),
    {
        match self {
            Buffer::Bits(v) => v.len(),
            Buffer::I8(v) => v.len(),
            Buffer::I16(v) => v.len(),
            Buffer::I32(v) => v.len(),
            Buffer::I64(v) => v.len(),
            Buffer::U8(v) => v.len(),
            Buffer::U16(v) => v.len(),
            Buffer::U32(v) => v.len(),
            Buffer::U64(v) => v.len(),
            Buffer::F32(v) => v.len(),
            Buffer::F64(v) => v.len(),
            Buffer::Utf8(v) => v.len(),
            Buffer::Offsets(v) => v.len(),
        }
    }

    /// The buffer with one more cell at its end.
    pub fn push(self, item: Scalar) -> (b: Buffer)
        requires
            self@.kind.fits(item@),
        ensures
            b@ == self@.push(item@),
    {
        let ghost before = self@;
        let b = match (self, item) {
            (Buffer::Bits(mut v), Scalar::Bit(x)) => {
                v.push(x);
                Buffer::Bits(v)
            },
            (Buffer::I8(mut v), Scalar::Int(x)) => {
                v.push(x as i8);
                Buffer::I8(v)
            },
            (Buffer::I16(mut v), Scalar::Int(x)) => {
                v.push(x as i16);
                Buffer::I16(v)
            },
            (Buffer::I32(mut v), Scalar::Int(x)) => {
                v.push(x as i32);
                Buffer::I32(v)
            },
            (Buffer::I64(mut v), Scalar::Int(x)) => {
                v.push(x as i64);
                Buffer::I64(v)
            },
            (Buffer::U8(mut v), Scalar::Int(x)) => {
                v.push(x as u8);
                Buffer::U8(v)
            },
            (Buffer::U16(mut v), Scalar::Int(x)) => {
                v.push(x as u16);
                Buffer::U16(v)
            },
            (Buffer::U32(mut v), Scalar::Int(x)) => {
                v.push(x as u32);
                Buffer::U32(v)
            },
            (Buffer::U64(mut v), Scalar::Int(x)) => {
                v.push(x as u64);
                Buffer::U64(v)
            },
            (Buffer::F32(mut v), Scalar::Int(x)) => {
                v.push(x as u32);
                Buffer::F32(v)
            },
            (Buffer::F64(mut v), Scalar::Int(x)) => {
                v.push(x as u64);
                Buffer::F64(v)
            },
            (Buffer::Utf8(mut v), Scalar::Text(x)) => {
                v.push(x);
                Buffer::Utf8(v)
            },
            (Buffer::Offsets(mut v), Scalar::Int(x)) => {
                v.push(x as usize);
                Buffer::Offsets(v)
            },
            (other, _) => other,
        };
        assert(b@.cells =~= before.cells.push(item@));
        b
    }

    /// The cell in a row.
    pub fn get(&self, row: usize) -> (item: Scalar)
        requires
            row < self@.cells.len(),
        ensures
            item@ == self@.cells[row as int],
    {
        match self {
            Buffer::Bits(v) => Scalar::Bit(v[row]),
            Buffer::I8(v) => Scalar::Int(v[row] as i128),
            Buffer::I16(v) => Scalar::Int(v[row] as i128),
            Buffer::I32(v) => Scalar::Int(v[row] as i128),
            Buffer::I64(v) => Scalar::Int(v[row] as i128),
            Buffer::U8(v) => Scalar::Int(v[row] as i128),
            Buffer::U16(v) => Scalar::Int(v[row] as i128),
            Buffer::U32(v) => Scalar::Int(v[row] as i128),
            Buffer::U64(v) => Scalar::Int(v[row] as i128),
            Buffer::F32(v) => Scalar::Int(v[row] as i128),
            Buffer::F64(v) => Scalar::Int(v[row] as i128),
            Buffer::Utf8(v) => Scalar::Text(v[row].clone()),
            Buffer::Offsets(v) => Scalar::Int(v[row] as i128),
        }
    }

    /// The cell that fills a slot without a value: `false`, 0, empty text.
    pub fn filler(kind: ColumnKind) -> (item: Scalar)
        ensures
            item@ == kind.filler(),
            kind.fits(item@),
    {
        match kind {
            ColumnKind::Bits => Scalar::Bit(false),
            ColumnKind::Utf8 => Scalar::Text(String::new()),
            _ => Scalar::Int(0),
        }
    }
}

/// The buffers of a sequence, each as a column.
pub open spec fn columns(buffers: Seq<Buffer>) -> Seq<Column> {
    Seq::new(buffers.len(), |i: int| buffers[i]@)
}

/// The buffers of one conversion, addressed by index.
#[derive(Debug, Clone, PartialEq, Eq)]
pub struct Buffers {
    pub buffers: Vec<Buffer>,
}

impl View for Buffers {
    type V = Seq<Column>;

    open spec fn view(&self) -> Seq<Column> {
        columns(self.buffers@)
    }
}

impl Buffers {
    /// No buffers.
    pub fn new() -> (b: Buffers)
        ensures
            b@ == Seq::<Column>::empty(),
    {
        let b = Buffers { buffers: Vec::new() };
        assert(b@ =~= Seq::<Column>::empty());
        b
    }

    /// Every buffer holds only cells of its kind.
    pub proof fn lemma_typed(&self)
        ensures
            forall|i: int| 0 <= i < self@.len() ==> (#[trigger] self@[i]).typed(),
    {
        assert forall|i: int| 0 <= i < self@.len() implies (#[trigger] self@[i]).typed() by {
            self.buffers@[i].lemma_typed();
        }
    }

    /// The number of buffers.
    pub fn len(&self) -> (n: usize)
        ensures
            n == self@.len(),
    {
        self.buffers.len()
    }

    /// Adds a buffer of the given kind, without rows, after the others.
    pub fn allocate(&mut self, kind: ColumnKind)
        ensures
            final(self)@ == old(self)@.push(Column { kind, cells: kind.initial() }),
    {
        let ghost before = self@;
        self.buffers.push(Buffer::new(kind));
        assert(self@ =~= before.push(Column { kind, cells: kind.initial() }));
    }

    /// What the buffer at `index` holds.
    pub fn kind(&self, index: usize) -> (k: ColumnKind)
        requires
            index < self@.len(),
        ensures
            k == self@[index as int].kind,
    {
        self.buffers[index].kind()
    }

    /// The number of cells of the buffer at `index`.
    pub fn rows(&self, index: usize) -> (n: usize)
        requires
            index < self@.len(),
        ensures
            n == self@[index as int].cells.len(),
    {
        self.buffers[index].len()
    }

    /// Adds a cell at the end of the buffer at `index`.
    pub fn push(&mut self, index: usize, item: Scalar)
        requires
            index < old(self)@.len(),
            old(self)@[index as int].kind.fits(item@),
        ensures
            final(self)@ == old(self)@.update(index as int, old(self)@[index as int].push(item@)),
    {
        let ghost before = self@;
        let mut taken = Buffer::Bits(Vec::new());
        self.buffers.push(taken);
        let buffer = self.buffers.swap_remove(index);
        self.buffers.push(buffer.push(item));
        taken = self.buffers.swap_remove(index);
        assert(self@ =~= before.update(index as int, before[index as int].push(item@)));
    }

    /// The cell in row `row` of the buffer at `index`.
    pub fn get(&self, index: usize, row: usize) -> (item: Scalar)
        requires
            index < self@.len(),
            row < self@[index as int].cells.len(),
        ensures
            item@ == self@[index as int].cells[row as int],
    {
        self.buffers[index].get(row)
    }
}

} // verus!
