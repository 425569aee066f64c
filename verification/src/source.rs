//! The source: the rows of checked buffers, turned back into events.
use vstd::prelude::*;
use crate::buffers::{Buffers, Column};
use crate::deserialization::{check, check_columns, columns_ok, de, de_value, lemma_close, lemma_items_step};
use crate::error::{Error, ErrorKind};
use crate::event::{Event, EventView, views};
use crate::field::{models, FieldModel, GenericField};
use crate::layout::{count, layout, shape_ok, slot_ok, Operation};
use crate::program::{
    compilable, compile_serialization, instructions, root_of, CompilationOptions, Program,
};
use crate::value::{unparse, unparse_items, Value};

verus! {

/// Whether the columns are those of the layout of `root`: as many, of the
/// same kinds, and every offset column with at least its first offset.
pub open spec fn shape_fits(root: FieldModel, cols: Seq<Column>) -> bool {
    cols.len() == count(root) && shape_ok(root, 0, cols)
}

/// The values of the first `n` rows.
pub open spec fn rows_of(root: FieldModel, cols: Seq<Column>, n: int) -> Seq<Value> {
    Seq::new(n as nat, |i: int| de(root, 0, cols, i))
}

/// Whether the buffers have the kinds that the program asks for.
fn shape_matches(program: &Program, bufs: &Buffers) -> (r: bool)
    requires
        program.well_formed(),
    ensures
        r == shape_fits(program.root@, bufs@),
{
    let ghost ops = layout(program.root@);
    if bufs.len() != program.instructions.len() {
        return false;
    }
    let mut i: usize = 0;
    while i < program.instructions.len()
        invariant
            i <= program.instructions@.len(),
            ops == layout(program.root@),
            program.instructions@ == instructions(ops),
            bufs@.len() == ops.len(),
            forall|k: int| 0 <= k < i ==> slot_ok(#[trigger] ops[k], bufs@[0 + k]),
        decreases program.instructions@.len() - i,
    {
        let kind = program.instructions[i].operation.kind();
        if bufs.kind(i) != kind {
            assert(!slot_ok(ops[i as int], bufs@[0 + i]));
            return false;
        }
        if let Operation::PushOffset = program.instructions[i].operation {
            if bufs.rows(i) < 1 {
                assert(!slot_ok(ops[i as int], bufs@[0 + i]));
                return false;
            }
        }
        i = i + 1;
    }
    true
}

/// Checked buffers and the rows that were read from them so far.
#[derive(Debug)]
pub struct Source {
    pub program: Program,
    pub buffers: Buffers,
    /// The number of rows in the buffers.
    pub rows: usize,
    /// The row that `next_row` returns next.
    pub next: usize,
}

/// What `compile_deserialization` returns.
pub open spec fn compiled(
    num_items: usize,
    fields: Seq<FieldModel>,
    buffers: Buffers,
    options: CompilationOptions,
    r: Result<Source, Error>,
) -> bool {
    if !compilable(fields, options) {
        r matches Err(e) && e.kind == ErrorKind::UnsupportedField
    } else if !shape_fits(root_of(fields, options), buffers@) {
        r matches Err(e) && e.kind == ErrorKind::LengthMismatch
    } else {
        match check(
            root_of(fields, options),
            0,
            buffers@,
            num_items as int,
            ErrorKind::LengthMismatch,
        ) {
            Ok(()) => {
                &&& r matches Ok(source)
                &&& source.well_formed()
                &&& source.program.root@ == root_of(fields, options)
                &&& source.buffers == buffers
                &&& source.rows == num_items
                &&& source.next == 0
            },
            Err(k) => r matches Err(e) && e.kind == k,
        }
    }
}

/// Compiles fields and the buffers that hold `num_items` items of them to
/// a source of these items.
///
/// Fails on a tree without a layout, on buffers that are not those of the
/// layout, and on buffers that do not hold exactly `num_items` rows or
/// whose offsets decrease.
pub fn compile_deserialization(
    num_items: usize,
    fields: &[GenericField],
    buffers: Buffers,
    options: CompilationOptions,
) -> (r: Result<Source, Error>)
    ensures
        compiled(num_items, models(fields@), buffers, options, r),
{
    let program = match compile_serialization(fields, options) {
        Ok(program) => program,
        Err(e) => {
            return Err(e);
        },
    };
    if !shape_matches(&program, &buffers) {
        return Err(Error::new(ErrorKind::LengthMismatch));
    }
    match check_columns(&program.root, 0, &buffers, num_items, ErrorKind::LengthMismatch) {
        Ok(()) => {},
        Err(e) => {
            return Err(e);
        },
    }
    Ok(Source { program, buffers, rows: num_items, next: 0 })
}

impl Source {
    /// The program is well formed, and the buffers are those of its layout
    /// and hold exactly `rows` rows.
    pub open spec fn well_formed(&self) -> bool {
        &&& self.program.well_formed()
        &&& shape_fits(self.program.root@, self.buffers@)
        &&& columns_ok(self.program.root@, 0, self.buffers@, self.rows as int)
        &&& self.next <= self.rows
    }

    /// The number of rows.
    pub fn num_items(&self) -> (n: usize)
        ensures
            n == self.rows,
    {
        self.rows
    }

    /// The events of one row. Fails on a row that the buffers do not hold.
    pub fn row(&self, row: usize) -> (r: Result<Vec<Event>, Error>)
        requires
            self.well_formed(),
        ensures
            match r {
                Ok(events) => row < self.rows && views(events@) == unparse(
                    de(self.program.root@, 0, self.buffers@, row as int),
                ),
                Err(e) => row >= self.rows && e.kind == ErrorKind::OffsetOutOfRange,
            },
    {
        if row >= self.rows {
            return Err(Error::new(ErrorKind::OffsetOutOfRange));
        }
        let mut out: Vec<Event> = Vec::new();
        de_value(&self.program.root, 0, &self.buffers, self.rows, row, &mut out);
        proof {
            assert(views(out@) =~= unparse(de(self.program.root@, 0, self.buffers@, row as int)));
        }
        Ok(out)
    }

    /// The events of the next row, or `None` after the last one.
    pub fn next_row(&mut self) -> (r: Option<Vec<Event>>)
        requires
            old(self).well_formed(),
        ensures
            final(self).well_formed(),
            final(self).program == old(self).program,
            final(self).buffers == old(self).buffers,
            final(self).rows == old(self).rows,
            match r {
                Some(events) => old(self).next < old(self).rows && final(self).next == old(
                    self,
                ).next + 1 && views(events@) == unparse(
                    de(old(self).program.root@, 0, old(self).buffers@, old(self).next as int),
                ),
                None => old(self).next == old(self).rows && final(self).next == old(self).next,
            },
    {
        if self.next >= self.rows {
            return None;
        }
        let mut out: Vec<Event> = Vec::new();
        de_value(&self.program.root, 0, &self.buffers, self.rows, self.next, &mut out);
        proof {
            assert(views(out@) =~= unparse(
                de(self.program.root@, 0, self.buffers@, self.next as int),
            ));
        }
        self.next = self.next + 1;
        Some(out)
    }

    /// The events of the whole collection: the start of a sequence, every
    /// row in order, and the end of the sequence.
    pub fn events(&self) -> (out: Vec<Event>)
        requires
            self.well_formed(),
        ensures
            views(out@) == unparse(
                Value::Sequence(rows_of(self.program.root@, self.buffers@, self.rows as int)),
            ),
    {
        let ghost items = rows_of(self.program.root@, self.buffers@, self.rows as int);
        let mut out: Vec<Event> = Vec::new();
        out.push(Event::StartSequence);
        let ghost start = Seq::<EventView>::empty();
        let ghost opened = views(out@);
        proof {
            assert(opened =~= start.push(EventView::StartSequence));
        }
        let mut row: usize = 0;
        while row < self.rows
            invariant
                row <= self.rows,
                self.well_formed(),
                items == rows_of(self.program.root@, self.buffers@, self.rows as int),
                views(out@) + unparse_items(items, row as int) == opened + unparse_items(items, 0),
            decreases self.rows - row,
        {
            let ghost before = views(out@);
            de_value(&self.program.root, 0, &self.buffers, self.rows, row, &mut out);
            proof {
                lemma_items_step(before, views(out@), items, row as int);
            }
            row = row + 1;
        }
        let ghost filled = views(out@);
        let ghost done = out@;
        out.push(Event::EndSequence);
        proof {
            assert(views(out@) =~= filled.push(EventView::EndSequence));
            lemma_close(start, opened, filled, views(out@), Value::Sequence(items));
            assert(start + unparse(Value::Sequence(items)) =~= unparse(Value::Sequence(items)));
        }
        out
    }
}

} // verus!
