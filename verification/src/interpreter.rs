//! The interpreter: a compiled program, its buffers, and the state of the
//! outermost sequence. It takes the records of a collection one by one, or
//! all at once, and fills the buffers.
use vstd::prelude::*;
use crate::buffers::{Buffers, Column};
use crate::error::{Error, ErrorKind};
use crate::event::{Event, EventView, views};
use crate::field::FieldModel;
use crate::layout::{count, layout, lemma_shape_grows, shape_ok, slot_ok, Operation};
use crate::program::{instructions, Program};
use crate::serialization::{is_end_sequence, ser, ser_value, value_at};
use crate::value::{lemma_parse_bounds, parse_items, parse_value, value_end, Value};

verus! {

/// The columns of a program before any row was added: one for each
/// operation, of its kind, empty but for the first offset.
pub open spec fn allocated(ops: Seq<Operation>) -> Seq<Column> {
    Seq::new(
        ops.len(),
        |i: int| Column { kind: ops[i].spec_kind(), cells: ops[i].spec_kind().initial() },
    )
}

/// The columns after the items from index `k` on were added.
pub open spec fn ser_records(root: FieldModel, items: Seq<Value>, k: int, cols: Seq<Column>) -> Result<
    Seq<Column>,
    ErrorKind,
>
    decreases items.len() - k,
{
    if k < 0 || k >= items.len() {
        Ok(cols)
    } else {
        match ser(root, 0, items[k], cols) {
            Ok(c) => ser_records(root, items, k + 1, c),
            Err(e) => Err(e),
        }
    }
}

/// The columns after one item was added: the value that the events
/// describe. The events must be exactly one balanced value.
pub open spec fn item_added(root: FieldModel, ev: Seq<EventView>, cols: Seq<Column>) -> Result<
    Seq<Column>,
    ErrorKind,
> {
    match parse_value(ev, 0) {
        Some((v, end)) => if end == ev.len() {
            ser(root, 0, v, cols)
        } else {
            Err(ErrorKind::UnbalancedNesting)
        },
        None => Err(ErrorKind::UnbalancedNesting),
    }
}

/// The items of the collection that the events describe, which must be
/// exactly one sequence.
pub open spec fn records_of(ev: Seq<EventView>) -> Result<Seq<Value>, ErrorKind> {
    match parse_value(ev, 0) {
        Some((v, end)) => if end == ev.len() {
            match v {
                Value::Sequence(items) => Ok(items),
                _ => Err(ErrorKind::TypeMismatch),
            }
        } else {
            Err(ErrorKind::UnbalancedNesting)
        },
        None => Err(ErrorKind::UnbalancedNesting),
    }
}

/// The columns after every item of a collection was added.
pub open spec fn items_added(root: FieldModel, ev: Seq<EventView>, cols: Seq<Column>) -> Result<
    Seq<Column>,
    ErrorKind,
> {
    match records_of(ev) {
        Ok(items) => ser_records(root, items, 0, cols),
        Err(e) => Err(e),
    }
}

/// Fills the buffers of a program from the events of records.
#[derive(Debug)]
pub struct Interpreter {
    pub program: Program,
    pub buffers: Buffers,
    /// The number of items added.
    pub rows: usize,
    /// Whether the outermost sequence was started and not yet ended.
    pub open: bool,
    /// Whether an operation has failed; every later one fails too.
    pub failed: bool,
}

impl Interpreter {
    /// The program is well formed and, unless the interpreter has failed,
    /// the buffers are those of its layout.
    pub open spec fn well_formed(&self) -> bool {
        &&& self.program.well_formed()
        &&& !self.failed ==> shape_ok(self.program.root@, 0, self.buffers@)
            && self.buffers@.len() == count(self.program.root@)
    }

    /// An interpreter for the program, with a buffer for each instruction
    /// and no rows.
    pub fn new(program: Program) -> (i: Interpreter)
        requires
            program.well_formed(),
        ensures
            i.well_formed(),
            i.program == program,
            i.buffers@ == allocated(layout(program.root@)),
            i.rows == 0,
            !i.open,
            !i.failed,
    {
        let ghost ops = layout(program.root@);
        let mut buffers = Buffers::new();
        let mut k: usize = 0;
        while k < program.instructions.len()
            invariant
                k <= program.instructions@.len(),
                program.instructions@ == instructions(ops),
                buffers@.len() == k,
                forall|i: int|
                    0 <= i < k ==> (#[trigger] buffers@[i]) == (Column {
                        kind: ops[i].spec_kind(),
                        cells: ops[i].spec_kind().initial(),
                    }),
            decreases program.instructions@.len() - k,
        {
            let kind = program.instructions[k].operation.kind();
            buffers.allocate(kind);
            k = k + 1;
        }
        proof {
            assert(buffers@ =~= allocated(ops));
            assert forall|i: int| 0 <= i < count(program.root@) implies slot_ok(
                #[trigger] layout(program.root@)[i],
                buffers@[0 + i],
            ) by {}
        }
        Interpreter { program, buffers, rows: 0, open: false, failed: false }
    }

    /// Starts the outermost sequence. Fails where it is started already.
    pub fn accept_start_sequence(&mut self) -> (r: Result<(), Error>)
        requires
            old(self).well_formed(),
        ensures
            final(self).well_formed(),
            final(self).program == old(self).program,
            if old(self).failed {
                r matches Err(e) && e.kind == ErrorKind::Failed && final(self).failed
            } else if old(self).open {
                r matches Err(e) && e.kind == ErrorKind::UnbalancedNesting && final(self).failed
            } else {
                &&& r is Ok
                &&& final(self).open
                &&& !final(self).failed
                &&& final(self).buffers == old(self).buffers
                &&& final(self).rows == old(self).rows
            },
    {
        if self.failed {
            return Err(Error::new(ErrorKind::Failed));
        }
        if self.open {
            self.failed = true;
            return Err(Error::new(ErrorKind::UnbalancedNesting));
        }
        self.open = true;
        Ok(())
    }

    /// Ends the outermost sequence. Fails where it is not started.
    pub fn accept_end_sequence(&mut self) -> (r: Result<(), Error>)
        requires
            old(self).well_formed(),
        ensures
            final(self).well_formed(),
            final(self).program == old(self).program,
            if old(self).failed {
                r matches Err(e) && e.kind == ErrorKind::Failed && final(self).failed
            } else if !old(self).open {
                r matches Err(e) && e.kind == ErrorKind::UnbalancedNesting && final(self).failed
            } else {
                &&& r is Ok
                &&& !final(self).open
                &&& !final(self).failed
                &&& final(self).buffers == old(self).buffers
                &&& final(self).rows == old(self).rows
            },
    {
        if self.failed {
            return Err(Error::new(ErrorKind::Failed));
        }
        if !self.open {
            self.failed = true;
            return Err(Error::new(ErrorKind::UnbalancedNesting));
        }
        self.open = false;
        Ok(())
    }

    /// What `accept_item` returns and leaves behind.
    pub open spec fn item_accepted(
        before: &Interpreter,
        after: &Interpreter,
        ev: Seq<EventView>,
        r: Result<(), Error>,
    ) -> bool {
        if before.failed {
            r matches Err(e) && e.kind == ErrorKind::Failed && after.failed
        } else if !before.open {
            r matches Err(e) && e.kind == ErrorKind::UnbalancedNesting && after.failed
        } else if before.rows == usize::MAX {
            r matches Err(e) && e.kind == ErrorKind::OffsetOutOfRange && after.failed
        } else {
            match item_added(before.program.root@, ev, before.buffers@) {
                Ok(c) => {
                    &&& r is Ok
                    &&& after.buffers@ == c
                    &&& after.rows == before.rows + 1
                    &&& after.open
                    &&& !after.failed
                },
                Err(k) => r matches Err(e) && e.kind == k && after.failed,
            }
        }
    }

    /// Adds one item: the value that the events describe. The outermost
    /// sequence must be started, and the events must be exactly one
    /// balanced value that fits the root of the program.
    pub fn accept_item(&mut self, item: &Vec<Event>) -> (r: Result<(), Error>)
        requires
            old(self).well_formed(),
        ensures
            final(self).well_formed(),
            final(self).program == old(self).program,
            Interpreter::item_accepted(old(self), final(self), views(item@), r),
    {
        if self.failed {
            return Err(Error::new(ErrorKind::Failed));
        }
        if !self.open {
            self.failed = true;
            return Err(Error::new(ErrorKind::UnbalancedNesting));
        }
        if self.rows == usize::MAX {
            self.failed = true;
            return Err(Error::new(ErrorKind::OffsetOutOfRange));
        }
        match value_end(item, 0) {
            Some(end) => {
                if end != item.len() {
                    self.failed = true;
                    return Err(Error::new(ErrorKind::UnbalancedNesting));
                }
            },
            None => {
                self.failed = true;
                return Err(Error::new(ErrorKind::UnbalancedNesting));
            },
        }
        let ghost before = self.buffers@;
        match ser_value(&self.program.root, 0, item, 0, &mut self.buffers) {
            Ok(()) => {
                proof {
                    lemma_shape_grows(self.program.root@, 0, before, self.buffers@);
                }
                self.rows = self.rows + 1;
                Ok(())
            },
            Err(e) => {
                self.failed = true;
                Err(e)
            },
        }
    }

    /// What `extend` returns and leaves behind.
    pub open spec fn extended(
        before: &Interpreter,
        after: &Interpreter,
        ev: Seq<EventView>,
        r: Result<(), Error>,
    ) -> bool {
        if before.failed {
            r matches Err(e) && e.kind == ErrorKind::Failed && after.failed
        } else if before.open {
            r matches Err(e) && e.kind == ErrorKind::UnbalancedNesting && after.failed
        } else {
            match items_added(before.program.root@, ev, before.buffers@) {
                Ok(c) => if before.rows + records_of(ev)->Ok_0.len() > usize::MAX {
                    r matches Err(e) && e.kind == ErrorKind::OffsetOutOfRange && after.failed
                } else {
                    &&& r is Ok
                    &&& after.buffers@ == c
                    &&& after.rows == before.rows + records_of(ev)->Ok_0.len()
                    &&& !after.open
                    &&& !after.failed
                },
                Err(k) => r matches Err(e) && e.kind == k && after.failed,
            }
        }
    }

    /// Adds every item of a collection: the events must be exactly one
    /// sequence, whose items are the records. The outermost sequence must
    /// not be started; it is started and ended by the events.
    #[verifier::loop_isolation(false)]
    pub fn extend(&mut self, events: &Vec<Event>) -> (r: Result<(), Error>)
        requires
            old(self).well_formed(),
        ensures
            final(self).well_formed(),
            final(self).program == old(self).program,
            Interpreter::extended(old(self), final(self), views(events@), r),
    {
        let ghost ev = views(events@);
        let ghost root = self.program.root@;
        if self.failed {
            return Err(Error::new(ErrorKind::Failed));
        }
        if self.open {
            self.failed = true;
            return Err(Error::new(ErrorKind::UnbalancedNesting));
        }
        match value_end(events, 0) {
            Some(end) => {
                if end != events.len() {
                    self.failed = true;
                    return Err(Error::new(ErrorKind::UnbalancedNesting));
                }
            },
            None => {
                self.failed = true;
                return Err(Error::new(ErrorKind::UnbalancedNesting));
            },
        }
        proof {
            lemma_parse_bounds(ev, 0);
            lemma_parse_bounds(ev, 1);
        }
        match &events[0] {
            Event::StartSequence => {},
            _ => {
                self.failed = true;
                return Err(Error::new(ErrorKind::TypeMismatch));
            },
        }
        let ghost items = parse_items(ev, 1)->Some_0.0;
        let ghost start = self.buffers@;
        let mut q: usize = 1;
        let mut k: usize = 0;
        proof {
            assert(items.skip(0) == items);
        }
        while !is_end_sequence(&events[q])
            invariant
                0 < q < events@.len(),
                k < q,
                k <= items.len(),
                !self.failed,
                !self.open,
                self.program == old(self).program,
                self.rows == old(self).rows,
                shape_ok(root, 0, self.buffers@),
                self.buffers@.len() == count(root),
                parse_items(ev, q as int) is Some,
                parse_items(ev, q as int)->Some_0.0 == items.skip(k as int),
                ser_records(root, items, 0, start) == ser_records(
                    root,
                    items,
                    k as int,
                    self.buffers@,
                ),
            decreases events@.len() - q,
        {
            let ghost before = self.buffers@;
            proof {
                lemma_parse_bounds(ev, q as int);
                let next = parse_value(ev, q as int)->Some_0.1;
                lemma_parse_bounds(ev, next);
                let rest = parse_items(ev, next)->Some_0.0;
                assert(parse_items(ev, q as int)->Some_0.0 == seq![value_at(ev, q as int)]
                    + rest);
                assert(items.skip(k as int).len() >= 1);
                assert(items.skip(k as int)[0] == items[k as int]);
                assert(items.skip(k + 1) =~= rest) by {
                    assert(items.skip(k as int).skip(1) =~= items.skip(k + 1));
                    assert((seq![items[k as int]] + rest).skip(1) =~= rest);
                }
            }
            match ser_value(&self.program.root, 0, events, q, &mut self.buffers) {
                Ok(()) => {
                    proof {
                        lemma_shape_grows(root, 0, before, self.buffers@);
                    }
                },
                Err(e) => {
                    self.failed = true;
                    return Err(e);
                },
            }
            match value_end(events, q) {
                Some(next) => {
                    q = next;
                },
                None => {
                    self.failed = true;
                    return Err(Error::new(ErrorKind::UnbalancedNesting));
                },
            }
            k = k + 1;
        }
        proof {
            assert(items.skip(k as int).len() == 0);
        }
        if k > usize::MAX - self.rows {
            self.failed = true;
            return Err(Error::new(ErrorKind::OffsetOutOfRange));
        }
        self.rows = self.rows + k;
        Ok(())
    }

    /// Adds one item on its own: starts the outermost sequence, adds the
    /// value that the events describe, and ends the sequence.
    pub fn push(&mut self, item: &Vec<Event>) -> (r: Result<(), Error>)
        requires
            old(self).well_formed(),
        ensures
            final(self).well_formed(),
            final(self).program == old(self).program,
            if old(self).failed {
                r matches Err(e) && e.kind == ErrorKind::Failed && final(self).failed
            } else if old(self).open {
                r matches Err(e) && e.kind == ErrorKind::UnbalancedNesting && final(self).failed
            } else if old(self).rows == usize::MAX {
                r matches Err(e) && e.kind == ErrorKind::OffsetOutOfRange && final(self).failed
            } else {
                match item_added(old(self).program.root@, views(item@), old(self).buffers@) {
                    Ok(c) => {
                        &&& r is Ok
                        &&& final(self).buffers@ == c
                        &&& final(self).rows == old(self).rows + 1
                        &&& !final(self).open
                        &&& !final(self).failed
                    },
                    Err(k) => r matches Err(e) && e.kind == k && final(self).failed,
                }
            },
    {
        match self.accept_start_sequence() {
            Ok(()) => {},
            Err(e) => {
                return Err(e);
            },
        }
        match self.accept_item(item) {
            Ok(()) => {},
            Err(e) => {
                return Err(e);
            },
        }
        self.accept_end_sequence()
    }

    /// Hands over the buffers and the number of rows in them, and starts
    /// again with empty buffers. Fails while the outermost sequence is
    /// started.
    pub fn finish(&mut self) -> (r: Result<(Buffers, usize), Error>)
        requires
            old(self).well_formed(),
        ensures
            final(self).well_formed(),
            final(self).program == old(self).program,
            if old(self).failed {
                r matches Err(e) && e.kind == ErrorKind::Failed && final(self).failed
            } else if old(self).open {
                r matches Err(e) && e.kind == ErrorKind::UnbalancedNesting && final(self).failed
            } else {
                &&& r matches Ok(done)
                &&& done.0 == old(self).buffers
                &&& done.1 == old(self).rows
                &&& final(self).buffers@ == allocated(layout(old(self).program.root@))
                &&& final(self).rows == 0
                &&& !final(self).open
                &&& !final(self).failed
            },
    {
        if self.failed {
            return Err(Error::new(ErrorKind::Failed));
        }
        if self.open {
            self.failed = true;
            return Err(Error::new(ErrorKind::UnbalancedNesting));
        }
        let ghost ops = layout(self.program.root@);
        let mut buffers = Buffers::new();
        let mut k: usize = 0;
        while k < self.program.instructions.len()
            invariant
                k <= self.program.instructions@.len(),
                self.program.instructions@ == instructions(ops),
                *self == *old(self),
                buffers@.len() == k,
                forall|i: int|
                    0 <= i < k ==> (#[trigger] buffers@[i]) == (Column {
                        kind: ops[i].spec_kind(),
                        cells: ops[i].spec_kind().initial(),
                    }),
            decreases self.program.instructions@.len() - k,
        {
            let kind = self.program.instructions[k].operation.kind();
            buffers.allocate(kind);
            k = k + 1;
        }
        proof {
            assert(buffers@ =~= allocated(ops));
            assert forall|i: int| 0 <= i < count(self.program.root@) implies slot_ok(
                #[trigger] layout(self.program.root@)[i],
                buffers@[0 + i],
            ) by {}
        }
        std::mem::swap(&mut buffers, &mut self.buffers);
        let rows = self.rows;
        self.rows = 0;
        Ok((buffers, rows))
    }
}

} // verus!
