//! The slot buffer: a positional collection of optional, typed input cells.
//!
//! One cell per declared input of a task.  Each cell's type is fixed when the
//! buffer is created; inserting a value whose fingerprint differs from the
//! cell's declared type fails, and on any failure the buffer is unchanged.

use vstd::prelude::*;

use crate::any::TypeInfo;
use crate::any::Value;

verus! {

/// Type used for indexing the cells of a [`TupleOption`].
pub type TupleIndex = u8;

/// The error that can happen when inserting into a [`TupleOption`].
#[derive(Debug)]
pub struct InsertError<V> {
    /// The error kind.
    pub kind: InsertErrorKind,
    /// The value whose insertion failed, handed back unconsumed.
    pub value: Value<V>,
}

/// The [`InsertError`] kind.
#[derive(Debug)]
pub enum InsertErrorKind {
    /// The inserted value's type is not the expected one.
    TypeMismatch {
        /// The expected type's identity.
        expected: std::any::TypeId,
        /// The expected type's name.
        expected_name: &'static str,
    },
    /// The inserting index is out of range.
    OutOfRange,
}

/// The result of inserting into a [`TupleOption`].
pub type InsertResult<V> = Result<(), InsertError<V>>;

/// The error that can happen when taking the inputs out of a [`TupleOption`].
#[derive(Debug)]
pub struct TakeError {
    /// The first missing input's index.
    pub index: TupleIndex,
}

/// A buffer of optional input cells, one per declared input position.
///
/// The cell at position `i` accepts exactly the values whose fingerprint
/// equals the type declared for position `i`.
#[verifier::ext_equal]
pub struct TupleOption<V> {
    pub(crate) types: Vec<TypeInfo>,
    pub(crate) cells: Vec<Option<V>>,
}

impl<V> TupleOption<V> {
    /// The declared type of each cell.
    pub open(crate) spec fn spec_types(self) -> Seq<TypeInfo> {
        self.types@
    }

    /// The contents of each cell.
    pub open(crate) spec fn spec_cells(self) -> Seq<Option<V>> {
        self.cells@
    }

    /// The number of cells.
    pub open spec fn spec_len(self) -> nat {
        self.spec_types().len()
    }

    /// There is one cell per declared type, and few enough cells that a
    /// single byte indexes them all.
    pub open spec fn wf(self) -> bool {
        &&& self.spec_cells().len() == self.spec_types().len()
        &&& self.spec_types().len() <= 255
    }

    /// All cells are filled.
    pub open spec fn spec_full(self) -> bool {
        forall|i: int| 0 <= i < self.spec_cells().len() ==> (#[trigger] self.spec_cells()[i]) is Some
    }

    /// Creates a buffer of empty cells, one per declared type.
    pub fn new(types: Vec<TypeInfo>) -> (r: TupleOption<V>)
        requires
            types@.len() <= 255,
        ensures
            r.wf(),
            r.spec_types() == types@,
            forall|i: int| 0 <= i < r.spec_cells().len() ==> (#[trigger] r.spec_cells()[i]) is None,
    {
        let mut cells: Vec<Option<V>> = Vec::new();
        let mut i: usize = 0;
        while i < types.len()
            invariant
                i <= types@.len(),
                cells@.len() == i,
                forall|j: int| 0 <= j < i ==> (#[trigger] cells@[j]) is None,
            decreases types@.len() - i,
        {
            cells.push(None);
            i = i + 1;
        }
        TupleOption { types, cells }
    }

    /// The number of cells, as a byte.
    pub fn len_byte(&self) -> (r: TupleIndex)
        requires
            self.wf(),
        ensures
            r as int == self.spec_types().len(),
    {
        self.types.len() as u8
    }

    /// The declared type of the cell at `index`, or `None` if `index` is out
    /// of range.
    pub fn type_at(&self, index: TupleIndex) -> (r: Option<TypeInfo>)
        requires
            self.wf(),
        ensures
            (index as int) < self.spec_types().len() ==> r == Some(
                self.spec_types()[index as int],
            ),
            (index as int) >= self.spec_types().len() ==> r is None,
    {
        if (index as usize) < self.types.len() {
            Some(self.types[index as usize])
        } else {
            None
        }
    }

    /// Returns the index of the first cell that is empty, or `None` when the
    /// buffer is full.
    pub fn first_none(&self) -> (r: Option<TupleIndex>)
        requires
            self.wf(),
        ensures
            match r {
                None => self.spec_full(),
                Some(i) => {
                    &&& 0 <= i < self.spec_cells().len()
                    &&& self.spec_cells()[i as int] is None
                    &&& forall|j: int| 0 <= j < i ==> (#[trigger] self.spec_cells()[j]) is Some
                },
            },
    {
        let mut i: usize = 0;
        while i < self.cells.len()
            invariant
                self.wf(),
                i <= self.spec_cells().len(),
                forall|j: int| 0 <= j < i ==> (#[trigger] self.spec_cells()[j]) is Some,
            decreases self.spec_cells().len() - i,
        {
            if self.cells[i].is_none() {
                return Some(i as u8);
            }
            i = i + 1;
        }
        None
    }

    /// Inserts `value` at `index`.
    ///
    /// Fails with `TypeMismatch` when the value's fingerprint differs from
    /// the cell's declared type, and with `OutOfRange` when `index` is not a
    /// cell; the buffer is unchanged on error, and the value is handed back
    /// inside the error.
    pub fn insert(&mut self, index: TupleIndex, value: Value<V>) -> (r: InsertResult<V>)
        requires
            old(self).wf(),
        ensures
            final (self).wf(),
            final (self).spec_types() == old(self).spec_types(),
            match r {
                Ok(()) => {
                    &&& (index as int) < old(self).spec_len()
                    &&& value.info.spec_id() == old(self).spec_types()[index as int].spec_id()
                    &&& final (self).spec_cells() == old(self).spec_cells().update(
                        index as int,
                        Some(value.data),
                    )
                },
                Err(e) => {
                    &&& *final (self) == *old(self)
                    &&& e.value == value
                    &&& match e.kind {
                        InsertErrorKind::OutOfRange => (index as int) >= old(self).spec_len(),
                        InsertErrorKind::TypeMismatch { expected, expected_name } => {
                            &&& (index as int) < old(self).spec_len()
                            &&& value.info.spec_id() != old(self).spec_types()[
                                index as int
                            ].spec_id()
                            &&& expected == old(self).spec_types()[index as int].spec_id()
                            &&& expected_name == old(self).spec_types()[
                                index as int
                            ].spec_name()
                        },
                    }
                },
            },
    {
        let i = index as usize;
        if i >= self.types.len() {
            return Err(InsertError { kind: InsertErrorKind::OutOfRange, value });
        }
        let expected = self.types[i];
        if !value.info.same_id(&expected) {
            return Err(
                InsertError {
                    kind: InsertErrorKind::TypeMismatch {
                        expected: expected.id(),
                        expected_name: expected.name(),
                    },
                    value,
                },
            );
        }
        self.cells[i] = Some(value.data);
        Ok(())
    }

    /// Takes the values out, in cell order.
    ///
    /// Succeeds only when every cell is filled; all cells become empty.  On
    /// error the buffer is unchanged and the first empty index is reported.
    pub fn take(&mut self) -> (r: Result<Vec<V>, TakeError>)
        requires
            old(self).wf(),
        ensures
            final (self).wf(),
            final (self).spec_types() == old(self).spec_types(),
            match r {
                Ok(vs) => {
                    &&& old(self).spec_full()
                    &&& vs@.len() == old(self).spec_len()
                    &&& forall|i: int|
                        0 <= i < vs@.len() ==> old(self).spec_cells()[i] == Some(#[trigger] vs@[i])
                    &&& forall|i: int|
                        0 <= i < final (self).spec_cells().len() ==> (#[trigger] final (
                            self
                        ).spec_cells()[i]) is None
                },
                Err(e) => {
                    &&& *final (self) == *old(self)
                    &&& !old(self).spec_full()
                    &&& 0 <= e.index < old(self).spec_len()
                    &&& old(self).spec_cells()[e.index as int] is None
                },
            },
    {
        match self.first_none() {
            Some(index) => Err(TakeError { index }),
            None => {
                let mut vs: Vec<V> = Vec::new();
                let mut i: usize = 0;
                while i < self.cells.len()
                    invariant
                        self.wf(),
                        self.spec_types() == old(self).spec_types(),
                        i <= self.spec_cells().len(),
                        self.spec_cells().len() == old(self).spec_cells().len(),
                        vs@.len() == i,
                        forall|j: int|
                            i <= j < self.spec_cells().len() ==> self.spec_cells()[j] == old(
                                self,
                            ).spec_cells()[j],
                        forall|j: int|
                            0 <= j < i ==> old(self).spec_cells()[j] == Some(#[trigger] vs@[j]),
                        forall|j: int|
                            0 <= j < i ==> (#[trigger] self.spec_cells()[j]) is None,
                        old(self).spec_full(),
                    decreases self.spec_cells().len() - i,
                {
                    let mut cell: Option<V> = None;
                    std::mem::swap(&mut cell, &mut self.cells[i]);
                    match cell {
                        Some(v) => vs.push(v),
                        None => unreached(),
                    }
                    i = i + 1;
                }
                Ok(vs)
            },
        }
    }
}

} // verus!
