//! Task declarations and curried tasks.
//!
//! A task is declared by its input fingerprints (one per slot, in order),
//! its output fingerprint, and a caller-chosen tag under which the caller
//! runs the actual computation when the engine orders the task started.
//! A curried task couples such a declaration with the slot buffer that
//! gathers its inputs.

use vstd::prelude::*;

use crate::any::TypeInfo;
use crate::any::Value;
use crate::tuple::InsertResult;
use crate::tuple::TakeError;
use crate::tuple::TupleIndex;
use crate::tuple::TupleOption;

verus! {

/// A task declaration: the shape of a one-shot computation.
///
/// The engine derives the arity, the per-slot input types and the output
/// type from it; the computation itself stays with the caller, who knows it
/// by `tag`.
#[derive(Debug)]
pub struct TryTask {
    /// The caller's identifier for the computation.
    pub tag: u64,
    /// The fingerprint of each input, in slot order.
    pub inputs: Vec<TypeInfo>,
    /// The fingerprint of the successful output.
    pub output: TypeInfo,
}

impl TryTask {
    /// A task has few enough inputs that a single byte indexes them all.
    pub open spec fn wf(self) -> bool {
        self.inputs@.len() <= 255
    }

    /// Declares a task.
    pub fn new(tag: u64, inputs: Vec<TypeInfo>, output: TypeInfo) -> (r: TryTask)
        requires
            inputs@.len() <= 255,
        ensures
            r.tag == tag,
            r.inputs@ == inputs@,
            r.output == output,
            r.wf(),
    {
        TryTask { tag, inputs, output }
    }
}

/// A task declaration coupled with the slot buffer gathering its inputs.
#[verifier::ext_equal]
pub struct CurriedTask<V> {
    pub(crate) tag: u64,
    pub(crate) output: TypeInfo,
    pub(crate) slots: TupleOption<V>,
}

impl<V> CurriedTask<V> {
    /// The caller's identifier for the computation.
    pub open(crate) spec fn spec_tag(self) -> u64 {
        self.tag
    }

    /// The declared output fingerprint.
    pub open(crate) spec fn spec_output(self) -> TypeInfo {
        self.output
    }

    /// The declared input fingerprints.
    pub open(crate) spec fn spec_types(self) -> Seq<TypeInfo> {
        self.slots.spec_types()
    }

    /// The gathered inputs.
    pub open(crate) spec fn spec_cells(self) -> Seq<Option<V>> {
        self.slots.spec_cells()
    }

    /// The slot buffer matches the declaration.
    pub open spec fn wf(self) -> bool {
        &&& self.spec_cells().len() == self.spec_types().len()
        &&& self.spec_types().len() <= 255
    }

    /// All inputs have been gathered.
    pub open spec fn spec_ready(self) -> bool {
        forall|i: int| 0 <= i < self.spec_cells().len() ==> (#[trigger] self.spec_cells()[i]) is Some
    }

    /// Creates a [`CurriedTask`] from a task and no inputs.
    pub fn new(task: TryTask) -> (r: CurriedTask<V>)
        requires
            task.wf(),
        ensures
            r.wf(),
            r.spec_tag() == task.tag,
            r.spec_output() == task.output,
            r.spec_types() == task.inputs@,
            forall|i: int| 0 <= i < r.spec_cells().len() ==> (#[trigger] r.spec_cells()[i]) is None,
    {
        let TryTask { tag, inputs, output } = task;
        CurriedTask { tag, output, slots: TupleOption::new(inputs) }
    }

    /// The number of inputs of the declared task.
    pub fn num_inputs(&self) -> (r: TupleIndex)
        requires
            self.wf(),
        ensures
            r as int == self.spec_types().len(),
    {
        self.slots.len_byte()
    }

    /// The fingerprint of the input at `index`, or `None` if `index` is out
    /// of range.
    pub fn input_type_info(&self, index: TupleIndex) -> (r: Option<TypeInfo>)
        requires
            self.wf(),
        ensures
            (index as int) < self.spec_types().len() ==> r == Some(
                self.spec_types()[index as int],
            ),
            (index as int) >= self.spec_types().len() ==> r is None,
    {
        self.slots.type_at(index)
    }

    /// The fingerprint of the successful output.
    pub fn output_type_info(&self) -> (r: TypeInfo)
        ensures
            r == self.spec_output(),
    {
        self.output
    }

    /// Returns `true` when every input slot has been filled.
    pub fn ready(&self) -> (r: bool)
        requires
            self.wf(),
        ensures
            r == self.spec_ready(),
    {
        self.slots.first_none().is_none()
    }

    /// Fills one input slot, i.e. currying.
    ///
    /// `self` is unchanged on error.
    pub fn curry(&mut self, index: TupleIndex, value: Value<V>) -> (r: InsertResult<V>)
        requires
            old(self).wf(),
        ensures
            final (self).wf(),
            final (self).spec_tag() == old(self).spec_tag(),
            final (self).spec_output() == old(self).spec_output(),
            final (self).spec_types() == old(self).spec_types(),
            match r {
                Ok(()) => {
                    &&& (index as int) < old(self).spec_types().len()
                    &&& value.info.spec_id() == old(self).spec_types()[index as int].spec_id()
                    &&& final (self).spec_cells() == old(self).spec_cells().update(
                        index as int,
                        Some(value.data),
                    )
                },
                Err(e) => {
                    &&& *final (self) == *old(self)
                    &&& e.value == value
                    &&& match e.kind {
                        crate::tuple::InsertErrorKind::OutOfRange => (index as int) >= old(
                            self,
                        ).spec_types().len(),
                        crate::tuple::InsertErrorKind::TypeMismatch { expected, expected_name } => {
                            &&& (index as int) < old(self).spec_types().len()
                            &&& value.info.spec_id() != old(self).spec_types()[
                                index as int
                            ].spec_id()
                            &&& expected == old(self).spec_types()[index as int].spec_id()
                            &&& expected_name == old(self).spec_types()[
                                index as int
                            ].spec_name()
                        },
                    }
                },
            },
    {
        self.slots.insert(index, value)
    }

    /// Consumes the curried task and yields what the caller needs to run it:
    /// the task's tag and the gathered inputs, in slot order.
    ///
    /// Fails with `TakeError` if called before every slot is filled.
    pub fn call(self) -> (r: Result<(u64, Vec<V>), TakeError>)
        requires
            self.wf(),
        ensures
            match r {
                Ok(run) => {
                    &&& self.spec_ready()
                    &&& run.0 == self.spec_tag()
                    &&& run.1@.len() == self.spec_cells().len()
                    &&& forall|i: int|
                        0 <= i < run.1@.len() ==> self.spec_cells()[i] == Some(
                            #[trigger] run.1@[i],
                        )
                },
                Err(e) => {
                    &&& !self.spec_ready()
                    &&& 0 <= e.index < self.spec_cells().len()
                    &&& self.spec_cells()[e.index as int] is None
                },
            },
    {
        let CurriedTask { tag, output: _, slots } = self;
        let mut slots = slots;
        match slots.take() {
            Ok(vs) => Ok((tag, vs)),
            Err(e) => Err(e),
        }
    }
}

} // verus!
