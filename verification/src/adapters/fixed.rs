use vstd::prelude::*;
use crate::vm::adapter::{Adapter, Input};

verus! {

/// An adapter that answers every request for input with the same value and
/// keeps every output, oldest first.
pub struct FixedInput {
    pub input: i64,
    pub outputs: Vec<i64>,
}

/// The view of a `FixedInput`.
pub struct FixedInputView {
    pub input: i64,
    pub outputs: Seq<i64>,
}

impl View for FixedInput {
    type V = FixedInputView;

    open spec fn view(&self) -> FixedInputView {
        FixedInputView { input: self.input, outputs: self.outputs@ }
    }
}

impl FixedInput {
    /// An adapter that supplies `input` and has seen no output yet.
    pub fn new(input: i64) -> (io: FixedInput)
        ensures
            io@ == (FixedInputView { input, outputs: Seq::empty() }),
    {
        FixedInput { input, outputs: Vec::new() }
    }
}

impl Adapter for FixedInput {
    open spec fn valid(&self) -> bool {
        true
    }

    open spec fn supply_input(m: FixedInputView) -> (Input, FixedInputView) {
        (Input::Ready(m.input), m)
    }

    open spec fn consume_output(m: FixedInputView, value: i64) -> Option<FixedInputView> {
        Some(FixedInputView { outputs: m.outputs.push(value), ..m })
    }

    fn next_input(&mut self) -> (r: Input) {
        Input::Ready(self.input)
    }

    fn emit_output(&mut self, value: i64) -> (accepted: bool) {
        self.outputs.push(value);
        true
    }
}

} // verus!
