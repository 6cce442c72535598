use vstd::prelude::*;
use crate::vm::adapter::{Adapter, Input};

verus! {

/// An adapter made of two queues: values waiting to be read by the machine
/// and values the machine has written, both oldest first. When the input
/// queue runs dry the adapter either suspends the machine or ends the run,
/// as it was told when it was made.
pub struct Queue {
    inputs: Vec<i64>,
    taken: usize,
    pub outputs: Vec<i64>,
    pub suspend: bool,
}

/// The view of a `Queue`: the inputs not yet read, the outputs so far, and
/// what happens when the inputs run dry.
pub struct QueueView {
    pub inputs: Seq<i64>,
    pub outputs: Seq<i64>,
    pub suspend: bool,
}

impl View for Queue {
    type V = QueueView;

    closed spec fn view(&self) -> QueueView {
        QueueView {
            inputs: if self.taken <= self.inputs@.len() {
                self.inputs@.skip(self.taken as int)
            } else {
                Seq::empty()
            },
            outputs: self.outputs@,
            suspend: self.suspend,
        }
    }
}

impl Queue {
    /// A queue that holds `inputs` and no output. With `suspend` the machine
    /// is suspended when it asks for more input than there is; without, the
    /// run fails.
    pub fn new(inputs: Vec<i64>, suspend: bool) -> (io: Queue)
        ensures
            io.valid(),
            io@ == (QueueView { inputs: inputs@, outputs: Seq::empty(), suspend }),
    {
        let io = Queue { inputs, taken: 0, outputs: Vec::new(), suspend };
        assert(io@.inputs =~= inputs@);
        io
    }

    /// Appends `value` to the values waiting to be read.
    pub fn push_input(&mut self, value: i64)
        requires
            old(self).valid(),
        ensures
            final(self).valid(),
            final(self)@ == (QueueView { inputs: old(self)@.inputs.push(value), ..old(self)@ }),
    {
        self.inputs.push(value);
        assert(self@.inputs =~= old(self)@.inputs.push(value));
    }

    /// Removes and returns everything the machine has written, oldest first.
    pub fn take_outputs(&mut self) -> (out: Vec<i64>)
        requires
            old(self).valid(),
        ensures
            final(self).valid(),
            out@ == old(self)@.outputs,
            final(self)@ == (QueueView { outputs: Seq::empty(), ..old(self)@ }),
    {
        let mut out: Vec<i64> = Vec::new();
        std::mem::swap(&mut out, &mut self.outputs);
        out
    }

    /// The number of values waiting to be read.
    pub fn pending(&self) -> (n: usize)
        requires
            self.valid(),
        ensures
            n == self@.inputs.len(),
    {
        self.inputs.len() - self.taken
    }
}

impl Adapter for Queue {
    closed spec fn valid(&self) -> bool {
        self.taken <= self.inputs@.len()
    }

    open spec fn supply_input(m: QueueView) -> (Input, QueueView) {
        if m.inputs.len() > 0 {
            (Input::Ready(m.inputs[0]), QueueView { inputs: m.inputs.skip(1), ..m })
        } else if m.suspend {
            (Input::Pending, m)
        } else {
            (Input::Exhausted, m)
        }
    }

    open spec fn consume_output(m: QueueView, value: i64) -> Option<QueueView> {
        Some(QueueView { outputs: m.outputs.push(value), ..m })
    }

    fn next_input(&mut self) -> (r: Input) {
        if self.taken < self.inputs.len() {
            let value: i64 = self.inputs[self.taken];
            self.taken = self.taken + 1;
            assert(self@.inputs =~= old(self)@.inputs.skip(1));
            Input::Ready(value)
        } else if self.suspend {
            Input::Pending
        } else {
            Input::Exhausted
        }
    }

    fn emit_output(&mut self, value: i64) -> (accepted: bool) {
        self.outputs.push(value);
        true
    }
}

} // verus!
