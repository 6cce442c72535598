use vstd::prelude::*;

verus! {

/// What an adapter answers when the machine asks for input.
#[derive(Clone, Copy, Debug)]
pub enum Input {
    /// The next input value.
    Ready(i64),
    /// Nothing is available now; the machine is to suspend and may be
    /// resumed later.
    Pending,
    /// Nothing is available and nothing will be: the run is over.
    Exhausted,
}

/// The machine's only window on the outside: something that supplies input
/// values and consumes output values.
///
/// An adapter is described by its view. `supply_input` and `consume_output`
/// say, over views, what the two operations do; the machine's own behaviour
/// is stated in terms of them.
pub trait Adapter: View + Sized {
    /// The adapter's own invariant. The machine relies on it and keeps it.
    spec fn valid(&self) -> bool;

    /// The answer to a request for input, and the adapter afterwards.
    spec fn supply_input(m: Self::V) -> (Input, Self::V);

    /// The adapter after it has taken `value`, or `None` if it refuses it.
    spec fn consume_output(m: Self::V, value: i64) -> Option<Self::V>;

    /// Called each time an input instruction executes.
    fn next_input(&mut self) -> (r: Input)
        requires
            old(self).valid(),
        ensures
            final(self).valid(),
            (r, final(self)@) == Self::supply_input(old(self)@),
    ;

    /// Called each time an output instruction executes. Returns whether the
    /// value was accepted; a refused value leaves the adapter as it was.
    fn emit_output(&mut self, value: i64) -> (accepted: bool)
        requires
            old(self).valid(),
        ensures
            final(self).valid(),
            match Self::consume_output(old(self)@, value) {
                Some(m) => accepted && final(self)@ == m,
                None => !accepted && final(self)@ == old(self)@,
            },
    ;
}

} // verus!
