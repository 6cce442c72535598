use std::collections::HashMap;
use vstd::prelude::*;
use vstd::slice::slice_to_vec;
use crate::vm::adapter::{Adapter, Input};
use crate::vm::error::VmError;
use crate::vm::machine::{Snapshot, VM};
use crate::vm::semantics::spec_run;

verus! {

broadcast use vstd::std_specs::hash::group_hash_axioms;

/// A set of numbered queues ("files") through which machines pass values to
/// each other. What is written to a file first is read from it first.
pub struct OS {
    files: HashMap<u64, Vec<i64>>,
    count: u64,
}

impl View for OS {
    type V = Map<u64, Seq<i64>>;

    closed spec fn view(&self) -> Map<u64, Seq<i64>> {
        Map::new(|k: u64| self.files@.contains_key(k), |k: u64| self.files@[k]@)
    }
}

impl OS {
    /// The number of files made so far.
    pub closed spec fn spec_count(&self) -> u64 {
        self.count
    }

    /// The files are numbered from 0 without a gap.
    pub closed spec fn wf(&self) -> bool {
        forall|k: u64| self.files@.contains_key(k) <==> k < self.count
    }

    /// The files are exactly those numbered below the count.
    pub proof fn lemma_files(&self)
        requires
            self.wf(),
        ensures
            forall|k: u64| self@.contains_key(k) <==> k < self.spec_count(),
    {
    }

    /// No files.
    pub fn new() -> (os: OS)
        ensures
            os.wf(),
            os.spec_count() == 0,
            os@ == Map::<u64, Seq<i64>>::empty(),
    {
        let os = OS { files: HashMap::new(), count: 0 };
        assert(os@ =~= Map::<u64, Seq<i64>>::empty());
        os
    }

    /// Makes an empty file and returns its number: the number of files
    /// there were before.
    pub fn new_file(&mut self) -> (handle: u64)
        requires
            old(self).wf(),
            old(self).spec_count() < u64::MAX,
        ensures
            final(self).wf(),
            handle == old(self).spec_count(),
            final(self).spec_count() == handle + 1,
            final(self)@ == old(self)@.insert(handle, Seq::empty()),
    {
        let handle: u64 = self.count;
        self.files.insert(handle, Vec::new());
        self.count = self.count + 1;
        assert(self@ =~= old(self)@.insert(handle, Seq::empty()));
        handle
    }

    /// Appends `value` to the file numbered `file`. Returns whether there
    /// is such a file.
    pub fn write(&mut self, file: u64, value: i64) -> (written: bool)
        requires
            old(self).wf(),
        ensures
            final(self).wf(),
            final(self).spec_count() == old(self).spec_count(),
            written == old(self)@.contains_key(file),
            final(self)@ == if written {
                old(self)@.insert(file, old(self)@[file].push(value))
            } else {
                old(self)@
            },
    {
        match self.files.remove(&file) {
            Some(mut content) => {
                content.push(value);
                self.files.insert(file, content);
                assert(self@ =~= old(self)@.insert(file, old(self)@[file].push(value)));
                true
            },
            None => {
                assert(self@ =~= old(self)@);
                false
            },
        }
    }

    /// Takes the oldest value out of the file numbered `file`. Returns
    /// `None` when there is no such file or it is empty.
    pub fn read(&mut self, file: u64) -> (r: Option<i64>)
        requires
            old(self).wf(),
        ensures
            final(self).wf(),
            final(self).spec_count() == old(self).spec_count(),
            match r {
                Some(value) => old(self)@.contains_key(file) && old(self)@[file].len() > 0
                    && value == old(self)@[file][0] && final(self)@ == old(self)@.insert(
                    file,
                    old(self)@[file].skip(1),
                ),
                None => (!old(self)@.contains_key(file) || old(self)@[file].len() == 0)
                    && final(self)@ == old(self)@,
            },
    {
        match self.files.remove(&file) {
            Some(mut content) => {
                if content.len() == 0 {
                    self.files.insert(file, content);
                    assert(self@ =~= old(self)@);
                    None
                } else {
                    let value: i64 = content.remove(0);
                    assert(content@ =~= old(self)@[file].skip(1));
                    self.files.insert(file, content);
                    assert(self@ =~= old(self)@.insert(file, old(self)@[file].skip(1)));
                    Some(value)
                }
            },
            None => {
                assert(self@ =~= old(self)@);
                None
            },
        }
    }

    /// The oldest value in the file numbered `file`, left where it is.
    pub fn peek(&self, file: u64) -> (r: Option<i64>)
        ensures
            r == if self@.contains_key(file) && self@[file].len() > 0 {
                Some(self@[file][0])
            } else {
                None
            },
    {
        match self.files.get(&file) {
            Some(content) => if content.len() > 0 {
                Some(content[0])
            } else {
                None
            },
            None => None,
        }
    }
}

/// A machine's window on the files: it reads its input from one file and
/// writes its output to another.
pub struct Channel {
    pub os: OS,
    pub input_file: u64,
    pub output_file: u64,
}

/// The view of a `Channel`.
pub struct ChannelView {
    pub files: Map<u64, Seq<i64>>,
    pub input_file: u64,
    pub output_file: u64,
}

impl View for Channel {
    type V = ChannelView;

    open spec fn view(&self) -> ChannelView {
        ChannelView { files: self.os@, input_file: self.input_file, output_file: self.output_file }
    }
}

impl Adapter for Channel {
    open spec fn valid(&self) -> bool {
        self.os.wf()
    }

    /// The oldest value of the input file is taken out of it. A machine
    /// whose input file is empty waits; one whose input file does not exist
    /// is out of input for good.
    open spec fn supply_input(m: ChannelView) -> (Input, ChannelView) {
        if !m.files.contains_key(m.input_file) {
            (Input::Exhausted, m)
        } else if m.files[m.input_file].len() == 0 {
            (Input::Pending, m)
        } else {
            (
                Input::Ready(m.files[m.input_file][0]),
                ChannelView {
                    files: m.files.insert(m.input_file, m.files[m.input_file].skip(1)),
                    ..m
                },
            )
        }
    }

    /// The value is appended to the output file, if there is one.
    open spec fn consume_output(m: ChannelView, value: i64) -> Option<ChannelView> {
        if m.files.contains_key(m.output_file) {
            Some(
                ChannelView {
                    files: m.files.insert(m.output_file, m.files[m.output_file].push(value)),
                    ..m
                },
            )
        } else {
            None
        }
    }

    fn next_input(&mut self) -> (r: Input) {
        proof {
            self.os.lemma_files();
        }
        if self.input_file >= self.os.count {
            return Input::Exhausted;
        }
        match self.os.read(self.input_file) {
            Some(value) => Input::Ready(value),
            None => Input::Pending,
        }
    }

    fn emit_output(&mut self, value: i64) -> (accepted: bool) {
        self.os.write(self.output_file, value)
    }
}

/// The file that machine `i` of `n` reads from. Each machine reads what the
/// one before it wrote; the first reads file 0 in a chain and what the last
/// machine wrote in a feedback loop.
pub open spec fn input_of(i: int, n: int, feedback: bool) -> u64 {
    if i == 0 {
        if feedback {
            n as u64
        } else {
            0
        }
    } else {
        i as u64
    }
}

/// The file that machine `i` writes to.
pub open spec fn output_of(i: int) -> u64 {
    (i + 1) as u64
}

/// The machine that reads from file `k`, or -1 when none does.
pub open spec fn reader_of(k: u64, n: int, feedback: bool) -> int {
    if n > 0 && k == input_of(0, n, feedback) {
        0
    } else if 1 <= k < n {
        k as int
    } else {
        -1
    }
}

/// The files of `phases.len()` machines after the first `upto` of them
/// have been given their phase: each of those finds its phase in the file
/// it reads from; all other files are empty.
pub open spec fn spec_phased(phases: Seq<i64>, feedback: bool, upto: int) -> Map<u64, Seq<i64>> {
    Map::new(
        |k: u64| k <= phases.len(),
        |k: u64|
            {
                let j = reader_of(k, phases.len() as int, feedback);
                if 0 <= j < upto {
                    seq![phases[j]]
                } else {
                    Seq::<i64>::empty()
                }
            },
    )
}

/// The files of `phases.len()` machines before the first of them runs:
/// each machine finds its phase in the file it reads from, and the first
/// machine finds the signal 0 behind it.
pub open spec fn spec_wire(phases: Seq<i64>, feedback: bool) -> Map<u64, Seq<i64>> {
    let n = phases.len() as int;
    let phased = spec_phased(phases, feedback, n);
    if n > 0 {
        phased.insert(input_of(0, n, feedback), phased[input_of(0, n, feedback)].push(0))
    } else {
        phased
    }
}

/// `n` machines that have just been loaded with `program`.
pub open spec fn boots(program: Seq<i64>, n: nat) -> Seq<Snapshot> {
    Seq::new(n, |i: int| Snapshot::boot(program))
}

/// The states of the machines `vms`.
pub open spec fn views(vms: Vec<VM>) -> Seq<Snapshot> {
    Seq::new(vms@.len(), |i: int| vms@[i]@)
}

/// The machines and files after the machines from `i` on have each run
/// once, one after the other, for at most `fuel` steps; or the error of the
/// first machine that failed.
pub open spec fn spec_round(
    vms: Seq<Snapshot>,
    files: Map<u64, Seq<i64>>,
    i: int,
    feedback: bool,
    fuel: nat,
) -> Result<(Seq<Snapshot>, Map<u64, Seq<i64>>), VmError>
    decreases vms.len() - i,
{
    if i < 0 || i >= vms.len() {
        Ok((vms, files))
    } else {
        let channel = ChannelView {
            files,
            input_file: input_of(i, vms.len() as int, feedback),
            output_file: output_of(i),
        };
        let run = spec_run::<Channel>(vms[i], channel, fuel);
        match run.result {
            Err(e) => Err(e),
            Ok(_) => spec_round(vms.update(i, run.vm), run.io.files, i + 1, feedback, fuel),
        }
    }
}

/// Whether every machine stands on a halt instruction.
pub open spec fn spec_all_stopped(vms: Seq<Snapshot>) -> bool {
    forall|i: int| 0 <= i < vms.len() ==> spec_stopped(#[trigger] vms[i])
}

/// Whether the machine stands on a halt instruction.
pub open spec fn spec_stopped(vm: Snapshot) -> bool {
    vm.ip >= 0 && vm.read(vm.ip as int) == 99
}

/// The files once all machines have stopped, when they take turns round
/// after round; `None` when a machine fails or they have not all stopped
/// after `rounds` more rounds than the first.
pub open spec fn spec_rounds(
    vms: Seq<Snapshot>,
    files: Map<u64, Seq<i64>>,
    fuel: nat,
    rounds: nat,
) -> Option<Map<u64, Seq<i64>>>
    decreases rounds,
{
    match spec_round(vms, files, 0, true, fuel) {
        Err(_) => None,
        Ok((after, written)) => if spec_all_stopped(after) {
            Some(written)
        } else if rounds == 0 {
            None
        } else {
            spec_rounds(after, written, fuel, (rounds - 1) as nat)
        },
    }
}

/// The oldest value that the last of `n` machines has written and nobody
/// has read.
pub open spec fn spec_signal(files: Map<u64, Seq<i64>>, n: nat) -> Option<i64> {
    if files.contains_key(n as u64) && files[n as u64].len() > 0 {
        Some(files[n as u64][0])
    } else {
        None
    }
}

/// The signal that comes out of a chain of machines, each loaded with
/// `program`, given its phase and run once for at most `fuel` steps, when 0
/// goes in; `None` when a machine fails or nothing comes out.
pub open spec fn spec_chain(program: Seq<i64>, phases: Seq<i64>, fuel: nat) -> Option<i64> {
    match spec_round(boots(program, phases.len()), spec_wire(phases, false), 0, false, fuel) {
        Err(_) => None,
        Ok((_, files)) => spec_signal(files, phases.len()),
    }
}

/// The signal that is left when a loop of machines, each loaded with
/// `program` and given its phase, has stopped after 0 went in; `None` when
/// a machine fails, the machines have not all stopped after `rounds` more
/// rounds than the first, or nothing is left.
pub open spec fn spec_feedback(program: Seq<i64>, phases: Seq<i64>, fuel: nat, rounds: nat)
    -> Option<i64> {
    match spec_rounds(boots(program, phases.len()), spec_wire(phases, true), fuel, rounds) {
        None => None,
        Some(files) => spec_signal(files, phases.len()),
    }
}

/// Makes the files and machines for one machine per phase: every machine
/// is loaded with `program` and finds its phase in the file it reads from,
/// the first also the signal 0.
#[verifier::rlimit(40)]
pub fn wire(program: &Vec<i64>, phases: &Vec<i64>, feedback: bool) -> (r: (OS, Vec<VM>))
    requires
        phases.len() < u64::MAX,
    ensures
        r.0.wf(),
        r.0@ == spec_wire(phases@, feedback),
        views(r.1) == boots(program@, phases@.len()),
{
    let n: usize = phases.len();
    let mut os = OS::new();
    let mut vms: Vec<VM> = Vec::new();
    os.new_file();
    let mut i: usize = 0;
    while i < n
        invariant
            i <= n,
            n == phases.len(),
            n < u64::MAX,
            os.wf(),
            os.spec_count() == i + 1,
            os@ =~= Map::new(|k: u64| k <= i, |k: u64| Seq::<i64>::empty()),
            views(vms) =~= boots(program@, i as nat),
        decreases n - i,
    {
        let storage = program.clone();
        assert(storage@ =~= program@);
        let ghost before = views(vms);
        vms.push(VM::new(storage));
        os.new_file();
        i = i + 1;
        assert(views(vms) =~= before.push(Snapshot::boot(program@)));
    }
    assert(os@ =~= spec_phased(phases@, feedback, 0));
    let mut i: usize = 0;
    while i < n
        invariant
            i <= n,
            n == phases.len(),
            n < u64::MAX,
            os.wf(),
            os@ =~= spec_phased(phases@, feedback, i as int),
        decreases n - i,
    {
        let file: u64 = if i == 0 {
            if feedback {
                n as u64
            } else {
                0
            }
        } else {
            i as u64
        };
        assert(file == input_of(i as int, n as int, feedback));
        assert(reader_of(file, n as int, feedback) == i);
        os.write(file, phases[i]);
        i = i + 1;
        assert(os@ =~= spec_phased(phases@, feedback, i as int));
    }
    if n > 0 {
        let file: u64 = if feedback {
            n as u64
        } else {
            0
        };
        os.write(file, 0);
    }
    (os, vms)
}

/// Runs each of `vms` once, in order, for at most `max_steps` steps, each
/// reading from its input file and writing to its output file in `os`.
/// Returns the files afterwards, or the error of the first machine that
/// failed.
#[verifier::rlimit(40)]
pub fn run_round(vms: &mut Vec<VM>, os: OS, feedback: bool, max_steps: u64) -> (r: Result<
    OS,
    VmError,
>)
    requires
        os.wf(),
        old(vms).len() < u64::MAX,
    ensures
        match spec_round(views(*old(vms)), os@, 0, feedback, max_steps as nat) {
            Ok((after, files)) => match r {
                Ok(left) => left.wf() && left@ == files && views(*final(vms)) == after,
                Err(_) => false,
            },
            Err(e) => r.is_err() && r->Err_0 == e,
        },
        final(vms).len() == old(vms).len(),
{
    let n: usize = vms.len();
    let mut channel = Channel { os, input_file: 0, output_file: 0 };
    let mut i: usize = 0;
    while i < n
        invariant
            i <= n,
            n < u64::MAX,
            vms.len() == n,
            n == old(vms).len(),
            channel.os.wf(),
            spec_round(views(*vms), channel.os@, i as int, feedback, max_steps as nat) == spec_round(
                views(*old(vms)),
                os@,
                0,
                feedback,
                max_steps as nat,
            ),
        decreases n - i,
    {
        channel.input_file = if i == 0 {
            if feedback {
                n as u64
            } else {
                0
            }
        } else {
            i as u64
        };
        channel.output_file = (i + 1) as u64;
        let ghost before = views(*vms);
        assert(before[i as int] == vms@[i as int]@);
        let result = vms[i].run(&mut channel, max_steps);
        assert(views(*vms) =~= before.update(i as int, vms@[i as int]@));
        match result {
            Ok(_) => {},
            Err(e) => {
                return Err(e);
            },
        }
        i = i + 1;
    }
    Ok(channel.os)
}

/// Whether every one of `vms` stands on a halt instruction.
pub fn all_stopped(vms: &Vec<VM>) -> (r: bool)
    ensures
        r == spec_all_stopped(views(*vms)),
{
    let mut i: usize = 0;
    while i < vms.len()
        invariant
            i <= vms.len(),
            forall|k: int| 0 <= k < i ==> spec_stopped(#[trigger] views(*vms)[k]),
        decreases vms.len() - i,
    {
        if !vms[i].stopped() {
            assert(!spec_stopped(views(*vms)[i as int]));
            return false;
        }
        i = i + 1;
    }
    true
}

/// Sends the signal 0 through a chain of machines, one per phase, each
/// loaded with `program` and run once for at most `max_steps` steps, and
/// returns what comes out at the end.
pub fn chain(program: &Vec<i64>, phases: &Vec<i64>, max_steps: u64) -> (r: Option<i64>)
    requires
        phases.len() < u64::MAX,
    ensures
        r == spec_chain(program@, phases@, max_steps as nat),
{
    let (os, mut vms) = wire(program, phases, false);
    assert(vms.len() == phases.len());
    match run_round(&mut vms, os, false, max_steps) {
        Ok(os) => os.peek(phases.len() as u64),
        Err(_) => None,
    }
}

/// Sends the signal 0 round a loop of machines, one per phase, each loaded
/// with `program`, until all have stopped, and returns the signal that is
/// left. Every machine runs for at most `max_steps` steps at a time, and
/// the loop gives up after `max_rounds` rounds beyond the first.
pub fn feedback(program: &Vec<i64>, phases: &Vec<i64>, max_steps: u64, max_rounds: u64) -> (r:
    Option<i64>)
    requires
        phases.len() < u64::MAX,
    ensures
        r == spec_feedback(program@, phases@, max_steps as nat, max_rounds as nat),
{
    let (os, mut vms) = wire(program, phases, true);
    assert(vms.len() == phases.len());
    let mut os: OS = os;
    let mut left: u64 = max_rounds;
    loop
        invariant
            os.wf(),
            vms.len() == phases.len(),
            phases.len() < u64::MAX,
            spec_rounds(views(vms), os@, max_steps as nat, left as nat) == spec_rounds(
                boots(program@, phases@.len()),
                spec_wire(phases@, true),
                max_steps as nat,
                max_rounds as nat,
            ),
        decreases left,
    {
        os = match run_round(&mut vms, os, true, max_steps) {
            Ok(os) => os,
            Err(_) => {
                return None;
            },
        };
        if all_stopped(&vms) {
            return os.peek(phases.len() as u64);
        }
        if left == 0 {
            return None;
        }
        left = left - 1;
    }
}

/// The permutations of `items` in the order in which Heap's algorithm, as
/// the crate `permutohedron` implements it, visits them.
pub uninterp spec fn heap_permutations(items: Seq<i64>) -> Seq<Seq<i64>>;

/// The rows of `lists` as sequences.
pub open spec fn lists_view(lists: Vec<Vec<i64>>) -> Seq<Seq<i64>> {
    Seq::new(lists@.len(), |i: int| lists@[i]@)
}

/// Appends a copy of `p` to `out`.
fn keep(out: &mut Vec<Vec<i64>>, p: &[i64])
    ensures
        lists_view(*final(out)) == lists_view(*old(out)).push(p@),
{
    let copy: Vec<i64> = slice_to_vec(p);
    out.push(copy);
    assert(lists_view(*out) =~= lists_view(*old(out)).push(p@));
}

/// Calls `permutohedron::heap_recursive` on a copy of `items` and collects
/// what it visits. Trusted: the result is the sequence named
/// `heap_permutations(items)`, and each entry of it holds the values of
/// `items` in some order, which is all that the algorithm, made of swaps of
/// two elements, can produce.
#[verifier::external_body]
fn permutations(items: &Vec<i64>) -> (r: Vec<Vec<i64>>)
    ensures
        lists_view(r) == heap_permutations(items@),
        forall|i: int|
            0 <= i < r@.len() ==> (#[trigger] r@[i])@.to_multiset() == items@.to_multiset(),
{
    let mut data: Vec<i64> = items.clone();
    let mut out: Vec<Vec<i64>> = Vec::new();
    permutohedron::heap_recursive(&mut data, |p: &mut [i64]| keep(&mut out, p));
    out
}

/// The largest of `signals` and 0, or `None` when one of them is missing.
pub open spec fn spec_best(signals: Seq<Option<i64>>) -> Option<i64>
    decreases signals.len(),
{
    if signals.len() == 0 {
        Some(0)
    } else {
        match (spec_best(signals.drop_last()), signals.last()) {
            (Some(best), Some(signal)) => if signal > best {
                Some(signal)
            } else {
                Some(best)
            },
            _ => None,
        }
    }
}

/// Whether every one of `orders` is shorter than 2^64 - 1.
pub open spec fn countable(orders: Seq<Vec<i64>>) -> bool {
    forall|k: int| 0 <= k < orders.len() ==> (#[trigger] orders[k])@.len() < u64::MAX
}

/// The largest signal that a chain of machines gives for any of `orders`,
/// or 0 when none is positive; `None` when some order gives no signal.
pub fn best_chain_of(program: &Vec<i64>, orders: &Vec<Vec<i64>>, max_steps: u64) -> (r: Option<
    i64,
>)
    requires
        countable(orders@),
    ensures
        r == spec_best(
            lists_view(*orders).map_values(
                |p: Seq<i64>| spec_chain(program@, p, max_steps as nat),
            ),
        ),
{
    let ghost signals = lists_view(*orders).map_values(
        |p: Seq<i64>| spec_chain(program@, p, max_steps as nat),
    );
    let mut best: i64 = 0;
    let mut i: usize = 0;
    assert(signals.take(0) =~= Seq::<Option<i64>>::empty());
    while i < orders.len()
        invariant
            i <= orders.len(),
            countable(orders@),
            signals == lists_view(*orders).map_values(
                |p: Seq<i64>| spec_chain(program@, p, max_steps as nat),
            ),
            spec_best(signals.take(i as int)) == Some(best),
        decreases orders.len() - i,
    {
        proof {
            assert(lists_view(*orders)[i as int] == orders@[i as int]@);
            assert(signals.take(i + 1).drop_last() =~= signals.take(i as int));
        }
        match chain(program, &orders[i], max_steps) {
            Some(signal) => {
                if signal > best {
                    best = signal;
                }
            },
            None => {
                proof {
                    lemma_best_needs_all(signals, i as int);
                }
                return None;
            },
        }
        i = i + 1;
    }
    assert(signals.take(orders.len() as int) =~= signals);
    Some(best)
}

/// The largest signal that a feedback loop of machines leaves for any of
/// `orders`, or 0 when none is positive; `None` when some order leaves no
/// signal.
pub fn best_feedback_of(
    program: &Vec<i64>,
    orders: &Vec<Vec<i64>>,
    max_steps: u64,
    max_rounds: u64,
) -> (r: Option<i64>)
    requires
        countable(orders@),
    ensures
        r == spec_best(
            lists_view(*orders).map_values(
                |p: Seq<i64>|
                    spec_feedback(program@, p, max_steps as nat, max_rounds as nat),
            ),
        ),
{
    let ghost signals = lists_view(*orders).map_values(
        |p: Seq<i64>| spec_feedback(program@, p, max_steps as nat, max_rounds as nat),
    );
    let mut best: i64 = 0;
    let mut i: usize = 0;
    assert(signals.take(0) =~= Seq::<Option<i64>>::empty());
    while i < orders.len()
        invariant
            i <= orders.len(),
            countable(orders@),
            signals == lists_view(*orders).map_values(
                |p: Seq<i64>|
                    spec_feedback(program@, p, max_steps as nat, max_rounds as nat),
            ),
            spec_best(signals.take(i as int)) == Some(best),
        decreases orders.len() - i,
    {
        proof {
            assert(lists_view(*orders)[i as int] == orders@[i as int]@);
            assert(signals.take(i + 1).drop_last() =~= signals.take(i as int));
        }
        match feedback(program, &orders[i], max_steps, max_rounds) {
            Some(signal) => {
                if signal > best {
                    best = signal;
                }
            },
            None => {
                proof {
                    lemma_best_needs_all(signals, i as int);
                }
                return None;
            },
        }
        i = i + 1;
    }
    assert(signals.take(orders.len() as int) =~= signals);
    Some(best)
}

/// Lists that hold the values of `phases` in some order are as long as
/// `phases`.
proof fn lemma_orders_countable(orders: Seq<Vec<i64>>, phases: Seq<i64>)
    requires
        phases.len() < u64::MAX,
        forall|k: int|
            0 <= k < orders.len() ==> (#[trigger] orders[k])@.to_multiset()
                == phases.to_multiset(),
    ensures
        countable(orders),
{
    assert forall|k: int| 0 <= k < orders.len() implies (#[trigger] orders[k])@.len()
        < u64::MAX by {
        orders[k]@.to_multiset_ensures();
        phases.to_multiset_ensures();
    }
}

/// The largest signal that a chain of machines gives for any order of
/// `phases`, or 0 when none is positive; `None` when some order gives no
/// signal.
pub fn best_chain(program: &Vec<i64>, phases: &Vec<i64>, max_steps: u64) -> (r: Option<i64>)
    requires
        phases.len() < u64::MAX,
    ensures
        r == spec_best(
            heap_permutations(phases@).map_values(
                |p: Seq<i64>| spec_chain(program@, p, max_steps as nat),
            ),
        ),
{
    let orders = permutations(phases);
    proof {
        lemma_orders_countable(orders@, phases@);
    }
    best_chain_of(program, &orders, max_steps)
}

/// The largest signal that a feedback loop of machines leaves for any order
/// of `phases`, or 0 when none is positive; `None` when some order leaves
/// no signal.
pub fn best_feedback(program: &Vec<i64>, phases: &Vec<i64>, max_steps: u64, max_rounds: u64) -> (r:
    Option<i64>)
    requires
        phases.len() < u64::MAX,
    ensures
        r == spec_best(
            heap_permutations(phases@).map_values(
                |p: Seq<i64>|
                    spec_feedback(program@, p, max_steps as nat, max_rounds as nat),
            ),
        ),
{
    let orders = permutations(phases);
    proof {
        lemma_orders_countable(orders@, phases@);
    }
    best_feedback_of(program, &orders, max_steps, max_rounds)
}

/// There is no best signal when one of the signals is missing.
proof fn lemma_best_needs_all(signals: Seq<Option<i64>>, i: int)
    requires
        0 <= i < signals.len(),
        signals[i].is_none(),
    ensures
        spec_best(signals).is_none(),
    decreases signals.len(),
{
    if i < signals.len() - 1 {
        lemma_best_needs_all(signals.drop_last(), i);
    }
}

} // verus!
