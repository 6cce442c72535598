use vstd::prelude::*;
use crate::vm::adapter::{Adapter, Input};
use crate::vm::error::VmError;
use crate::vm::machine::{Snapshot, VM};
use crate::vm::semantics::spec_run;

verus! {

/// The column after which a row of the scanned area ends.
pub const LAST_COLUMN: usize = 49;

/// The number of columns in a row of the scanned area.
pub const ROW_LENGTH: usize = 50;

/// What the edge search looks for in the current row.
#[derive(Debug, Clone, Copy, PartialEq, Eq)]
pub enum TractorState {
    FindStart,
    FindEnd,
}

/// The way the edge search moves along the current row.
#[derive(Debug, Clone, Copy, PartialEq, Eq)]
pub enum SearchDirection {
    UNKNOWN,
    RIGHT,
    LEFT,
}

/// Which coordinate the next input instruction receives.
#[derive(Debug, Clone, Copy, PartialEq, Eq)]
pub enum NextCoord {
    X,
    Y,
}

/// The drone controller: it feeds the machine the coordinates of the point
/// to probe, column first, and records what the machine finds there.
pub struct Tractor {
    pub state: TractorState,
    pub direction: SearchDirection,
    pub next: NextCoord,
    pub current_y: usize,
    pub current_x: usize,
    pub row_start: usize,
    pub beam_ranges: Vec<(usize, usize)>,
    pub beam_grid: Vec<Vec<i64>>,
}

/// The view of a `Tractor`.
pub struct TractorView {
    pub state: TractorState,
    pub direction: SearchDirection,
    pub next: NextCoord,
    pub current_y: usize,
    pub current_x: usize,
    pub row_start: usize,
    /// First and last column of the beam in each row finished so far.
    pub beam_ranges: Seq<(usize, usize)>,
    /// What was found at each point probed so far, row by row.
    pub beam_grid: Seq<Seq<i64>>,
}

impl TractorView {
    /// A controller about to probe (0, 0), with nothing recorded.
    pub open spec fn start() -> TractorView {
        TractorView {
            state: TractorState::FindStart,
            direction: SearchDirection::UNKNOWN,
            next: NextCoord::X,
            current_y: 0,
            current_x: 0,
            row_start: 0,
            beam_ranges: Seq::empty(),
            beam_grid: seq![Seq::<i64>::empty()],
        }
    }

    /// The coordinate that the next input instruction receives, and the
    /// controller afterwards: columns and rows take turns.
    pub open spec fn read(self) -> (i64, TractorView) {
        match self.next {
            NextCoord::X => (self.current_x as i64, TractorView { next: NextCoord::Y, ..self }),
            NextCoord::Y => (self.current_y as i64, TractorView { next: NextCoord::X, ..self }),
        }
    }

    /// The controller after the beam of the current row is recorded to end
    /// at column `row_end`.
    pub open spec fn store_line(self, row_end: usize) -> TractorView {
        TractorView { beam_ranges: self.beam_ranges.push((self.row_start, row_end)), ..self }
    }

    /// The controller after it has moved to the next row, to the column
    /// where the beam of the last recorded row began. There is no next row
    /// to move to while no row is recorded.
    pub open spec fn next_line(self) -> Option<TractorView> {
        if self.beam_ranges.len() == 0 || self.current_y == usize::MAX {
            None
        } else {
            Some(
                TractorView {
                    current_x: self.beam_ranges.last().0,
                    current_y: (self.current_y + 1) as usize,
                    state: TractorState::FindStart,
                    direction: SearchDirection::UNKNOWN,
                    ..self
                },
            )
        }
    }

    /// The controller after the beam of the current row is found to begin
    /// at column `row_start`: the search for its end starts where the beam
    /// of the last recorded row ended, or at column 0 in the first row.
    pub open spec fn found_row_start(self, row_start: usize) -> Option<TractorView> {
        if self.current_y != 0 && self.beam_ranges.len() == 0 {
            None
        } else {
            Some(
                TractorView {
                    row_start,
                    state: TractorState::FindEnd,
                    direction: SearchDirection::UNKNOWN,
                    current_x: if self.current_y == 0 {
                        0
                    } else {
                        self.beam_ranges.last().1
                    },
                    ..self
                },
            )
        }
    }

    /// The controller one column to the left, if there is one.
    pub open spec fn step_left(self, direction: SearchDirection) -> Option<TractorView> {
        if self.current_x == 0 {
            None
        } else {
            Some(TractorView { direction, current_x: (self.current_x - 1) as usize, ..self })
        }
    }

    /// The controller one column to the right, if there is one.
    pub open spec fn step_right(self, direction: SearchDirection) -> Option<TractorView> {
        if self.current_x == usize::MAX {
            None
        } else {
            Some(TractorView { direction, current_x: (self.current_x + 1) as usize, ..self })
        }
    }

    /// The controller after the beam of the current row is recorded to end
    /// at `row_end` and the search has moved to the next row.
    pub open spec fn finish_row(self, row_end: usize) -> Option<TractorView> {
        self.store_line(row_end).next_line()
    }

    /// One move of the edge search after the machine has reported `output`
    /// for the current point: positive in the beam, zero outside it.
    ///
    /// While the start of the beam is sought, the search first steps towards
    /// the edge (left when it stands in the beam, right when not) and then
    /// keeps going until it crosses it; a row without beam up to the last
    /// column is given up. Then the end of the beam is sought in the same
    /// way, and once found the row is recorded and the next one begun.
    /// There is no move for a negative output, nor where a step would leave
    /// the range of columns or rows.
    pub open spec fn write(self, output: i64) -> Option<TractorView> {
        let in_beam = output > 0;
        let x = self.current_x;
        if output < 0 {
            None
        } else {
            match self.state {
                TractorState::FindStart => match self.direction {
                    SearchDirection::UNKNOWN => if in_beam {
                        if x == 0 {
                            self.found_row_start(0)
                        } else {
                            self.step_left(SearchDirection::LEFT)
                        }
                    } else {
                        self.step_right(SearchDirection::RIGHT)
                    },
                    SearchDirection::LEFT => if x == 0 {
                        self.found_row_start(0)
                    } else if in_beam {
                        self.step_left(SearchDirection::LEFT)
                    } else if x == usize::MAX {
                        None
                    } else {
                        self.found_row_start((x + 1) as usize)
                    },
                    SearchDirection::RIGHT => if in_beam {
                        self.found_row_start(x)
                    } else if x == 49 {
                        self.next_line()
                    } else {
                        self.step_right(SearchDirection::RIGHT)
                    },
                },
                TractorState::FindEnd => match self.direction {
                    SearchDirection::UNKNOWN => if x == 49 {
                        self.finish_row(x)
                    } else if in_beam {
                        self.step_right(SearchDirection::RIGHT)
                    } else {
                        self.step_left(SearchDirection::LEFT)
                    },
                    SearchDirection::LEFT => if in_beam {
                        self.finish_row(x)
                    } else {
                        self.step_left(SearchDirection::LEFT)
                    },
                    SearchDirection::RIGHT => if in_beam {
                        if x == 49 {
                            self.finish_row(x)
                        } else {
                            self.step_right(SearchDirection::RIGHT)
                        }
                    } else if x == 0 {
                        None
                    } else {
                        self.finish_row((x - 1) as usize)
                    },
                },
            }
        }
    }

    /// The controller after `output` is recorded for the current point of a
    /// row-by-row scan and the scan has moved on: one column to the right,
    /// or to the start of a new row after the last column. Nothing can be
    /// recorded for a row that the grid does not hold.
    pub open spec fn write2(self, output: i64) -> Option<TractorView> {
        if self.current_y >= self.beam_grid.len() || self.current_x == usize::MAX || (
        self.current_x + 1 == 50 && self.current_y == usize::MAX) {
            None
        } else {
            let grid = self.beam_grid.update(
                self.current_y as int,
                self.beam_grid[self.current_y as int].push(output),
            );
            if self.current_x + 1 == 50 {
                Some(
                    TractorView {
                        beam_grid: grid.push(Seq::empty()),
                        current_x: 0,
                        current_y: (self.current_y + 1) as usize,
                        ..self
                    },
                )
            } else {
                Some(
                    TractorView {
                        beam_grid: grid,
                        current_x: (self.current_x + 1) as usize,
                        ..self
                    },
                )
            }
        }
    }
}

impl View for Tractor {
    type V = TractorView;

    open spec fn view(&self) -> TractorView {
        TractorView {
            state: self.state,
            direction: self.direction,
            next: self.next,
            current_y: self.current_y,
            current_x: self.current_x,
            row_start: self.row_start,
            beam_ranges: self.beam_ranges@,
            beam_grid: Seq::new(self.beam_grid@.len(), |i: int| self.beam_grid@[i]@),
        }
    }
}

impl Tractor {
    /// A controller about to probe (0, 0), with nothing recorded.
    pub fn new() -> (t: Tractor)
        ensures
            t@ == TractorView::start(),
    {
        let mut beam_grid: Vec<Vec<i64>> = Vec::new();
        beam_grid.push(Vec::new());
        let t = Tractor {
            state: TractorState::FindStart,
            direction: SearchDirection::UNKNOWN,
            next: NextCoord::X,
            current_y: 0,
            current_x: 0,
            row_start: 0,
            beam_ranges: Vec::new(),
            beam_grid,
        };
        assert(t@.beam_grid =~= seq![Seq::<i64>::empty()]);
        t
    }

    /// Records that the beam of the current row ends at column `row_end`.
    pub fn store_line(&mut self, row_end: usize)
        ensures
            final(self)@ == old(self)@.store_line(row_end),
    {
        self.beam_ranges.push((self.row_start, row_end));
        assert(self@.beam_grid =~= old(self)@.beam_grid);
    }

    /// Moves to the next row. Returns whether there was one to move to; if
    /// not, nothing changes.
    pub fn next_line(&mut self) -> (moved: bool)
        ensures
            match old(self)@.next_line() {
                Some(t) => moved && final(self)@ == t,
                None => !moved && final(self)@ == old(self)@,
            },
    {
        if self.beam_ranges.len() == 0 || self.current_y == usize::MAX {
            return false;
        }
        self.current_x = self.beam_ranges[self.beam_ranges.len() - 1].0;
        self.current_y = self.current_y + 1;
        self.state = TractorState::FindStart;
        self.direction = SearchDirection::UNKNOWN;
        assert(self@.beam_grid =~= old(self)@.beam_grid);
        true
    }

    /// Notes that the beam of the current row begins at column `row_start`
    /// and starts the search for its end. Returns whether that was
    /// possible; if not, nothing changes.
    pub fn found_row_start(&mut self, row_start: usize) -> (found: bool)
        ensures
            match old(self)@.found_row_start(row_start) {
                Some(t) => found && final(self)@ == t,
                None => !found && final(self)@ == old(self)@,
            },
    {
        if self.current_y != 0 && self.beam_ranges.len() == 0 {
            return false;
        }
        self.row_start = row_start;
        self.state = TractorState::FindEnd;
        self.direction = SearchDirection::UNKNOWN;
        self.current_x = if self.current_y == 0 {
            0
        } else {
            self.beam_ranges[self.beam_ranges.len() - 1].1
        };
        assert(self@.beam_grid =~= old(self)@.beam_grid);
        true
    }

    /// The coordinate for the next input instruction: the column, then the
    /// row, then the column again.
    pub fn read(&mut self) -> (r: i64)
        requires
            old(self).current_x <= i64::MAX,
            old(self).current_y <= i64::MAX,
        ensures
            (r, final(self)@) == old(self)@.read(),
    {
        let r: i64 = match self.next {
            NextCoord::X => {
                self.next = NextCoord::Y;
                self.current_x as i64
            },
            NextCoord::Y => {
                self.next = NextCoord::X;
                self.current_y as i64
            },
        };
        assert(self@.beam_grid =~= old(self)@.beam_grid);
        r
    }

    fn step_left(&mut self, direction: SearchDirection) -> (moved: bool)
        ensures
            match old(self)@.step_left(direction) {
                Some(t) => moved && final(self)@ == t,
                None => !moved && final(self)@ == old(self)@,
            },
    {
        if self.current_x == 0 {
            return false;
        }
        self.direction = direction;
        self.current_x = self.current_x - 1;
        assert(self@.beam_grid =~= old(self)@.beam_grid);
        true
    }

    fn step_right(&mut self, direction: SearchDirection) -> (moved: bool)
        ensures
            match old(self)@.step_right(direction) {
                Some(t) => moved && final(self)@ == t,
                None => !moved && final(self)@ == old(self)@,
            },
    {
        if self.current_x == usize::MAX {
            return false;
        }
        self.direction = direction;
        self.current_x = self.current_x + 1;
        assert(self@.beam_grid =~= old(self)@.beam_grid);
        true
    }

    fn finish_row(&mut self, row_end: usize) -> (moved: bool)
        ensures
            match old(self)@.finish_row(row_end) {
                Some(t) => moved && final(self)@ == t,
                None => !moved && final(self)@ == old(self)@,
            },
    {
        if self.current_y == usize::MAX {
            return false;
        }
        self.store_line(row_end);
        self.next_line()
    }

    /// Makes one move of the edge search after the machine has reported
    /// `output` for the current point. Returns whether there was a move to
    /// make; if not, nothing changes.
    pub fn write(&mut self, output: i64) -> (moved: bool)
        ensures
            match old(self)@.write(output) {
                Some(t) => moved && final(self)@ == t,
                None => !moved && final(self)@ == old(self)@,
            },
    {
        if output < 0 {
            return false;
        }
        let in_beam: bool = output > 0;
        let x: usize = self.current_x;
        match self.state {
            TractorState::FindStart => match self.direction {
                SearchDirection::UNKNOWN => {
                    if in_beam {
                        if x == 0 {
                            self.found_row_start(0)
                        } else {
                            self.step_left(SearchDirection::LEFT)
                        }
                    } else {
                        self.step_right(SearchDirection::RIGHT)
                    }
                },
                SearchDirection::LEFT => {
                    if x == 0 {
                        self.found_row_start(0)
                    } else if in_beam {
                        self.step_left(SearchDirection::LEFT)
                    } else if x == usize::MAX {
                        false
                    } else {
                        self.found_row_start(x + 1)
                    }
                },
                SearchDirection::RIGHT => {
                    if in_beam {
                        self.found_row_start(x)
                    } else if x == LAST_COLUMN {
                        self.next_line()
                    } else {
                        self.step_right(SearchDirection::RIGHT)
                    }
                },
            },
            TractorState::FindEnd => match self.direction {
                SearchDirection::UNKNOWN => {
                    if x == LAST_COLUMN {
                        self.finish_row(x)
                    } else if in_beam {
                        self.step_right(SearchDirection::RIGHT)
                    } else {
                        self.step_left(SearchDirection::LEFT)
                    }
                },
                SearchDirection::LEFT => {
                    if in_beam {
                        self.finish_row(x)
                    } else {
                        self.step_left(SearchDirection::LEFT)
                    }
                },
                SearchDirection::RIGHT => {
                    if in_beam {
                        if x == LAST_COLUMN {
                            self.finish_row(x)
                        } else {
                            self.step_right(SearchDirection::RIGHT)
                        }
                    } else if x == 0 {
                        false
                    } else {
                        self.finish_row(x - 1)
                    }
                },
            },
        }
    }

    /// Records `output` for the current point of a row-by-row scan and
    /// moves on. Returns whether that was possible; if not, nothing changes.
    pub fn write2(&mut self, output: i64) -> (recorded: bool)
        ensures
            match old(self)@.write2(output) {
                Some(t) => recorded && final(self)@ == t,
                None => !recorded && final(self)@ == old(self)@,
            },
    {
        if self.current_y >= self.beam_grid.len() || self.current_x == usize::MAX || (
        self.current_x + 1 == ROW_LENGTH && self.current_y == usize::MAX) {
            return false;
        }
        self.beam_grid[self.current_y].push(output);
        self.current_x = self.current_x + 1;
        if self.current_x == ROW_LENGTH {
            self.current_y = self.current_y + 1;
            self.current_x = 0;
            self.beam_grid.push(Vec::new());
        }
        assert(self@.beam_grid =~= old(self)@.write2(output).unwrap().beam_grid);
        true
    }

    /// The number of probed points at which something was found, or `None`
    /// when that number does not fit in a `usize`.
    pub fn count_affected(&self) -> (r: Option<usize>)
        ensures
            match r {
                Some(n) => n == spec_count_affected(self@.beam_grid),
                None => spec_count_affected(self@.beam_grid) > usize::MAX,
            },
    {
        let mut total: usize = 0;
        let mut y: usize = 0;
        assert(self@.beam_grid.take(0) =~= Seq::<Seq<i64>>::empty());
        while y < self.beam_grid.len()
            invariant
                y <= self.beam_grid.len(),
                total == spec_count_affected(self@.beam_grid.take(y as int)),
            decreases self.beam_grid.len() - y,
        {
            let row = &self.beam_grid[y];
            let mut in_row: usize = 0;
            let mut x: usize = 0;
            assert(row@.take(0) =~= Seq::<i64>::empty());
            while x < row.len()
                invariant
                    x <= row.len(),
                    in_row <= x,
                    in_row == spec_count_positive(row@.take(x as int)),
                decreases row.len() - x,
            {
                assert(row@.take(x + 1).drop_last() =~= row@.take(x as int));
                if row[x] > 0 {
                    in_row = in_row + 1;
                }
                x = x + 1;
            }
            assert(row@.take(row.len() as int) =~= row@);
            assert(self@.beam_grid.take(y + 1).drop_last() =~= self@.beam_grid.take(y as int));
            assert(self@.beam_grid.take(y + 1).last() == row@);
            total = match total.checked_add(in_row) {
                Some(t) => t,
                None => {
                    proof {
                        lemma_count_affected_prefix(self@.beam_grid, y + 1);
                    }
                    return None;
                },
            };
            y = y + 1;
        }
        assert(self@.beam_grid.take(self.beam_grid.len() as int) =~= self@.beam_grid);
        Some(total)
    }
}

/// A grid holds at least as many positive values as any of its first rows.
proof fn lemma_count_affected_prefix(grid: Seq<Seq<i64>>, k: int)
    requires
        0 <= k <= grid.len(),
    ensures
        spec_count_affected(grid.take(k)) <= spec_count_affected(grid),
    decreases grid.len(),
{
    if k == grid.len() {
        assert(grid.take(k) =~= grid);
    } else {
        assert(grid.drop_last().take(k) =~= grid.take(k));
        lemma_count_affected_prefix(grid.drop_last(), k);
    }
}

/// The number of positive values in `row`.
pub open spec fn spec_count_positive(row: Seq<i64>) -> nat
    decreases row.len(),
{
    if row.len() == 0 {
        0
    } else {
        spec_count_positive(row.drop_last()) + if row.last() > 0 {
            1nat
        } else {
            0nat
        }
    }
}

/// The number of positive values in `grid`.
pub open spec fn spec_count_affected(grid: Seq<Seq<i64>>) -> nat
    decreases grid.len(),
{
    if grid.len() == 0 {
        0
    } else {
        spec_count_affected(grid.drop_last()) + spec_count_positive(grid.last())
    }
}

impl Adapter for Tractor {
    /// Both coordinates can be handed to the machine.
    open spec fn valid(&self) -> bool {
        self.current_x <= i64::MAX && self.current_y <= i64::MAX
    }

    open spec fn supply_input(m: TractorView) -> (Input, TractorView) {
        (Input::Ready(m.read().0), m.read().1)
    }

    /// Outputs are recorded as the results of a row-by-row scan.
    open spec fn consume_output(m: TractorView, value: i64) -> Option<TractorView> {
        if m.current_x >= i64::MAX || m.current_y >= i64::MAX {
            None
        } else {
            m.write2(value)
        }
    }

    fn next_input(&mut self) -> (r: Input) {
        Input::Ready(self.read())
    }

    fn emit_output(&mut self, value: i64) -> (accepted: bool) {
        if self.current_x as u64 >= i64::MAX as u64 || self.current_y as u64 >= i64::MAX as u64 {
            return false;
        }
        self.write2(value)
    }
}

/// The controller after `probes` runs of `program`, each on a machine of
/// its own and of at most `max_steps` steps, all of them talking to the
/// controller that starts as `t`; or the error of the first run that failed.
pub open spec fn spec_scan(program: Seq<i64>, t: TractorView, probes: nat, max_steps: nat)
    -> Result<TractorView, VmError>
    decreases probes,
{
    if probes == 0 {
        Ok(t)
    } else {
        let run = spec_run::<Tractor>(Snapshot::boot(program), t, max_steps);
        match run.result {
            Err(e) => Err(e),
            Ok(_) => spec_scan(program, run.io, (probes - 1) as nat, max_steps),
        }
    }
}

/// Probes `probes` points with a fresh controller: each probe is one run of
/// `program` on a machine of its own, of at most `max_steps` steps. Returns
/// the controller with everything it recorded, or the error of the first
/// run that failed.
pub fn scan(program: &Vec<i64>, probes: usize, max_steps: u64) -> (r: Result<Tractor, VmError>)
    ensures
        match r {
            Ok(t) => spec_scan(program@, TractorView::start(), probes as nat, max_steps as nat)
                == Ok::<TractorView, VmError>(t@),
            Err(e) => spec_scan(program@, TractorView::start(), probes as nat, max_steps as nat)
                == Err::<TractorView, VmError>(e),
        },
{
    let mut tractor = Tractor::new();
    let mut left: usize = probes;
    while left > 0
        invariant
            tractor.valid(),
            spec_scan(program@, tractor@, left as nat, max_steps as nat) == spec_scan(
                program@,
                TractorView::start(),
                probes as nat,
                max_steps as nat,
            ),
        decreases left,
    {
        let storage = program.clone();
        assert(storage@ =~= program@);
        let mut vm = VM::new(storage);
        match vm.run(&mut tractor, max_steps) {
            Ok(_) => {},
            Err(e) => {
                return Err(e);
            },
        }
        left = left - 1;
    }
    Ok(tractor)
}

} // verus!
