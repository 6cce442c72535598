use vstd::prelude::*;
use crate::vm::adapter::{Adapter, Input};

verus! {

/// The droid's map is a square of this many cells a side.
pub const SIZE: usize = 50;

/// How a wall is drawn on the map.
pub const WALL: char = '\u{2588}';

/// How an open cell is drawn on the map.
pub const OPEN: char = '\u{2591}';

/// How a cell filled with oxygen is drawn on the map.
pub const OXYGEN: char = 'o';

/// How a cell that the droid knows nothing of is drawn on the map.
pub const UNKNOWN: char = ' ';

/// The way the droid last tried to move; `Start` before its first move.
#[derive(Debug, Clone, Copy, PartialEq, Eq)]
pub enum Direction {
    Up,
    Down,
    Left,
    Right,
    Start,
}

/// Who decides where the droid goes next.
#[derive(Debug, Clone, Copy, PartialEq, Eq)]
pub enum GameMode {
    /// Someone at the keyboard.
    Manual,
    /// The rule of keeping one hand on the wall.
    FollowLeft,
}

/// The movement command that sends the droid in `direction`.
pub open spec fn command(direction: Direction) -> i64 {
    match direction {
        Direction::Up => 1,
        Direction::Down => 2,
        Direction::Left => 3,
        _ => 4,
    }
}

/// The direction to try next when the last move in `direction` hit a wall
/// (`blocked`) or did not: a droid that was stopped turns a quarter to the
/// right, one that got through turns a quarter to the left.
pub open spec fn spec_follow_left(direction: Direction, blocked: bool) -> Direction {
    if blocked {
        match direction {
            Direction::Start | Direction::Up => Direction::Right,
            Direction::Right => Direction::Down,
            Direction::Down => Direction::Left,
            Direction::Left => Direction::Up,
        }
    } else {
        match direction {
            Direction::Start | Direction::Up => Direction::Left,
            Direction::Left => Direction::Down,
            Direction::Down => Direction::Right,
            Direction::Right => Direction::Up,
        }
    }
}

/// The direction that a line typed at the keyboard asks for: `e` for up,
/// `d` for down, `s` for left and `f` for right, each followed by a line
/// feed.
pub open spec fn spec_manual(line: Seq<char>) -> Option<Direction> {
    if line == seq!['e', '\n'] {
        Some(Direction::Up)
    } else if line == seq!['d', '\n'] {
        Some(Direction::Down)
    } else if line == seq!['s', '\n'] {
        Some(Direction::Left)
    } else if line == seq!['f', '\n'] {
        Some(Direction::Right)
    } else {
        None
    }
}

/// How the status `result` that the droid reports is drawn: 0 for a wall,
/// 1 for an open cell, 2 for the oxygen system.
pub open spec fn spec_status_char(result: i64) -> Option<char> {
    if result == 0 {
        Some(WALL)
    } else if result == 1 {
        Some(OPEN)
    } else if result == 2 {
        Some(OXYGEN)
    } else {
        None
    }
}

/// The droid's picture of the world.
pub struct Game {
    pub grid: Vec<Vec<char>>,
    /// Row and column of the droid.
    pub location: (usize, usize),
    /// The status reported for the last move.
    pub last_result: i64,
    pub direction: Direction,
    pub mode: GameMode,
}

/// The view of a `Game`.
pub struct GameView {
    pub grid: Seq<Seq<char>>,
    pub location: (usize, usize),
    pub last_result: i64,
    pub direction: Direction,
    pub mode: GameMode,
}

/// Whether `grid` has `SIZE` rows of `SIZE` cells.
pub open spec fn square(grid: Seq<Seq<char>>) -> bool {
    &&& grid.len() == 50
    &&& forall|y: int| 0 <= y < 50 ==> (#[trigger] grid[y]).len() == 50
}

impl GameView {
    /// A droid in the middle of an unknown map, on an open cell, before its
    /// first move.
    pub open spec fn start() -> GameView {
        GameView {
            grid: Seq::new(
                50,
                |y: int|
                    Seq::new(
                        50,
                        |x: int|
                            if x == 25 && y == 25 {
                                OPEN
                            } else {
                                UNKNOWN
                            },
                    ),
            ),
            location: (25, 25),
            last_result: -1i64,
            direction: Direction::Start,
            mode: GameMode::FollowLeft,
        }
    }

    /// The droid is back where it started and has just moved down: it has
    /// been round the whole maze.
    pub open spec fn explored(self) -> bool {
        self.location == (25usize, 25usize) && self.direction == Direction::Down
    }

    /// Column and row of the cell that the droid last tried to enter.
    pub open spec fn attempted(self) -> (int, int) {
        (
            match self.direction {
                Direction::Left => self.location.1 - 1,
                Direction::Right => self.location.1 + 1,
                _ => self.location.1 as int,
            },
            match self.direction {
                Direction::Down => self.location.0 + 1,
                Direction::Up => self.location.0 - 1,
                _ => self.location.0 as int,
            },
        )
    }

    /// The map with the character for `result` drawn in column `x` of row
    /// `y`, if there is such a cell and such a character.
    pub open spec fn set(self, x: int, y: int, result: i64) -> Option<GameView> {
        if 0 <= y < self.grid.len() && 0 <= x < self.grid[y].len() {
            match spec_status_char(result) {
                Some(c) => Some(GameView { grid: self.grid.update(y, self.grid[y].update(x, c)), ..self }),
                None => None,
            }
        } else {
            None
        }
    }

    /// The game after the status of the last move has been taken in: unless
    /// the droid hit a wall it now stands on the cell it tried to enter, and
    /// unless it has not moved yet that cell is drawn on the map. There is
    /// no such game when the cell is off the map or the status unknown.
    pub open spec fn observe(self) -> Option<GameView> {
        let (x, y) = self.attempted();
        if x < 0 || y < 0 || x > usize::MAX || y > usize::MAX {
            None
        } else {
            let moved = if self.last_result != 0 {
                GameView { location: (y as usize, x as usize), ..self }
            } else {
                self
            };
            if self.direction != Direction::Start {
                moved.set(x, y, self.last_result)
            } else {
                Some(moved)
            }
        }
    }

    /// The game after the droid has chosen its next direction by the rule
    /// of the wall.
    pub open spec fn follow_left(self) -> GameView {
        GameView { direction: spec_follow_left(self.direction, self.last_result == 0), ..self }
    }
}

impl View for Game {
    type V = GameView;

    open spec fn view(&self) -> GameView {
        GameView {
            grid: Seq::new(self.grid@.len(), |y: int| self.grid@[y]@),
            location: self.location,
            last_result: self.last_result,
            direction: self.direction,
            mode: self.mode,
        }
    }
}

impl Game {
    /// A droid in the middle of an unknown map, on an open cell, before its
    /// first move, that will follow the wall.
    pub fn new() -> (g: Game)
        ensures
            g@ == GameView::start(),
    {
        let mut grid: Vec<Vec<char>> = Vec::new();
        let mut y: usize = 0;
        while y < SIZE
            invariant
                y <= 50,
                grid@.len() == y,
                forall|j: int| 0 <= j < y ==> (#[trigger] grid@[j])@ =~= Seq::new(50, |x: int| UNKNOWN),
            decreases SIZE - y,
        {
            grid.push(vec![UNKNOWN; 50]);
            y = y + 1;
        }
        grid[SIZE / 2][SIZE / 2] = OPEN;
        let g = Game {
            grid,
            location: (SIZE / 2, SIZE / 2),
            last_result: -1,
            direction: Direction::Start,
            mode: GameMode::FollowLeft,
        };
        proof {
            assert forall|j: int| 0 <= j < 50 implies #[trigger] g@.grid[j] =~= GameView::start().grid[j] by {
                if j != 25 {
                    assert(g.grid@[j]@ =~= Seq::new(50, |x: int| UNKNOWN));
                }
            }
            assert(g@.grid =~= GameView::start().grid);
        }
        g
    }

    /// Draws the character for `result` in column `x` of row `y`. Returns
    /// whether there is such a cell and such a character; if not, nothing
    /// changes.
    pub fn set(&mut self, x: usize, y: usize, result: i64) -> (drawn: bool)
        ensures
            match old(self)@.set(x as int, y as int, result) {
                Some(g) => drawn && final(self)@ == g,
                None => !drawn && final(self)@ == old(self)@,
            },
    {
        if y >= self.grid.len() {
            return false;
        }
        if x >= self.grid[y].len() {
            return false;
        }
        let c: char = if result == 0 {
            WALL
        } else if result == 1 {
            OPEN
        } else if result == 2 {
            OXYGEN
        } else {
            return false;
        };
        self.grid[y][x] = c;
        assert(self@.grid =~= old(self)@.set(x as int, y as int, result).unwrap().grid) by {
            let want = old(self)@.set(x as int, y as int, result).unwrap().grid;
            assert(self@.grid.len() == want.len());
            assert forall|j: int| 0 <= j < want.len() implies self@.grid[j] == want[j] by {}
        }
        true
    }

    /// The four cells next to `location`: below, above, right and left of
    /// it when the pair is read as row and column.
    pub fn adjacent(location: &(usize, usize)) -> (r: Vec<(usize, usize)>)
        requires
            1 <= location.0 < usize::MAX,
            1 <= location.1 < usize::MAX,
        ensures
            r@ == seq![
                ((location.0 + 1) as usize, location.1),
                ((location.0 - 1) as usize, location.1),
                (location.0, (location.1 + 1) as usize),
                (location.0, (location.1 - 1) as usize),
            ],
    {
        let mut r: Vec<(usize, usize)> = Vec::new();
        r.push((location.0 + 1, location.1));
        r.push((location.0 - 1, location.1));
        r.push((location.0, location.1 + 1));
        r.push((location.0, location.1 - 1));
        r
    }

    /// Takes in the status of the last move. Returns whether that was
    /// possible; if not, nothing changes.
    pub fn observe(&mut self) -> (seen: bool)
        ensures
            match old(self)@.observe() {
                Some(g) => seen && final(self)@ == g,
                None => !seen && final(self)@ == old(self)@,
            },
    {
        let x: usize = match self.direction {
            Direction::Left => {
                if self.location.1 == 0 {
                    return false;
                }
                self.location.1 - 1
            },
            Direction::Right => {
                if self.location.1 == usize::MAX {
                    return false;
                }
                self.location.1 + 1
            },
            _ => self.location.1,
        };
        let y: usize = match self.direction {
            Direction::Down => {
                if self.location.0 == usize::MAX {
                    return false;
                }
                self.location.0 + 1
            },
            Direction::Up => {
                if self.location.0 == 0 {
                    return false;
                }
                self.location.0 - 1
            },
            _ => self.location.0,
        };
        let before: (usize, usize) = self.location;
        if self.last_result != 0 {
            self.location = (y, x);
        }
        let started: bool = match self.direction {
            Direction::Start => false,
            _ => true,
        };
        if started {
            let result: i64 = self.last_result;
            if !self.set(x, y, result) {
                self.location = before;
                assert(self@.grid =~= old(self)@.grid);
                return false;
            }
        } else {
            assert(self@.grid =~= old(self)@.grid);
        }
        true
    }

    /// Chooses the next direction by the rule of the wall and returns the
    /// command that sends the droid there.
    pub fn follow_left_input(&mut self) -> (r: i64)
        ensures
            final(self)@ == old(self)@.follow_left(),
            r == command(final(self).direction),
    {
        let next: Direction = if self.last_result == 0 {
            match self.direction {
                Direction::Start | Direction::Up => Direction::Right,
                Direction::Right => Direction::Down,
                Direction::Down => Direction::Left,
                Direction::Left => Direction::Up,
            }
        } else {
            match self.direction {
                Direction::Start | Direction::Up => Direction::Left,
                Direction::Left => Direction::Down,
                Direction::Down => Direction::Right,
                Direction::Right => Direction::Up,
            }
        };
        self.direction = next;
        assert(self@.grid =~= old(self)@.grid);
        match next {
            Direction::Up => 1,
            Direction::Down => 2,
            Direction::Left => 3,
            _ => 4,
        }
    }

    /// Takes the direction typed at the keyboard as `line` and returns the
    /// command that sends the droid there. A line that asks for no
    /// direction changes nothing.
    pub fn manual_input(&mut self, line: &str) -> (r: Option<i64>)
        ensures
            match spec_manual(line@) {
                Some(d) => r == Some(command(d)) && final(self)@ == (GameView {
                    direction: d,
                    ..old(self)@
                }),
                None => r.is_none() && final(self)@ == old(self)@,
            },
    {
        if line.unicode_len() != 2 {
            return None;
        }
        if line.get_char(1) != '\n' {
            return None;
        }
        let c: char = line.get_char(0);
        let next: Direction = if c == 'e' {
            Direction::Up
        } else if c == 'd' {
            Direction::Down
        } else if c == 's' {
            Direction::Left
        } else if c == 'f' {
            Direction::Right
        } else {
            return None;
        };
        assert(line@ =~= seq![c, '\n']);
        self.direction = next;
        assert(self@.grid =~= old(self)@.grid);
        match next {
            Direction::Up => Some(1),
            Direction::Down => Some(2),
            Direction::Left => Some(3),
            _ => Some(4),
        }
    }
}

impl Adapter for Game {
    open spec fn valid(&self) -> bool {
        true
    }

    /// A droid that is steered by hand, or has been round the whole maze,
    /// waits. One that follows the wall takes in the status of its last
    /// move and answers with its next command; when the status makes no
    /// sense it has nothing to answer.
    open spec fn supply_input(m: GameView) -> (Input, GameView) {
        if m.explored() || m.mode == GameMode::Manual {
            (Input::Pending, m)
        } else {
            match m.observe() {
                None => (Input::Exhausted, m),
                Some(seen) => (
                    Input::Ready(command(seen.follow_left().direction)),
                    seen.follow_left(),
                ),
            }
        }
    }

    /// Every output is the status of the last move.
    open spec fn consume_output(m: GameView, value: i64) -> Option<GameView> {
        Some(GameView { last_result: value, ..m })
    }

    fn next_input(&mut self) -> (r: Input) {
        let at_start: bool = self.location.0 == SIZE / 2 && self.location.1 == SIZE / 2;
        let down: bool = match self.direction {
            Direction::Down => true,
            _ => false,
        };
        let manual: bool = match self.mode {
            GameMode::Manual => true,
            GameMode::FollowLeft => false,
        };
        if (at_start && down) || manual {
            return Input::Pending;
        }
        if !self.observe() {
            return Input::Exhausted;
        }
        Input::Ready(self.follow_left_input())
    }

    fn emit_output(&mut self, value: i64) -> (accepted: bool) {
        self.last_result = value;
        assert(self@.grid =~= old(self)@.grid);
        true
    }
}

/// Whether column `c.0` of row `c.1` is a cell of the map.
pub open spec fn on_map(c: (int, int)) -> bool {
    0 <= c.0 < 50 && 0 <= c.1 < 50
}

/// Whether `a` and `b` are next to each other in a row or a column.
pub open spec fn neighbours(a: (int, int), b: (int, int)) -> bool {
    ||| (a.0 == b.0 && (a.1 == b.1 + 1 || a.1 + 1 == b.1))
    ||| (a.1 == b.1 && (a.0 == b.0 + 1 || a.0 + 1 == b.0))
}

/// Column and row of the first oxygen cell among the first `n` cells of
/// `grid`, read row by row.
pub open spec fn first_oxygen(grid: Seq<Seq<char>>, n: int) -> Option<(int, int)>
    decreases n,
{
    if n <= 0 {
        None
    } else {
        match first_oxygen(grid, n - 1) {
            Some(c) => Some(c),
            None => if grid[(n - 1) / 50][(n - 1) % 50] == OXYGEN {
                Some(((n - 1) % 50, (n - 1) / 50))
            } else {
                None
            },
        }
    }
}

/// Oxygen spreads to `c` when it is an open cell of the map next to a cell
/// of `frontier`.
pub open spec fn spreads_to(grid: Seq<Seq<char>>, frontier: Set<(int, int)>, c: (int, int)) -> bool {
    &&& on_map(c)
    &&& grid[c.1][c.0] == OPEN
    &&& exists|n: (int, int)| #[trigger] frontier.contains(n) && neighbours(c, n)
}

/// The cells that oxygen reaches in one second from the cells of `frontier`.
pub open spec fn spread(grid: Seq<Seq<char>>, frontier: Set<(int, int)>) -> Set<(int, int)> {
    Set::new(|c: (int, int)| spreads_to(grid, frontier, c))
}

/// The map with the cells of `cells` filled with oxygen.
pub open spec fn fill(grid: Seq<Seq<char>>, cells: Set<(int, int)>) -> Seq<Seq<char>> {
    Seq::new(
        50,
        |y: int|
            Seq::new(
                50,
                |x: int|
                    if cells.contains((x, y)) {
                        OXYGEN
                    } else {
                        grid[y][x]
                    },
            ),
    )
}

/// The number of seconds until oxygen stops spreading, when at this moment
/// it has just reached the cells of `frontier`, together with the map at
/// that time; or `None` when it still spreads after `fuel` seconds. Every
/// second the oxygen reaches the open cells next to those it reached the
/// second before.
pub open spec fn spec_oxygen(grid: Seq<Seq<char>>, frontier: Set<(int, int)>, fuel: nat)
    -> Option<(nat, Seq<Seq<char>>)>
    decreases fuel,
{
    let next = spread(grid, frontier);
    if next == Set::<(int, int)>::empty() {
        Some((0, grid))
    } else if fuel == 0 {
        None
    } else {
        match spec_oxygen(fill(grid, next), next, (fuel - 1) as nat) {
            Some((n, filled)) => Some((n + 1, filled)),
            None => None,
        }
    }
}

/// The cells marked in `mask`.
pub open spec fn marked(mask: Seq<Seq<bool>>) -> Set<(int, int)> {
    Set::new(|c: (int, int)| on_map(c) && mask[c.1][c.0])
}

/// The rows of `grid` as sequences.
pub open spec fn rows<T>(grid: Vec<Vec<T>>) -> Seq<Seq<T>> {
    Seq::new(grid@.len(), |y: int| grid@[y]@)
}

/// Whether `mask` has `SIZE` rows of `SIZE` marks.
pub open spec fn square_mask(mask: Seq<Seq<bool>>) -> bool {
    &&& mask.len() == 50
    &&& forall|y: int| 0 <= y < 50 ==> (#[trigger] mask[y]).len() == 50
}

/// A mask of `SIZE` rows of `SIZE` marks, none of them set.
fn blank_mask() -> (mask: Vec<Vec<bool>>)
    ensures
        square_mask(rows(mask)),
        forall|c: (int, int)| on_map(c) ==> !(#[trigger] rows(mask)[c.1][c.0]),
        marked(rows(mask)) == Set::<(int, int)>::empty(),
{
    let mut mask: Vec<Vec<bool>> = Vec::new();
    let mut y: usize = 0;
    while y < SIZE
        invariant
            y <= 50,
            mask@.len() == y,
            forall|j: int| 0 <= j < y ==> (#[trigger] mask@[j])@ =~= Seq::new(50, |x: int| false),
        decreases SIZE - y,
    {
        mask.push(vec![false; 50]);
        y = y + 1;
    }
    proof {
        assert forall|j: int| 0 <= j < 50 implies (#[trigger] rows(mask)[j]).len() == 50 by {
            assert(mask@[j]@ =~= Seq::new(50, |x: int| false));
        }
        assert forall|c: (int, int)| on_map(c) implies !(#[trigger] rows(mask)[c.1][c.0]) by {
            assert(mask@[c.1]@ =~= Seq::new(50, |x: int| false));
        }
        assert(marked(rows(mask)) =~= Set::<(int, int)>::empty());
    }
    mask
}

/// Whether oxygen spreads to column `x` of row `y` from the cells marked
/// in `frontier`.
fn reached(grid: &Vec<Vec<char>>, frontier: &Vec<Vec<bool>>, x: usize, y: usize) -> (r: bool)
    requires
        square(rows(*grid)),
        square_mask(rows(*frontier)),
        x < 50,
        y < 50,
    ensures
        r == spreads_to(rows(*grid), marked(rows(*frontier)), (x as int, y as int)),
{
    assert(rows(*grid)[y as int].len() == 50);
    assert(rows(*frontier)[y as int].len() == 50);
    if grid[y][x] != OPEN {
        return false;
    }
    let ghost c = (x as int, y as int);
    let ghost f = marked(rows(*frontier));
    if y + 1 < SIZE {
        assert(rows(*frontier)[y + 1].len() == 50);
        if frontier[y + 1][x] {
            assert(f.contains((x as int, y + 1)) && neighbours(c, (x as int, y + 1)));
            return true;
        }
    }
    if y >= 1 {
        assert(rows(*frontier)[y - 1].len() == 50);
        if frontier[y - 1][x] {
            assert(f.contains((x as int, y - 1)) && neighbours(c, (x as int, y - 1)));
            return true;
        }
    }
    if x + 1 < SIZE {
        if frontier[y][x + 1] {
            assert(f.contains((x + 1, y as int)) && neighbours(c, (x + 1, y as int)));
            return true;
        }
    }
    if x >= 1 {
        if frontier[y][x - 1] {
            assert(f.contains((x - 1, y as int)) && neighbours(c, (x - 1, y as int)));
            return true;
        }
    }
    assert forall|n: (int, int)| #[trigger] f.contains(n) implies !neighbours(c, n) by {}
    false
}

impl Game {
    /// Column and row of the first oxygen cell of the map, read row by row.
    pub fn find_oxygen(&self) -> (r: Option<(usize, usize)>)
        requires
            square(self@.grid),
        ensures
            match r {
                Some((x, y)) => x < 50 && y < 50 && first_oxygen(self@.grid, 2500) == Some(
                    (x as int, y as int),
                ),
                None => first_oxygen(self@.grid, 2500).is_none(),
            },
    {
        let mut y: usize = 0;
        while y < SIZE
            invariant
                y <= 50,
                square(self@.grid),
                first_oxygen(self@.grid, y * 50).is_none(),
            decreases SIZE - y,
        {
            let mut x: usize = 0;
            assert(self@.grid[y as int].len() == 50);
            while x < SIZE
                invariant
                    x <= 50,
                    y < 50,
                    self@.grid[y as int].len() == 50,
                    self@.grid.len() == 50,
                    first_oxygen(self@.grid, y * 50 + x).is_none(),
                decreases SIZE - x,
            {
                let ghost n = y * 50 + x + 1;
                assert((n - 1) / 50 == y && (n - 1) % 50 == x);
                if self.grid[y][x] == OXYGEN {
                    proof {
                        lemma_first_oxygen_stays(self@.grid, n, 2500);
                    }
                    return Some((x, y));
                }
                x = x + 1;
            }
            y = y + 1;
        }
        None
    }

    /// Lets oxygen spread from the first oxygen cell of the map into every
    /// open cell it can reach, one cell further each second, and draws it
    /// on the map. Returns the number of seconds until the oxygen stops
    /// spreading, or `None` when there is no oxygen on the map or it still
    /// spreads after `max_seconds` seconds; the map is then left as it was
    /// or as it is after `max_seconds` seconds.
    #[verifier::rlimit(60)]
    pub fn release_the_oxygen(&mut self, max_seconds: usize) -> (r: Option<usize>)
        requires
            square(old(self)@.grid),
        ensures
            square(final(self)@.grid),
            match first_oxygen(old(self)@.grid, 2500) {
                None => r.is_none() && final(self)@ == old(self)@,
                Some(source) => match spec_oxygen(
                    old(self)@.grid,
                    set![source],
                    max_seconds as nat,
                ) {
                    Some((seconds, filled)) => seconds <= max_seconds && r == Some(
                        seconds as usize,
                    ) && final(self)@ == (GameView {
                        grid: filled,
                        ..old(self)@
                    }),
                    None => r.is_none(),
                },
            },
            final(self).location == old(self).location,
            final(self).last_result == old(self).last_result,
            final(self).direction == old(self).direction,
            final(self).mode == old(self).mode,
    {
        let source: (usize, usize) = match self.find_oxygen() {
            Some(source) => source,
            None => {
                assert(self@.grid =~= old(self)@.grid);
                return None;
            },
        };
        let mut frontier: Vec<Vec<bool>> = blank_mask();
        let ghost blank = rows(frontier);
        assert(blank[source.1 as int].len() == 50);
        frontier[source.1][source.0] = true;
        proof {
            let s = (source.0 as int, source.1 as int);
            assert forall|j: int| 0 <= j < 50 implies (#[trigger] rows(frontier)[j]).len()
                == 50 by {
                assert(blank[j].len() == 50);
            }
            assert forall|c: (int, int)| #[trigger]
                marked(rows(frontier)).contains(c) == set![s].contains(c) by {
                if on_map(c) && c != s {
                    assert(rows(frontier)[c.1][c.0] == blank[c.1][c.0]);
                    assert(!marked(blank).contains(c));
                }
            }
            assert(marked(rows(frontier)) =~= set![s]);
            assert(self@.grid =~= old(self)@.grid);
        }
        let mut seconds: usize = 0;
        loop
            invariant
                seconds <= max_seconds,
                first_oxygen(old(self)@.grid, 2500) == Some((source.0 as int, source.1 as int)),
                square(self@.grid),
                square_mask(rows(frontier)),
                self.location == old(self).location,
                self.last_result == old(self).last_result,
                self.direction == old(self).direction,
                self.mode == old(self).mode,
                match spec_oxygen(self@.grid, marked(rows(frontier)), (max_seconds - seconds) as nat) {
                    Some((n, filled)) => spec_oxygen(
                        old(self)@.grid,
                        set![(source.0 as int, source.1 as int)],
                        max_seconds as nat,
                    ) == Some(((n + seconds) as nat, filled)),
                    None => spec_oxygen(
                        old(self)@.grid,
                        set![(source.0 as int, source.1 as int)],
                        max_seconds as nat,
                    ).is_none(),
                },
            decreases max_seconds - seconds,
        {
            let mut next: Vec<Vec<bool>> = blank_mask();
            let mut any: bool = false;
            let mut y: usize = 0;
            while y < SIZE
                invariant
                    y <= 50,
                    square(self@.grid),
                    square_mask(rows(frontier)),
                    square_mask(rows(next)),
                    forall|c: (int, int)|
                        on_map(c) ==> (#[trigger] rows(next)[c.1][c.0] == (c.1 < y && spreads_to(
                            self@.grid,
                            marked(rows(frontier)),
                            c,
                        ))),
                    any == exists|c: (int, int)|
                        on_map(c) && c.1 < y && #[trigger] spreads_to(
                            self@.grid,
                            marked(rows(frontier)),
                            c,
                        ),
                decreases SIZE - y,
            {
                let mut x: usize = 0;
                while x < SIZE
                    invariant
                        x <= 50,
                        y < 50,
                        square(self@.grid),
                        square_mask(rows(frontier)),
                        square_mask(rows(next)),
                        forall|c: (int, int)|
                            on_map(c) ==> (#[trigger] rows(next)[c.1][c.0] == ((c.1 < y || (c.1
                                == y && c.0 < x)) && spreads_to(
                                self@.grid,
                                marked(rows(frontier)),
                                c,
                            ))),
                        any == exists|c: (int, int)|
                            on_map(c) && (c.1 < y || (c.1 == y && c.0 < x)) && #[trigger] spreads_to(
                                self@.grid,
                                marked(rows(frontier)),
                                c,
                            ),
                    decreases SIZE - x,
                {
                    let ghost before_any = any;
                    let ghost before = rows(next);
                    assert(rows(self.grid) =~= self@.grid);
                    let hit: bool = reached(&self.grid, &frontier, x, y);
                    if hit {
                        assert(rows(next)[y as int].len() == 50);
                        next[y][x] = true;
                        any = true;
                        proof {
                            assert forall|j: int| 0 <= j < 50 implies (#[trigger] rows(
                                next,
                            )[j]).len() == 50 by {
                                assert(before[j].len() == 50);
                            }
                        }
                    }
                    proof {
                        let here = (x as int, y as int);
                        assert forall|c: (int, int)| on_map(c) implies (#[trigger] rows(
                            next,
                        )[c.1][c.0] == ((c.1 < y || (c.1 == y && c.0 < x + 1)) && spreads_to(
                            self@.grid,
                            marked(rows(frontier)),
                            c,
                        ))) by {
                            if c != here {
                                assert(rows(next)[c.1][c.0] == before[c.1][c.0]);
                            }
                        }
                        if hit {
                            assert(on_map(here) && spreads_to(
                                self@.grid,
                                marked(rows(frontier)),
                                here,
                            ));
                        } else if before_any {
                            let c = choose|c: (int, int)|
                                on_map(c) && (c.1 < y || (c.1 == y && c.0 < x))
                                    && #[trigger] spreads_to(
                                    self@.grid,
                                    marked(rows(frontier)),
                                    c,
                                );
                            assert(on_map(c) && (c.1 < y || (c.1 == y && c.0 < x + 1))
                                && spreads_to(self@.grid, marked(rows(frontier)), c));
                        }
                    }
                    x = x + 1;
                }
                y = y + 1;
            }
            let ghost wave = spread(self@.grid, marked(rows(frontier)));
            proof {
                assert forall|c: (int, int)| #[trigger]
                    marked(rows(next)).contains(c) == wave.contains(c) by {}
                assert(marked(rows(next)) =~= wave);
                if !any {
                    assert forall|c: (int, int)| !(#[trigger] wave.contains(c)) by {
                        if wave.contains(c) {
                            assert(on_map(c) && c.1 < 50 && spreads_to(
                                self@.grid,
                                marked(rows(frontier)),
                                c,
                            ));
                        }
                    }
                    assert(wave =~= Set::<(int, int)>::empty());
                } else {
                    let c = choose|c: (int, int)|
                        on_map(c) && c.1 < 50 && #[trigger] spreads_to(
                            self@.grid,
                            marked(rows(frontier)),
                            c,
                        );
                    assert(wave.contains(c));
                    assert(wave != Set::<(int, int)>::empty());
                }
            }
            let ghost origin = set![(source.0 as int, source.1 as int)];
            if !any {
                assert(spec_oxygen(
                    self@.grid,
                    marked(rows(frontier)),
                    (max_seconds - seconds) as nat,
                ) == Some((0nat, self@.grid)));
                assert(spec_oxygen(old(self)@.grid, origin, max_seconds as nat) == Some(
                    (seconds as nat, self@.grid),
                ));
                return Some(seconds);
            }
            if seconds == max_seconds {
                assert(spec_oxygen(self@.grid, marked(rows(frontier)), 0).is_none());
                assert(spec_oxygen(old(self)@.grid, origin, max_seconds as nat).is_none());
                return None;
            }
            let ghost grid_before = self@.grid;
            let mut fy: usize = 0;
            while fy < SIZE
                invariant
                    fy <= 50,
                    square(self@.grid),
                    square(grid_before),
                    square_mask(rows(next)),
                    self.location == old(self).location,
                    self.last_result == old(self).last_result,
                    self.direction == old(self).direction,
                    self.mode == old(self).mode,
                    forall|c: (int, int)|
                        on_map(c) ==> #[trigger] self@.grid[c.1][c.0] == if c.1 < fy && marked(
                            rows(next),
                        ).contains(c) {
                            OXYGEN
                        } else {
                            grid_before[c.1][c.0]
                        },
                decreases SIZE - fy,
            {
                let mut fx: usize = 0;
                while fx < SIZE
                    invariant
                        fx <= 50,
                        fy < 50,
                        square(self@.grid),
                        square(grid_before),
                        square_mask(rows(next)),
                        self.location == old(self).location,
                        self.last_result == old(self).last_result,
                        self.direction == old(self).direction,
                        self.mode == old(self).mode,
                        forall|c: (int, int)|
                            on_map(c) ==> #[trigger] self@.grid[c.1][c.0] == if (c.1 < fy || (c.1
                                == fy && c.0 < fx)) && marked(rows(next)).contains(c) {
                                OXYGEN
                            } else {
                                grid_before[c.1][c.0]
                            },
                    decreases SIZE - fx,
                {
                    let ghost inner_before = self@.grid;
                    assert(rows(next)[fy as int].len() == 50);
                    assert(self@.grid[fy as int].len() == 50);
                    if next[fy][fx] {
                        self.grid[fy][fx] = OXYGEN;
                    }
                    proof {
                        let here = (fx as int, fy as int);
                        assert(on_map(here));
                        assert(marked(rows(next)).contains(here) == rows(next)[fy as int][fx as int]);
                        assert forall|j: int| 0 <= j < 50 implies (#[trigger] self@.grid[j]).len()
                            == 50 by {
                            assert(inner_before[j].len() == 50);
                        }
                        assert forall|c: (int, int)| on_map(c) implies #[trigger] self@.grid[c.1][c.0]
                            == if (c.1 < fy || (c.1 == fy && c.0 < fx + 1)) && marked(
                            rows(next),
                        ).contains(c) {
                            OXYGEN
                        } else {
                            grid_before[c.1][c.0]
                        } by {
                            if c != here {
                                assert(self@.grid[c.1][c.0] == inner_before[c.1][c.0]);
                            }
                        }
                    }
                    fx = fx + 1;
                }
                fy = fy + 1;
            }
            proof {
                let want = fill(grid_before, wave);
                assert forall|j: int| 0 <= j < 50 implies #[trigger] self@.grid[j] =~= want[j] by {
                    assert(self@.grid[j].len() == 50);
                    assert forall|i: int| 0 <= i < 50 implies self@.grid[j][i] == want[j][i] by {
                        assert(on_map((i, j)));
                    }
                }
                assert(self@.grid =~= want);
            }
            frontier = next;
            seconds = seconds + 1;
        }
    }
}

/// Once an oxygen cell is found among the first cells of a map, it is the
/// first oxygen cell of any longer stretch.
proof fn lemma_first_oxygen_stays(grid: Seq<Seq<char>>, n: int, m: int)
    requires
        0 < n <= m,
        first_oxygen(grid, n).is_some(),
    ensures
        first_oxygen(grid, m) == first_oxygen(grid, n),
    decreases m - n,
{
    if n < m {
        lemma_first_oxygen_stays(grid, n, m - 1);
    }
}

} // verus!
