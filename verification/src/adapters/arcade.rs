use vstd::prelude::*;
use crate::vm::adapter::{Adapter, Input};
use crate::vm::error::VmError;
use crate::vm::machine::{Snapshot, VM};
use crate::vm::semantics::{spec_run, Status};

verus! {

/// The screen of the cabinet is this many tiles wide and high.
pub const WIDTH: usize = 37;

pub const HEIGHT: usize = 26;

/// The character that shows a tile: nothing, a wall, a block, the paddle
/// or the ball.
pub open spec fn spec_tile_char(tile: i64) -> char {
    if tile == 0 {
        ' '
    } else if tile == 1 {
        'X'
    } else if tile == 2 {
        '#'
    } else if tile == 3 {
        '_'
    } else {
        'o'
    }
}

/// The character that shows `tile`, or `None` when there is no such tile.
pub fn tile_char(tile: i64) -> (r: Option<char>)
    ensures
        r == if 0 <= tile <= 4 {
            Some(spec_tile_char(tile))
        } else {
            None
        },
{
    if tile == 0 {
        Some(' ')
    } else if tile == 1 {
        Some('X')
    } else if tile == 2 {
        Some('#')
    } else if tile == 3 {
        Some('_')
    } else if tile == 4 {
        Some('o')
    } else {
        None
    }
}

/// The game as the cabinet shows it.
pub struct Pong {
    display: Vec<char>,
    pub score: i64,
    pub ball: (usize, usize),
    pub ball_direction: (i16, i16),
}

/// The view of a `Pong`.
pub struct PongView {
    /// The screen, row after row, each `WIDTH` characters long.
    pub display: Seq<char>,
    pub score: i64,
    /// Column and row of the ball when it was last drawn.
    pub ball: (int, int),
    /// How far the ball had moved, in columns and rows, when it was last drawn.
    pub ball_direction: (int, int),
}

impl PongView {
    /// The character shown in column `x` of row `y`.
    pub open spec fn at(self, x: int, y: int) -> char {
        self.display[y * 37 + x]
    }

    /// An empty screen, with the ball taken to be in the top left corner.
    pub open spec fn blank() -> PongView {
        PongView {
            display: Seq::new(962, |i: int| ' '),
            score: 0,
            ball: (0, 0),
            ball_direction: (0, 0),
        }
    }

    /// The game after the tile `data[2]` is drawn in column `data[0]` of
    /// row `data[1]`, or `None` when the place is off the screen or there is
    /// no such tile. Drawing the ball also records where it is and how far
    /// it has moved.
    pub open spec fn paint(self, data: Seq<i64>) -> Option<PongView> {
        let x = data[0] as int;
        let y = data[1] as int;
        let tile = data[2];
        if 0 <= x < 37 && 0 <= y < 26 && 0 <= tile <= 4 {
            let display = self.display.update(y * 37 + x, spec_tile_char(tile));
            if tile == 4 {
                Some(
                    PongView {
                        display,
                        ball: (x, y),
                        ball_direction: (x - self.ball.0, y - self.ball.1),
                        ..self
                    },
                )
            } else {
                Some(PongView { display, ..self })
            }
        } else {
            None
        }
    }
}

/// The number of blocks among the first `n` characters of `display`.
pub open spec fn spec_count_blocks(display: Seq<char>, n: int) -> int
    decreases n,
{
    if n <= 0 {
        0
    } else {
        spec_count_blocks(display, n - 1) + if display[n - 1] == '#' {
            1int
        } else {
            0int
        }
    }
}

impl View for Pong {
    type V = PongView;

    closed spec fn view(&self) -> PongView {
        PongView {
            display: self.display@,
            score: self.score,
            ball: (self.ball.0 as int, self.ball.1 as int),
            ball_direction: (self.ball_direction.0 as int, self.ball_direction.1 as int),
        }
    }
}

impl Pong {
    /// The game's own invariant: the screen has its full size and the ball
    /// is on it.
    pub closed spec fn wf(&self) -> bool {
        &&& self.display@.len() == 962
        &&& self.ball.0 < 37
        &&& self.ball.1 < 26
    }

    /// A game with an empty screen.
    pub fn new() -> (g: Pong)
        ensures
            g.wf(),
            g@ == PongView::blank(),
    {
        let g = Pong { display: vec![' '; 962], score: 0, ball: (0, 0), ball_direction: (0, 0) };
        assert(g@.display =~= PongView::blank().display);
        g
    }

    /// Draws one tile: `data` holds its column, its row and its kind.
    /// Returns whether the tile could be drawn; if not, nothing changes.
    pub fn paint(&mut self, data: &Vec<i64>) -> (drawn: bool)
        requires
            old(self).wf(),
            data@.len() >= 3,
        ensures
            final(self).wf(),
            match old(self)@.paint(data@) {
                Some(g) => drawn && final(self)@ == g,
                None => !drawn && final(self)@ == old(self)@,
            },
    {
        let x: i64 = data[0];
        let y: i64 = data[1];
        if x < 0 || x >= 37 || y < 0 || y >= 26 {
            return false;
        }
        let c: char = match tile_char(data[2]) {
            Some(c) => c,
            None => {
                return false;
            },
        };
        let x: usize = x as usize;
        let y: usize = y as usize;
        self.display.set(y * WIDTH + x, c);
        if data[2] == 4 {
            self.ball_direction = (x as i16 - self.ball.0 as i16, y as i16 - self.ball.1 as i16);
            self.ball = (x, y);
        }
        true
    }

    /// The character shown in column `x` of row `y`.
    pub fn tile_at(&self, x: usize, y: usize) -> (c: char)
        requires
            self.wf(),
            x < 37,
            y < 26,
        ensures
            c == self@.at(x as int, y as int),
    {
        self.display[y * WIDTH + x]
    }

    /// The number of blocks on the screen.
    pub fn count_blocks(&self) -> (n: usize)
        requires
            self.wf(),
        ensures
            n == spec_count_blocks(self@.display, 962),
    {
        let mut n: usize = 0;
        let mut i: usize = 0;
        while i < self.display.len()
            invariant
                self.display@.len() == 962,
                i <= 962,
                n <= i,
                n == spec_count_blocks(self.display@, i as int),
            decreases 962 - i,
        {
            if self.display[i] == '#' {
                n = n + 1;
            }
            i = i + 1;
        }
        n
    }
}

/// The cabinet seen from the machine: the joystick is held in one position,
/// and every three outputs draw one tile.
pub struct Arcade {
    pub input: i64,
    pub outputs: Vec<i64>,
    pub game: Pong,
}

/// The view of an `Arcade`.
pub struct ArcadeView {
    /// The joystick position that every input instruction receives.
    pub input: i64,
    /// The outputs that do not make a whole tile yet.
    pub outputs: Seq<i64>,
    pub game: PongView,
}

impl View for Arcade {
    type V = ArcadeView;

    open spec fn view(&self) -> ArcadeView {
        ArcadeView { input: self.input, outputs: self.outputs@, game: self.game@ }
    }
}

impl Arcade {
    /// A cabinet with an empty screen and the joystick held at `input`.
    pub fn new(input: i64) -> (a: Arcade)
        ensures
            a.valid(),
            a@ == (ArcadeView { input, outputs: Seq::empty(), game: PongView::blank() }),
    {
        Arcade { input, outputs: Vec::new(), game: Pong::new() }
    }
}

impl Adapter for Arcade {
    open spec fn valid(&self) -> bool {
        self.game.wf() && self.outputs@.len() < 3
    }

    open spec fn supply_input(m: ArcadeView) -> (Input, ArcadeView) {
        (Input::Ready(m.input), m)
    }

    /// The first two outputs of three are kept; the third draws the tile
    /// they describe, and is refused when that tile cannot be drawn.
    open spec fn consume_output(m: ArcadeView, value: i64) -> Option<ArcadeView> {
        if m.outputs.len() + 1 == 3 {
            match m.game.paint(m.outputs.push(value)) {
                Some(game) => Some(ArcadeView { outputs: Seq::empty(), game, ..m }),
                None => None,
            }
        } else {
            Some(ArcadeView { outputs: m.outputs.push(value), ..m })
        }
    }

    fn next_input(&mut self) -> (r: Input) {
        Input::Ready(self.input)
    }

    fn emit_output(&mut self, value: i64) -> (accepted: bool) {
        self.outputs.push(value);
        if self.outputs.len() == 3 {
            if self.game.paint(&self.outputs) {
                self.outputs.clear();
                true
            } else {
                self.outputs.pop();
                assert(self.outputs@ =~= old(self).outputs@);
                false
            }
        } else {
            true
        }
    }
}

/// Runs `program` on a fresh cabinet for at most `max_steps` steps with the
/// joystick held at `input`, and returns how the run ended together with
/// the cabinet.
pub fn play(program: Vec<i64>, input: i64, max_steps: u64) -> (r: (
    Result<Status, VmError>,
    Arcade,
))
    ensures
        r.1.valid(),
        r.0 == spec_run::<Arcade>(
            Snapshot::boot(program@),
            ArcadeView { input, outputs: Seq::empty(), game: PongView::blank() },
            max_steps as nat,
        ).result,
        r.1@ == spec_run::<Arcade>(
            Snapshot::boot(program@),
            ArcadeView { input, outputs: Seq::empty(), game: PongView::blank() },
            max_steps as nat,
        ).io,
{
    let mut arcade = Arcade::new(input);
    let mut vm = VM::new(program);
    let result = vm.run(&mut arcade, max_steps);
    (result, arcade)
}

} // verus!
