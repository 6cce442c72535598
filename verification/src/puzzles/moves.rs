use vstd::prelude::*;
use vstd::slice::slice_subrange;
use vstd::string::StringSliceAdditionalSpecFns;

verus! {

/// The bytes that the grammar of a line names.
pub const LETTER_U: u8 = 85;

pub const LETTER_D: u8 = 68;

pub const LETTER_L: u8 = 76;

pub const LETTER_R: u8 = 82;

pub const DIGIT_0: u8 = 48;

pub const DIGIT_9: u8 = 57;

pub const COMMA: u8 = 44;

/// One of the four ways a wire can run.
#[derive(Debug, PartialEq, Eq, Copy, Clone)]
pub enum Direction {
    UP,
    DOWN,
    LEFT,
    RIGHT,
}

/// A straight piece of wire: a direction and a number of unit steps.
#[derive(Debug, PartialEq, Eq, Copy, Clone)]
pub struct Move {
    pub direction: Direction,
    pub distance: u32,
}

impl Move {
    pub fn new(direction: Direction, distance: u32) -> (m: Move)
        ensures
            m == (Move { direction, distance }),
    {
        Move { direction, distance }
    }

    pub fn direction(&self) -> (d: Direction)
        ensures
            d == self.direction,
    {
        self.direction
    }

    pub fn distance(&self) -> (d: u32)
        ensures
            d == self.distance,
    {
        self.distance
    }
}

/// The direction that a letter stands for: `U`, `D`, `L` or `R`.
pub open spec fn spec_convert_direction(c: u8) -> Option<Direction> {
    if c == LETTER_U {
        Some(Direction::UP)
    } else if c == LETTER_D {
        Some(Direction::DOWN)
    } else if c == LETTER_L {
        Some(Direction::LEFT)
    } else if c == LETTER_R {
        Some(Direction::RIGHT)
    } else {
        None
    }
}

/// Whether `c` is one of the characters `0` to `9`.
pub open spec fn spec_is_digit(c: u8) -> bool {
    DIGIT_0 <= c <= DIGIT_9
}

/// Whether every byte of `s` is a decimal digit.
pub open spec fn all_digits(s: Seq<u8>) -> bool {
    forall|i: int| 0 <= i < s.len() ==> spec_is_digit(#[trigger] s[i])
}

/// The number that the digit string `s` writes in base ten.
pub open spec fn spec_value(s: Seq<u8>) -> nat
    decreases s.len(),
{
    if s.len() == 0 {
        0
    } else {
        (spec_value(s.drop_last()) * 10 + (s.last() - DIGIT_0)) as nat
    }
}

/// How many of the first bytes of `s` are digits, counting no more than `max`.
pub open spec fn digit_prefix(s: Seq<u8>, max: nat) -> nat
    decreases max,
{
    if max == 0 || s.len() == 0 || !spec_is_digit(s[0]) {
        0
    } else {
        1 + digit_prefix(s.skip(1), (max - 1) as nat)
    }
}

/// The number written by the one to four digits at the start of `s`, and
/// how many bytes they take. There is none when `s` starts with no digit.
pub open spec fn spec_parse_int(s: Seq<u8>) -> Option<(nat, u32)> {
    let n = digit_prefix(s, 4);
    if n == 0 {
        None
    } else {
        Some((n, spec_value(s.take(n as int)) as u32))
    }
}

/// The move written at the start of `s`, a direction letter followed by one
/// to four digits, and how many bytes it takes. Whatever follows the fourth
/// digit is not part of the move.
pub open spec fn spec_parse_move(s: Seq<u8>) -> Option<(nat, Move)> {
    if s.len() == 0 {
        None
    } else {
        match spec_convert_direction(s[0]) {
            None => None,
            Some(direction) => match spec_parse_int(s.skip(1)) {
                None => None,
                Some((n, distance)) => Some((n + 1, Move { direction, distance })),
            },
        }
    }
}

/// The pieces of `s` between its commas, in order. A string without a comma
/// is one piece; a comma at either end borders an empty piece.
pub open spec fn split_commas(s: Seq<u8>) -> Seq<Seq<u8>>
    decreases s.len(),
{
    if s.len() == 0 {
        seq![Seq::<u8>::empty()]
    } else {
        let init = split_commas(s.drop_last());
        if s.last() == COMMA {
            init.push(Seq::<u8>::empty())
        } else {
            init.drop_last().push(init.last().push(s.last()))
        }
    }
}

/// Whether each of `tokens` starts with a move.
pub open spec fn all_moves(tokens: Seq<Seq<u8>>) -> bool {
    forall|k: int| 0 <= k < tokens.len() ==> (#[trigger] spec_parse_move(tokens[k])).is_some()
}

/// The moves written on a line, separated by commas. There is none when a
/// piece between two commas does not start with a move.
pub open spec fn spec_read_input_line(line: Seq<u8>) -> Option<Seq<Move>> {
    let tokens = split_commas(line);
    if all_moves(tokens) {
        Some(Seq::new(tokens.len(), |k: int| spec_parse_move(tokens[k]).unwrap().1))
    } else {
        None
    }
}

/// The direction that the letter `input` stands for.
pub fn convert_direction(input: u8) -> (r: Option<Direction>)
    ensures
        r == spec_convert_direction(input),
{
    if input == LETTER_U {
        Some(Direction::UP)
    } else if input == LETTER_D {
        Some(Direction::DOWN)
    } else if input == LETTER_L {
        Some(Direction::LEFT)
    } else if input == LETTER_R {
        Some(Direction::RIGHT)
    } else {
        None
    }
}

/// Reads the direction letter at the start of `input` and returns it with
/// the rest of the input.
pub fn parse_direction(input: &[u8]) -> (r: Option<(&[u8], Direction)>)
    ensures
        match r {
            Some((rest, direction)) => input@.len() > 0 && spec_convert_direction(input@[0])
                == Some(direction) && rest@ == input@.skip(1),
            None => input@.len() == 0 || spec_convert_direction(input@[0]).is_none(),
        },
{
    if input.len() == 0 {
        return None;
    }
    match convert_direction(input[0]) {
        Some(direction) => {
            let rest = slice_subrange(input, 1, input.len());
            Some((rest, direction))
        },
        None => None,
    }
}

/// Whether `c` is one of the characters `0` to `9`.
pub fn is_digit(c: u8) -> (r: bool)
    ensures
        r == spec_is_digit(c),
{
    DIGIT_0 <= c && c <= DIGIT_9
}

/// The number that `input` writes in base ten, if `input` is one or more
/// digits and the number fits in 32 bits.
pub fn parse_u32(input: &[u8]) -> (r: Option<u32>)
    ensures
        match r {
            Some(v) => input@.len() > 0 && all_digits(input@) && v == spec_value(input@),
            None => input@.len() == 0 || !all_digits(input@) || spec_value(input@) > u32::MAX,
        },
{
    if input.len() == 0 {
        return None;
    }
    let mut value: u32 = 0;
    let mut i: usize = 0;
    while i < input.len()
        invariant
            i <= input.len(),
            all_digits(input@.take(i as int)),
            value == spec_value(input@.take(i as int)),
        decreases input.len() - i,
    {
        let c: u8 = input[i];
        let ghost next = input@.take(i + 1);
        proof {
            assert(next.drop_last() =~= input@.take(i as int));
            assert(next.last() == c);
        }
        if !is_digit(c) {
            assert(!spec_is_digit(input@[i as int]));
            return None;
        }
        let digit: u32 = (c - DIGIT_0) as u32;
        let grown: u32 = match value.checked_mul(10) {
            Some(v) => match v.checked_add(digit) {
                Some(w) => w,
                None => {
                    proof {
                        if all_digits(input@) {
                            lemma_value_grows(input@, i + 1);
                        }
                    }
                    return None;
                },
            },
            None => {
                proof {
                    if all_digits(input@) {
                        lemma_value_grows(input@, i + 1);
                    }
                }
                return None;
            },
        };
        value = grown;
        i = i + 1;
        assert(all_digits(input@.take(i as int))) by {
            assert forall|k: int| 0 <= k < i implies spec_is_digit(
                #[trigger] input@.take(i as int)[k],
            ) by {
                if k < i - 1 {
                    assert(input@.take(i - 1)[k] == input@[k]);
                }
            }
        }
    }
    assert(input@.take(input.len() as int) =~= input@);
    Some(value)
}

/// A digit string is worth at least as much as any of its prefixes.
proof fn lemma_value_grows(s: Seq<u8>, n: int)
    requires
        0 <= n <= s.len(),
        all_digits(s),
    ensures
        spec_value(s.take(n)) <= spec_value(s),
    decreases s.len() - n,
{
    if n < s.len() {
        lemma_value_grows(s, n + 1);
        assert(s.take(n + 1).drop_last() =~= s.take(n));
        assert(spec_is_digit(s[n]));
        assert(s.take(n + 1).last() == s[n]);
        assert(spec_value(s.take(n + 1)) >= spec_value(s.take(n)) * 10);
    } else {
        assert(s.take(n) =~= s);
    }
}

/// A run of digits at the start of a string is no longer than the string.
proof fn lemma_digit_prefix_bound(s: Seq<u8>, max: nat)
    ensures
        digit_prefix(s, max) <= s.len(),
        digit_prefix(s, max) <= max,
    decreases max,
{
    if !(max == 0 || s.len() == 0 || !spec_is_digit(s[0])) {
        lemma_digit_prefix_bound(s.skip(1), (max - 1) as nat);
    }
}

/// The value of at most four digits is below ten thousand.
proof fn lemma_value_bound(s: Seq<u8>)
    requires
        all_digits(s),
        s.len() <= 4,
    ensures
        spec_value(s) <= 9999,
        s.len() <= 3 ==> spec_value(s) <= 999,
        s.len() <= 2 ==> spec_value(s) <= 99,
        s.len() <= 1 ==> spec_value(s) <= 9,
    decreases s.len(),
{
    if s.len() > 0 {
        assert(all_digits(s.drop_last())) by {
            assert forall|k: int| 0 <= k < s.drop_last().len() implies spec_is_digit(
                #[trigger] s.drop_last()[k],
            ) by {
                assert(s.drop_last()[k] == s[k]);
            }
        }
        lemma_value_bound(s.drop_last());
    }
}

/// Reads the one to four digits at the start of `input` and returns their
/// value with the rest of the input.
pub fn parse_int(input: &[u8]) -> (r: Option<(&[u8], u32)>)
    ensures
        match r {
            Some((rest, value)) => match spec_parse_int(input@) {
                Some((n, v)) => value == v && rest@ == input@.skip(n as int),
                None => false,
            },
            None => spec_parse_int(input@).is_none(),
        },
{
    let mut n: usize = 0;
    assert(input@.skip(0) =~= input@);
    while n < 4 && n < input.len() && is_digit(input[n])
        invariant
            n <= 4,
            n <= input.len(),
            all_digits(input@.take(n as int)),
            digit_prefix(input@, 4) == n + digit_prefix(input@.skip(n as int), (4 - n) as nat),
        decreases 4 - n,
    {
        proof {
            let tail = input@.skip(n as int);
            assert(tail[0] == input@[n as int]);
            assert(tail.skip(1) =~= input@.skip(n + 1));
            assert forall|k: int| 0 <= k < n + 1 implies spec_is_digit(
                #[trigger] input@.take(n + 1)[k],
            ) by {
                if k < n {
                    assert(input@.take(n as int)[k] == input@[k]);
                }
            }
        }
        n = n + 1;
    }
    proof {
        let tail = input@.skip(n as int);
        if n < 4 && n < input.len() {
            assert(tail[0] == input@[n as int]);
        }
        assert(digit_prefix(tail, (4 - n) as nat) == 0);
    }
    if n == 0 {
        return None;
    }
    let digits = slice_subrange(input, 0, n);
    assert(digits@ =~= input@.take(n as int));
    proof {
        lemma_value_bound(digits@);
    }
    match parse_u32(digits) {
        Some(value) => {
            let rest = slice_subrange(input, n, input.len());
            Some((rest, value))
        },
        None => None,
    }
}

/// Reads the move at the start of `input`, a direction letter followed by
/// one to four digits, and returns it with the rest of the input.
pub fn parse_move(input: &[u8]) -> (r: Option<(&[u8], Move)>)
    ensures
        match r {
            Some((rest, m)) => match spec_parse_move(input@) {
                Some((n, expected)) => m == expected && rest@ == input@.skip(n as int),
                None => false,
            },
            None => spec_parse_move(input@).is_none(),
        },
{
    match parse_direction(input) {
        None => None,
        Some((after, direction)) => match parse_int(after) {
            None => None,
            Some((rest, distance)) => {
                proof {
                    let n = spec_parse_int(input@.skip(1)).unwrap().0;
                    lemma_digit_prefix_bound(input@.skip(1), 4);
                    assert(input@.skip(1).skip(n as int) =~= input@.skip(n as int + 1));
                }
                Some((rest, Move { direction, distance }))
            },
        },
    }
}

/// Reads the moves of one wire from a line of text: moves separated by
/// commas. Returns `None` when a piece between commas does not start with a
/// move.
#[verifier::rlimit(40)]
pub fn read_input_line(line: &str) -> (r: Option<Vec<Move>>)
    ensures
        match r {
            Some(moves) => spec_read_input_line(line.spec_bytes()) == Some(moves@),
            None => spec_read_input_line(line.spec_bytes()).is_none(),
        },
{
    let bytes = line.as_bytes();
    let mut moves: Vec<Move> = Vec::new();
    let mut ok: bool = true;
    let mut start: usize = 0;
    let mut i: usize = 0;
    let ghost mut done: Seq<Seq<u8>> = Seq::empty();
    assert(bytes@.take(0) =~= Seq::<u8>::empty());
    assert(seq![Seq::<u8>::empty()] =~= done.push(bytes@.subrange(0, 0)));
    while i < bytes.len()
        invariant
            start <= i <= bytes.len(),
            split_commas(bytes@.take(i as int)) == done.push(bytes@.subrange(start as int, i as int)),
            ok ==> all_moves(done),
            ok ==> moves@ == Seq::new(done.len(), |k: int| spec_parse_move(done[k]).unwrap().1),
            !ok ==> !all_moves(done),
        decreases bytes.len() - i,
    {
        let ghost prefix = bytes@.take(i + 1);
        proof {
            assert(prefix.drop_last() =~= bytes@.take(i as int));
            assert(prefix.last() == bytes@[i as int]);
        }
        if bytes[i] == COMMA {
            let token = slice_subrange(bytes, start, i);
            let ghost before = done;
            proof {
                done = done.push(token@);
            }
            match parse_move(token) {
                Some((_, m)) => {
                    if ok {
                        moves.push(m);
                        assert(all_moves(done)) by {
                            assert forall|k: int| 0 <= k < done.len() implies (
                            #[trigger] spec_parse_move(done[k])).is_some() by {
                                if k < before.len() {
                                    assert(done[k] == before[k]);
                                }
                            }
                        }
                        assert(moves@ =~= Seq::new(
                            done.len(),
                            |k: int| spec_parse_move(done[k]).unwrap().1,
                        )) by {
                            assert forall|k: int| 0 <= k < before.len() implies done[k]
                                == before[k] by {}
                        }
                    } else {
                        assert(!all_moves(done)) by {
                            let k = choose|k: int|
                                0 <= k < before.len() && !(#[trigger] spec_parse_move(
                                    before[k],
                                )).is_some();
                            assert(done[k] == before[k]);
                        }
                    }
                },
                None => {
                    ok = false;
                    assert(!all_moves(done)) by {
                        assert(done[done.len() - 1] == token@);
                    }
                },
            }
            start = i + 1;
            i = i + 1;
            assert(bytes@.subrange(start as int, i as int) =~= Seq::<u8>::empty());
        } else {
            i = i + 1;
            assert(bytes@.subrange(start as int, i as int) =~= bytes@.subrange(
                start as int,
                i - 1,
            ).push(bytes@[i - 1]));
            assert(done.push(bytes@.subrange(start as int, i as int)) =~= done.push(
                bytes@.subrange(start as int, i - 1),
            ).drop_last().push(bytes@.subrange(start as int, i - 1).push(bytes@[i - 1])));
        }
    }
    assert(bytes@.take(bytes.len() as int) =~= bytes@);
    let token = slice_subrange(bytes, start, bytes.len());
    let ghost tokens = done.push(token@);
    match parse_move(token) {
        Some((_, m)) => {
            if ok {
                moves.push(m);
                assert(all_moves(tokens)) by {
                    assert forall|k: int| 0 <= k < tokens.len() implies (
                    #[trigger] spec_parse_move(tokens[k])).is_some() by {
                        if k < done.len() {
                            assert(tokens[k] == done[k]);
                        }
                    }
                }
                assert(moves@ =~= Seq::new(
                    tokens.len(),
                    |k: int| spec_parse_move(tokens[k]).unwrap().1,
                )) by {
                    assert forall|k: int| 0 <= k < done.len() implies tokens[k] == done[k] by {}
                }
                Some(moves)
            } else {
                assert(!all_moves(tokens)) by {
                    let k = choose|k: int|
                        0 <= k < done.len() && !(#[trigger] spec_parse_move(done[k])).is_some();
                    assert(tokens[k] == done[k]);
                }
                None
            }
        },
        None => {
            assert(!all_moves(tokens)) by {
                assert(tokens[tokens.len() - 1] == token@);
            }
            None
        },
    }
}

} // verus!
