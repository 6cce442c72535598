use vstd::prelude::*;

verus! {

/// The decimal digits of `n`, most significant first. Zero has one digit.
pub open spec fn digits(n: nat) -> Seq<u32>
    decreases n,
{
    if n < 10 {
        seq![n as u32]
    } else {
        digits(n / 10).push((n % 10) as u32)
    }
}

/// The character that shows the digit `d`.
pub open spec fn digit_char(d: u32) -> char {
    (d + 48) as char
}

/// The digits at `i` and `i + 1` are equal.
pub open spec fn pair_at(d: Seq<u32>, i: int) -> bool {
    0 <= i && i + 1 < d.len() && d[i] == d[i + 1]
}

/// Two neighbouring digits of `d` are equal.
pub open spec fn spec_adjacent_pair(d: Seq<u32>) -> bool {
    exists|i: int| pair_at(d, i)
}

/// The digits at `i` and `i + 1` are equal and no neighbour of the two
/// equals them: they are a run of exactly two.
pub open spec fn lone_pair_at(d: Seq<u32>, i: int) -> bool {
    &&& 0 <= i && i + 1 < d.len()
    &&& d[i] == d[i + 1]
    &&& (i > 0 ==> d[i - 1] != d[i])
    &&& (i + 2 < d.len() ==> d[i + 2] != d[i])
}

/// Some run of equal digits in `d` has length exactly two.
pub open spec fn spec_lone_pair(d: Seq<u32>) -> bool {
    exists|i: int| lone_pair_at(d, i)
}

/// The digits of `d` never decrease from left to right.
pub open spec fn spec_monotonic(d: Seq<u32>) -> bool {
    forall|i: int, j: int| 0 <= i <= j < d.len() ==> #[trigger] d[i] <= #[trigger] d[j]
}

/// The three properties that decide whether a number is a valid password.
#[derive(Clone, Copy, Debug)]
pub struct PasswordProps {
    pub six_digit: bool,
    pub adjacent_pair: bool,
    pub monotonic: bool,
}

proof fn lemma_digits_len(n: nat)
    ensures
        digits(n).len() >= 1,
        n < 10 ==> digits(n).len() == 1,
        10 <= n ==> digits(n).len() == digits(n / 10).len() + 1,
        forall|i: int| 0 <= i < digits(n).len() ==> #[trigger] digits(n)[i] <= 9,
    decreases n,
{
    if n >= 10 {
        lemma_digits_len(n / 10);
    }
}

proof fn lemma_six_digits(n: nat)
    ensures
        digits(n).len() == 6 <==> 100000 <= n <= 999999,
{
    reveal_with_fuel(digits, 8);
}

impl PasswordProps {
    /// The properties of `pw`, where a pair is any two equal neighbours.
    pub fn create(pw: u32) -> (p: PasswordProps)
        ensures
            p.six_digit == (digits(pw as nat).len() == 6),
            p.adjacent_pair == spec_adjacent_pair(digits(pw as nat)),
            p.monotonic == spec_monotonic(digits(pw as nat)),
    {
        let six_digit = PasswordProps::is_six_digit(&pw);
        let adjacent_pair = PasswordProps::has_adjacent_pair(&pw);
        let monotonic = PasswordProps::is_monotonic(&pw);
        PasswordProps { six_digit, adjacent_pair, monotonic }
    }

    /// The properties of `pw`, where a pair is two equal neighbours that are
    /// not part of a longer run.
    pub fn create2(pw: u32) -> (p: PasswordProps)
        ensures
            p.six_digit == (digits(pw as nat).len() == 6),
            p.adjacent_pair == spec_lone_pair(digits(pw as nat)),
            p.monotonic == spec_monotonic(digits(pw as nat)),
    {
        let six_digit = PasswordProps::is_six_digit(&pw);
        let adjacent_pair = PasswordProps::has_adjacent_pair_2(&pw);
        let monotonic = PasswordProps::is_monotonic(&pw);
        PasswordProps { six_digit, adjacent_pair, monotonic }
    }

    /// Whether `pw` is written with exactly six digits.
    pub fn is_six_digit(pw: &u32) -> (r: bool)
        ensures
            r == (digits(*pw as nat).len() == 6),
            r == (100000 <= *pw <= 999999),
    {
        proof {
            lemma_six_digits(*pw as nat);
        }
        let cs = PasswordProps::split_chars(pw);
        cs.len() == 6
    }

    /// Whether two neighbouring digits of `pw` are equal.
    pub fn has_adjacent_pair(pw: &u32) -> (r: bool)
        ensures
            r == spec_adjacent_pair(digits(*pw as nat)),
    {
        let ds = PasswordProps::split(pw);
        let mut i: usize = 1;
        while i < ds.len()
            invariant
                1 <= i,
                ds@ == digits(*pw as nat),
                forall|k: int| 0 <= k && k + 1 < i ==> !pair_at(ds@, k),
            decreases ds.len() - i,
        {
            if ds[i - 1] == ds[i] {
                assert(pair_at(ds@, i - 1));
                return true;
            }
            i = i + 1;
        }
        false
    }

    /// Whether some run of equal digits in `pw` has length exactly two.
    pub fn has_adjacent_pair_2(pw: &u32) -> (r: bool)
        ensures
            r == spec_lone_pair(digits(*pw as nat)),
    {
        let ds = PasswordProps::split(pw);
        proof {
            lemma_digits_len(*pw as nat);
        }
        let mut tally: usize = 1;
        let mut i: usize = 1;
        // `tally` is the length of the run of equal digits that ends at i - 1.
        while i < ds.len()
            invariant
                1 <= i <= ds.len(),
                1 <= tally <= i,
                ds@ == digits(*pw as nat),
                forall|k: int| i - tally <= k < i ==> #[trigger] ds@[k] == ds@[i - 1],
                i - tally > 0 ==> ds@[i - tally - 1] != ds@[i - 1],
                forall|k: int| 0 <= k && k + 2 <= i - tally ==> !lone_pair_at(ds@, k),
                forall|k: int| i - tally <= k && k + 2 < i ==> !lone_pair_at(ds@, k),
                tally != 2 ==> forall|k: int| i - tally <= k && k + 2 <= i ==> !lone_pair_at(ds@, k),
            decreases ds.len() - i,
        {
            if ds[i] == ds[i - 1] {
                tally = tally + 1;
            } else if tally == 2 {
                assert(lone_pair_at(ds@, i - 2));
                return true;
            } else {
                tally = 1;
            }
            i = i + 1;
        }
        if tally == 2 {
            assert(lone_pair_at(ds@, i - 2));
        }
        tally == 2
    }

    /// The decimal digits of `pw` as numbers, most significant first.
    pub fn split(pw: &u32) -> (r: Vec<u32>)
        ensures
            r@ == digits(*pw as nat),
    {
        let mut low: Vec<u32> = Vec::new();
        let mut rest: u32 = *pw;
        while rest >= 10
            invariant
                digits(*pw as nat) == digits(rest as nat) + low@.reverse(),
            decreases rest,
        {
            let ghost before = low@;
            low.push(rest % 10);
            assert(low@.reverse() =~= seq![(rest % 10) as u32] + before.reverse());
            assert(digits(rest as nat) + before.reverse() =~= digits((rest / 10) as nat)
                + low@.reverse());
            rest = rest / 10;
        }
        let mut r: Vec<u32> = Vec::new();
        r.push(rest);
        let mut k: usize = low.len();
        while k > 0
            invariant
                k <= low.len(),
                rest < 10,
                r@ == seq![rest] + low@.reverse().take(low.len() - k),
            decreases k,
        {
            k = k - 1;
            r.push(low[k]);
            assert(r@ =~= seq![rest] + low@.reverse().take(low.len() - k));
        }
        assert(low@.reverse().take(low.len() as int) =~= low@.reverse());
        r
    }

    /// The decimal digits of `pw` as characters, most significant first.
    pub fn split_chars(pw: &u32) -> (r: Vec<char>)
        ensures
            r@ == digits(*pw as nat).map_values(|d: u32| digit_char(d)),
    {
        let ds = PasswordProps::split(pw);
        proof {
            lemma_digits_len(*pw as nat);
        }
        let mut r: Vec<char> = Vec::new();
        let mut i: usize = 0;
        while i < ds.len()
            invariant
                i <= ds.len(),
                ds@ == digits(*pw as nat),
                forall|k: int| 0 <= k < ds.len() ==> #[trigger] ds@[k] <= 9,
                r@ == ds@.take(i as int).map_values(|d: u32| digit_char(d)),
            decreases ds.len() - i,
        {
            let c: char = ((ds[i] + 48) as u8) as char;
            r.push(c);
            i = i + 1;
            assert(r@ =~= ds@.take(i as int).map_values(|d: u32| digit_char(d)));
        }
        assert(ds@.take(ds.len() as int) =~= ds@);
        r
    }

    /// Whether the digits of `pw` never decrease from left to right.
    pub fn is_monotonic(pw: &u32) -> (r: bool)
        ensures
            r == spec_monotonic(digits(*pw as nat)),
    {
        let ds = PasswordProps::split(pw);
        let mut i: usize = 1;
        while i < ds.len()
            invariant
                1 <= i,
                ds@ == digits(*pw as nat),
                forall|a: int, b: int|
                    0 <= a <= b < i && b < ds.len() ==> #[trigger] ds@[a] <= #[trigger] ds@[b],
            decreases ds.len() - i,
        {
            if ds[i] < ds[i - 1] {
                return false;
            }
            i = i + 1;
        }
        true
    }

    /// A number is a valid password when all three properties hold.
    pub fn valid(&self) -> (r: bool)
        ensures
            r == (self.six_digit && self.adjacent_pair && self.monotonic),
    {
        self.six_digit && self.adjacent_pair && self.monotonic
    }
}

} // verus!
