use vstd::prelude::*;

verus! {

/// The value of the base pattern 0, 1, 0, -1 at place `k` for `k` below 4.
pub open spec fn base_pattern(k: int) -> i64 {
    if k == 1 {
        1i64
    } else if k == 3 {
        -1i64
    } else {
        0i64
    }
}

/// The multiplier for the digit at place `i` (counted from 0) when the
/// output digit `iteration` (counted from 1) is computed: the base pattern
/// with every value repeated `iteration` times, less its very first value.
pub open spec fn spec_pattern_at(i: int, iteration: int) -> i64 {
    base_pattern(((i + 1) / iteration) % 4)
}

/// Whether `v` is a 64-bit signed integer.
pub open spec fn fits(v: int) -> bool {
    i64::MIN <= v <= i64::MAX
}

/// The sum of the products `a(k) * b(k)` for `k` below `n`.
pub open spec fn spec_dot(a: spec_fn(int) -> int, b: spec_fn(int) -> int, n: int) -> int
    decreases n,
{
    if n <= 0 {
        0
    } else {
        spec_dot(a, b, n - 1) + a(n - 1) * b(n - 1)
    }
}

/// Whether the sum of the products `a(k) * b(k)` for `k` below `n` can be
/// added up from the left in 64 bits: each product and each sum on the way
/// is a 64-bit integer.
pub open spec fn dot_fits(a: spec_fn(int) -> int, b: spec_fn(int) -> int, n: int) -> bool
    decreases n,
{
    if n <= 0 {
        true
    } else {
        dot_fits(a, b, n - 1) && fits(a(n - 1) * b(n - 1)) && fits(spec_dot(a, b, n))
    }
}

/// Once a sum no longer fits, no longer sum of the same products does.
proof fn lemma_dot_fits_prefix(a: spec_fn(int) -> int, b: spec_fn(int) -> int, n: int, m: int)
    requires
        n <= m,
        !dot_fits(a, b, n),
    ensures
        !dot_fits(a, b, m),
    decreases m - n,
{
    if n < m {
        lemma_dot_fits_prefix(a, b, n, m - 1);
    }
}

/// The element of `v` at place `k` as an integer.
pub open spec fn at(v: Seq<i64>) -> spec_fn(int) -> int {
    |k: int| v[k] as int
}

/// The element of column `col` of `m` in row `k` as an integer.
pub open spec fn column(m: Seq<Vec<i64>>, col: int) -> spec_fn(int) -> int {
    |k: int| m[k]@[col] as int
}

/// The pattern for output digit `iteration` at place `k`, as an integer.
pub open spec fn pattern_fn(iteration: int) -> spec_fn(int) -> int {
    |k: int| spec_pattern_at(k, iteration) as int
}

/// The `i` by `i` matrix with ones on the diagonal and zeros elsewhere.
pub fn identity(i: usize) -> (r: Vec<Vec<i64>>)
    ensures
        r@.len() == i,
        forall|n: int| 0 <= n < i ==> (#[trigger] r@[n])@.len() == i,
        forall|n: int, m: int|
            0 <= n < i && 0 <= m < i ==> (#[trigger] r@[n]@[m]) == if m == n {
                1i64
            } else {
                0i64
            },
{
    let mut r: Vec<Vec<i64>> = Vec::new();
    let mut n: usize = 0;
    while n < i
        invariant
            n <= i,
            r@.len() == n,
            forall|a: int| 0 <= a < n ==> (#[trigger] r@[a])@.len() == i,
            forall|a: int, m: int|
                0 <= a < n && 0 <= m < i ==> (#[trigger] r@[a]@[m]) == if m == a {
                    1i64
                } else {
                    0i64
                },
        decreases i - n,
    {
        let mut row: Vec<i64> = Vec::new();
        let mut m: usize = 0;
        while m < i
            invariant
                m <= i,
                n < i,
                row@.len() == m,
                forall|b: int|
                    0 <= b < m ==> (#[trigger] row@[b]) == if b == n {
                        1i64
                    } else {
                        0i64
                    },
            decreases i - m,
        {
            row.push(
                if m == n {
                    1
                } else {
                    0
                },
            );
            m = m + 1;
        }
        let ghost before = r@;
        r.push(row);
        proof {
            assert forall|a: int| 0 <= a < n + 1 implies (#[trigger] r@[a])@.len() == i by {
                if a < n {
                    assert(r@[a] == before[a]);
                }
            }
            assert forall|a: int, m: int| 0 <= a < n + 1 && 0 <= m < i implies (
            #[trigger] r@[a]@[m]) == if m == a {
                1i64
            } else {
                0i64
            } by {
                if a < n {
                    assert(r@[a] == before[a]);
                }
            }
        }
        n = n + 1;
    }
    r
}

/// The multipliers for output digit `iteration` (counted from 1) of a
/// signal of `input_length` digits.
pub fn pattern(input_length: usize, iteration: usize) -> (r: Vec<i64>)
    requires
        iteration >= 1,
        input_length < usize::MAX,
    ensures
        r@.len() == input_length,
        forall|k: int|
            0 <= k < input_length ==> #[trigger] r@[k] == spec_pattern_at(k, iteration as int),
{
    let mut r: Vec<i64> = Vec::new();
    let mut i: usize = 1;
    while i < input_length + 1
        invariant
            1 <= i <= input_length + 1,
            input_length < usize::MAX,
            iteration >= 1,
            r@.len() == i - 1,
            forall|k: int|
                0 <= k < i - 1 ==> #[trigger] r@[k] == spec_pattern_at(k, iteration as int),
        decreases input_length + 1 - i,
    {
        let k: usize = (i / iteration) % 4;
        r.push(
            if k == 1 {
                1
            } else if k == 3 {
                -1
            } else {
                0
            },
        );
        i = i + 1;
    }
    r
}

/// The number of places at which both `v` and `row` have an entry.
pub open spec fn overlap(v: Seq<i64>, row: Seq<i64>) -> int {
    if v.len() <= row.len() {
        v.len() as int
    } else {
        row.len() as int
    }
}

/// Whether the products of the entries of `v` and `row` can be added up in
/// 64 bits, as far as both go.
pub open spec fn row_fits(v: Seq<i64>, row: Seq<i64>) -> bool {
    dot_fits(at(v), at(row), overlap(v, row))
}

/// The sum of the products of the entries of `v` and `row`, as far as both
/// go.
pub open spec fn row_product(v: Seq<i64>, row: Seq<i64>) -> int {
    spec_dot(at(v), at(row), overlap(v, row))
}

/// The product of the row vector `v` with each row of `m`: entry `i` is
/// the sum of the products of the entries of `v` and of row `i` of `m`, as
/// far as both go. Returns `None` when one of the sums cannot be added up in
/// 64 bits.
pub fn vector_mul(v: &Vec<i64>, m: &Vec<Vec<i64>>) -> (r: Option<Vec<i64>>)
    requires
        m@.len() >= v@.len(),
    ensures
        match r {
            Some(w) => {
                &&& w@.len() == v@.len()
                &&& forall|i: int| 0 <= i < v@.len() ==> row_fits(v@, (#[trigger] m@[i])@)
                &&& forall|i: int|
                    0 <= i < v@.len() ==> (#[trigger] w@[i]) == row_product(v@, m@[i]@)
            },
            None => exists|i: int| 0 <= i < v@.len() && !row_fits(v@, (#[trigger] m@[i])@),
        },
{
    let mut w: Vec<i64> = Vec::new();
    let mut i: usize = 0;
    while i < v.len()
        invariant
            i <= v.len(),
            m@.len() >= v@.len(),
            w@.len() == i,
            forall|k: int| 0 <= k < i ==> row_fits(v@, (#[trigger] m@[k])@),
            forall|k: int| 0 <= k < i ==> (#[trigger] w@[k]) == row_product(v@, m@[k]@),
        decreases v.len() - i,
    {
        let row: &Vec<i64> = &m[i];
        let n: usize = if v.len() <= row.len() {
            v.len()
        } else {
            row.len()
        };
        match dot(v, row, n) {
            Some(sum) => {
                w.push(sum);
            },
            None => {
                assert(!row_fits(v@, m@[i as int]@));
                return None;
            },
        }
        i = i + 1;
    }
    Some(w)
}

/// The sum of the products of the first `n` entries of `a` and `b`, added
/// up from the left, or `None` when it cannot be added up in 64 bits.
pub fn dot(a: &Vec<i64>, b: &Vec<i64>, n: usize) -> (r: Option<i64>)
    requires
        n <= a@.len(),
        n <= b@.len(),
    ensures
        match r {
            Some(sum) => dot_fits(at(a@), at(b@), n as int) && sum == spec_dot(
                at(a@),
                at(b@),
                n as int,
            ),
            None => !dot_fits(at(a@), at(b@), n as int),
        },
{
    let mut sum: i64 = 0;
    let mut k: usize = 0;
    while k < n
        invariant
            k <= n,
            n <= a@.len(),
            n <= b@.len(),
            dot_fits(at(a@), at(b@), k as int),
            sum == spec_dot(at(a@), at(b@), k as int),
        decreases n - k,
    {
        let product: Option<i64> = a[k].checked_mul(b[k]);
        let next: Option<i64> = match product {
            Some(p) => sum.checked_add(p),
            None => None,
        };
        match next {
            Some(s) => {
                sum = s;
            },
            None => {
                proof {
                    assert(!dot_fits(at(a@), at(b@), k + 1));
                    lemma_dot_fits_prefix(at(a@), at(b@), k + 1, n as int);
                }
                return None;
            },
        }
        k = k + 1;
    }
    Some(sum)
}

/// The sum of the products of the digits of `input` with the multipliers
/// for output digit `iteration`, or `None` when it cannot be added up in 64
/// bits.
pub fn apply_phase(input: &Vec<i64>, iteration: usize) -> (r: Option<i64>)
    requires
        iteration >= 1,
        input@.len() < usize::MAX,
    ensures
        match r {
            Some(sum) => dot_fits(at(input@), pattern_fn(iteration as int), input@.len() as int)
                && sum == spec_dot(
                at(input@),
                pattern_fn(iteration as int),
                input@.len() as int,
            ),
            None => !dot_fits(at(input@), pattern_fn(iteration as int), input@.len() as int),
        },
{
    let multipliers = pattern(input.len(), iteration);
    let r = dot(input, &multipliers, input.len());
    proof {
        lemma_dot_same(
            at(input@),
            at(multipliers@),
            pattern_fn(iteration as int),
            input@.len() as int,
        );
    }
    r
}

/// Sums of products depend only on the factors that are summed over.
proof fn lemma_dot_same(
    a: spec_fn(int) -> int,
    b: spec_fn(int) -> int,
    c: spec_fn(int) -> int,
    n: int,
)
    requires
        forall|k: int| 0 <= k < n ==> #[trigger] b(k) == c(k),
    ensures
        spec_dot(a, b, n) == spec_dot(a, c, n),
        dot_fits(a, b, n) == dot_fits(a, c, n),
    decreases n,
{
    if n > 0 {
        lemma_dot_same(a, b, c, n - 1);
    }
}

/// The last decimal digit of `v`.
pub open spec fn last_digit(v: int) -> int {
    if v < 0 {
        (-v) % 10
    } else {
        v % 10
    }
}

/// Whether `output` is `input` after one phase: every digit of `output` is
/// the last digit of the sum for its place.
pub open spec fn is_phase_of(input: Seq<i64>, output: Seq<i64>) -> bool {
    &&& output.len() == input.len()
    &&& forall|i: int|
        0 <= i < input.len() ==> (#[trigger] output[i]) == last_digit(
            spec_dot(at(input), pattern_fn(i + 1), input.len() as int),
        )
}

/// Whether the sum for every place of `input` can be added up in 64 bits
/// and is not the least 64-bit integer.
pub open spec fn phase_fits(input: Seq<i64>) -> bool {
    forall|i: int|
        0 <= i < input.len() ==> dot_fits(at(input), #[trigger] pattern_fn(i + 1), input.len() as int)
            && spec_dot(at(input), pattern_fn(i + 1), input.len() as int) != i64::MIN
}

/// The signal after one phase, or `None` when a sum cannot be added up in
/// 64 bits or has no absolute value there.
pub fn apply_one_phase(input: &Vec<i64>) -> (r: Option<Vec<i64>>)
    requires
        input@.len() < usize::MAX,
    ensures
        match r {
            Some(output) => phase_fits(input@) && is_phase_of(input@, output@),
            None => !phase_fits(input@),
        },
{
    let mut next: Vec<i64> = Vec::new();
    let mut ix: usize = 1;
    while ix < input.len() + 1
        invariant
            1 <= ix <= input@.len() + 1,
            input@.len() < usize::MAX,
            next@.len() == ix - 1,
            forall|i: int|
                0 <= i < ix - 1 ==> dot_fits(
                    at(input@),
                    #[trigger] pattern_fn(i + 1),
                    input@.len() as int,
                ) && spec_dot(at(input@), pattern_fn(i + 1), input@.len() as int) != i64::MIN,
            forall|i: int|
                0 <= i < ix - 1 ==> (#[trigger] next@[i]) == last_digit(
                    spec_dot(at(input@), pattern_fn(i + 1), input@.len() as int),
                ),
        decreases input@.len() + 1 - ix,
    {
        let sum: i64 = match apply_phase(input, ix) {
            Some(sum) => sum,
            None => {
                assert(!dot_fits(at(input@), pattern_fn((ix - 1) + 1), input@.len() as int));
                return None;
            },
        };
        if sum == i64::MIN {
            assert(spec_dot(at(input@), pattern_fn((ix - 1) + 1), input@.len() as int)
                == i64::MIN);
            return None;
        }
        let magnitude: i64 = if sum < 0 {
            -sum
        } else {
            sum
        };
        next.push(magnitude % 10);
        ix = ix + 1;
    }
    Some(next)
}

/// The signal after `phase_count` phases, or `None` when one of the phases
/// cannot be computed.
pub open spec fn spec_apply_phases(input: Seq<i64>, phase_count: nat, output: Option<Seq<i64>>)
    -> bool
    decreases phase_count,
{
    if phase_count == 0 {
        output == Some(input)
    } else if !phase_fits(input) {
        output.is_none()
    } else {
        exists|middle: Seq<i64>| #[trigger]
            is_phase_of(input, middle) && spec_apply_phases(
                middle,
                (phase_count - 1) as nat,
                output,
            )
    }
}

/// The signal after `phase_count` phases, or `None` when one of the phases
/// cannot be computed.
pub fn apply_phases(input: &Vec<i64>, phase_count: usize) -> (r: Option<Vec<i64>>)
    requires
        input@.len() < usize::MAX,
    ensures
        spec_apply_phases(
            input@,
            phase_count as nat,
            match r {
                Some(output) => Some(output@),
                None => None,
            },
        ),
    decreases phase_count,
{
    if phase_count == 0 {
        let copy = input.clone();
        assert(copy@ =~= input@);
        return Some(copy);
    }
    match apply_one_phase(input) {
        None => None,
        Some(middle) => {
            let r = apply_phases(&middle, phase_count - 1);
            assert(is_phase_of(input@, middle@));
            r
        },
    }
}

/// Whether `m1` and `m2` can be multiplied: `m1` has a first row, every row
/// of `m1` is at least as long as `m1` has rows, and `m2` has at least as
/// many rows, each at least as long as the first row of `m1`.
pub open spec fn multipliable(m1: Seq<Vec<i64>>, m2: Seq<Vec<i64>>) -> bool {
    &&& m1.len() >= 1
    &&& m2.len() >= m1.len()
    &&& forall|row: int| 0 <= row < m1.len() ==> (#[trigger] m1[row])@.len() >= m1.len()
    &&& forall|ix: int| 0 <= ix < m1.len() ==> (#[trigger] m2[ix])@.len() >= m1[0]@.len()
}

/// Whether the entry of the product of `m1` and `m2` in `row` and `col` can
/// be added up in 64 bits.
pub open spec fn entry_fits(m1: Seq<Vec<i64>>, m2: Seq<Vec<i64>>, row: int, col: int) -> bool {
    dot_fits(at(m1[row]@), column(m2, col), m1.len() as int)
}

/// The entry of the product of `m1` and `m2` in `row` and `col`: the sum
/// over `ix`, below the number of rows of `m1`, of entry `ix` of that row of
/// `m1` times entry `col` of row `ix` of `m2`.
pub open spec fn entry(m1: Seq<Vec<i64>>, m2: Seq<Vec<i64>>, row: int, col: int) -> int {
    spec_dot(at(m1[row]@), column(m2, col), m1.len() as int)
}

/// The product of the matrices `m1` and `m2`, with as many rows as `m1` has
/// and as many columns as the first row of `m1`. Returns `None` when an
/// entry cannot be added up in 64 bits.
pub fn matrix_mul(m1: &Vec<Vec<i64>>, m2: &Vec<Vec<i64>>) -> (r: Option<Vec<Vec<i64>>>)
    requires
        multipliable(m1@, m2@),
    ensures
        match r {
            Some(p) => {
                &&& p@.len() == m1@.len()
                &&& forall|row: int| 0 <= row < p@.len() ==> (#[trigger] p@[row])@.len() == m1@[0]@.len()
                &&& forall|row: int, col: int|
                    0 <= row < m1@.len() && 0 <= col < m1@[0]@.len() ==> #[trigger] entry_fits(
                        m1@,
                        m2@,
                        row,
                        col,
                    )
                &&& forall|row: int, col: int|
                    0 <= row < m1@.len() && 0 <= col < m1@[0]@.len() ==> (#[trigger] p@[row]@[col])
                        == entry(m1@, m2@, row, col)
            },
            None => exists|row: int, col: int|
                0 <= row < m1@.len() && 0 <= col < m1@[0]@.len() && !#[trigger] entry_fits(
                    m1@,
                    m2@,
                    row,
                    col,
                ),
        },
{
    let width: usize = m1[0].len();
    let height: usize = m1.len();
    let mut p: Vec<Vec<i64>> = Vec::new();
    let mut row: usize = 0;
    while row < height
        invariant
            row <= height,
            height == m1@.len(),
            width == m1@[0]@.len(),
            multipliable(m1@, m2@),
            p@.len() == row,
            forall|a: int| 0 <= a < row ==> (#[trigger] p@[a])@.len() == width,
            forall|a: int, col: int|
                0 <= a < row && 0 <= col < width ==> #[trigger] entry_fits(m1@, m2@, a, col),
            forall|a: int, col: int|
                0 <= a < row && 0 <= col < width ==> (#[trigger] p@[a]@[col]) == entry(
                    m1@,
                    m2@,
                    a,
                    col,
                ),
        decreases height - row,
    {
        let mut line: Vec<i64> = Vec::new();
        let mut col: usize = 0;
        while col < width
            invariant
                col <= width,
                row < height,
                height == m1@.len(),
                width == m1@[0]@.len(),
                multipliable(m1@, m2@),
                line@.len() == col,
                forall|c: int| 0 <= c < col ==> #[trigger] entry_fits(m1@, m2@, row as int, c),
                forall|c: int|
                    0 <= c < col ==> (#[trigger] line@[c]) == entry(m1@, m2@, row as int, c),
            decreases width - col,
        {
            let mut sum: i64 = 0;
            let mut ix: usize = 0;
            let ghost a = at(m1@[row as int]@);
            let ghost b = column(m2@, col as int);
            while ix < height
                invariant
                    ix <= height,
                    row < height,
                    col < width,
                    height == m1@.len(),
                    width == m1@[0]@.len(),
                    multipliable(m1@, m2@),
                    a == at(m1@[row as int]@),
                    b == column(m2@, col as int),
                    dot_fits(a, b, ix as int),
                    sum == spec_dot(a, b, ix as int),
                decreases height - ix,
            {
                assert(m1@[row as int]@.len() >= height);
                assert(m2@[ix as int]@.len() >= width);
                let product: Option<i64> = m1[row][ix].checked_mul(m2[ix][col]);
                let next: Option<i64> = match product {
                    Some(v) => sum.checked_add(v),
                    None => None,
                };
                match next {
                    Some(s) => {
                        sum = s;
                    },
                    None => {
                        proof {
                            assert(!dot_fits(a, b, ix + 1));
                            lemma_dot_fits_prefix(a, b, ix + 1, height as int);
                            assert(!entry_fits(m1@, m2@, row as int, col as int));
                        }
                        return None;
                    },
                }
                ix = ix + 1;
            }
            line.push(sum);
            assert(entry_fits(m1@, m2@, row as int, col as int));
            col = col + 1;
        }
        let ghost before = p@;
        p.push(line);
        proof {
            assert forall|a: int| 0 <= a < row + 1 implies (#[trigger] p@[a])@.len() == width by {
                if a < row {
                    assert(p@[a] == before[a]);
                }
            }
            assert forall|a: int, col: int| 0 <= a < row + 1 && 0 <= col < width implies (
            #[trigger] p@[a]@[col]) == entry(m1@, m2@, a, col) by {
                if a < row {
                    assert(p@[a] == before[a]);
                }
            }
        }
        row = row + 1;
    }
    Some(p)
}

/// Whether `m` is a square matrix of `n` rows.
pub open spec fn square(m: Seq<Vec<i64>>, n: int) -> bool {
    m.len() == n && forall|row: int| 0 <= row < n ==> (#[trigger] m[row])@.len() == n
}

/// Whether every entry of the product of `m1` and `m2` can be added up in
/// 64 bits.
pub open spec fn product_fits(m1: Seq<Vec<i64>>, m2: Seq<Vec<i64>>) -> bool {
    forall|row: int, col: int|
        0 <= row < m1.len() && 0 <= col < m1[0]@.len() ==> #[trigger] entry_fits(m1, m2, row, col)
}

/// Whether `p` is the product of the square matrices `m1` and `m2`.
pub open spec fn is_product(m1: Seq<Vec<i64>>, m2: Seq<Vec<i64>>, p: Seq<Vec<i64>>) -> bool {
    &&& square(p, m1.len() as int)
    &&& forall|row: int, col: int|
        0 <= row < m1.len() && 0 <= col < m1.len() ==> (#[trigger] p[row]@[col]) == entry(
            m1,
            m2,
            row,
            col,
        )
}

/// Whether `out` is `acc` times the power `count` of `pm`, multiplied out
/// by squaring: for each binary digit of `count`, the lowest first, `acc`
/// is multiplied by `pm` if the digit is 1, and `pm` is squared as long as
/// digits are left.
pub open spec fn powered(acc: Seq<Vec<i64>>, pm: Seq<Vec<i64>>, count: nat, out: Seq<Vec<i64>>)
    -> bool
    decreases count,
{
    exists|next: Seq<Vec<i64>>| #[trigger]
        multiplied(acc, pm, count, next) && if count / 2 == 0 {
            out == next
        } else {
            exists|squared: Seq<Vec<i64>>| #[trigger]
                is_product(pm, pm, squared) && product_fits(pm, pm) && powered(
                    next,
                    squared,
                    count / 2,
                    out,
                )
        }
}

/// Whether `next` is `acc` after the lowest binary digit of `count` has
/// been dealt with.
pub open spec fn multiplied(acc: Seq<Vec<i64>>, pm: Seq<Vec<i64>>, count: nat, next: Seq<Vec<i64>>)
    -> bool {
    if count % 2 == 1 {
        is_product(acc, pm, next) && product_fits(acc, pm)
    } else {
        next == acc
    }
}

/// Whether multiplying out `acc` times the power `count` of `pm` by
/// squaring meets a product with an entry that cannot be added up in 64
/// bits.
pub open spec fn power_overflows(acc: Seq<Vec<i64>>, pm: Seq<Vec<i64>>, count: nat) -> bool
    decreases count,
{
    (count % 2 == 1 && !product_fits(acc, pm)) || exists|next: Seq<Vec<i64>>| #[trigger]
        multiplied(acc, pm, count, next) && count / 2 != 0 && (!product_fits(pm, pm) || exists|
        squared: Seq<Vec<i64>>,
    | #[trigger]
        is_product(pm, pm, squared) && power_overflows(next, squared, count / 2))
}

/// The matrix whose row `i` holds the multipliers for output digit `i + 1`
/// of a signal of `n` digits.
pub fn phase_matrix(n: usize) -> (m: Vec<Vec<i64>>)
    requires
        n < usize::MAX,
    ensures
        square(m@, n as int),
        forall|row: int, col: int|
            0 <= row < n && 0 <= col < n ==> (#[trigger] m@[row]@[col]) == spec_pattern_at(
                col,
                row + 1,
            ),
{
    let mut m: Vec<Vec<i64>> = Vec::new();
    let mut i: usize = 1;
    while i < n + 1
        invariant
            1 <= i <= n + 1,
            n < usize::MAX,
            m@.len() == i - 1,
            forall|row: int| 0 <= row < i - 1 ==> (#[trigger] m@[row])@.len() == n,
            forall|row: int, col: int|
                0 <= row < i - 1 && 0 <= col < n ==> (#[trigger] m@[row]@[col])
                    == spec_pattern_at(col, row + 1),
        decreases n + 1 - i,
    {
        let row: Vec<i64> = pattern(n, i);
        let ghost before = m@;
        m.push(row);
        proof {
            assert forall|r: int| 0 <= r < i implies (#[trigger] m@[r])@.len() == n by {
                if r < i - 1 {
                    assert(m@[r] == before[r]);
                }
            }
            assert forall|r: int, col: int| 0 <= r < i && 0 <= col < n implies (
            #[trigger] m@[r]@[col]) == spec_pattern_at(col, r + 1) by {
                if r < i - 1 {
                    assert(m@[r] == before[r]);
                }
            }
        }
        i = i + 1;
    }
    m
}

/// The product of two square matrices of the same size, with what it owes.
fn square_mul(m1: &Vec<Vec<i64>>, m2: &Vec<Vec<i64>>) -> (r: Option<Vec<Vec<i64>>>)
    requires
        m1@.len() >= 1,
        square(m1@, m1@.len() as int),
        square(m2@, m1@.len() as int),
    ensures
        match r {
            Some(p) => is_product(m1@, m2@, p@) && product_fits(m1@, m2@),
            None => !product_fits(m1@, m2@),
        },
{
    matrix_mul(m1, m2)
}

/// Whether `m` is the identity matrix of `n` rows.
pub open spec fn is_identity(m: Seq<Vec<i64>>, n: int) -> bool {
    &&& square(m, n)
    &&& forall|row: int, col: int|
        0 <= row < n && 0 <= col < n ==> (#[trigger] m[row]@[col]) == if col == row {
            1i64
        } else {
            0i64
        }
}

/// Whether `m` is the matrix whose row `i` holds the multipliers for output
/// digit `i + 1` of a signal of `n` digits.
pub open spec fn is_pattern(m: Seq<Vec<i64>>, n: int) -> bool {
    &&& square(m, n)
    &&& forall|row: int, col: int|
        0 <= row < n && 0 <= col < n ==> (#[trigger] m[row]@[col]) == spec_pattern_at(
            col,
            row + 1,
        )
}

/// Whether `v` is the signal `input` times the matrix `out`.
pub open spec fn is_image(input: Seq<i64>, out: Seq<Vec<i64>>, v: Seq<i64>) -> bool {
    &&& v.len() == input.len()
    &&& forall|i: int| 0 <= i < input.len() ==> row_fits(input, (#[trigger] out[i])@)
    &&& forall|i: int| 0 <= i < input.len() ==> (#[trigger] v[i]) == row_product(input, out[i]@)
}

/// Whether `v` is the signal `input` times the power `count` of the matrix
/// of the multipliers, multiplied out by squaring.
pub open spec fn is_power_image(input: Seq<i64>, count: nat, v: Seq<i64>) -> bool {
    exists|unit: Seq<Vec<i64>>, first: Seq<Vec<i64>>, out: Seq<Vec<i64>>|
        is_identity(unit, input.len() as int) && is_pattern(first, input.len() as int)
            && #[trigger] powered(unit, first, count, out) && is_image(input, out, v)
}

/// Whether multiplying out the power `count` of the matrix of the
/// multipliers, or multiplying the signal `input` by it, meets a sum that
/// cannot be added up in 64 bits.
pub open spec fn power_image_overflows(input: Seq<i64>, count: nat) -> bool {
    ||| exists|unit: Seq<Vec<i64>>, first: Seq<Vec<i64>>|
        is_identity(unit, input.len() as int) && is_pattern(first, input.len() as int)
            && #[trigger] power_overflows(unit, first, count)
    ||| exists|unit: Seq<Vec<i64>>, first: Seq<Vec<i64>>, out: Seq<Vec<i64>>, i: int|
        is_identity(unit, input.len() as int) && is_pattern(first, input.len() as int)
            && #[trigger] powered(unit, first, count, out) && 0 <= i < input.len() && !#[trigger] row_fits(
            input,
            out[i]@,
        )
}

/// The signal `input` times the power `phase_count` of the matrix of the
/// multipliers, multiplied out by squaring. The digits are not cut down to
/// one after each phase. Returns `None` when the signal is empty or a sum
/// cannot be added up in 64 bits.
pub fn apply_n_phases(input: &Vec<i64>, phase_count: usize) -> (r: Option<Vec<i64>>)
    requires
        input@.len() < usize::MAX,
    ensures
        match r {
            Some(v) => is_power_image(input@, phase_count as nat, v@),
            None => input@.len() == 0 || power_image_overflows(input@, phase_count as nat),
        },
{
    let n: usize = input.len();
    if n == 0 {
        return None;
    }
    let first: Vec<Vec<i64>> = phase_matrix(n);
    let unit: Vec<Vec<i64>> = identity(n);
    let ghost start = unit@;
    let ghost base = first@;
    assert(is_identity(start, n as int));
    assert(is_pattern(base, n as int));
    let mut pm: Vec<Vec<i64>> = first;
    let mut accumulator: Vec<Vec<i64>> = unit;
    let mut count: usize = phase_count;
    loop
        invariant
            n == input@.len(),
            n >= 1,
            is_identity(start, n as int),
            is_pattern(base, n as int),
            square(pm@, n as int),
            square(accumulator@, n as int),
            forall|out: Seq<Vec<i64>>| #[trigger]
                powered(accumulator@, pm@, count as nat, out) ==> powered(
                    start,
                    base,
                    phase_count as nat,
                    out,
                ),
            power_overflows(accumulator@, pm@, count as nat) ==> power_overflows(
                start,
                base,
                phase_count as nat,
            ),
        ensures
            square(accumulator@, n as int),
            powered(start, base, phase_count as nat, accumulator@),
        decreases count,
    {
        let ghost acc_before = accumulator@;
        let ghost pm_before = pm@;
        let ghost count_before = count as nat;
        if count % 2 == 1 {
            accumulator = match square_mul(&accumulator, &pm) {
                Some(product) => product,
                None => {
                    assert(power_overflows(acc_before, pm_before, count_before));
                    return None;
                },
            };
        }
        assert(multiplied(acc_before, pm_before, count_before, accumulator@));
        count = count / 2;
        if count == 0 {
            assert(powered(acc_before, pm_before, count_before, accumulator@));
            break;
        }
        pm = match square_mul(&pm, &pm) {
            Some(product) => product,
            None => {
                assert(power_overflows(acc_before, pm_before, count_before));
                return None;
            },
        };
        proof {
            assert forall|out: Seq<Vec<i64>>| #[trigger]
                powered(accumulator@, pm@, count as nat, out) implies powered(
                start,
                base,
                phase_count as nat,
                out,
            ) by {
                assert(is_product(pm_before, pm_before, pm@) && product_fits(
                    pm_before,
                    pm_before,
                ) && powered(accumulator@, pm@, count_before / 2, out));
                assert(powered(acc_before, pm_before, count_before, out));
            }
            if power_overflows(accumulator@, pm@, count as nat) {
                assert(is_product(pm_before, pm_before, pm@) && power_overflows(
                    accumulator@,
                    pm@,
                    count_before / 2,
                ));
                assert(power_overflows(acc_before, pm_before, count_before));
            }
        }
    }
    let r = vector_mul(input, &accumulator);
    proof {
        if r.is_some() {
            assert(is_image(input@, accumulator@, r.unwrap()@));
            assert(powered(start, base, phase_count as nat, accumulator@));
        } else {
            let i = choose|i: int|
                0 <= i < input@.len() && !row_fits(input@, (#[trigger] accumulator@[i])@);
            assert(powered(start, base, phase_count as nat, accumulator@) && 0 <= i
                < input@.len() && !row_fits(input@, accumulator@[i]@));
        }
    }
    r
}

} // verus!
