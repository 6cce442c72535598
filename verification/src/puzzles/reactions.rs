use vstd::prelude::*;
use vstd::slice::{slice_subrange, slice_to_vec};
use crate::puzzles::moves::{all_digits, parse_u32, spec_is_digit, spec_value};
use crate::puzzles::orbits::same_name;

verus! {

/// An amount of a chemical.
#[derive(Debug, Clone, PartialEq, Eq)]
pub struct ChemCount {
    pub chem: Vec<u8>,
    pub count: u32,
}

/// The view of a `ChemCount`.
pub struct Amount {
    pub chem: Seq<u8>,
    pub count: u32,
}

impl View for ChemCount {
    type V = Amount;

    open spec fn view(&self) -> Amount {
        Amount { chem: self.chem@, count: self.count }
    }
}

/// A reaction: what it makes and what it takes.
#[derive(Debug, Clone, PartialEq, Eq)]
pub struct Recipe {
    pub output: ChemCount,
    pub inputs: Vec<ChemCount>,
}

/// The view of a `Recipe`.
pub struct RecipeView {
    pub output: Amount,
    pub inputs: Seq<Amount>,
}

impl View for Recipe {
    type V = RecipeView;

    open spec fn view(&self) -> RecipeView {
        RecipeView { output: self.output@, inputs: amounts(self.inputs@) }
    }
}

/// The amounts in `list`.
pub open spec fn amounts(list: Seq<ChemCount>) -> Seq<Amount> {
    Seq::new(list.len(), |k: int| list[k]@)
}

/// The recipes in `book`.
pub open spec fn recipes(book: Seq<Recipe>) -> Seq<RecipeView> {
    Seq::new(book.len(), |k: int| book[k]@)
}

/// Whether `c` is a letter of the Latin alphabet.
pub open spec fn spec_is_al(c: u8) -> bool {
    (65 <= c <= 90) || (97 <= c <= 122)
}

/// Whether `c` is a letter of the Latin alphabet.
pub fn is_al(c: u8) -> (r: bool)
    ensures
        r == spec_is_al(c),
{
    (65 <= c && c <= 90) || (97 <= c && c <= 122)
}

/// How many of the first bytes of `s` from `from` on satisfy `what`,
/// counting no more than `max`.
pub open spec fn run_length(s: Seq<u8>, from: int, max: int, what: spec_fn(u8) -> bool) -> int
    decreases max,
{
    if max <= 0 || from >= s.len() || from < 0 || !what(s[from]) {
        0
    } else {
        1 + run_length(s, from + 1, max - 1, what)
    }
}

/// The amount written at place `from` of `s`, and the place after it: one
/// to three digits, a blank, a name of one to five letters and, if they
/// follow, a comma and a blank.
pub open spec fn spec_parse_chem_count(s: Seq<u8>, from: int) -> Option<(Amount, int)> {
    let digits = run_length(s, from, 3, kind(false));
    let name_at = from + digits + 1;
    let letters = run_length(s, name_at, 5, kind(true));
    let end = name_at + letters;
    if from < 0 || digits == 0 || from + digits >= s.len() || s[from + digits] != 32 || letters
        == 0 {
        None
    } else {
        Some(
            (
                Amount {
                    chem: s.subrange(name_at, end),
                    count: spec_value(s.subrange(from, from + digits)) as u32,
                },
                if end + 1 < s.len() && s[end] == 44 && s[end + 1] == 32 {
                    end + 2
                } else {
                    end
                },
            ),
        )
    }
}

/// What is asked of a byte: to be a letter, or to be a digit.
pub open spec fn kind(letters: bool) -> spec_fn(u8) -> bool {
    if letters {
        |c: u8| spec_is_al(c)
    } else {
        |c: u8| spec_is_digit(c)
    }
}

/// Whether `c` is a letter, or a digit.
fn is_kind(c: u8, letters: bool) -> (r: bool)
    ensures
        r == kind(letters)(c),
{
    if letters {
        is_al(c)
    } else {
        crate::puzzles::moves::is_digit(c)
    }
}

/// The number of bytes from `from` on that are letters, or digits, up to
/// `max`.
fn run(s: &[u8], from: usize, max: usize, letters: bool) -> (n: usize)
    requires
        from <= s@.len(),
    ensures
        n == run_length(s@, from as int, max as int, kind(letters)),
        n <= max,
        from + n <= s@.len(),
        forall|k: int| from <= k < from + n ==> kind(letters)(#[trigger] s@[k]),
{
    let len: usize = s.len();
    let mut n: usize = 0;
    while n < max && n < len - from && is_kind(s[from + n], letters)
        invariant
            n <= max,
            len == s@.len(),
            from + n <= s@.len(),
            run_length(s@, from as int, max as int, kind(letters)) == n + run_length(
                s@,
                from + n,
                max - n,
                kind(letters),
            ),
            forall|k: int| from <= k < from + n ==> kind(letters)(#[trigger] s@[k]),
        decreases max - n,
    {
        n = n + 1;
    }
    n
}

/// Reads the amount written at place `from` of `input` and returns it with
/// the place after it.
pub fn parse_chem_count(input: &[u8], from: usize) -> (r: Option<(ChemCount, usize)>)
    requires
        from <= input@.len(),
    ensures
        match r {
            Some((amount, next)) => spec_parse_chem_count(input@, from as int) == Some(
                (amount@, next as int),
            ) && from < next <= input@.len(),
            None => spec_parse_chem_count(input@, from as int).is_none(),
        },
{
    let len: usize = input.len();
    let digits: usize = run(input, from, 3, false);
    if digits == 0 || digits >= len - from || input[from + digits] != 32 {
        return None;
    }
    let name_at: usize = from + digits + 1;
    let letters: usize = run(input, name_at, 5, true);
    if letters == 0 {
        return None;
    }
    let end: usize = name_at + letters;
    let number = slice_subrange(input, from, from + digits);
    proof {
        assert(all_digits(number@)) by {
            assert forall|i: int| 0 <= i < number@.len() implies spec_is_digit(
                #[trigger] number@[i],
            ) by {
                assert(number@[i] == input@[from + i]);
            }
        }
        lemma_three_digits(number@);
    }
    let count: u32 = match parse_u32(number) {
        Some(count) => count,
        None => {
            return None;
        },
    };
    let chem: Vec<u8> = slice_to_vec(slice_subrange(input, name_at, end));
    let next: usize = if len - end > 1 && input[end] == 44 && input[end + 1] == 32 {
        end + 2
    } else {
        end
    };
    Some((ChemCount { chem, count }, next))
}

/// Three digits write a number below a thousand.
proof fn lemma_three_digits(s: Seq<u8>)
    requires
        all_digits(s),
        s.len() <= 3,
    ensures
        spec_value(s) <= 999,
    decreases s.len(),
{
    if s.len() > 0 {
        assert(all_digits(s.drop_last())) by {
            assert forall|k: int| 0 <= k < s.drop_last().len() implies spec_is_digit(
                #[trigger] s.drop_last()[k],
            ) by {
                assert(s.drop_last()[k] == s[k]);
            }
        }
        lemma_three_digits(s.drop_last());
        if s.len() >= 2 {
            lemma_three_digits_two(s.drop_last());
        }
    }
}

/// Two digits write a number below a hundred.
proof fn lemma_three_digits_two(s: Seq<u8>)
    requires
        all_digits(s),
        s.len() <= 2,
    ensures
        spec_value(s) <= 99,
    decreases s.len(),
{
    if s.len() > 0 {
        assert(all_digits(s.drop_last())) by {
            assert forall|k: int| 0 <= k < s.drop_last().len() implies spec_is_digit(
                #[trigger] s.drop_last()[k],
            ) by {
                assert(s.drop_last()[k] == s[k]);
            }
        }
        lemma_three_digits_two(s.drop_last());
        if s.len() == 2 {
            reveal_with_fuel(spec_value, 3);
        }
    }
}

/// The amounts written one after the other from place `from` of `s` on, as
/// many as there are but no more than `fuel`, and the place after them.
pub open spec fn spec_many(s: Seq<u8>, from: int, fuel: nat) -> (Seq<Amount>, int)
    decreases fuel,
{
    if fuel == 0 {
        (Seq::empty(), from)
    } else {
        match spec_parse_chem_count(s, from) {
            None => (Seq::empty(), from),
            Some((amount, next)) => {
                let rest = spec_many(s, next, (fuel - 1) as nat);
                (seq![amount] + rest.0, rest.1)
            },
        }
    }
}

/// The recipe that the line `s` writes: one or more amounts, the arrow
/// ` => ` and the amount that they make. What follows is not looked at.
pub open spec fn spec_parse_recipe(s: Seq<u8>) -> Option<RecipeView> {
    let (inputs, at) = spec_many(s, 0, s.len());
    if inputs.len() == 0 || at + 4 > s.len() || s.subrange(at, at + 4) != seq![
        32u8,
        61u8,
        62u8,
        32u8,
    ] {
        None
    } else {
        match spec_parse_chem_count(s, at + 4) {
            None => None,
            Some((output, _)) => Some(RecipeView { output, inputs }),
        }
    }
}

/// Reads a recipe from a line.
pub fn parse_recipe(input: &[u8]) -> (r: Option<Recipe>)
    ensures
        match r {
            Some(recipe) => spec_parse_recipe(input@) == Some(recipe@),
            None => spec_parse_recipe(input@).is_none(),
        },
{
    let mut inputs: Vec<ChemCount> = Vec::new();
    let mut at: usize = 0;
    let mut left: usize = input.len();
    assert(amounts(inputs@) =~= Seq::<Amount>::empty());
    loop
        invariant
            at <= input@.len(),
            left <= input@.len(),
            spec_many(input@, 0, input@.len()) == (
                amounts(inputs@) + spec_many(input@, at as int, left as nat).0,
                spec_many(input@, at as int, left as nat).1,
            ),
        ensures
            spec_many(input@, 0, input@.len()) == (amounts(inputs@), at as int),
            at <= input@.len(),
        decreases left,
    {
        if left == 0 {
            assert(amounts(inputs@) + Seq::<Amount>::empty() =~= amounts(inputs@));
            break;
        }
        match parse_chem_count(input, at) {
            None => {
                assert(amounts(inputs@) + Seq::<Amount>::empty() =~= amounts(inputs@));
                break;
            },
            Some((amount, next)) => {
                let ghost before = amounts(inputs@);
                let ghost rest = spec_many(input@, next as int, (left - 1) as nat);
                inputs.push(amount);
                assert(amounts(inputs@) =~= before.push(amount@));
                assert(before + (seq![amount@] + rest.0) =~= amounts(inputs@) + rest.0);
                at = next;
                left = left - 1;
            },
        }
    }
    if inputs.len() == 0 || input.len() - at < 4 {
        return None;
    }
    if input[at] != 32 || input[at + 1] != 61 || input[at + 2] != 62 || input[at + 3] != 32 {
        assert(input@.subrange(at as int, at + 4)[0] == input@[at as int]);
        assert(input@.subrange(at as int, at + 4)[1] == input@[at + 1]);
        assert(input@.subrange(at as int, at + 4)[2] == input@[at + 2]);
        assert(input@.subrange(at as int, at + 4)[3] == input@[at + 3]);
        return None;
    }
    assert(input@.subrange(at as int, at + 4) =~= seq![32u8, 61u8, 62u8, 32u8]);
    match parse_chem_count(input, at + 4) {
        None => None,
        Some((output, _)) => Some(Recipe { output, inputs }),
    }
}

/// The name of what everything is made of in the end: `ORE`.
pub open spec fn ore() -> Seq<u8> {
    seq![79u8, 82u8, 69u8]
}

/// The name of what is to be made: `FUEL`.
pub open spec fn fuel() -> Seq<u8> {
    seq![70u8, 85u8, 69u8, 76u8]
}

/// The place of the first of the first `upto` amounts of `list` that is an
/// amount of `name`, or -1.
pub open spec fn spec_index_of(list: Seq<Amount>, name: Seq<u8>, upto: int) -> int
    decreases upto,
{
    if upto <= 0 {
        -1
    } else {
        let before = spec_index_of(list, name, upto - 1);
        if before >= 0 {
            before
        } else if list[upto - 1].chem == name {
            upto - 1
        } else {
            -1
        }
    }
}

/// The place of the last of the first `upto` recipes of `book` that makes
/// `name`, or -1.
pub open spec fn spec_recipe_for(book: Seq<RecipeView>, name: Seq<u8>, upto: int) -> int
    decreases upto,
{
    if upto <= 0 {
        -1
    } else if book[upto - 1].output.chem == name {
        upto - 1
    } else {
        spec_recipe_for(book, name, upto - 1)
    }
}

/// The list after `amount` of `name` is added to it: to the amount of
/// `name` that it holds, or as a new amount at its end. There is no such
/// list when the sum does not fit in 32 bits.
pub open spec fn spec_add(list: Seq<Amount>, name: Seq<u8>, amount: int) -> Option<Seq<Amount>> {
    let i = spec_index_of(list, name, list.len() as int);
    if i >= 0 {
        if list[i].count + amount > u32::MAX {
            None
        } else {
            Some(list.update(i, Amount { chem: name, count: (list[i].count + amount) as u32 }))
        }
    } else if amount > u32::MAX {
        None
    } else {
        Some(list.push(Amount { chem: name, count: amount as u32 }))
    }
}

/// The list of required amounts after `batches` times each of the first
/// `upto` of `inputs` is added to it.
pub open spec fn spec_order(list: Seq<Amount>, inputs: Seq<Amount>, batches: int, upto: int)
    -> Option<Seq<Amount>>
    decreases upto,
{
    if upto <= 0 {
        Some(list)
    } else {
        match spec_order(list, inputs, batches, upto - 1) {
            None => None,
            Some(before) => spec_add(
                before,
                inputs[upto - 1].chem,
                inputs[upto - 1].count * batches,
            ),
        }
    }
}

/// What is still to be made, what is left over from earlier reactions, and
/// how much ore has been used.
pub struct Factory {
    pub required: Vec<ChemCount>,
    pub spares: Vec<ChemCount>,
    pub ore: u64,
}

/// The view of a `Factory`.
pub struct FactoryView {
    pub required: Seq<Amount>,
    pub spares: Seq<Amount>,
    pub ore: u64,
}

impl View for Factory {
    type V = FactoryView;

    open spec fn view(&self) -> FactoryView {
        FactoryView {
            required: amounts(self.required@),
            spares: amounts(self.spares@),
            ore: self.ore,
        }
    }
}

/// The factory after the first of its required amounts is dealt with.
///
/// Ore is taken from the ground. Anything else is taken from the spares as
/// far as they go; for the rest the recipe is run as many times as needed,
/// what it makes too much goes to the spares, and what it takes is added to
/// the required amounts. There is no such factory when nothing is required,
/// the recipe is missing or makes nothing, or an amount does not fit.
pub open spec fn spec_step(book: Seq<RecipeView>, f: FactoryView) -> Option<FactoryView> {
    if f.required.len() == 0 {
        None
    } else {
        let item = f.required[0];
        let rest = f.required.skip(1);
        if item.chem == ore() {
            if f.ore + item.count > u64::MAX {
                None
            } else {
                Some(FactoryView { required: rest, ore: (f.ore + item.count) as u64, ..f })
            }
        } else {
            let r = spec_recipe_for(book, item.chem, book.len() as int);
            let s = spec_index_of(f.spares, item.chem, f.spares.len() as int);
            let spare = if s >= 0 {
                f.spares[s].count as int
            } else {
                0
            };
            let used = if spare >= item.count {
                item.count as int
            } else {
                spare
            };
            let spares = if s >= 0 {
                f.spares.update(s, Amount { chem: item.chem, count: (spare - used) as u32 })
            } else {
                f.spares
            };
            let still = item.count - used;
            if r < 0 {
                None
            } else if still == 0 {
                Some(FactoryView { required: rest, spares, ..f })
            } else if book[r].output.count == 0 {
                None
            } else {
                let makes = book[r].output.count as int;
                let batches = (still + makes - 1) / makes;
                let produced = batches * makes;
                let kept = if produced > still {
                    spec_add(spares, item.chem, produced - still)
                } else {
                    Some(spares)
                };
                match (kept, spec_order(rest, book[r].inputs, batches, book[r].inputs.len() as int)) {
                    (Some(spares), Some(required)) => Some(FactoryView { required, spares, ..f }),
                    _ => None,
                }
            }
        }
    }
}

/// The place of the first amount of `name` in `list`.
pub fn index_of(list: &Vec<ChemCount>, name: &Vec<u8>) -> (r: Option<usize>)
    ensures
        match r {
            Some(i) => i == spec_index_of(amounts(list@), name@, list@.len() as int) && i
                < list@.len() && list@[i as int].chem@ == name@,
            None => spec_index_of(amounts(list@), name@, list@.len() as int) == -1,
        },
{
    let mut i: usize = 0;
    while i < list.len()
        invariant
            i <= list@.len(),
            spec_index_of(amounts(list@), name@, i as int) == -1,
        decreases list@.len() - i,
    {
        if same_name(&list[i].chem, name) {
            proof {
                lemma_index_stays(amounts(list@), name@, i + 1, list@.len() as int);
            }
            return Some(i);
        }
        i = i + 1;
    }
    None
}

/// Once an amount is found, more amounts do not change the place.
proof fn lemma_index_stays(list: Seq<Amount>, name: Seq<u8>, upto: int, more: int)
    requires
        upto <= more,
        spec_index_of(list, name, upto) >= 0,
    ensures
        spec_index_of(list, name, more) == spec_index_of(list, name, upto),
    decreases more - upto,
{
    if upto < more {
        lemma_index_stays(list, name, upto, more - 1);
    }
}

/// The place of the last recipe of `book` that makes `name`.
pub fn recipe_for(book: &Vec<Recipe>, name: &Vec<u8>) -> (r: Option<usize>)
    ensures
        match r {
            Some(i) => i == spec_recipe_for(recipes(book@), name@, book@.len() as int) && i
                < book@.len(),
            None => spec_recipe_for(recipes(book@), name@, book@.len() as int) == -1,
        },
{
    let mut k: usize = book.len();
    while k > 0
        invariant
            k <= book@.len(),
            spec_recipe_for(recipes(book@), name@, k as int) == spec_recipe_for(
                recipes(book@),
                name@,
                book@.len() as int,
            ),
        decreases k,
    {
        if same_name(&book[k - 1].output.chem, name) {
            return Some((k - 1) as usize);
        }
        k = k - 1;
    }
    None
}

/// Adds `amount` of `name` to `list`. Returns whether the sum fits in 32
/// bits; if not, nothing changes.
pub fn stock(list: &mut Vec<ChemCount>, name: &Vec<u8>, amount: u64) -> (added: bool)
    ensures
        match spec_add(amounts(old(list)@), name@, amount as int) {
            Some(after) => added && amounts(final(list)@) == after,
            None => !added && amounts(final(list)@) == amounts(old(list)@),
        },
{
    match index_of(list, name) {
        Some(i) => {
            let sum: u64 = match amount.checked_add(list[i].count as u64) {
                Some(sum) => sum,
                None => {
                    return false;
                },
            };
            if sum > 0xffff_ffff {
                return false;
            }
            let copy: Vec<u8> = name.clone();
            assert(copy@ =~= name@);
            list.set(i, ChemCount { chem: copy, count: sum as u32 });
            assert(amounts(list@) =~= spec_add(
                amounts(old(list)@),
                name@,
                amount as int,
            ).unwrap());
            true
        },
        None => {
            if amount > 0xffff_ffff {
                return false;
            }
            let copy: Vec<u8> = name.clone();
            assert(copy@ =~= name@);
            list.push(ChemCount { chem: copy, count: amount as u32 });
            assert(amounts(list@) =~= spec_add(
                amounts(old(list)@),
                name@,
                amount as int,
            ).unwrap());
            true
        },
    }
}

impl Factory {
    /// A factory with nothing required, nothing to spare and no ore used.
    pub fn new() -> (f: Factory)
        ensures
            f@ == (FactoryView { required: Seq::empty(), spares: Seq::empty(), ore: 0 }),
    {
        let f = Factory { required: Vec::new(), spares: Vec::new(), ore: 0 };
        assert(f@.required =~= Seq::empty());
        assert(f@.spares =~= Seq::empty());
        f
    }

    /// Deals with the first required amount. Returns whether that was
    /// possible; if not, the factory is not to be used any more.
    #[verifier::rlimit(40)]
    pub fn step(&mut self, book: &Vec<Recipe>) -> (ok: bool)
        ensures
            match spec_step(recipes(book@), old(self)@) {
                Some(f) => ok && final(self)@ == f,
                None => !ok,
            },
    {
        if self.required.len() == 0 {
            return false;
        }
        let ghost b = recipes(book@);
        let ghost f = self@;
        let item: ChemCount = self.required.remove(0);
        assert(amounts(self.required@) =~= f.required.skip(1));
        assert(item@ == f.required[0]);
        let mut ore_name: Vec<u8> = Vec::new();
        ore_name.push(79);
        ore_name.push(82);
        ore_name.push(69);
        assert(ore_name@ =~= ore());
        if same_name(&item.chem, &ore_name) {
            match self.ore.checked_add(item.count as u64) {
                Some(total) => {
                    self.ore = total;
                    return true;
                },
                None => {
                    return false;
                },
            }
        }
        let r: Option<usize> = recipe_for(book, &item.chem);
        let mut still: u32 = item.count;
        match index_of(&self.spares, &item.chem) {
            Some(s) => {
                let spare: u32 = self.spares[s].count;
                let used: u32 = if spare >= still {
                    still
                } else {
                    spare
                };
                let copy: Vec<u8> = item.chem.clone();
                assert(copy@ =~= item.chem@);
                self.spares.set(s, ChemCount { chem: copy, count: spare - used });
                still = still - used;
                assert(amounts(self.spares@) =~= f.spares.update(
                    s as int,
                    Amount { chem: item.chem@, count: (spare - used) as u32 },
                ));
            },
            None => {},
        }
        let r: usize = match r {
            Some(r) => r,
            None => {
                return false;
            },
        };
        if still == 0 {
            return true;
        }
        let makes: u32 = book[r].output.count;
        if makes == 0 {
            return false;
        }
        assert(b[r as int].output.count == makes);
        let batches: u64 = (still as u64 + makes as u64 - 1) / (makes as u64);
        assert(batches <= still && batches * makes <= 0x2_0000_0000) by (nonlinear_arith)
            requires
                batches == (still + makes - 1) / (makes as int),
                0 < makes <= 0xffff_ffff,
                0 < still <= 0xffff_ffff,
        ;
        let produced: u64 = batches * (makes as u64);
        if produced > still as u64 {
            if !stock(&mut self.spares, &item.chem, produced - still as u64) {
                return false;
            }
        }
        let recipe: &Recipe = &book[r];
        assert(b[r as int].inputs == amounts(recipe.inputs@));
        let ghost kept = amounts(self.spares@);
        let ghost whole = spec_step(b, f);
        assert(whole == match spec_order(
            f.required.skip(1),
            amounts(recipe.inputs@),
            batches as int,
            recipe.inputs@.len() as int,
        ) {
            Some(required) => Some(FactoryView { required, spares: kept, ore: f.ore }),
            None => None,
        });
        let mut i: usize = 0;
        while i < recipe.inputs.len()
            invariant
                i <= recipe.inputs@.len(),
                batches <= 0x1_0000_0000,
                amounts(self.spares@) == kept,
                self.ore == f.ore,
                whole == match spec_order(
                    f.required.skip(1),
                    amounts(recipe.inputs@),
                    batches as int,
                    recipe.inputs@.len() as int,
                ) {
                    Some(required) => Some(FactoryView { required, spares: kept, ore: f.ore }),
                    None => None,
                },
                whole == spec_step(recipes(book@), old(self)@),
                spec_order(f.required.skip(1), amounts(recipe.inputs@), batches as int, i as int)
                    == Some(amounts(self.required@)),
            decreases recipe.inputs@.len() - i,
        {
            let input: &ChemCount = &recipe.inputs[i];
            assert(amounts(recipe.inputs@)[i as int] == input@);
            assert(input.count * batches <= 0xffff_ffff * 0x1_0000_0000) by (nonlinear_arith)
                requires
                    input.count <= 0xffff_ffff,
                    batches <= 0x1_0000_0000,
            ;
            if !stock(&mut self.required, &input.chem, (input.count as u64) * batches) {
                proof {
                    lemma_order_fails(
                        f.required.skip(1),
                        amounts(recipe.inputs@),
                        batches as int,
                        i + 1,
                        recipe.inputs@.len() as int,
                    );
                }
                return false;
            }
            i = i + 1;
        }
        true
    }
}

/// Once an amount does not fit, more inputs do not mend that.
proof fn lemma_order_fails(list: Seq<Amount>, inputs: Seq<Amount>, batches: int, upto: int, more: int)
    requires
        upto <= more,
        spec_order(list, inputs, batches, upto).is_none(),
    ensures
        spec_order(list, inputs, batches, more).is_none(),
    decreases more - upto,
{
    if upto < more {
        lemma_order_fails(list, inputs, batches, upto, more - 1);
    }
}

/// The factory after its required amounts have been dealt with one after
/// the other, the first one first, until nothing is required; or `None`
/// when a step is not possible or more than `fuel` steps are needed.
pub open spec fn spec_settle(book: Seq<RecipeView>, f: FactoryView, fuel: nat) -> Option<
    FactoryView,
>
    decreases fuel,
{
    if f.required.len() == 0 {
        Some(f)
    } else if fuel == 0 {
        None
    } else {
        match spec_step(book, f) {
            None => None,
            Some(next) => spec_settle(book, next, (fuel - 1) as nat),
        }
    }
}

impl Factory {
    /// Deals with the required amounts one after the other until nothing is
    /// required. Returns whether that took no more than `max_steps` steps,
    /// all of them possible; if not, the factory is not to be used any more.
    pub fn settle(&mut self, book: &Vec<Recipe>, max_steps: usize) -> (ok: bool)
        ensures
            match spec_settle(recipes(book@), old(self)@, max_steps as nat) {
                Some(f) => ok && final(self)@ == f,
                None => !ok,
            },
    {
        let mut left: usize = max_steps;
        while self.required.len() > 0
            invariant
                spec_settle(recipes(book@), self@, left as nat) == spec_settle(
                    recipes(book@),
                    old(self)@,
                    max_steps as nat,
                ),
            decreases left,
        {
            if left == 0 {
                return false;
            }
            if !self.step(book) {
                return false;
            }
            left = left - 1;
        }
        true
    }
}

/// The ore that one unit of fuel takes, when `recipes` are run as the
/// factory runs them; `None` when the factory fails, needs more than
/// `max_steps` steps or uses more ore than 32 bits hold.
pub open spec fn spec_ore_required(book: Seq<RecipeView>, max_steps: nat) -> Option<u32> {
    let start = FactoryView {
        required: seq![Amount { chem: fuel(), count: 1 }],
        spares: Seq::empty(),
        ore: 0,
    };
    match spec_settle(book, start, max_steps) {
        None => None,
        Some(f) => if f.ore > u32::MAX {
            None
        } else {
            Some(f.ore as u32)
        },
    }
}

/// The ore that one unit of fuel takes.
pub fn get_ore_required(recipes: &Vec<Recipe>, max_steps: usize) -> (r: Option<u32>)
    ensures
        r == spec_ore_required(self::recipes(recipes@), max_steps as nat),
{
    let mut factory = Factory::new();
    let mut name: Vec<u8> = Vec::new();
    name.push(70);
    name.push(85);
    name.push(69);
    name.push(76);
    assert(name@ =~= fuel());
    factory.required.push(ChemCount { chem: name, count: 1 });
    assert(factory@.required =~= seq![Amount { chem: fuel(), count: 1 }]);
    assert(factory@.spares =~= Seq::empty());
    if !factory.settle(recipes, max_steps) {
        return None;
    }
    if factory.ore > 0xffff_ffff {
        None
    } else {
        Some(factory.ore as u32)
    }
}

/// The number of units of fuel made one after the other, the spares of one
/// going into the next, until more than `ore_available` ore is used, less
/// the last one; `None` when the factory fails or more than `max_fuel`
/// units can be made.
pub open spec fn spec_max_fuel(
    book: Seq<RecipeView>,
    f: FactoryView,
    ore_available: int,
    made: nat,
    max_steps: nat,
    max_fuel: nat,
) -> Option<nat>
    decreases max_fuel,
{
    if ore_available - f.ore <= 0 {
        Some((made - 1) as nat)
    } else if max_fuel == 0 {
        None
    } else {
        match spec_add(f.required, fuel(), 1) {
            None => None,
            Some(required) => match spec_settle(
                book,
                FactoryView { required, ..f },
                max_steps,
            ) {
                None => None,
                Some(next) => spec_max_fuel(
                    book,
                    next,
                    ore_available,
                    made + 1,
                    max_steps,
                    (max_fuel - 1) as nat,
                ),
            },
        }
    }
}

/// The number of units of fuel that `ore_available` ore is good for.
pub fn get_max_fuel(ore_available: i64, recipes: &Vec<Recipe>, max_steps: usize, max_fuel: u64)
    -> (r: Option<u64>)
    requires
        ore_available > 0,
    ensures
        match spec_max_fuel(
            self::recipes(recipes@),
            FactoryView { required: Seq::empty(), spares: Seq::empty(), ore: 0 },
            ore_available as int,
            0,
            max_steps as nat,
            max_fuel as nat,
        ) {
            Some(n) => r == Some(n as u64),
            None => r.is_none(),
        },
{
    let mut factory = Factory::new();
    let mut name: Vec<u8> = Vec::new();
    name.push(70);
    name.push(85);
    name.push(69);
    name.push(76);
    assert(name@ =~= fuel());
    let mut fuel_made: u64 = 0;
    let mut left: u64 = max_fuel;
    while (factory.ore as i128) < (ore_available as i128)
        invariant
            name@ == fuel(),
            fuel_made + left == max_fuel,
            fuel_made == 0 ==> factory.ore == 0,
            spec_max_fuel(
                self::recipes(recipes@),
                factory@,
                ore_available as int,
                fuel_made as nat,
                max_steps as nat,
                left as nat,
            ) == spec_max_fuel(
                self::recipes(recipes@),
                FactoryView { required: Seq::empty(), spares: Seq::empty(), ore: 0 },
                ore_available as int,
                0,
                max_steps as nat,
                max_fuel as nat,
            ),
        decreases left,
    {
        if left == 0 {
            return None;
        }
        if !stock(&mut factory.required, &name, 1) {
            return None;
        }
        if !factory.settle(recipes, max_steps) {
            return None;
        }
        fuel_made = fuel_made + 1;
        left = left - 1;
    }
    Some(fuel_made - 1)
}

} // verus!
