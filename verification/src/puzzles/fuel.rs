use vstd::prelude::*;

verus! {

/// The fuel that a module of mass `mass` needs: a third of the mass,
/// rounded down, less two.
pub open spec fn spec_fuel_required(mass: int) -> int {
    mass / 3 - 2
}

/// The fuel that a module of mass `mass` needs when the fuel needs fuel
/// too: the fuel for the mass, the fuel for that fuel, and so on. A mass
/// below 9 is taken to need none.
pub open spec fn spec_fuel_required_recursive(mass: nat) -> nat
    decreases mass,
{
    if mass < 9 {
        0
    } else {
        let extra = (mass / 3 - 2) as nat;
        extra + spec_fuel_required_recursive(extra)
    }
}

/// The sum of `f` over `masses`.
pub open spec fn spec_total(masses: Seq<u32>, f: spec_fn(u32) -> int) -> int
    decreases masses.len(),
{
    if masses.len() == 0 {
        0
    } else {
        spec_total(masses.drop_last(), f) + f(masses.last())
    }
}

/// All the fuel, fuel for fuel included, weighs less than the mass.
pub proof fn lemma_fuel_below_mass(mass: nat)
    ensures
        spec_fuel_required_recursive(mass) <= mass,
        mass >= 9 ==> spec_fuel_required_recursive(mass) <= mass / 2,
    decreases mass,
{
    if mass >= 9 {
        lemma_fuel_below_mass((mass / 3 - 2) as nat);
    }
}

/// The fuel that a module of mass `mass` needs. A mass below 6 would need
/// less than none.
pub fn fuel_required(mass: u32) -> (fuel: u32)
    requires
        mass >= 6,
    ensures
        fuel == spec_fuel_required(mass as int),
{
    mass / 3 - 2
}

/// The fuel that a module of mass `module_mass` needs when the fuel needs
/// fuel too.
pub fn fuel_required_recursive(module_mass: u32) -> (fuel: u32)
    ensures
        fuel == spec_fuel_required_recursive(module_mass as nat),
    decreases module_mass,
{
    if module_mass < 9 {
        0
    } else {
        let extra_fuel: u32 = module_mass / 3 - 2;
        proof {
            lemma_fuel_below_mass(extra_fuel as nat);
        }
        extra_fuel + fuel_required_recursive(extra_fuel)
    }
}

/// The fuel that all modules need together, or `None` when that is more
/// than 32 bits hold.
pub fn part1(module_masses: &Vec<u32>) -> (r: Option<u32>)
    requires
        forall|i: int| 0 <= i < module_masses@.len() ==> #[trigger] module_masses@[i] >= 6,
    ensures
        match r {
            Some(total) => total == spec_total(
                module_masses@,
                |m: u32| spec_fuel_required(m as int),
            ),
            None => spec_total(module_masses@, |m: u32| spec_fuel_required(m as int))
                > u32::MAX,
        },
{
    let ghost f = |m: u32| spec_fuel_required(m as int);
    let mut total: u32 = 0;
    let mut i: usize = 0;
    assert(module_masses@.take(0) =~= Seq::<u32>::empty());
    while i < module_masses.len()
        invariant
            i <= module_masses.len(),
            f == |m: u32| spec_fuel_required(m as int),
            forall|k: int| 0 <= k < module_masses@.len() ==> #[trigger] module_masses@[k] >= 6,
            total == spec_total(module_masses@.take(i as int), f),
        decreases module_masses.len() - i,
    {
        assert(module_masses@.take(i + 1).drop_last() =~= module_masses@.take(i as int));
        let fuel: u32 = fuel_required(module_masses[i]);
        total = match total.checked_add(fuel) {
            Some(t) => t,
            None => {
                proof {
                    lemma_total_grows(module_masses@, f, i + 1);
                }
                return None;
            },
        };
        i = i + 1;
    }
    assert(module_masses@.take(module_masses.len() as int) =~= module_masses@);
    Some(total)
}

/// The fuel that all modules need together when the fuel needs fuel too,
/// or `None` when that is more than 32 bits hold.
pub fn part2(module_masses: &Vec<u32>) -> (r: Option<u32>)
    ensures
        match r {
            Some(total) => total == spec_total(
                module_masses@,
                |m: u32| spec_fuel_required_recursive(m as nat) as int,
            ),
            None => spec_total(
                module_masses@,
                |m: u32| spec_fuel_required_recursive(m as nat) as int,
            ) > u32::MAX,
        },
{
    let ghost f = |m: u32| spec_fuel_required_recursive(m as nat) as int;
    let mut total: u32 = 0;
    let mut i: usize = 0;
    assert(module_masses@.take(0) =~= Seq::<u32>::empty());
    while i < module_masses.len()
        invariant
            i <= module_masses.len(),
            f == |m: u32| spec_fuel_required_recursive(m as nat) as int,
            total == spec_total(module_masses@.take(i as int), f),
        decreases module_masses.len() - i,
    {
        assert(module_masses@.take(i + 1).drop_last() =~= module_masses@.take(i as int));
        let fuel: u32 = fuel_required_recursive(module_masses[i]);
        total = match total.checked_add(fuel) {
            Some(t) => t,
            None => {
                proof {
                    lemma_total_grows(module_masses@, f, i + 1);
                }
                return None;
            },
        };
        i = i + 1;
    }
    assert(module_masses@.take(module_masses.len() as int) =~= module_masses@);
    Some(total)
}

/// A sum of amounts that are not negative is no less than the sum of its
/// first terms.
proof fn lemma_total_grows(masses: Seq<u32>, f: spec_fn(u32) -> int, n: int)
    requires
        0 <= n <= masses.len(),
        forall|k: int| 0 <= k < masses.len() ==> f(#[trigger] masses[k]) >= 0,
    ensures
        spec_total(masses.take(n), f) <= spec_total(masses, f),
    decreases masses.len(),
{
    if n == masses.len() {
        assert(masses.take(n) =~= masses);
    } else {
        assert(masses.drop_last().take(n) =~= masses.take(n));
        assert forall|k: int| 0 <= k < masses.drop_last().len() implies f(
            #[trigger] masses.drop_last()[k],
        ) >= 0 by {
            assert(masses.drop_last()[k] == masses[k]);
        }
        lemma_total_grows(masses.drop_last(), f, n);
    }
}

} // verus!
