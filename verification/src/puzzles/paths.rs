use vstd::prelude::*;

verus! {

/// A move to a place at a cost, or a place with its distance.
#[derive(Debug, Clone, PartialEq, Eq)]
pub struct Edge {
    pub to: Vec<usize>,
    pub cost: usize,
}

/// A graph whose places are lists of numbers and whose moves have costs.
pub trait Graph {
    /// The graph's own invariant.
    spec fn valid(&self) -> bool;

    /// Whether one move of cost `w` leads from `u` to `v`.
    spec fn step(&self, u: Seq<usize>, v: Seq<usize>, w: int) -> bool;

    /// Whether the moves from `u` cannot be listed.
    spec fn stuck(&self, u: Seq<usize>) -> bool;

    /// No move has a negative cost.
    proof fn lemma_costs(&self, u: Seq<usize>, v: Seq<usize>, w: int)
        requires
            self.valid(),
            self.step(u, v, w),
        ensures
            w >= 0,
    ;

    /// The moves from `u`: every one listed is a move, and for every move
    /// one to the same place is listed that costs no more.
    fn successors(&self, u: &Vec<usize>) -> (r: Option<Vec<Edge>>)
        requires
            self.valid(),
        ensures
            match r {
                Some(list) => {
                    &&& forall|k: int|
                        0 <= k < list@.len() ==> self.step(
                            u@,
                            (#[trigger] list@[k]).to@,
                            list@[k].cost as int,
                        )
                    &&& forall|v: Seq<usize>, w: int| #[trigger]
                        self.step(u@, v, w) ==> exists|k: int|
                            0 <= k < list@.len() && (#[trigger] list@[k]).to@ == v && list@[k].cost
                                <= w
                },
                None => self.stuck(u@),
            },
    ;
}

/// Whether `n` moves of total cost `cost` lead from `from` to `to`.
pub open spec fn reaches<G: Graph>(g: &G, from: Seq<usize>, to: Seq<usize>, cost: int, n: nat)
    -> bool
    decreases n,
{
    if n == 0 {
        to == from && cost == 0
    } else {
        exists|mid: Seq<usize>, w: int| #[trigger]
            g.step(mid, to, w) && reaches(g, from, mid, cost - w, (n - 1) as nat)
    }
}

/// Whether moves of total cost `cost` lead from `from` to `to`.
pub open spec fn reachable<G: Graph>(g: &G, from: Seq<usize>, to: Seq<usize>, cost: int) -> bool {
    exists|n: nat| reaches(g, from, to, cost, n)
}

/// Whether `cost` is the least total cost of moves from `from` to `to`.
pub open spec fn shortest_to<G: Graph>(g: &G, from: Seq<usize>, to: Seq<usize>, cost: int)
    -> bool {
    &&& reachable(g, from, to, cost)
    &&& forall|c: int, n: nat| #[trigger] reaches(g, from, to, c, n) ==> cost <= c
}

/// Whether `list` names `x`.
pub open spec fn names(list: Seq<Edge>, x: Seq<usize>) -> bool {
    exists|k: int| 0 <= k < list.len() && (#[trigger] list[k]).to@ == x
}

/// Whether `list` names no place twice.
pub open spec fn distinct(list: Seq<Edge>) -> bool {
    forall|i: int, j: int|
        0 <= i < j < list.len() ==> (#[trigger] list[i]).to@ != (#[trigger] list[j]).to@
}

/// Whether `list` holds the places that can be reached from `from`, each
/// once and with its distance.
pub open spec fn is_shortest<G: Graph>(g: &G, from: Seq<usize>, list: Seq<Edge>) -> bool {
    &&& distinct(list)
    &&& forall|k: int|
        0 <= k < list.len() ==> shortest_to(
            g,
            from,
            (#[trigger] list[k]).to@,
            list[k].cost as int,
        )
    &&& forall|x: Seq<usize>, c: int, n: nat| #[trigger]
        reaches(g, from, x, c, n) ==> names(list, x)
}

/// Whether `places` are different places that can all be reached from
/// `from`.
pub open spec fn crowd<G: Graph>(g: &G, from: Seq<usize>, places: Seq<Seq<usize>>) -> bool {
    &&& places.no_duplicates()
    &&& forall|i: int| 0 <= i < places.len() ==> findable(g, from, #[trigger] places[i])
}

/// Whether `to` can be reached from `from` at some cost.
pub open spec fn findable<G: Graph>(g: &G, from: Seq<usize>, to: Seq<usize>) -> bool {
    exists|c: int| reachable(g, from, to, c)
}

/// Why a search gives up: more than `fuel` places can be reached, the
/// distance of one of them does not fit in a `usize`, or the moves from one
/// of them cannot be listed.
pub open spec fn gives_up<G: Graph>(g: &G, from: Seq<usize>, fuel: nat) -> bool {
    ||| exists|places: Seq<Seq<usize>>| #[trigger] crowd(g, from, places) && places.len() > fuel
    ||| exists|x: Seq<usize>, c: int| #[trigger] shortest_to(g, from, x, c) && c > usize::MAX
    ||| exists|x: Seq<usize>, c: int| #[trigger] reachable(g, from, x, c) && g.stuck(x)
}

/// A place on the way: finished or still to be looked at.
struct Mark {
    to: Vec<usize>,
    cost: u128,
}

/// Whether `list` names `x`.
spec fn marks(list: Seq<Mark>, x: Seq<usize>) -> bool {
    exists|k: int| 0 <= k < list.len() && (#[trigger] list[k]).to@ == x
}

/// Whether `list` names no place twice.
spec fn unlike(list: Seq<Mark>) -> bool {
    forall|i: int, j: int|
        0 <= i < j < list.len() ==> (#[trigger] list[i]).to@ != (#[trigger] list[j]).to@
}

/// Whether no place is named by both lists.
spec fn apart(done: Seq<Mark>, pending: Seq<Mark>) -> bool {
    forall|i: int, j: int|
        0 <= i < done.len() && 0 <= j < pending.len() ==> (#[trigger] done[i]).to@ != (
        #[trigger] pending[j]).to@
}

/// Whether every finished place has its distance.
spec fn settled<G: Graph>(g: &G, from: Seq<usize>, done: Seq<Mark>) -> bool {
    forall|k: int|
        0 <= k < done.len() ==> shortest_to(g, from, (#[trigger] done[k]).to@, done[k].cost as int)
            && done[k].cost <= usize::MAX
}

/// Whether every place still to be looked at can be reached at its cost.
spec fn tentative<G: Graph>(g: &G, from: Seq<usize>, pending: Seq<Mark>) -> bool {
    forall|k: int|
        0 <= k < pending.len() ==> reachable(
            g,
            from,
            (#[trigger] pending[k]).to@,
            pending[k].cost as int,
        )
}

/// Whether the move of cost `w` from the finished place `u` to `v` is
/// accounted for: `v` is finished, or waits at a cost no more than through
/// `u`.
spec fn relaxed(done: Seq<Mark>, pending: Seq<Mark>, u: Mark, v: Seq<usize>, w: int) -> bool {
    marks(done, v) || exists|j: int|
        0 <= j < pending.len() && (#[trigger] pending[j]).to@ == v && pending[j].cost <= u.cost + w
}

/// Whether every move from each of the first `upto` finished places is
/// accounted for.
spec fn closed<G: Graph>(g: &G, done: Seq<Mark>, pending: Seq<Mark>, upto: int) -> bool {
    forall|k: int, v: Seq<usize>, w: int|
        0 <= k < upto && #[trigger] g.step(done[k].to@, v, w) ==> #[trigger] relaxed(
            done,
            pending,
            done[k],
            v,
            w,
        )
}

/// Whether the start is finished at distance 0 or waits at cost 0.
spec fn rooted(from: Seq<usize>, done: Seq<Mark>, pending: Seq<Mark>) -> bool {
    (exists|k: int| 0 <= k < done.len() && (#[trigger] done[k]).to@ == from && done[k].cost == 0)
        || (exists|j: int|
        0 <= j < pending.len() && (#[trigger] pending[j]).to@ == from && pending[j].cost == 0)
}

/// Whether `m` is no more than the cost of any place that waits.
spec fn least(pending: Seq<Mark>, m: int) -> bool {
    forall|j: int| 0 <= j < pending.len() ==> m <= (#[trigger] pending[j]).cost
}

/// Any moves from the start to a place cost no less than the place's
/// distance, if it is finished, or than the least cost of a place that
/// waits.
#[verifier::rlimit(40)]
proof fn lemma_bound<G: Graph>(
    g: &G,
    from: Seq<usize>,
    done: Seq<Mark>,
    pending: Seq<Mark>,
    m: int,
    x: Seq<usize>,
    c: int,
    n: nat,
)
    requires
        g.valid(),
        settled(g, from, done),
        closed(g, done, pending, done.len() as int),
        rooted(from, done, pending),
        least(pending, m),
        reaches(g, from, x, c, n),
    ensures
        marks(done, x) || (pending.len() > 0 && m <= c),
        c >= 0,
    decreases n,
{
    if n == 0 {
    } else {
        let (mid, w) = choose|mid: Seq<usize>, w: int| #[trigger]
            g.step(mid, x, w) && reaches(g, from, mid, c - w, (n - 1) as nat);
        g.lemma_costs(mid, x, w);
        lemma_bound(g, from, done, pending, m, mid, c - w, (n - 1) as nat);
        if marks(done, mid) {
            let k = choose|k: int| 0 <= k < done.len() && (#[trigger] done[k]).to@ == mid;
            assert(shortest_to(g, from, done[k].to@, done[k].cost as int));
            assert(done[k].cost <= c - w);
            assert(relaxed(done, pending, done[k], x, w));
            if !marks(done, x) {
                let j = choose|j: int|
                    0 <= j < pending.len() && (#[trigger] pending[j]).to@ == x && pending[j].cost
                        <= done[k].cost + w;
                assert(m <= pending[j].cost);
            }
        }
    }
}

/// Moves cost nothing or more.
pub proof fn lemma_reach_nonneg<G: Graph>(g: &G, from: Seq<usize>, to: Seq<usize>, c: int, n: nat)
    requires
        g.valid(),
        reaches(g, from, to, c, n),
    ensures
        c >= 0,
    decreases n,
{
    if n > 0 {
        let (mid, w) = choose|mid: Seq<usize>, w: int| #[trigger]
            g.step(mid, to, w) && reaches(g, from, mid, c - w, (n - 1) as nat);
        g.lemma_costs(mid, to, w);
        lemma_reach_nonneg(g, from, mid, c - w, (n - 1) as nat);
    }
}

/// One more move makes a longer way.
proof fn lemma_extend<G: Graph>(
    g: &G,
    from: Seq<usize>,
    u: Seq<usize>,
    du: int,
    v: Seq<usize>,
    w: int,
)
    requires
        reachable(g, from, u, du),
        g.step(u, v, w),
    ensures
        reachable(g, from, v, du + w),
{
    let n = choose|n: nat| reaches(g, from, u, du, n);
    assert(reaches(g, from, u, (du + w) - w, n));
    assert(reaches(g, from, v, du + w, (n + 1) as nat));
}

/// Whether the two places are the same.
pub fn same_node(a: &Vec<usize>, b: &Vec<usize>) -> (r: bool)
    ensures
        r == (a@ == b@),
{
    if a.len() != b.len() {
        return false;
    }
    let mut i: usize = 0;
    while i < a.len()
        invariant
            i <= a.len(),
            a@.len() == b@.len(),
            forall|k: int| 0 <= k < i ==> a@[k] == b@[k],
        decreases a.len() - i,
    {
        if a[i] != b[i] {
            return false;
        }
        i = i + 1;
    }
    assert(a@ =~= b@);
    true
}

/// The place of `node` in `list`.
fn find_mark(list: &Vec<Mark>, node: &Vec<usize>) -> (r: Option<usize>)
    ensures
        match r {
            Some(k) => k < list@.len() && list@[k as int].to@ == node@,
            None => !marks(list@, node@),
        },
{
    let mut k: usize = 0;
    while k < list.len()
        invariant
            k <= list@.len(),
            forall|i: int| 0 <= i < k ==> (#[trigger] list@[i]).to@ != node@,
        decreases list@.len() - k,
    {
        if same_node(&list[k].to, node) {
            return Some(k);
        }
        k = k + 1;
    }
    None
}

/// Whether every place that waits in `before` is finished in `done` or
/// waits in `after` at no higher cost.
spec fn carried(before: Seq<Mark>, done: Seq<Mark>, after: Seq<Mark>) -> bool {
    forall|j: int|
        0 <= j < before.len() ==> marks(done, (#[trigger] before[j]).to@) || exists|i: int|
            0 <= i < after.len() && (#[trigger] after[i]).to@ == before[j].to@ && after[i].cost
                <= before[j].cost
}

/// Moves that are accounted for stay so when finished places stay finished
/// and waiting places get finished or wait at no higher cost.
#[verifier::rlimit(40)]
proof fn lemma_closed_carried<G: Graph>(
    g: &G,
    done1: Seq<Mark>,
    pending1: Seq<Mark>,
    done2: Seq<Mark>,
    pending2: Seq<Mark>,
    upto: int,
)
    requires
        closed(g, done1, pending1, upto),
        upto <= done1.len() <= done2.len(),
        forall|k: int| 0 <= k < done1.len() ==> #[trigger] done2[k] == done1[k],
        carried(pending1, done2, pending2),
    ensures
        closed(g, done2, pending2, upto),
{
    assert forall|k: int, v: Seq<usize>, w: int|
        0 <= k < upto && #[trigger] g.step(done2[k].to@, v, w) implies #[trigger] relaxed(
        done2,
        pending2,
        done2[k],
        v,
        w,
    ) by {
        assert(done2[k] == done1[k]);
        assert(relaxed(done1, pending1, done1[k], v, w));
        if marks(done1, v) {
            let i = choose|i: int| 0 <= i < done1.len() && (#[trigger] done1[i]).to@ == v;
            assert(done2[i] == done1[i]);
            assert(marks(done2, v));
        } else {
            let j = choose|j: int|
                0 <= j < pending1.len() && (#[trigger] pending1[j]).to@ == v && pending1[j].cost
                    <= done1[k].cost + w;
            if !marks(done2, pending1[j].to@) {
                let i = choose|i: int|
                    0 <= i < pending2.len() && (#[trigger] pending2[i]).to@ == pending1[j].to@
                        && pending2[i].cost <= pending1[j].cost;
                assert(pending2[i].to@ == v && pending2[i].cost <= done2[k].cost + w);
            }
        }
    }
}

/// What is left of `before` when its entry `m` is taken out names each of
/// the others once, where it stood or one place further up.
proof fn lemma_removed(before: Seq<Mark>, m: int, pending: Seq<Mark>)
    requires
        0 <= m < before.len(),
        pending == before.remove(m),
    ensures
        pending.len() == before.len() - 1,
        forall|j: int| 0 <= j < m ==> #[trigger] pending[j] == before[j],
        forall|j: int| m <= j < pending.len() ==> #[trigger] pending[j] == before[j + 1],
{
}

/// After the cheapest place that waits is finished, the two lists still
/// name no place twice and none in common.
#[verifier::rlimit(40)]
proof fn lemma_finish_lists(
    done_before: Seq<Mark>,
    before: Seq<Mark>,
    m: int,
    done: Seq<Mark>,
    pending: Seq<Mark>,
)
    requires
        0 <= m < before.len(),
        unlike(done_before),
        unlike(before),
        apart(done_before, before),
        done == done_before.push(before[m]),
        pending == before.remove(m),
    ensures
        unlike(done),
        unlike(pending),
        apart(done, pending),
        carried(before, done, pending),
{
    let n = done_before.len() as int;
    lemma_removed(before, m, pending);
    assert forall|i: int, j: int| 0 <= i < j < pending.len() implies (#[trigger] pending[i]).to@
        != (#[trigger] pending[j]).to@ by {
        let a = if i < m {
            i
        } else {
            i + 1
        };
        let b = if j < m {
            j
        } else {
            j + 1
        };
        assert(pending[i] == before[a] && pending[j] == before[b]);
        assert(before[a].to@ != before[b].to@);
    }
    assert forall|i: int, j: int| 0 <= i < j < done.len() implies (#[trigger] done[i]).to@ != (
    #[trigger] done[j]).to@ by {
        if j < n {
            assert(done[i] == done_before[i] && done[j] == done_before[j]);
            assert(done_before[i].to@ != done_before[j].to@);
        } else {
            assert(done[i] == done_before[i]);
            assert(done_before[i].to@ != before[m].to@);
        }
    }
    assert forall|i: int, j: int| 0 <= i < done.len() && 0 <= j < pending.len() implies (
    #[trigger] done[i]).to@ != (#[trigger] pending[j]).to@ by {
        let b = if j < m {
            j
        } else {
            j + 1
        };
        assert(pending[j] == before[b]);
        if i < n {
            assert(done[i] == done_before[i]);
            assert(done_before[i].to@ != before[b].to@);
        } else {
            if b < m {
                assert(before[b].to@ != before[m].to@);
            } else {
                assert(before[m].to@ != before[b].to@);
            }
        }
    }
    assert forall|j: int| 0 <= j < before.len() implies marks(done, (#[trigger] before[j]).to@)
        || exists|i: int|
        0 <= i < pending.len() && (#[trigger] pending[i]).to@ == before[j].to@ && pending[i].cost
            <= before[j].cost by {
        if j == m {
            assert(done[n].to@ == before[j].to@);
        } else {
            let a = if j < m {
                j
            } else {
                j - 1
            };
            assert(pending[a] == before[j]);
        }
    }
}

/// After the cheapest place that waits is finished, every finished place
/// has its distance, every place that waits can be reached at its cost, and
/// the start is accounted for.
#[verifier::rlimit(40)]
proof fn lemma_finish_ways<G: Graph>(
    g: &G,
    from: Seq<usize>,
    done_before: Seq<Mark>,
    before: Seq<Mark>,
    m: int,
    done: Seq<Mark>,
    pending: Seq<Mark>,
)
    requires
        0 <= m < before.len(),
        settled(g, from, done_before),
        tentative(g, from, before),
        rooted(from, done_before, before),
        shortest_to(g, from, before[m].to@, before[m].cost as int),
        before[m].cost <= usize::MAX,
        done == done_before.push(before[m]),
        pending == before.remove(m),
    ensures
        settled(g, from, done),
        tentative(g, from, pending),
        rooted(from, done, pending),
{
    let n = done_before.len() as int;
    lemma_removed(before, m, pending);
    assert forall|k: int| 0 <= k < done.len() implies shortest_to(
        g,
        from,
        (#[trigger] done[k]).to@,
        done[k].cost as int,
    ) && done[k].cost <= usize::MAX by {
        if k < n {
            assert(done[k] == done_before[k]);
        }
    }
    assert forall|k: int| 0 <= k < pending.len() implies reachable(
        g,
        from,
        (#[trigger] pending[k]).to@,
        pending[k].cost as int,
    ) by {
        let b = if k < m {
            k
        } else {
            k + 1
        };
        assert(pending[k] == before[b]);
    }
    if exists|k: int|
        0 <= k < done_before.len() && (#[trigger] done_before[k]).to@ == from
            && done_before[k].cost == 0 {
        let k = choose|k: int|
            0 <= k < done_before.len() && (#[trigger] done_before[k]).to@ == from
                && done_before[k].cost == 0;
        assert(done[k].to@ == from && done[k].cost == 0);
    } else {
        let j = choose|j: int|
            0 <= j < before.len() && (#[trigger] before[j]).to@ == from && before[j].cost == 0;
        if j == m {
            assert(done[n].to@ == from && done[n].cost == 0);
        } else {
            let a = if j < m {
                j
            } else {
                j - 1
            };
            assert(pending[a].to@ == from && pending[a].cost == 0);
        }
    }
}

/// After the cheapest place that waits is finished, all that held of the
/// two lists still holds, and the moves from the places finished before
/// are still accounted for.
proof fn lemma_finish<G: Graph>(
    g: &G,
    from: Seq<usize>,
    done_before: Seq<Mark>,
    before: Seq<Mark>,
    m: int,
    done: Seq<Mark>,
    pending: Seq<Mark>,
)
    requires
        0 <= m < before.len(),
        unlike(done_before),
        unlike(before),
        apart(done_before, before),
        settled(g, from, done_before),
        tentative(g, from, before),
        closed(g, done_before, before, done_before.len() as int),
        rooted(from, done_before, before),
        shortest_to(g, from, before[m].to@, before[m].cost as int),
        before[m].cost <= usize::MAX,
        done == done_before.push(before[m]),
        pending == before.remove(m),
    ensures
        unlike(done),
        unlike(pending),
        apart(done, pending),
        settled(g, from, done),
        tentative(g, from, pending),
        closed(g, done, pending, done_before.len() as int),
        rooted(from, done, pending),
{
    lemma_finish_lists(done_before, before, m, done, pending);
    lemma_finish_ways(g, from, done_before, before, m, done, pending);
    assert forall|k: int| 0 <= k < done_before.len() implies #[trigger] done[k]
        == done_before[k] by {}
    lemma_closed_carried(g, done_before, before, done, pending, done_before.len() as int);
}

/// Whether `now` is `then` after the cost of waiting at `x` was lowered to
/// `candidate`, or `x` was put at its end at that cost, or nothing changed.
spec fn bettered(then: Seq<Mark>, now: Seq<Mark>, x: Seq<usize>, candidate: int) -> bool {
    &&& forall|j: int|
        0 <= j < then.len() ==> {
            &&& (#[trigger] now[j]).to@ == then[j].to@
            &&& now[j].cost <= then[j].cost
            &&& (now[j].cost == then[j].cost || (now[j].to@ == x && now[j].cost == candidate))
        }
    &&& now.len() == then.len() || (now.len() == then.len() + 1 && !marks(then, x)
        && now[then.len() as int].to@ == x && now[then.len() as int].cost == candidate)
}

/// A bettered list still names no place twice, none that is finished, and
/// carries all that waited.
proof fn lemma_bettered_lists(
    done: Seq<Mark>,
    then: Seq<Mark>,
    now: Seq<Mark>,
    x: Seq<usize>,
    candidate: int,
)
    requires
        unlike(then),
        apart(done, then),
        bettered(then, now, x, candidate),
        now.len() > then.len() ==> !marks(done, x),
    ensures
        unlike(now),
        apart(done, now),
        carried(then, done, now),
{
    assert forall|a: int, b: int| 0 <= a < b < now.len() implies (#[trigger] now[a]).to@ != (
    #[trigger] now[b]).to@ by {
        if b < then.len() {
            assert(then[a].to@ != then[b].to@);
        } else {
            assert(now[a].to@ == then[a].to@);
        }
    }
    assert forall|a: int, b: int| 0 <= a < done.len() && 0 <= b < now.len() implies (
    #[trigger] done[a]).to@ != (#[trigger] now[b]).to@ by {
        if b < then.len() {
            assert(done[a].to@ != then[b].to@);
        }
    }
    assert forall|j: int| 0 <= j < then.len() implies marks(done, (#[trigger] then[j]).to@)
        || exists|i: int|
        0 <= i < now.len() && (#[trigger] now[i]).to@ == then[j].to@ && now[i].cost
            <= then[j].cost by {
        assert(now[j].to@ == then[j].to@);
    }
}

/// In a bettered list every place can still be reached at its cost, and
/// the start is still accounted for.
proof fn lemma_bettered_ways<G: Graph>(
    g: &G,
    from: Seq<usize>,
    done: Seq<Mark>,
    then: Seq<Mark>,
    now: Seq<Mark>,
    x: Seq<usize>,
    candidate: int,
)
    requires
        tentative(g, from, then),
        rooted(from, done, then),
        bettered(then, now, x, candidate),
        reachable(g, from, x, candidate),
        candidate >= 0,
    ensures
        tentative(g, from, now),
        rooted(from, done, now),
{
    assert forall|k: int| 0 <= k < now.len() implies reachable(
        g,
        from,
        (#[trigger] now[k]).to@,
        now[k].cost as int,
    ) by {
        if k < then.len() {
            assert(reachable(g, from, then[k].to@, then[k].cost as int));
        }
    }
    if !(exists|k: int| 0 <= k < done.len() && (#[trigger] done[k]).to@ == from && done[k].cost == 0) {
        let j = choose|j: int|
            0 <= j < then.len() && (#[trigger] then[j]).to@ == from && then[j].cost == 0;
        assert(now[j].to@ == from && now[j].cost == 0);
    }
}

/// Moves from `u` that were accounted for stay so in a bettered list.
proof fn lemma_bettered_edges(
    done: Seq<Mark>,
    then: Seq<Mark>,
    now: Seq<Mark>,
    u: Mark,
    edges: Seq<Edge>,
    upto: int,
)
    requires
        0 <= upto <= edges.len(),
        forall|j: int|
            0 <= j < then.len() ==> (#[trigger] now[j]).to@ == then[j].to@ && now[j].cost
                <= then[j].cost,
        then.len() <= now.len(),
        forall|k: int|
            0 <= k < upto ==> relaxed(
                done,
                then,
                u,
                (#[trigger] edges[k]).to@,
                edges[k].cost as int,
            ),
    ensures
        forall|k: int|
            0 <= k < upto ==> relaxed(done, now, u, (#[trigger] edges[k]).to@, edges[k].cost as int),
{
    assert forall|k: int| 0 <= k < upto implies relaxed(
        done,
        now,
        u,
        (#[trigger] edges[k]).to@,
        edges[k].cost as int,
    ) by {
        assert(relaxed(done, then, u, edges[k].to@, edges[k].cost as int));
        if !marks(done, edges[k].to@) {
            let j = choose|j: int|
                0 <= j < then.len() && (#[trigger] then[j]).to@ == edges[k].to@ && then[j].cost
                    <= u.cost + edges[k].cost;
            assert(now[j].to@ == edges[k].to@);
        }
    }
}

/// The place of a place in `pending` that costs least.
fn cheapest(pending: &Vec<Mark>) -> (m: usize)
    requires
        pending@.len() > 0,
    ensures
        m < pending@.len(),
        least(pending@, pending@[m as int].cost as int),
{
    let mut m: usize = 0;
    let mut j: usize = 1;
    while j < pending.len()
        invariant
            1 <= j <= pending@.len(),
            m < j,
            forall|i: int| 0 <= i < j ==> pending@[m as int].cost <= (#[trigger] pending@[i]).cost,
        decreases pending@.len() - j,
    {
        if pending[j].cost < pending[m].cost {
            m = j;
        }
        j = j + 1;
    }
    m
}

/// The places of `done`.
spec fn places_of(done: Seq<Mark>) -> Seq<Seq<usize>> {
    Seq::new(done.len(), |k: int| done[k].to@)
}

/// The places that can be reached from `from`, each with its distance: the
/// least total cost of moves that lead there. Returns `None` when more than
/// `fuel` places can be reached, a distance does not fit in a `usize`, or
/// the moves from a place cannot be listed.
#[verifier::rlimit(60)]
pub fn shortest<G: Graph>(g: &G, from: &Vec<usize>, fuel: usize) -> (r: Option<Vec<Edge>>)
    requires
        g.valid(),
    ensures
        match r {
            Some(list) => is_shortest(g, from@, list@),
            None => gives_up(g, from@, fuel as nat),
        },
{
    let mut done: Vec<Mark> = Vec::new();
    let mut pending: Vec<Mark> = Vec::new();
    let start: Vec<usize> = from.clone();
    assert(start@ =~= from@);
    pending.push(Mark { to: start, cost: 0 });
    proof {
        assert(reaches(g, from@, from@, 0, 0));
        assert(pending@[0].to@ == from@ && pending@[0].cost == 0);
    }
    while pending.len() > 0
        invariant
            g.valid(),
            done@.len() <= fuel,
            unlike(done@),
            unlike(pending@),
            apart(done@, pending@),
            settled(g, from@, done@),
            tentative(g, from@, pending@),
            closed(g, done@, pending@, done@.len() as int),
            rooted(from@, done@, pending@),
        decreases fuel - done@.len(),
    {
        let m: usize = cheapest(&pending);
        let ghost least_cost = pending@[m as int].cost as int;
        let ghost target = pending@[m as int].to@;
        proof {
            assert(reachable(g, from@, target, least_cost));
            assert forall|c: int, n: nat| #[trigger]
                reaches(g, from@, target, c, n) implies least_cost <= c by {
                lemma_bound(g, from@, done@, pending@, least_cost, target, c, n);
                if marks(done@, target) {
                    let k = choose|k: int| 0 <= k < done@.len() && (#[trigger] done@[k]).to@ == target;
                    assert(done@[k].to@ != pending@[m as int].to@);
                }
            }
            assert(shortest_to(g, from@, target, least_cost));
        }
        if done.len() >= fuel {
            proof {
                let places = places_of(done@).push(target);
                assert(places.len() > fuel);
                assert forall|i: int, j: int|
                    0 <= i < places.len() && 0 <= j < places.len() && i != j implies places[i]
                    != places[j] by {
                    let (a, b) = if i < j {
                        (i, j)
                    } else {
                        (j, i)
                    };
                    if b < done@.len() {
                        assert(done@[a].to@ != done@[b].to@);
                    } else {
                        assert(done@[a].to@ != pending@[m as int].to@);
                    }
                }
                assert(places.no_duplicates());
                assert forall|i: int| 0 <= i < places.len() implies findable(
                    g,
                    from@,
                    #[trigger] places[i],
                ) by {
                    if i < done@.len() {
                        assert(shortest_to(g, from@, done@[i].to@, done@[i].cost as int));
                        assert(reachable(g, from@, places[i], done@[i].cost as int));
                    } else {
                        assert(reachable(g, from@, places[i], least_cost));
                    }
                }
                assert(crowd(g, from@, places) && places.len() > fuel);
            }
            return None;
        }
        if pending[m].cost > usize::MAX as u128 {
            return None;
        }
        let ghost before = pending@;
        let v: Mark = pending.remove(m);
        assert(v == before[m as int]);
        let edges: Vec<Edge> = match g.successors(&v.to) {
            Some(edges) => edges,
            None => {
                return None;
            },
        };
        let ghost done_before = done@;
        let cost: u128 = v.cost;
        let node: Vec<usize> = v.to.clone();
        assert(node@ =~= target);
        done.push(v);
        let ghost n = done_before.len() as int;
        proof {
            assert(done@ == done_before.push(before[m as int]));
            assert(pending@ == before.remove(m as int));
            lemma_finish(g, from@, done_before, before, m as int, done@, pending@);
        }
        proof {
            assert(shortest_to(g, from@, done@[n].to@, done@[n].cost as int));
        }
        let mut i: usize = 0;
        while i < edges.len()
            invariant
                i <= edges@.len(),
                g.valid(),
                n + 1 == done@.len(),
                done@.len() <= fuel,
                done@[n].to@ == target,
                done@[n].cost == cost,
                cost <= usize::MAX,
                reachable(g, from@, target, cost as int),
                unlike(done@),
                unlike(pending@),
                apart(done@, pending@),
                settled(g, from@, done@),
                tentative(g, from@, pending@),
                closed(g, done@, pending@, n),
                rooted(from@, done@, pending@),
                forall|k: int|
                    0 <= k < edges@.len() ==> g.step(
                        target,
                        (#[trigger] edges@[k]).to@,
                        edges@[k].cost as int,
                    ),
                forall|k: int|
                    0 <= k < i ==> relaxed(
                        done@,
                        pending@,
                        done@[n],
                        (#[trigger] edges@[k]).to@,
                        edges@[k].cost as int,
                    ),
            decreases edges@.len() - i,
        {
            let ghost then = pending@;
            let ghost e = edges@[i as int];
            let candidate: u128 = cost + edges[i].cost as u128;
            proof {
                lemma_extend(g, from@, target, cost as int, e.to@, e.cost as int);
            }
            let finished: bool = find_mark(&done, &edges[i].to).is_some();
            let ghost mut at: int = 0;
            if !finished {
                match find_mark(&pending, &edges[i].to) {
                    Some(j) => {
                        if candidate < pending[j].cost {
                            let to: Vec<usize> = edges[i].to.clone();
                            assert(to@ =~= e.to@);
                            pending.set(j, Mark { to, cost: candidate });
                        }
                        proof {
                            at = j as int;
                        }
                    },
                    None => {
                        let to: Vec<usize> = edges[i].to.clone();
                        assert(to@ =~= e.to@);
                        pending.push(Mark { to, cost: candidate });
                        proof {
                            at = then.len() as int;
                        }
                    },
                }
                assert(0 <= at < pending@.len() && pending@[at].to@ == e.to@ && pending@[at].cost
                    <= candidate);
            }
            proof {
                assert(bettered(then, pending@, e.to@, candidate as int));
                assert(finished == marks(done@, e.to@));
                lemma_bettered_lists(done@, then, pending@, e.to@, candidate as int);
                lemma_bettered_ways(g, from@, done@, then, pending@, e.to@, candidate as int);
                lemma_closed_carried(g, done@, then, done@, pending@, n);
                lemma_bettered_edges(done@, then, pending@, done@[n], edges@, i as int);
                assert(relaxed(done@, pending@, done@[n], e.to@, e.cost as int));
            }
            i = i + 1;
        }
        proof {
            assert(closed(g, done@, pending@, done@.len() as int)) by {
                assert forall|k: int, x: Seq<usize>, w: int|
                    0 <= k < done@.len() && #[trigger] g.step(
                        done@[k].to@,
                        x,
                        w,
                    ) implies #[trigger] relaxed(done@, pending@, done@[k], x, w) by {
                    if k == n {
                        let a = choose|a: int|
                            0 <= a < edges@.len() && (#[trigger] edges@[a]).to@ == x
                                && edges@[a].cost <= w;
                        assert(relaxed(
                            done@,
                            pending@,
                            done@[n],
                            edges@[a].to@,
                            edges@[a].cost as int,
                        ));
                        if !marks(done@, x) {
                            let j = choose|j: int|
                                0 <= j < pending@.len() && (#[trigger] pending@[j]).to@ == x
                                    && pending@[j].cost <= done@[n].cost + edges@[a].cost;
                            assert(pending@[j].cost <= done@[n].cost + w);
                        }
                    }
                }
            }
        }
    }
    let mut list: Vec<Edge> = Vec::new();
    let mut k: usize = 0;
    while k < done.len()
        invariant
            k <= done@.len(),
            settled(g, from@, done@),
            list@.len() == k,
            forall|i: int|
                0 <= i < k ==> (#[trigger] list@[i]).to@ == done@[i].to@ && list@[i].cost
                    == done@[i].cost,
        decreases done@.len() - k,
    {
        let to: Vec<usize> = done[k].to.clone();
        assert(to@ =~= done@[k as int].to@);
        assert(done@[k as int].cost <= usize::MAX);
        list.push(Edge { to, cost: done[k].cost as usize });
        k = k + 1;
    }
    proof {
        assert(distinct(list@)) by {
            assert forall|i: int, j: int| 0 <= i < j < list@.len() implies (
            #[trigger] list@[i]).to@ != (#[trigger] list@[j]).to@ by {
                assert(done@[i].to@ != done@[j].to@);
            }
        }
        assert forall|i: int| 0 <= i < list@.len() implies shortest_to(
            g,
            from@,
            (#[trigger] list@[i]).to@,
            list@[i].cost as int,
        ) by {
            assert(shortest_to(g, from@, done@[i].to@, done@[i].cost as int));
        }
        assert forall|x: Seq<usize>, c: int, n: nat| #[trigger]
            reaches(g, from@, x, c, n) implies names(list@, x) by {
            lemma_bound(g, from@, done@, pending@, 0, x, c, n);
            let i = choose|i: int| 0 <= i < done@.len() && (#[trigger] done@[i]).to@ == x;
            assert(list@[i].to@ == x);
        }
    }
    Some(list)
}

} // verus!
