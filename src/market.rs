//! Market state per city, grouping of cities and price resolution.
use vstd::prelude::*;
use std::collections::BTreeMap;
use crate::curve::{
    clearing, curve_combination_fits, curve_difference, curve_shift_fits, curve_shifted, curve_sum,
    curve_valid, points_or_zero, Demand, Supply,
};
use crate::entity::{Consumer, Producer};
use crate::function::{
    bisect, combine_at, crossing, diverge, eval, has_arg, lemma_bisect_bracket, lemma_eval_between, lower_curve, upper_curve, valid,
};
use crate::geography::{has_city, ids_unique, index_of, City, CityId, Geography};
use crate::types::{in_bound, Price, Volume, BOUND};

verus! {

/// What the last resolution found for a city.
#[derive(Clone, Copy, Debug, PartialEq, Eq, Structural)]
pub enum MarketState {
    /// No price has been computed yet.
    Undefined,
    /// Demand exceeds supply at every price.
    UnderSupply,
    /// Supply exceeds demand at every price.
    OverSupply,
    /// The local price, and the demanded and supplied volumes at it.
    Equilibrium(Price, Volume, Volume),
}

/// Largest number of cities that a market resolves.
pub const CITY_CAP: usize = 1_000_000;

/// Largest magnitude of a transport cost that a market resolves.
pub const COST_CAP: i64 = 1_000_000_000_000;

/// Largest magnitude of a curve argument that a market resolves.
pub const ARG_CAP: i64 = 1_000_000_000_000_000;

/// Largest magnitude of a curve value that a market resolves.
pub const VALUE_CAP: i64 = 1_000_000_000_000;

/// Every breakpoint of the curve lies within the given magnitudes.
pub open spec fn curve_within(c: Option<Seq<(i64, i64)>>, arg_cap: int, value_cap: int) -> bool {
    match c {
        Some(p) => forall|i: int|
            #![trigger p[i]]
            0 <= i < p.len() ==> -arg_cap <= p[i].0 && p[i].0 <= arg_cap && -value_cap <= p[i].1 && p[i].1
                <= value_cap,
        None => true,
    }
}

/// The aggregate curves and the market state of one city.
#[derive(Debug)]
pub struct CityData {
    demand: Demand,
    supply: Supply,
    state: MarketState,
}

impl CityData {
    pub closed spec fn demand_spec(&self) -> Demand {
        self.demand
    }

    pub closed spec fn supply_spec(&self) -> Supply {
        self.supply
    }

    pub closed spec fn state_spec(&self) -> MarketState {
        self.state
    }

    pub open spec fn wf(&self) -> bool {
        self.demand_spec().wf() && self.supply_spec().wf()
    }

    fn new(state: MarketState) -> (r: CityData)
        ensures
            r.wf(),
            r.demand_spec()@.is_none(),
            r.supply_spec()@.is_none(),
            r.state_spec() == state,
    {
        CityData { demand: Demand::zero(), supply: Supply::zero(), state }
    }

    pub fn demand(&self) -> (r: &Demand)
        ensures
            r@ == self.demand_spec()@,
    {
        &self.demand
    }

    pub fn supply(&self) -> (r: &Supply)
        ensures
            r@ == self.supply_spec()@,
    {
        &self.supply
    }

    pub fn state(&self) -> (r: &MarketState)
        ensures
            *r == self.state_spec(),
    {
        &self.state
    }

    /// The price, when the city is in equilibrium.
    pub fn price(&self) -> (r: Option<Price>)
        ensures
            r == match self.state_spec() {
                MarketState::Equilibrium(p, _, _) => Some(p),
                _ => None,
            },
    {
        match self.state {
            MarketState::Equilibrium(p, _, _) => Some(p),
            _ => None,
        }
    }

    /// The demanded volume, when the city is in equilibrium.
    pub fn demand_volume(&self) -> (r: Option<Volume>)
        ensures
            r == match self.state_spec() {
                MarketState::Equilibrium(_, d, _) => Some(d),
                _ => None,
            },
    {
        match self.state {
            MarketState::Equilibrium(_, d, _) => Some(d),
            _ => None,
        }
    }

    /// The supplied volume, when the city is in equilibrium.
    pub fn supply_volume(&self) -> (r: Option<Volume>)
        ensures
            r == match self.state_spec() {
                MarketState::Equilibrium(_, _, s) => Some(s),
                _ => None,
            },
    {
        match self.state {
            MarketState::Equilibrium(_, _, s) => Some(s),
            _ => None,
        }
    }
}

/// The price of a state, when it is an equilibrium.
pub open spec fn state_price(s: MarketState) -> Option<Price> {
    match s {
        MarketState::Equilibrium(p, _, _) => Some(p),
        _ => None,
    }
}

/// The demanded volume of a state, when it is an equilibrium.
pub open spec fn state_demand_volume(s: MarketState) -> Option<Volume> {
    match s {
        MarketState::Equilibrium(_, d, _) => Some(d),
        _ => None,
    }
}

/// The supplied volume of a state, when it is an equilibrium.
pub open spec fn state_supply_volume(s: MarketState) -> Option<Volume> {
    match s {
        MarketState::Equilibrium(_, _, v) => Some(v),
        _ => None,
    }
}

/// The state a city starts in: an equilibrium at the given price with no
/// volumes, or undefined.
pub open spec fn seeded_state(prices: Map<CityId, Price>, id: CityId) -> MarketState {
    if prices.contains_key(id) {
        MarketState::Equilibrium(prices[id], Volume { units: 0 }, Volume { units: 0 })
    } else {
        MarketState::Undefined
    }
}

/// The prices compared across a link between cities in the given states: an
/// equilibrium gives its price, over-supply the lowest sentinel price and
/// under-supply the highest; any other pair compares as zero with zero.
pub open spec fn effective_prices(from: MarketState, to: MarketState) -> (int, int) {
    match (from, to) {
        (MarketState::Equilibrium(pf, _, _), MarketState::Equilibrium(pt, _, _)) => (
            pf.units as int,
            pt.units as int,
        ),
        (MarketState::OverSupply, MarketState::Equilibrium(pt, _, _)) => (-BOUND as int, pt.units as int),
        (MarketState::UnderSupply, MarketState::Equilibrium(pt, _, _)) => (BOUND as int, pt.units as int),
        (MarketState::Equilibrium(pf, _, _), MarketState::OverSupply) => (pf.units as int, -BOUND as int),
        (MarketState::Equilibrium(pf, _, _), MarketState::UnderSupply) => (pf.units as int, BOUND as int),
        (MarketState::UnderSupply, MarketState::OverSupply) => (BOUND as int, -BOUND as int),
        (MarketState::OverSupply, MarketState::UnderSupply) => (-BOUND as int, BOUND as int),
        _ => (0, 0),
    }
}

/// Cities joined by a link of transport cost `cost` belong to one price
/// group: the gap between their prices is at least the cost.
pub open spec fn joins(from: MarketState, to: MarketState, cost: int) -> bool {
    let (pf, pt) = effective_prices(from, to);
    pf - pt >= cost || pt - pf >= cost
}

/// How the price offset changes along a joining link: up by the cost
/// toward the dearer city, down by it toward the cheaper one.
pub open spec fn offset_step(from: MarketState, to: MarketState, cost: int) -> int {
    let (pf, pt) = effective_prices(from, to);
    if pt > pf {
        cost
    } else {
        -cost
    }
}

/// City `i` was reached over link `k` of city `p` of its group, the link
/// joins, and the offset of `i` is that of `p` moved by the link's step.
pub open spec fn discovered_by(m: Market, root: Seq<usize>, off: Seq<i64>, i: int, p: int, k: int) -> bool {
    &&& 0 <= p < m.size()
    &&& 0 <= k < m.geo().links(p).len()
    &&& m.target(p, k) == i
    &&& root[p] == root[i]
    &&& joins(m.state(p), m.state(i), m.cost(p, k))
    &&& off[i] == off[p] + offset_step(m.state(p), m.state(i), m.cost(p, k))
}

/// City `i` was reached over a joining link from a city of its group that
/// the search reached before it (in the order `tm`).
pub open spec fn discovered_earlier(m: Market, root: Seq<usize>, off: Seq<i64>, tm: Seq<usize>, i: int) -> bool {
    exists|p: int, k: int| #[trigger] discovered_by(m, root, off, i, p, k) && tm[p] < tm[i]
}

/// A grouping with the order `tm` in which the search reached the cities.
/// `root[i]` names the group of city `i` by its smallest position, and
/// `off[i]` is the price offset of city `i` from that city. The groups
/// partition the cities; no joining link leaves a group; every city but the
/// first of its group was reached over a joining link from a city of its
/// group reached earlier, so every member is joined to the first.
pub open spec fn ordered_grouping(m: Market, root: Seq<usize>, off: Seq<i64>, tm: Seq<usize>) -> bool {
    &&& root.len() == m.size()
    &&& off.len() == m.size()
    &&& tm.len() == m.size()
    &&& forall|i: int|
        0 <= i < m.size() ==> #[trigger] root[i] < m.size() && root[root[i] as int] == root[i]
            && off[root[i] as int] == 0 && root[i] <= i
    &&& forall|i: int, k: int|
        #![trigger m.target(i, k)]
        0 <= i < m.size() && 0 <= k < m.geo().links(i).len() && joins(
            m.state(i),
            m.state(m.target(i, k)),
            m.cost(i, k),
        ) ==> root[m.target(i, k)] == root[i]
    &&& forall|i: int| 0 <= i < m.size() && #[trigger] root[i] != i ==> discovered_earlier(m, root, off, tm, i)
}

/// `root` and `off` form a grouping of `m` for some order of discovery.
pub open spec fn is_grouping(m: Market, root: Seq<usize>, off: Seq<i64>) -> bool {
    exists|tm: Seq<usize>| #[trigger] ordered_grouping(m, root, off, tm)
}

/// Following the discovery links of one grouping back to its first city
/// never leaves a group of another grouping.
proof fn lemma_root_reaches(
    m: Market,
    root1: Seq<usize>,
    off1: Seq<i64>,
    tm1: Seq<usize>,
    root2: Seq<usize>,
    off2: Seq<i64>,
    tm2: Seq<usize>,
    i: int,
)
    requires
        ordered_grouping(m, root1, off1, tm1),
        ordered_grouping(m, root2, off2, tm2),
        0 <= i < m.size(),
    ensures
        root2[i] == root2[root1[i] as int],
    decreases tm1[i],
{
    if root1[i] != i {
        assert(discovered_earlier(m, root1, off1, tm1, i));
        let (p, k) = choose|p: int, k: int| #[trigger] discovered_by(m, root1, off1, i, p, k) && tm1[p] < tm1[i];
        lemma_root_reaches(m, root1, off1, tm1, root2, off2, tm2, p);
        assert(m.target(p, k) == i);
        assert(root2[m.target(p, k)] == root2[p]);
    }
}

/// Any two groupings of a market have the same groups and the same first
/// city in each: the partition does not depend on the order in which the
/// search meets the cities, only the price offsets may.
pub proof fn lemma_grouping_unique(m: Market, root1: Seq<usize>, off1: Seq<i64>, root2: Seq<usize>, off2: Seq<i64>)
    requires
        is_grouping(m, root1, off1),
        is_grouping(m, root2, off2),
    ensures
        forall|i: int| 0 <= i < m.size() ==> #[trigger] root1[i] == root2[i],
{
    let tm1 = choose|tm: Seq<usize>| ordered_grouping(m, root1, off1, tm);
    let tm2 = choose|tm: Seq<usize>| ordered_grouping(m, root2, off2, tm);
    assert forall|i: int| 0 <= i < m.size() implies #[trigger] root1[i] == root2[i] by {
        let r1 = root1[i] as int;
        let r2 = root2[i] as int;
        lemma_root_reaches(m, root1, off1, tm1, root2, off2, tm2, i);
        lemma_root_reaches(m, root2, off2, tm2, root1, off1, tm1, i);
        assert(root2[r1] <= r1);
        assert(root1[r2] <= r2);
    }
}

/// The cities among the first `i` are those among the first `i - 1` and
/// the city at position `i - 1`.
proof fn lemma_take_one_more(cs: Seq<City>, i: int)
    requires
        0 < i <= cs.len(),
    ensures
        forall|k: CityId|
            #[trigger] has_city(cs.take(i), k) <==> (has_city(cs.take(i - 1), k) || k == cs[i - 1].id),
{
    assert forall|k: CityId| #[trigger] has_city(cs.take(i), k) <==> (has_city(cs.take(i - 1), k) || k == cs[i - 1].id) by {
        let t = cs.take(i);
        let t0 = cs.take(i - 1);
        if has_city(t0, k) {
            let j = choose|j: int| 0 <= j < t0.len() && t0[j].id == k;
            assert(t[j].id == k);
        }
        if has_city(t, k) && k != cs[i - 1].id {
            let j = choose|j: int| 0 <= j < t.len() && t[j].id == k;
            assert(t0[j].id == k);
        }
        if k == cs[i - 1].id {
            assert(t[i - 1].id == k);
        }
    }
}

/// The number of `true` entries.
pub open spec fn count_true(s: Seq<bool>) -> nat
    decreases s.len(),
{
    if s.len() == 0 {
        0
    } else {
        count_true(s.drop_last()) + (if s.last() { 1nat } else { 0nat })
    }
}

proof fn lemma_count_true_bound(s: Seq<bool>)
    ensures
        count_true(s) <= s.len(),
    decreases s.len(),
{
    if s.len() > 0 {
        lemma_count_true_bound(s.drop_last());
    }
}

proof fn lemma_count_true_set(s: Seq<bool>, i: int)
    requires
        0 <= i < s.len(),
        !s[i],
    ensures
        count_true(s.update(i, true)) == count_true(s) + 1,
    decreases s.len(),
{
    let t = s.update(i, true);
    if i == s.len() - 1 {
        assert(t.drop_last() =~= s.drop_last());
    } else {
        assert(t.drop_last() =~= s.drop_last().update(i, true));
        lemma_count_true_set(s.drop_last(), i);
    }
}

proof fn lemma_count_all_false(s: Seq<bool>)
    requires
        forall|j: int| 0 <= j < s.len() ==> !#[trigger] s[j],
    ensures
        count_true(s) == 0,
    decreases s.len(),
{
    if s.len() > 0 {
        lemma_count_all_false(s.drop_last());
    }
}

/// The bookkeeping of the grouping search: visited and finished cities,
/// their groups and offsets, the count of visited cities, and the group
/// `cur` being explored.
pub open spec fn search_state(
    m: Market,
    vis: Seq<bool>,
    done: Seq<bool>,
    root: Seq<usize>,
    off: Seq<i64>,
    tm: Seq<usize>,
    vc: int,
    cur: int,
) -> bool {
    let n = m.size();
    &&& vis.len() == n && done.len() == n && root.len() == n && off.len() == n && tm.len() == n
    &&& vc == count_true(vis)
    &&& forall|i: int| 0 <= i < n && #[trigger] done[i] ==> vis[i]
    &&& forall|i: int|
        0 <= i < n && #[trigger] vis[i] ==> root[i] < n && vis[root[i] as int] && root[root[i] as int]
            == root[i] && off[root[i] as int] == 0 && -vc * COST_CAP <= off[i] <= vc * COST_CAP
            && tm[i] < vc && root[i] <= i
    &&& forall|i: int| 0 <= i < n && #[trigger] vis[i] && !done[i] ==> root[i] == cur
    &&& forall|i: int, k: int|
        #![trigger m.target(i, k)]
        0 <= i < n && done[i] && 0 <= k < m.geo().links(i).len() && joins(
            m.state(i),
            m.state(m.target(i, k)),
            m.cost(i, k),
        ) ==> vis[m.target(i, k)] && root[m.target(i, k)] == root[i]
    &&& forall|i: int|
        0 <= i < n && #[trigger] vis[i] && root[i] != i ==> exists|p: int, k: int|
            vis[p] && tm[p] < tm[i] && #[trigger] discovered_by(m, root, off, i, p, k)
}

/// The stack of the search holds each visited, unfinished city but `u`
/// (the one being scanned) exactly once.
pub open spec fn stack_ok(vis: Seq<bool>, done: Seq<bool>, stack: Seq<usize>, n: int, u: int) -> bool {
    &&& forall|i: int| 0 <= i < n && #[trigger] vis[i] && !done[i] && i != u ==> stack.contains(i as usize)
    &&& forall|j: int|
        0 <= j < stack.len() ==> #[trigger] stack[j] < n && vis[stack[j] as int] && !done[stack[j] as int]
            && stack[j] != u
    &&& forall|a: int, b: int| 0 <= a < b < stack.len() ==> stack[a] != stack[b]
}

fn effective_prices_exec(from: MarketState, to: MarketState) -> (r: (i128, i128))
    ensures
        r.0 as int == effective_prices(from, to).0,
        r.1 as int == effective_prices(from, to).1,
{
    match (from, to) {
        (MarketState::Equilibrium(pf, _, _), MarketState::Equilibrium(pt, _, _)) => (
            pf.units as i128,
            pt.units as i128,
        ),
        (MarketState::OverSupply, MarketState::Equilibrium(pt, _, _)) => (-BOUND as i128, pt.units as i128),
        (MarketState::UnderSupply, MarketState::Equilibrium(pt, _, _)) => (BOUND as i128, pt.units as i128),
        (MarketState::Equilibrium(pf, _, _), MarketState::OverSupply) => (pf.units as i128, -BOUND as i128),
        (MarketState::Equilibrium(pf, _, _), MarketState::UnderSupply) => (pf.units as i128, BOUND as i128),
        (MarketState::UnderSupply, MarketState::OverSupply) => (BOUND as i128, -BOUND as i128),
        (MarketState::OverSupply, MarketState::UnderSupply) => (-BOUND as i128, BOUND as i128),
        _ => (0, 0),
    }
}

proof fn lemma_joins_symmetric(a: MarketState, b: MarketState, c: int)
    ensures
        joins(a, b, c) == joins(b, a, c),
{
}

proof fn lemma_index_of_own(cs: Seq<City>, i: int)
    requires
        ids_unique(cs),
        0 <= i < cs.len(),
    ensures
        index_of(cs, cs[i].id) == i,
{
    assert(has_city(cs, cs[i].id));
    let j = index_of(cs, cs[i].id);
    assert(cs[j].id == cs[i].id);
}

/// The search from a city reached over its link `k` joins back to it: the
/// reverse link joins too, so a finished neighbour shares its group.
proof fn lemma_reverse_link(m: Market, u: int, k: int) -> (r: int)
    requires
        m.wf(),
        0 <= u < m.size(),
        0 <= k < m.geo().links(u).len(),
    ensures
        0 <= m.target(u, k) < m.size(),
        0 <= r < m.geo().links(m.target(u, k)).len(),
        m.target(m.target(u, k), r) == u,
        m.cost(m.target(u, k), r) == m.cost(u, k),
{
    let cs = m.geo().cities_spec();
    let c = m.geo().links(u)[k];
    let t = m.target(u, k);
    assert(has_city(cs, c.id_to));
    assert(0 <= t < cs.len() && cs[t].id == c.id_to);
    let r = choose|r: int|
        0 <= r < m.geo().links(t).len() && m.geo().links(t)[r] == crate::geography::Connection {
            id_from: c.id_to,
            id_to: c.id_from,
            cost: c.cost,
        };
    lemma_index_of_own(cs, u);
    r
}

/// The positions `j < upto` of the cities of group `r`, in increasing order.
pub open spec fn members(root: Seq<usize>, r: int, upto: int) -> Seq<int>
    decreases upto,
{
    if upto <= 0 {
        seq![]
    } else if root[upto - 1] == r {
        members(root, r, upto - 1).push(upto - 1)
    } else {
        members(root, r, upto - 1)
    }
}

/// The demand curves of the members of group `r` among the first `upto`
/// cities, each moved into the group's price frame.
pub open spec fn shifted_demands(m: Market, root: Seq<usize>, off: Seq<i64>, r: int, upto: int) -> Seq<
    Option<Seq<(i64, i64)>>,
> {
    members(root, r, upto).map_values(|j: int| curve_shifted(m.demand_of(j), -off[j]))
}

/// The supply curves of the members of group `r` among the first `upto`
/// cities, each moved into the group's price frame.
pub open spec fn shifted_supplies(m: Market, root: Seq<usize>, off: Seq<i64>, r: int, upto: int) -> Seq<
    Option<Seq<(i64, i64)>>,
> {
    members(root, r, upto).map_values(|j: int| curve_shifted(m.supply_of(j), -off[j]))
}

/// `steps` are the running totals of `parts`, added one by one to the zero
/// curve.
pub open spec fn accumulates(steps: Seq<Option<Seq<(i64, i64)>>>, parts: Seq<Option<Seq<(i64, i64)>>>) -> bool {
    &&& steps.len() == parts.len() + 1
    &&& steps[0].is_none()
    &&& forall|k: int| 0 <= k < parts.len() ==> #[trigger] curve_sum(steps[k + 1], steps[k], parts[k])
}

/// `st` is the state of group `r`: where the total shifted demand of its
/// members meets their total shifted supply.
pub open spec fn group_clears(m: Market, root: Seq<usize>, off: Seq<i64>, r: int, st: MarketState) -> bool {
    exists|ds: Seq<Option<Seq<(i64, i64)>>>, ss: Seq<Option<Seq<(i64, i64)>>>|
        #![trigger accumulates(ds, shifted_demands(m, root, off, r, m.size())), accumulates(ss, shifted_supplies(m, root, off, r, m.size()))]
        accumulates(ds, shifted_demands(m, root, off, r, m.size())) && accumulates(
            ss,
            shifted_supplies(m, root, off, r, m.size()),
        ) && st == clearing(points_or_zero(ds.last()), points_or_zero(ss.last()))
}

/// A group's state seen from a member with price offset `o` and curves `d`
/// and `s`: an equilibrium moves to the local price, with the member's own
/// volumes there; any other state is taken as it is.
pub open spec fn localized(g: MarketState, o: int, d: Option<Seq<(i64, i64)>>, s: Option<Seq<(i64, i64)>>) -> MarketState {
    match g {
        MarketState::Equilibrium(p, _, _) => {
            let pl = p.units + o;
            MarketState::Equilibrium(
                Price { units: pl as i64 },
                Volume { units: eval(points_or_zero(d), pl) as i64 },
                Volume { units: eval(points_or_zero(s), pl) as i64 },
            )
        },
        _ => g,
    }
}

/// `st` is the state of the group of city `i` in `m`, localized to `i`.
pub open spec fn holds_group_state(m: Market, root: Seq<usize>, off: Seq<i64>, i: int, st: MarketState) -> bool {
    exists|g: MarketState|
        #[trigger] group_clears(m, root, off, root[i] as int, g) && st == localized(
            g,
            off[i] as int,
            m.demand_of(i),
            m.supply_of(i),
        )
}

/// City `i` of `next` holds the state of its group in `m`, localized.
pub open spec fn city_resolved(m: Market, next: Market, root: Seq<usize>, off: Seq<i64>, i: int) -> bool {
    holds_group_state(m, root, off, i, next.state(i))
}

/// One resolution pass took market `m` to the states of `next`: for some
/// grouping of `m`, every city holds its group's state, localized.
pub open spec fn resolved(m: Market, next: Market) -> bool {
    exists|root: Seq<usize>, off: Seq<i64>|
        #[trigger] is_grouping(m, root, off) && forall|i: int|
            0 <= i < m.size() ==> #[trigger] city_resolved(m, next, root, off, i)
}

/// `chain` runs from `m` through `k` resolution passes over the same
/// curves.
pub open spec fn resolution_chain(m: Market, chain: Seq<Market>, k: nat) -> bool {
    &&& chain.len() == k + 1
    &&& chain[0] == m
    &&& forall|i: int| 0 <= i < k ==> #[trigger] pass_from(m, chain[i], chain[i + 1])
}

/// `next` follows from `cur`, a sound market over the curves of `m`, by one
/// resolution pass.
pub open spec fn pass_from(m: Market, cur: Market, next: Market) -> bool {
    cur.wf() && cur.in_range() && cur.same_curves(m) && resolved(cur, next)
}

/// `next` follows from `m` by `k` resolution passes over the same curves.
pub open spec fn resolved_times(m: Market, next: Market, k: nat) -> bool {
    exists|chain: Seq<Market>| #[trigger] resolution_chain(m, chain, k) && chain.last() == next
}

/// The members of the group that city `c` starts, in the order of the
/// cities, each with its identifier and price offset.
pub open spec fn group_list(m: Market, root: Seq<usize>, off: Seq<i64>, c: int) -> Seq<(CityId, Price)> {
    members(root, c, m.size()).map_values(|j: int| (m.id(j), Price { units: off[j] }))
}

/// `lists` holds, under the identifier of each city and of no other key,
/// the group that the city starts.
pub open spec fn groups_listed(
    m: Market,
    root: Seq<usize>,
    off: Seq<i64>,
    lists: Map<CityId, Vec<(CityId, Price)>>,
) -> bool {
    &&& forall|k: CityId| #[trigger] lists.contains_key(k) <==> has_city(m.geo().cities_spec(), k)
    &&& forall|c: int| 0 <= c < m.size() ==> lists[#[trigger] m.id(c)]@ == group_list(m, root, off, c)
}

/// Where two curves within argument magnitude `a` clear at a price, the
/// price is within `a` too.
proof fn lemma_clearing_price_within(d: Seq<(i64, i64)>, s: Seq<(i64, i64)>, a: int)
    requires
        valid(d),
        valid(s),
        -a <= d[0].0 <= a,
        -a <= s[0].0 <= a,
        -a <= d.last().0 <= a,
        -a <= s.last().0 <= a,
        0 <= a <= BOUND,
    ensures
        clearing(d, s) matches MarketState::Equilibrium(p, _, _) ==> -a <= p.units <= a,
{
    if !diverge(d, s) {
        let lo = if d[0].0 <= s[0].0 { d[0].0 as int } else { s[0].0 as int };
        let hi = if d.last().0 >= s.last().0 { d.last().0 as int } else { s.last().0 as int };
        assert(d.last() == d[d.len() - 1]);
        assert(s.last() == s[s.len() - 1]);
        lemma_bisect_bracket(lower_curve(d, s), upper_curve(d, s), lo, hi);
        let b = bisect(lower_curve(d, s), upper_curve(d, s), lo, hi);
        assert(-a <= lo && hi <= a);
        if d[0].1 == s[0].1 {
            assert(crossing(d, s) == Some((lo, d[0].1 as int)));
            assert(clearing(d, s) == MarketState::Equilibrium(
                Price { units: lo as i64 },
                Volume { units: d[0].1 },
                Volume { units: d[0].1 },
            ));
        } else {
            assert(crossing(d, s) == Some((b, eval(lower_curve(d, s), b))));
            assert(clearing(d, s) == MarketState::Equilibrium(
                Price { units: b as i64 },
                Volume { units: eval(lower_curve(d, s), b) as i64 },
                Volume { units: eval(lower_curve(d, s), b) as i64 },
            ));
            assert((b as i64) as int == b);
        }
    }
}

/// A sum of two curves stays within the sum of their value bounds.
proof fn lemma_sum_within(
    r: Option<Seq<(i64, i64)>>,
    f: Option<Seq<(i64, i64)>>,
    g: Option<Seq<(i64, i64)>>,
    a: int,
    v1: int,
    v2: int,
)
    requires
        curve_valid(f),
        curve_valid(g),
        curve_sum(r, f, g),
        curve_within(f, a, v1),
        curve_within(g, a, v2),
        v1 >= 0,
        v2 >= 0,
    ensures
        curve_within(r, a, v1 + v2),
{
    if f.is_some() && g.is_some() {
        let p = f.unwrap();
        let q = g.unwrap();
        let t = r.unwrap();
        assert forall|i: int| 0 <= i < t.len() implies -a <= #[trigger] t[i].0 <= a && -(v1 + v2) <= t[i].1 <= v1 + v2 by {
            assert(has_arg(t, t[i].0 as int));
            if has_arg(p, t[i].0 as int) {
                let j = choose|j: int| 0 <= j < p.len() && p[j].0 == t[i].0;
                assert(-a <= p[j].0 <= a);
            } else {
                let j = choose|j: int| 0 <= j < q.len() && q[j].0 == t[i].0;
                assert(-a <= q[j].0 <= a);
            }
            lemma_eval_between(p, 0, t[i].0 as int, -v1, v1);
            lemma_eval_between(q, 0, t[i].0 as int, -v2, v2);
        }
    }
}

/// Two curves whose value bounds add up to at most `BOUND` may be added.
proof fn lemma_sum_fits(f: Option<Seq<(i64, i64)>>, g: Option<Seq<(i64, i64)>>, a: int, v1: int, v2: int)
    requires
        curve_valid(f),
        curve_valid(g),
        curve_within(f, a, v1),
        curve_within(g, a, v2),
        v1 + v2 <= BOUND,
    ensures
        curve_combination_fits(f, g, 1),
{
    if f.is_some() && g.is_some() {
        let p = f.unwrap();
        let q = g.unwrap();
        assert forall|k: int| (has_arg(p, k) || has_arg(q, k)) implies in_bound(#[trigger] combine_at(p, q, 1, k)) by {
            lemma_eval_between(p, 0, k, -v1, v1);
            lemma_eval_between(q, 0, k, -v2, v2);
        }
    }
}

/// Moving a curve within argument magnitude `a` by at most `b` keeps it
/// within `a + b`, and its values where they were.
proof fn lemma_shift_within(c: Option<Seq<(i64, i64)>>, d: int, a: int, b: int, v: int)
    requires
        curve_within(c, a, v),
        -b <= d <= b,
        a + b <= BOUND,
    ensures
        curve_shift_fits(c, d),
        curve_within(curve_shifted(c, d), a + b, v),
{
}

/// The end breakpoints of a curve within argument magnitude `a` have
/// arguments within `a`.
proof fn lemma_within_ends(c: Option<Seq<(i64, i64)>>, a: int, v: int)
    requires
        curve_valid(c),
        curve_within(c, a, v),
        a >= 0,
    ensures
        -a <= points_or_zero(c)[0].0 <= a,
        -a <= points_or_zero(c).last().0 <= a,
{
    match c {
        Some(p) => {
            assert(-a <= p[0].0 <= a);
            assert(-a <= p[p.len() - 1].0 <= a);
        },
        None => {},
    }
}

/// Appending one more part and its running total keeps the totals sound.
proof fn lemma_accumulate_push(
    steps: Seq<Option<Seq<(i64, i64)>>>,
    parts: Seq<Option<Seq<(i64, i64)>>>,
    total: Option<Seq<(i64, i64)>>,
    part: Option<Seq<(i64, i64)>>,
)
    requires
        accumulates(steps, parts),
        curve_sum(total, steps.last(), part),
    ensures
        accumulates(steps.push(total), parts.push(part)),
{
    let longer_steps = steps.push(total);
    let longer_parts = parts.push(part);
    assert forall|k: int| 0 <= k < longer_parts.len() implies #[trigger] curve_sum(longer_steps[k + 1], longer_steps[k], longer_parts[k]) by {
        if k < parts.len() {
            assert(longer_steps[k + 1] == steps[k + 1] && longer_steps[k] == steps[k] && longer_parts[k] == parts[k]);
        } else {
            assert(longer_steps[k] == steps.last());
        }
    }
}

proof fn lemma_members_step(root: Seq<usize>, r: int, j: int)
    requires
        0 <= j < root.len(),
    ensures
        root[j] == r ==> members(root, r, j + 1) == members(root, r, j).push(j),
        root[j] != r ==> members(root, r, j + 1) == members(root, r, j),
        members(root, r, j).len() <= j,
    decreases j,
{
    if j > 0 {
        lemma_members_step(root, r, j - 1);
    }
}

/// A geography and the data of each of its cities, in the same order.
#[derive(Debug)]
pub struct Market {
    geography: Geography,
    cities: Vec<CityData>,
}

impl Market {
    pub closed spec fn geo(&self) -> Geography {
        self.geography
    }

    pub closed spec fn data(&self) -> Seq<CityData> {
        self.cities@
    }

    /// The number of cities.
    pub open spec fn size(&self) -> int {
        self.geo().cities_spec().len() as int
    }

    /// The identifier of the city at position `i`.
    pub open spec fn id(&self, i: int) -> CityId {
        self.geo().cities_spec()[i].id
    }

    pub open spec fn state(&self, i: int) -> MarketState {
        self.data()[i].state_spec()
    }

    pub open spec fn demand_of(&self, i: int) -> Option<Seq<(i64, i64)>> {
        self.data()[i].demand_spec()@
    }

    pub open spec fn supply_of(&self, i: int) -> Option<Seq<(i64, i64)>> {
        self.data()[i].supply_spec()@
    }

    /// The position of the city that link `k` of city `i` reaches.
    pub open spec fn target(&self, i: int, k: int) -> int {
        index_of(self.geo().cities_spec(), self.geo().links(i)[k].id_to)
    }

    /// The transport cost of link `k` of city `i`.
    pub open spec fn cost(&self, i: int, k: int) -> int {
        self.geo().links(i)[k].cost.units as int
    }

    pub open spec fn wf(&self) -> bool {
        &&& self.geo().wf()
        &&& self.data().len() == self.size()
        &&& forall|i: int| 0 <= i < self.size() ==> #[trigger] self.data()[i].wf()
    }

    /// The sizes that a resolution can handle without overflow: the number
    /// of cities, transport costs and curve breakpoints are bounded.
    pub open spec fn in_range(&self) -> bool {
        &&& self.size() <= CITY_CAP
        &&& forall|i: int, k: int|
            0 <= i < self.size() && 0 <= k < self.geo().links(i).len() ==> -COST_CAP <= #[trigger] self.cost(
                i,
                k,
            ) <= COST_CAP
        &&& forall|i: int|
            0 <= i < self.size() ==> curve_within(#[trigger] self.demand_of(i), ARG_CAP as int, VALUE_CAP as int)
                && curve_within(self.supply_of(i), ARG_CAP as int, VALUE_CAP as int)
    }

    /// The same geography and curves, whatever the states.
    pub open spec fn same_curves(&self, other: Market) -> bool {
        &&& self.geo() == other.geo()
        &&& self.data().len() == other.data().len()
        &&& forall|i: int|
            0 <= i < self.data().len() ==> #[trigger] self.demand_of(i) == other.demand_of(i)
                && self.supply_of(i) == other.supply_of(i) && self.data()[i].wf() == other.data()[i].wf()
    }

    /// A market over `geography` with no curves; a city listed in `prices`
    /// starts in equilibrium at that price, every other one undefined.
    pub fn new(geography: Geography, prices: BTreeMap<CityId, Price>) -> (r: Market)
        requires
            geography.wf(),
        ensures
            r.wf(),
            r.geo() == geography,
            forall|i: int|
                0 <= i < r.size() ==> #[trigger] r.state(i) == seeded_state(prices@, r.id(i))
                    && r.demand_of(i).is_none() && r.supply_of(i).is_none(),
    {
        broadcast use vstd::laws_cmp::group_laws_cmp;

        let mut cities: Vec<CityData> = Vec::new();
        let n = geography.get_cities().len();
        let mut i: usize = 0;
        while i < n
            invariant
                n == geography.cities_spec().len(),
                i <= n,
                cities@.len() == i,
                forall|j: int|
                    0 <= j < i ==> #[trigger] cities@[j].state_spec() == seeded_state(
                        prices@,
                        geography.cities_spec()[j].id,
                    ) && cities@[j].wf() && cities@[j].demand_spec()@.is_none()
                        && cities@[j].supply_spec()@.is_none(),
            decreases n - i,
        {
            let id = geography.get_cities()[i].id;
            let state = match prices.get(&id) {
                Some(p) => MarketState::Equilibrium(*p, Volume::zero(), Volume::zero()),
                None => MarketState::Undefined,
            };
            cities.push(CityData::new(state));
            i = i + 1;
        }
        let r = Market { geography, cities };
        assert forall|i: int| 0 <= i < r.size() implies #[trigger] r.data()[i].wf() by {
            assert(cities@[i].state_spec() == seeded_state(prices@, geography.cities_spec()[i].id));
        }
        r
    }

    pub fn geography(&self) -> (r: &Geography)
        ensures
            *r == self.geo(),
    {
        &self.geography
    }

    /// The data of each city, in the order of the geography's cities.
    pub fn cities(&self) -> (r: &Vec<CityData>)
        ensures
            r@ == self.data(),
    {
        &self.cities
    }

    /// Changing only the data of city `c`, and keeping it well formed, keeps
    /// every city's data well formed.
    proof fn lemma_one_city_changed(self, before: Seq<CityData>, c: int)
        requires
            0 <= c < before.len(),
            before.len() == self.size(),
            forall|i: int| 0 <= i < before.len() ==> #[trigger] before[i].wf(),
            self.data() == before.update(c, self.data()[c]),
            self.data()[c].wf(),
        ensures
            forall|i: int| 0 <= i < self.size() ==> #[trigger] self.data()[i].wf(),
    {
        assert forall|i: int| 0 <= i < self.size() implies #[trigger] self.data()[i].wf() by {
            if i != c {
                assert(self.data()[i] == before[i]);
            }
        }
    }

    /// Adds the producer's supply to its city's aggregate supply.
    pub fn add_producer(&mut self, prod: &Producer)
        requires
            old(self).wf(),
            prod.supply_spec().wf(),
            has_city(old(self).geo().cities_spec(), prod.city_spec()),
            curve_combination_fits(
                old(self).supply_of(index_of(old(self).geo().cities_spec(), prod.city_spec())),
                prod.supply_spec()@,
                1,
            ),
        ensures
            final(self).wf(),
            final(self).geo() == old(self).geo(),
            ({
                let c = index_of(old(self).geo().cities_spec(), prod.city_spec());
                &&& curve_sum(final(self).supply_of(c), old(self).supply_of(c), prod.supply_spec()@)
                &&& forall|i: int|
                    0 <= i < final(self).size() ==> #[trigger] final(self).state(i) == old(self).state(i)
                        && final(self).demand_of(i) == old(self).demand_of(i) && (i != c
                        ==> final(self).supply_of(i) == old(self).supply_of(i))
            }),
    {
        let c = self.geography.position(prod.city()).unwrap();
        let ghost before = self.cities@;
        assert(self.data()[c as int].wf());
        self.cities[c].supply.add_function(prod.supply());
        proof {
            self.lemma_one_city_changed(before, c as int);
        }
    }

    /// Takes the producer's supply out of its city's aggregate supply.
    pub fn remove_producer(&mut self, prod: &Producer)
        requires
            old(self).wf(),
            prod.supply_spec().wf(),
            has_city(old(self).geo().cities_spec(), prod.city_spec()),
            curve_combination_fits(
                old(self).supply_of(index_of(old(self).geo().cities_spec(), prod.city_spec())),
                prod.supply_spec()@,
                -1,
            ),
        ensures
            final(self).wf(),
            final(self).geo() == old(self).geo(),
            ({
                let c = index_of(old(self).geo().cities_spec(), prod.city_spec());
                &&& curve_difference(final(self).supply_of(c), old(self).supply_of(c), prod.supply_spec()@)
                &&& forall|i: int|
                    0 <= i < final(self).size() ==> #[trigger] final(self).state(i) == old(self).state(i)
                        && final(self).demand_of(i) == old(self).demand_of(i) && (i != c
                        ==> final(self).supply_of(i) == old(self).supply_of(i))
            }),
    {
        let c = self.geography.position(prod.city()).unwrap();
        let ghost before = self.cities@;
        assert(self.data()[c as int].wf());
        self.cities[c].supply.substract_function(prod.supply());
        proof {
            self.lemma_one_city_changed(before, c as int);
        }
    }

    /// Adds the consumer's demand to its city's aggregate demand.
    pub fn add_consumer(&mut self, cons: &Consumer)
        requires
            old(self).wf(),
            cons.demand_spec().wf(),
            has_city(old(self).geo().cities_spec(), cons.city_spec()),
            curve_combination_fits(
                old(self).demand_of(index_of(old(self).geo().cities_spec(), cons.city_spec())),
                cons.demand_spec()@,
                1,
            ),
        ensures
            final(self).wf(),
            final(self).geo() == old(self).geo(),
            ({
                let c = index_of(old(self).geo().cities_spec(), cons.city_spec());
                &&& curve_sum(final(self).demand_of(c), old(self).demand_of(c), cons.demand_spec()@)
                &&& forall|i: int|
                    0 <= i < final(self).size() ==> #[trigger] final(self).state(i) == old(self).state(i)
                        && final(self).supply_of(i) == old(self).supply_of(i) && (i != c
                        ==> final(self).demand_of(i) == old(self).demand_of(i))
            }),
    {
        let c = self.geography.position(cons.city()).unwrap();
        let ghost before = self.cities@;
        assert(self.data()[c as int].wf());
        self.cities[c].demand.add_function(cons.demand());
        proof {
            self.lemma_one_city_changed(before, c as int);
        }
    }

    /// Takes the consumer's demand out of its city's aggregate demand.
    pub fn remove_consumer(&mut self, cons: &Consumer)
        requires
            old(self).wf(),
            cons.demand_spec().wf(),
            has_city(old(self).geo().cities_spec(), cons.city_spec()),
            curve_combination_fits(
                old(self).demand_of(index_of(old(self).geo().cities_spec(), cons.city_spec())),
                cons.demand_spec()@,
                -1,
            ),
        ensures
            final(self).wf(),
            final(self).geo() == old(self).geo(),
            ({
                let c = index_of(old(self).geo().cities_spec(), cons.city_spec());
                &&& curve_difference(final(self).demand_of(c), old(self).demand_of(c), cons.demand_spec()@)
                &&& forall|i: int|
                    0 <= i < final(self).size() ==> #[trigger] final(self).state(i) == old(self).state(i)
                        && final(self).supply_of(i) == old(self).supply_of(i) && (i != c
                        ==> final(self).demand_of(i) == old(self).demand_of(i))
            }),
    {
        let c = self.geography.position(cons.city()).unwrap();
        let ghost before = self.cities@;
        assert(self.data()[c as int].wf());
        self.cities[c].demand.substract_function(cons.demand());
        proof {
            self.lemma_one_city_changed(before, c as int);
        }
    }

    /// Visiting city `t` over the joining link `k` of city `u` keeps the
    /// search bookkeeping sound.
    proof fn lemma_visit(
        self,
        vis0: Seq<bool>,
        done: Seq<bool>,
        root0: Seq<usize>,
        off0: Seq<i64>,
        tm0: Seq<usize>,
        vis: Seq<bool>,
        root: Seq<usize>,
        off: Seq<i64>,
        tm: Seq<usize>,
        vc: int,
        cur: int,
        u: int,
        k: int,
        t: int,
    )
        requires
            self.wf(),
            self.in_range(),
            search_state(self, vis0, done, root0, off0, tm0, vc - 1, cur),
            forall|i: int| 0 <= i < cur ==> #[trigger] vis0[i],
            tm == tm0.update(t, (vc - 1) as usize),
            0 <= u < self.size(),
            0 <= cur < self.size(),
            0 <= k < self.geo().links(u).len(),
            t == self.target(u, k),
            0 <= t < self.size(),
            vis0[u],
            !done[u],
            root0[u] == cur,
            !vis0[t],
            joins(self.state(u), self.state(t), self.cost(u, k)),
            vis == vis0.update(t, true),
            root == root0.update(t, cur as usize),
            off.len() == off0.len(),
            off == off0.update(t, off[t]),
            off[t] == off0[u] + offset_step(self.state(u), self.state(t), self.cost(u, k)),
            count_true(vis) == vc,
            vc <= self.size(),
        ensures
            search_state(self, vis, done, root, off, tm, vc, cur),
    {
        let n = self.size();
        assert(-COST_CAP <= self.cost(u, k) <= COST_CAP);
        if t < cur {
            assert(vis0[t]);
        }
        assert forall|i: int|
            0 <= i < n && #[trigger] vis[i] implies root[i] < n && vis[root[i] as int] && root[root[i] as int]
                == root[i] && off[root[i] as int] == 0 && -vc * COST_CAP <= off[i] <= vc * COST_CAP
                && tm[i] < vc && root[i] <= i by {
            if i != t {
                assert(vis0[i]);
                assert(root0[i] as int != t);
            } else {
                assert(root0[cur] == cur);
            }
        }
        assert forall|i: int, k2: int|
            #![trigger self.target(i, k2)]
            0 <= i < n && done[i] && 0 <= k2 < self.geo().links(i).len() && joins(
                self.state(i),
                self.state(self.target(i, k2)),
                self.cost(i, k2),
            ) implies vis[self.target(i, k2)] && root[self.target(i, k2)] == root[i] by {
            assert(vis0[i]);
            assert(vis0[self.target(i, k2)]);
        }
        assert forall|i: int| 0 <= i < n && #[trigger] vis[i] && root[i] != i implies exists|p: int, k2: int|
            vis[p] && tm[p] < tm[i] && #[trigger] discovered_by(self, root, off, i, p, k2) by {
            if i == t {
                assert(vis0[u]);
                assert(discovered_by(self, root, off, i, u, k));
            } else {
                let (p, k2) = choose|p: int, k2: int|
                    vis0[p] && tm0[p] < tm0[i] && #[trigger] discovered_by(self, root0, off0, i, p, k2);
                assert(discovered_by(self, root, off, i, p, k2));
            }
        }
    }

    /// Pushing a newly visited city keeps the stack sound.
    proof fn lemma_push(
        vis0: Seq<bool>,
        vis: Seq<bool>,
        done: Seq<bool>,
        stack0: Seq<usize>,
        stack: Seq<usize>,
        n: int,
        u: int,
        t: usize,
    )
        requires
            stack_ok(vis0, done, stack0, n, u),
            n <= CITY_CAP,
            0 <= t < n,
            t != u,
            !vis0[t as int],
            vis0.len() == n,
            done.len() == n,
            forall|i: int| 0 <= i < n && #[trigger] done[i] ==> vis0[i],
            vis == vis0.update(t as int, true),
            stack == stack0.push(t),
        ensures
            stack_ok(vis, done, stack, n, u),
    {
        assert(stack[stack0.len() as int] == t);
        assert forall|i: int| 0 <= i < n && #[trigger] vis[i] && !done[i] && i != u implies stack.contains(i as usize) by {
            if i != t as int {
                assert(stack0.contains(i as usize));
                let j = choose|j: int| 0 <= j < stack0.len() && stack0[j] == i as usize;
                assert(stack[j] == i as usize);
            }
        }
        assert forall|j: int|
            0 <= j < stack.len() implies #[trigger] stack[j] < n && vis[stack[j] as int] && !done[stack[j] as int]
                && stack[j] != u by {
            if j < stack0.len() {
                assert(stack[j] == stack0[j]);
            }
        }
        assert forall|a: int, b: int| 0 <= a < b < stack.len() implies stack[a] != stack[b] by {
            if b == stack0.len() {
                assert(vis0[stack0[a] as int]);
            } else {
                assert(stack[a] == stack0[a] && stack[b] == stack0[b]);
            }
        }
    }

    /// Follows every link of city `u`, visiting and stacking each unvisited
    /// city that a joining link reaches.
    #[verifier::rlimit(100)]
    fn scan_links(
        &self,
        u: usize,
        s: usize,
        vis: &mut Vec<bool>,
        done: &Vec<bool>,
        root: &mut Vec<usize>,
        off: &mut Vec<i64>,
        tm: &mut Vec<usize>,
        vc: &mut usize,
        stack: &mut Vec<usize>,
    )
        requires
            self.wf(),
            self.in_range(),
            u < self.size(),
            s < self.size(),
            search_state(*self, old(vis)@, done@, old(root)@, old(off)@, old(tm)@, *old(vc) as int, s as int),
            forall|i: int| 0 <= i < s ==> #[trigger] old(vis)@[i],
            old(vis)@[u as int],
            !done@[u as int],
            old(root)@[u as int] == s,
            stack_ok(old(vis)@, done@, old(stack)@, self.size(), u as int),
            *old(vc) <= self.size(),
        ensures
            search_state(*self, final(vis)@, done@, final(root)@, final(off)@, final(tm)@, *final(vc) as int, s as int),
            stack_ok(final(vis)@, done@, final(stack)@, self.size(), u as int),
            *final(vc) <= self.size(),
            final(root)@[u as int] == s,
            forall|k: int|
                #![trigger self.target(u as int, k)]
                0 <= k < self.geo().links(u as int).len() && joins(
                    self.state(u as int),
                    self.state(self.target(u as int, k)),
                    self.cost(u as int, k),
                ) ==> final(vis)@[self.target(u as int, k)] && final(root)@[self.target(u as int, k)] == s,
            forall|i: int| 0 <= i < self.size() && #[trigger] old(vis)@[i] ==> final(vis)@[i],
            2 * (self.size() - *final(vc)) + final(stack)@.len() <= 2 * (self.size() - *old(vc)) + old(
                stack,
            )@.len(),
    {
        let n = self.cities.len();
        let links = &self.geography.get_connections()[u];
        let ghost vis_start = vis@;
        let ghost measure = 2 * (n - *vc) + stack@.len();
        let mut k: usize = 0;
        while k < links.len()
            invariant
                self.wf(),
                self.in_range(),
                n == self.size(),
                s < n,
                u < n,
                *vc <= n,
                links@ == self.geo().links(u as int),
                k <= links@.len(),
                search_state(*self, vis@, done@, root@, off@, tm@, *vc as int, s as int),
                forall|i: int| 0 <= i < s ==> #[trigger] vis@[i],
                vis@[u as int],
                !done@[u as int],
                root@[u as int] == s,
                stack_ok(vis@, done@, stack@, n as int, u as int),
                forall|k2: int|
                    #![trigger self.target(u as int, k2)]
                    0 <= k2 < k && joins(
                        self.state(u as int),
                        self.state(self.target(u as int, k2)),
                        self.cost(u as int, k2),
                    ) ==> vis@[self.target(u as int, k2)] && root@[self.target(u as int, k2)] == s,
                forall|i: int| 0 <= i < n && #[trigger] vis_start[i] ==> vis@[i],
                2 * (n - *vc) + stack@.len() <= measure,
            decreases links@.len() - k,
        {
            let c = links[k];
            let t = self.geography.position(c.id_to).unwrap();
            assert(t == self.target(u as int, k as int));
            let (pf, pt) = effective_prices_exec(self.cities[u].state, self.cities[t].state);
            let cost = c.cost.units as i128;
            if pf - pt >= cost || pt - pf >= cost {
                if !vis[t] {
                    assert(-COST_CAP <= self.cost(u as int, k as int) <= COST_CAP);
                    let step: i64 = if pt > pf { c.cost.units } else { -c.cost.units };
                    let o = off[u] + step;
                    proof {
                        lemma_count_true_set(vis@, t as int);
                        lemma_count_true_bound(vis@.update(t as int, true));
                    }
                    let ghost vis0 = vis@;
                    let ghost root0 = root@;
                    let ghost off0 = off@;
                    let ghost tm0 = tm@;
                    let ghost stack0 = stack@;
                    vis.set(t, true);
                    root.set(t, s);
                    off.set(t, o);
                    tm.set(t, *vc);
                    *vc = *vc + 1;
                    stack.push(t);
                    proof {
                        self.lemma_visit(
                            vis0,
                            done@,
                            root0,
                            off0,
                            tm0,
                            vis@,
                            root@,
                            off@,
                            tm@,
                            *vc as int,
                            s as int,
                            u as int,
                            k as int,
                            t as int,
                        );
                        Self::lemma_push(vis0, vis@, done@, stack0, stack@, n as int, u as int, t);
                        assert forall|k2: int|
                            #![trigger self.target(u as int, k2)]
                            0 <= k2 < k && joins(
                                self.state(u as int),
                                self.state(self.target(u as int, k2)),
                                self.cost(u as int, k2),
                            ) implies vis@[self.target(u as int, k2)] && root@[self.target(u as int, k2)] == s by {
                            assert(vis0[self.target(u as int, k2)]);
                        }
                    }
                } else {
                    proof {
                        if done@[t as int] {
                            let r = lemma_reverse_link(*self, u as int, k as int);
                            lemma_joins_symmetric(
                                self.state(u as int),
                                self.state(t as int),
                                self.cost(u as int, k as int),
                            );
                            assert(self.target(t as int, r) == u);
                        }
                    }
                }
            }
            k = k + 1;
        }
    }

    /// Explores the group of city `s` from the stack until it is empty.
    #[verifier::rlimit(100)]
    fn explore(
        &self,
        s: usize,
        vis: &mut Vec<bool>,
        done: &mut Vec<bool>,
        root: &mut Vec<usize>,
        off: &mut Vec<i64>,
        tm: &mut Vec<usize>,
        vc: &mut usize,
    )
        requires
            self.wf(),
            self.in_range(),
            s < self.size(),
            search_state(*self, old(vis)@, old(done)@, old(root)@, old(off)@, old(tm)@, *old(vc) as int, s as int),
            forall|i: int| 0 <= i < s ==> #[trigger] old(vis)@[i],
            old(vis)@[s as int],
            !old(done)@[s as int],
            forall|i: int| 0 <= i < self.size() && #[trigger] old(vis)@[i] && i != s ==> old(done)@[i],
            *old(vc) <= self.size(),
        ensures
            search_state(*self, final(vis)@, final(done)@, final(root)@, final(off)@, final(tm)@, *final(vc) as int, s as int),
            forall|i: int| 0 <= i < self.size() && #[trigger] final(vis)@[i] ==> final(done)@[i],
            forall|i: int| 0 <= i < self.size() && #[trigger] old(vis)@[i] ==> final(vis)@[i],
            *final(vc) <= self.size(),
    {
        let n = self.cities.len();
        let ghost vis_start = vis@;
        let mut stack: Vec<usize> = Vec::new();
        stack.push(s);
        assert(stack@[0] == s);
        while stack.len() > 0
            invariant
                self.wf(),
                self.in_range(),
                n == self.size(),
                s < n,
                *vc <= n,
                search_state(*self, vis@, done@, root@, off@, tm@, *vc as int, s as int),
                forall|i: int| 0 <= i < s ==> #[trigger] vis@[i],
                stack_ok(vis@, done@, stack@, n as int, -1),
                forall|i: int| 0 <= i < n && #[trigger] vis_start[i] ==> vis@[i],
            decreases 2 * (n - *vc) + stack@.len(),
        {
            let ghost stack0 = stack@;
            let u = stack.pop().unwrap();
            proof {
                assert(stack0[stack0.len() - 1] == u);
                assert(stack@ =~= stack0.drop_last());
                assert forall|i: int| 0 <= i < n && #[trigger] vis@[i] && !done@[i] && i != u implies stack@.contains(i as usize) by {
                    assert(stack0.contains(i as usize));
                    let j = choose|j: int| 0 <= j < stack0.len() && stack0[j] == i as usize;
                    assert(stack@[j] == i as usize);
                }
                assert forall|j: int|
                    0 <= j < stack@.len() implies #[trigger] stack@[j] < n && vis@[stack@[j] as int] && !done@[stack@[j] as int]
                        && stack@[j] != u by {
                    assert(stack@[j] == stack0[j]);
                }
            }
            let ghost vis_head = vis@;
            self.scan_links(u, s, vis, done, root, off, tm, vc, &mut stack);
            proof {
                assert forall|i: int| 0 <= i < s implies #[trigger] vis@[i] by {
                    assert(vis_head[i]);
                }
            }
            let ghost done0 = done@;
            done.set(u, true);
            proof {
                assert forall|i: int, k: int|
                    #![trigger self.target(i, k)]
                    0 <= i < n && done@[i] && 0 <= k < self.geo().links(i).len() && joins(
                        self.state(i),
                        self.state(self.target(i, k)),
                        self.cost(i, k),
                    ) implies vis@[self.target(i, k)] && root@[self.target(i, k)] == root@[i] by {
                    if i != u {
                        assert(done0[i]);
                    }
                }
                assert forall|i: int| 0 <= i < n && #[trigger] done@[i] implies vis@[i] by {
                    if i != u {
                        assert(done0[i]);
                    }
                }
                assert forall|i: int| 0 <= i < n && #[trigger] vis@[i] && !done@[i] implies root@[i] == s by {
                    assert(!done0[i]);
                }
                assert forall|i: int| 0 <= i < n && #[trigger] vis@[i] && !done@[i] && i != -1 implies stack@.contains(i as usize) by {
                    assert(!done0[i]);
                }
                assert forall|j: int|
                    0 <= j < stack@.len() implies #[trigger] stack@[j] < n && vis@[stack@[j] as int] && !done@[stack@[j] as int]
                        && stack@[j] != -1 by {
                    assert(stack@[j] != u);
                }
            }
        }
    }

    /// Splits the cities into price groups by a depth-first search from
    /// each city not yet grouped, following the links that join.
    fn assign_groups(&self) -> (r: (Vec<usize>, Vec<i64>))
        requires
            self.wf(),
            self.in_range(),
        ensures
            is_grouping(*self, r.0@, r.1@),
            forall|i: int|
                0 <= i < self.size() ==> -self.size() * COST_CAP <= #[trigger] r.1@[i] <= self.size()
                    * COST_CAP,
    {
        let n = self.cities.len();
        let mut vis: Vec<bool> = Vec::new();
        let mut done: Vec<bool> = Vec::new();
        let mut root: Vec<usize> = Vec::new();
        let mut off: Vec<i64> = Vec::new();
        let mut tm: Vec<usize> = Vec::new();
        let mut i: usize = 0;
        while i < n
            invariant
                self.wf(),
                n == self.size(),
                i <= n,
                vis@.len() == i && done@.len() == i && root@.len() == i && off@.len() == i && tm@.len() == i,
                forall|j: int| 0 <= j < i ==> !#[trigger] vis@[j] && !done@[j],
            decreases n - i,
        {
            vis.push(false);
            done.push(false);
            root.push(0);
            off.push(0);
            tm.push(0);
            i = i + 1;
        }
        proof {
            lemma_count_all_false(vis@);
            assert(vis@.len() == n && done@.len() == n && root@.len() == n && off@.len() == n && tm@.len() == n);
            assert(i == n);
            assert forall|j: int| 0 <= j < n implies !#[trigger] vis@[j] && !done@[j] by {
                assert(0 <= j < i);
            }
            assert forall|i: int| 0 <= i < n && #[trigger] done@[i] implies vis@[i] by {}
            assert forall|i: int, k: int|
                #![trigger self.target(i, k)]
                0 <= i < n && done@[i] && 0 <= k < self.geo().links(i).len() && joins(
                    self.state(i),
                    self.state(self.target(i, k)),
                    self.cost(i, k),
                ) implies vis@[self.target(i, k)] && root@[self.target(i, k)] == root@[i] by {
                assert(!done@[i]);
            }
        }
        let mut vc: usize = 0;
        assert(search_state(*self, vis@, done@, root@, off@, tm@, vc as int, 0));
        let mut s: usize = 0;
        while s < n
            invariant
                self.wf(),
                self.in_range(),
                n == self.size(),
                s <= n,
                vc <= n,
                search_state(*self, vis@, done@, root@, off@, tm@, vc as int, s as int),
                forall|i: int| 0 <= i < n && #[trigger] vis@[i] ==> done@[i],
                forall|i: int| 0 <= i < s ==> #[trigger] vis@[i],
            decreases n - s,
        {
            if !vis[s] {
                proof {
                    lemma_count_true_set(vis@, s as int);
                    lemma_count_true_bound(vis@.update(s as int, true));
                }
                let ghost vis0 = vis@;
                let ghost root0 = root@;
                let ghost off0 = off@;
                let ghost tm0 = tm@;
                vis.set(s, true);
                root.set(s, s);
                off.set(s, 0);
                tm.set(s, vc);
                vc = vc + 1;
                proof {
                    assert forall|i: int|
                        0 <= i < n && #[trigger] vis@[i] implies root@[i] < n && vis@[root@[i] as int]
                            && root@[root@[i] as int] == root@[i] && off@[root@[i] as int] == 0 && -vc
                            * COST_CAP <= off@[i] <= vc * COST_CAP && tm@[i] < vc && root@[i] <= i by {
                        if i != s {
                            assert(vis0[i]);
                            assert(root0[i] != s);
                        }
                    }
                    assert forall|i: int| 0 <= i < n && #[trigger] vis@[i] && root@[i] != i implies exists|p: int, k: int|
                        vis@[p] && tm@[p] < tm@[i] && #[trigger] discovered_by(*self, root@, off@, i, p, k) by {
                        let (p, k) = choose|p: int, k: int|
                            vis0[p] && tm0[p] < tm0[i] && #[trigger] discovered_by(*self, root0, off0, i, p, k);
                        assert(discovered_by(*self, root@, off@, i, p, k));
                    }
                }
                let ghost vis_pre = vis@;
                self.explore(s, &mut vis, &mut done, &mut root, &mut off, &mut tm, &mut vc);
                assert forall|i: int| 0 <= i <= s implies #[trigger] vis@[i] by {
                    assert(vis_pre[i]);
                }
            }
            s = s + 1;
        }
        proof {
            assert forall|i: int| 0 <= i < n && #[trigger] root@[i] != i implies discovered_earlier(*self, root@, off@, tm@, i) by {
                assert(vis@[i]);
                let (p, k) = choose|p: int, k: int|
                    vis@[p] && tm@[p] < tm@[i] && #[trigger] discovered_by(*self, root@, off@, i, p, k);
            }
            assert forall|i: int|
                0 <= i < n implies #[trigger] root@[i] < n && root@[root@[i] as int] == root@[i] && off@[root@[i] as int] == 0
                    && root@[i] <= i by {
                assert(vis@[i]);
            }
            assert forall|i: int, k: int|
                #![trigger self.target(i, k)]
                0 <= i < n && 0 <= k < self.geo().links(i).len() && joins(
                    self.state(i),
                    self.state(self.target(i, k)),
                    self.cost(i, k),
                ) implies root@[self.target(i, k)] == root@[i] by {
                assert(vis@[i]);
            }
            assert forall|i: int| 0 <= i < n implies -n * COST_CAP <= #[trigger] off@[i] <= n * COST_CAP by {
                assert(vis@[i]);
            }
            assert(ordered_grouping(*self, root@, off@, tm@));
        }
        (root, off)
    }

    /// The state of group `r`: the totals of its members' demand and supply
    /// curves, each moved into the group's price frame, intersected.
    #[verifier::rlimit(80)]
    fn clear_group(&self, root: &Vec<usize>, off: &Vec<i64>, r: usize) -> (g: MarketState)
        requires
            self.wf(),
            self.in_range(),
            root@.len() == self.size(),
            off@.len() == self.size(),
            r < self.size(),
            forall|i: int|
                0 <= i < self.size() ==> -self.size() * COST_CAP <= #[trigger] off@[i] <= self.size()
                    * COST_CAP,
        ensures
            group_clears(*self, root@, off@, r as int, g),
            g matches MarketState::Equilibrium(p, _, _) ==> -(ARG_CAP + self.size() * COST_CAP) <= p.units
                <= ARG_CAP + self.size() * COST_CAP,
    {
        let n = self.cities.len();
        let ghost a: int = ARG_CAP + n * COST_CAP;
        let mut d = Demand::zero();
        let mut s = Supply::zero();
        let ghost mut ds: Seq<Option<Seq<(i64, i64)>>> = seq![None];
        let ghost mut ss: Seq<Option<Seq<(i64, i64)>>> = seq![None];
        proof {
            assert(members(root@, r as int, 0) =~= Seq::<int>::empty());
            assert(shifted_demands(*self, root@, off@, r as int, 0) =~= Seq::empty());
            assert(shifted_supplies(*self, root@, off@, r as int, 0) =~= Seq::empty());
        }
        let mut j: usize = 0;
        while j < n
            invariant
                self.wf(),
                self.in_range(),
                n == self.size(),
                a == ARG_CAP + n * COST_CAP,
                j <= n,
                r < n,
                root@.len() == n,
                off@.len() == n,
                forall|i: int| 0 <= i < n ==> -n * COST_CAP <= #[trigger] off@[i] <= n * COST_CAP,
                d.wf(),
                s.wf(),
                accumulates(ds, shifted_demands(*self, root@, off@, r as int, j as int)),
                accumulates(ss, shifted_supplies(*self, root@, off@, r as int, j as int)),
                d@ == ds.last(),
                s@ == ss.last(),
                members(root@, r as int, j as int).len() <= j,
                curve_within(d@, a, members(root@, r as int, j as int).len() * VALUE_CAP),
                curve_within(s@, a, members(root@, r as int, j as int).len() * VALUE_CAP),
            decreases n - j,
        {
            let ghost cnt = members(root@, r as int, j as int).len();
            proof {
                lemma_members_step(root@, r as int, j as int);
            }
            if root[j] == r {
                assert(self.data()[j as int].wf());
                assert(curve_within(self.demand_of(j as int), ARG_CAP as int, VALUE_CAP as int));
                let o = off[j];
                let mut dj = self.cities[j].demand.clone();
                let mut sj = self.cities[j].supply.clone();
                proof {
                    lemma_shift_within(dj@, -o, ARG_CAP as int, n * COST_CAP, VALUE_CAP as int);
                    lemma_shift_within(sj@, -o, ARG_CAP as int, n * COST_CAP, VALUE_CAP as int);
                }
                dj.shift_left(Price::new(o));
                sj.shift_left(Price::new(o));
                proof {
                    assert(cnt * VALUE_CAP + VALUE_CAP <= BOUND) by (nonlinear_arith)
                        requires
                            cnt < n,
                            n <= CITY_CAP,
                    ;
                    lemma_sum_fits(d@, dj@, a, cnt * VALUE_CAP, VALUE_CAP as int);
                    lemma_sum_fits(s@, sj@, a, cnt * VALUE_CAP, VALUE_CAP as int);
                }
                let ghost d0 = d@;
                let ghost s0 = s@;
                d.add_function(&dj);
                s.add_function(&sj);
                proof {
                    lemma_sum_within(d@, d0, dj@, a, cnt * VALUE_CAP, VALUE_CAP as int);
                    lemma_sum_within(s@, s0, sj@, a, cnt * VALUE_CAP, VALUE_CAP as int);
                    assert(cnt * VALUE_CAP + VALUE_CAP == (cnt + 1) * VALUE_CAP);
                    lemma_accumulate_push(ds, shifted_demands(*self, root@, off@, r as int, j as int), d@, dj@);
                    lemma_accumulate_push(ss, shifted_supplies(*self, root@, off@, r as int, j as int), s@, sj@);
                    ds = ds.push(d@);
                    ss = ss.push(s@);
                    assert(shifted_demands(*self, root@, off@, r as int, j + 1) =~= shifted_demands(
                        *self,
                        root@,
                        off@,
                        r as int,
                        j as int,
                    ).push(dj@));
                    assert(shifted_supplies(*self, root@, off@, r as int, j + 1) =~= shifted_supplies(
                        *self,
                        root@,
                        off@,
                        r as int,
                        j as int,
                    ).push(sj@));
                }
            } else {
                proof {
                    assert(shifted_demands(*self, root@, off@, r as int, j + 1) =~= shifted_demands(
                        *self,
                        root@,
                        off@,
                        r as int,
                        j as int,
                    ));
                    assert(shifted_supplies(*self, root@, off@, r as int, j + 1) =~= shifted_supplies(
                        *self,
                        root@,
                        off@,
                        r as int,
                        j as int,
                    ));
                }
            }
            j = j + 1;
        }
        let g = d.intersect(&s);
        proof {
            let m = members(root@, r as int, n as int).len();
            assert(m * VALUE_CAP <= BOUND) by (nonlinear_arith)
                requires
                    m <= n,
                    n <= CITY_CAP,
            ;
            lemma_within_ends(d@, a, m * VALUE_CAP);
            lemma_within_ends(s@, a, m * VALUE_CAP);
            assert(points_or_zero(d@).last() == points_or_zero(d@)[points_or_zero(d@).len() - 1]);
            lemma_clearing_price_within(points_or_zero(d@), points_or_zero(s@), a);
        }
        g
    }

    /// The group state `g` as seen from city `j` with price offset `o`.
    fn localize(&self, g: MarketState, o: i64, j: usize) -> (st: MarketState)
        requires
            self.wf(),
            self.in_range(),
            j < self.size(),
            -self.size() * COST_CAP <= o <= self.size() * COST_CAP,
            g matches MarketState::Equilibrium(p, _, _) ==> -(ARG_CAP + self.size() * COST_CAP) <= p.units
                <= ARG_CAP + self.size() * COST_CAP,
        ensures
            st == localized(g, o as int, self.demand_of(j as int), self.supply_of(j as int)),
    {
        assert(self.data()[j as int].wf());
        match g {
            MarketState::Equilibrium(p, _, _) => {
                let pl = Price::new(p.units + o);
                let dv = self.cities[j].demand.value(pl);
                let sv = self.cities[j].supply.value(pl);
                MarketState::Equilibrium(pl, dv, sv)
            },
            _ => g,
        }
    }

    /// Gives every member of group `r` the group state `g`, localized.
    #[verifier::rlimit(50)]
    fn apply_group(&self, root: &Vec<usize>, off: &Vec<i64>, r: usize, g: MarketState, states: &mut Vec<MarketState>)
        requires
            self.wf(),
            self.in_range(),
            r < self.size(),
            old(states)@.len() == self.size(),
            is_grouping(*self, root@, off@),
            forall|i: int|
                0 <= i < self.size() ==> -self.size() * COST_CAP <= #[trigger] off@[i] <= self.size() * COST_CAP,
            group_clears(*self, root@, off@, r as int, g),
            g matches MarketState::Equilibrium(p, _, _) ==> -(ARG_CAP + self.size() * COST_CAP) <= p.units
                <= ARG_CAP + self.size() * COST_CAP,
        ensures
            final(states)@.len() == self.size(),
            forall|j: int|
                0 <= j < self.size() && #[trigger] root@[j] != r ==> final(states)@[j] == old(states)@[j],
            forall|j: int|
                0 <= j < self.size() && #[trigger] root@[j] == r ==> final(states)@[j] == localized(
                    g,
                    off@[j] as int,
                    self.demand_of(j),
                    self.supply_of(j),
                ),
    {
        let n = self.cities.len();
        let ghost start = states@;
        let mut j: usize = 0;
        while j < n
            invariant
                self.wf(),
                self.in_range(),
                n == self.size(),
                r < n,
                j <= n,
                states@.len() == n,
                start.len() == n,
                root@.len() == n,
                off@.len() == n,
                forall|i: int| 0 <= i < n ==> -n * COST_CAP <= #[trigger] off@[i] <= n * COST_CAP,
                g matches MarketState::Equilibrium(p, _, _) ==> -(ARG_CAP + n * COST_CAP) <= p.units <= ARG_CAP
                    + n * COST_CAP,
                forall|i: int| 0 <= i < n && #[trigger] root@[i] != r ==> states@[i] == start[i],
                forall|i: int| j <= i < n ==> #[trigger] states@[i] == start[i],
                forall|i: int|
                    0 <= i < j && #[trigger] root@[i] == r ==> states@[i] == localized(
                        g,
                        off@[i] as int,
                        self.demand_of(i),
                        self.supply_of(i),
                    ),
            decreases n - j,
        {
            if root[j] == r {
                let st = self.localize(g, off[j], j);
                states.set(j, st);
            }
            j = j + 1;
        }
    }

    /// The price groups of the current states: for the identifier of each
    /// city, the members of the group it starts (none unless it starts
    /// one), each with its price offset from that first city. Every city is
    /// in exactly one group; no link between two groups joins; every member
    /// but the first was reached over a joining link within its group.
    pub fn calculate_groups(&self) -> (r: BTreeMap<CityId, Vec<(CityId, Price)>>)
        requires
            self.wf(),
            self.in_range(),
        ensures
            exists|root: Seq<usize>, off: Seq<i64>|
                #[trigger] is_grouping(*self, root, off) && groups_listed(*self, root, off, r@),
    {
        broadcast use vstd::laws_cmp::group_laws_cmp;

        let (root, off) = self.assign_groups();
        let n = self.cities.len();
        let mut result: BTreeMap<CityId, Vec<(CityId, Price)>> = BTreeMap::new();
        let mut i: usize = 0;
        while i < n
            invariant
                self.wf(),
                n == self.size(),
                i <= n,
                root@.len() == n,
                off@.len() == n,
                forall|k: CityId|
                    #[trigger] result@.contains_key(k) <==> has_city(self.geo().cities_spec().take(i as int), k),
                forall|c: int|
                    0 <= c < i ==> result@[#[trigger] self.id(c)]@ == group_list(*self, root@, off@, c),
            decreases n - i,
        {
            let mut list: Vec<(CityId, Price)> = Vec::new();
            let mut j: usize = 0;
            while j < n
                invariant
                    self.wf(),
                    n == self.size(),
                    i < n,
                    j <= n,
                    root@.len() == n,
                    off@.len() == n,
                    list@ == members(root@, i as int, j as int).map_values(
                        |m: int| (self.id(m), Price { units: off@[m] }),
                    ),
                decreases n - j,
            {
                proof {
                    lemma_members_step(root@, i as int, j as int);
                }
                if root[j] == i {
                    let id = self.geography.get_cities()[j].id;
                    list.push((id, Price::new(off[j])));
                }
                proof {
                    assert(list@ =~= members(root@, i as int, j + 1).map_values(
                        |m: int| (self.id(m), Price { units: off@[m] }),
                    ));
                }
                j = j + 1;
            }
            let id = self.geography.get_cities()[i].id;
            result.insert(id, list);
            i = i + 1;
            proof {
                assert forall|c: int| 0 <= c < i implies result@[#[trigger] self.id(c)]@ == group_list(*self, root@, off@, c) by {
                    if c < i - 1 {
                        assert(self.id(c) != self.id(i - 1));
                    }
                }
                lemma_take_one_more(self.geo().cities_spec(), i as int);
                assert forall|k: CityId| #[trigger] result@.contains_key(k) <==> has_city(self.geo().cities_spec().take(i as int), k) by {
                    assert(has_city(self.geo().cities_spec().take(i - 1), k) || k == id <==> has_city(self.geo().cities_spec().take(i as int), k));
                }
            }
        }
        assert(self.geo().cities_spec().take(n as int) =~= self.geo().cities_spec());
        result
    }

    /// The new state of every city: its group's state, localized.
    #[verifier::rlimit(100)]
    fn group_states(&self, root: &Vec<usize>, off: &Vec<i64>) -> (states: Vec<MarketState>)
        requires
            self.wf(),
            self.in_range(),
            is_grouping(*self, root@, off@),
            forall|i: int|
                0 <= i < self.size() ==> -self.size() * COST_CAP <= #[trigger] off@[i] <= self.size() * COST_CAP,
        ensures
            states@.len() == self.size(),
            forall|j: int| 0 <= j < self.size() ==> holds_group_state(*self, root@, off@, j, #[trigger] states@[j]),
    {
        let n = self.cities.len();
        let mut states: Vec<MarketState> = Vec::new();
        let mut i: usize = 0;
        while i < n
            invariant
                i <= n,
                states@.len() == i,
            decreases n - i,
        {
            states.push(MarketState::Undefined);
            i = i + 1;
        }
        let mut r: usize = 0;
        while r < n
            invariant
                self.wf(),
                self.in_range(),
                n == self.size(),
                r <= n,
                states@.len() == n,
                is_grouping(*self, root@, off@),
                forall|i: int|
                    0 <= i < n ==> -self.size() * COST_CAP <= #[trigger] off@[i] <= self.size() * COST_CAP,
                forall|j: int|
                    0 <= j < n && #[trigger] root@[j] < r ==> holds_group_state(*self, root@, off@, j, states@[j]),
            decreases n - r,
        {
            if root[r] == r {
                let g = self.clear_group(&root, &off, r);
                let ghost before = states@;
                self.apply_group(&root, &off, r, g, &mut states);
                assert forall|j: int|
                    0 <= j < n && #[trigger] root@[j] < r + 1 implies holds_group_state(*self, root@, off@, j, states@[j]) by {
                    if root@[j] == r {
                        assert(group_clears(*self, root@, off@, root@[j] as int, g));
                    } else {
                        assert(states@[j] == before[j]);
                    }
                }
            }
            proof {
                assert forall|j: int|
                    0 <= j < n && #[trigger] root@[j] < r + 1 implies holds_group_state(*self, root@, off@, j, states@[j]) by {
                    assert(root@[root@[j] as int] == root@[j]);
                }
            }
            r = r + 1;
        }
        assert forall|j: int| 0 <= j < n implies holds_group_state(*self, root@, off@, j, #[trigger] states@[j]) by {
            assert(root@[j] < n);
        }
        states
    }

    /// One resolution pass: groups the cities by their current states,
    /// clears each group on its members' shifted curves, and gives every
    /// city its group's state at its local price.
    pub fn update_prices(&mut self)
        requires
            old(self).wf(),
            old(self).in_range(),
        ensures
            final(self).wf(),
            final(self).in_range(),
            final(self).same_curves(*old(self)),
            resolved(*old(self), *final(self)),
    {
        let (root, off) = self.assign_groups();
        let n = self.cities.len();
        let states = self.group_states(&root, &off);
        let ghost start = *self;
        let mut i: usize = 0;
        while i < n
            invariant
                n == self.size(),
                n == start.size(),
                i <= n,
                states@.len() == n,
                self.wf(),
                self.same_curves(start),
                start.wf(),
                forall|k: int| 0 <= k < i ==> #[trigger] self.state(k) == states@[k],
            decreases n - i,
        {
            let ghost before = self.cities@;
            let ghost head = *self;
            self.cities[i].state = states[i];
            assert(self.cities@[i as int].demand == before[i as int].demand);
            assert(self.cities@[i as int].supply == before[i as int].supply);
            assert forall|k: int| 0 <= k < self.size() implies #[trigger] self.data()[k].wf() by {
                assert(head.data()[k].wf());
                if k != i {
                    assert(self.cities@[k] == before[k]);
                }
            }
            assert forall|k: int| 0 <= k < self.data().len() implies #[trigger] self.demand_of(k) == start.demand_of(k)
                && self.supply_of(k) == start.supply_of(k) && self.data()[k].wf() == start.data()[k].wf() by {
                assert(head.demand_of(k) == start.demand_of(k));
                if k != i {
                    assert(self.cities@[k] == before[k]);
                }
            }
            assert forall|k: int| 0 <= k < i + 1 implies #[trigger] self.state(k) == states@[k] by {
                if k != i {
                    assert(self.cities@[k] == before[k]);
                    assert(head.state(k) == states@[k]);
                }
            }
            i = i + 1;
        }
        proof {
            assert forall|k: int| 0 <= k < start.size() implies #[trigger] city_resolved(start, *self, root@, off@, k) by {
                assert(holds_group_state(start, root@, off@, k, states@[k]));
                assert(self.state(k) == states@[k]);
            }
            assert(is_grouping(start, root@, off@));
            assert forall|k: int|
                0 <= k < self.size() implies curve_within(#[trigger] self.demand_of(k), ARG_CAP as int, VALUE_CAP as int)
                    && curve_within(self.supply_of(k), ARG_CAP as int, VALUE_CAP as int) by {
                assert(self.demand_of(k) == start.demand_of(k));
                assert(curve_within(start.demand_of(k), ARG_CAP as int, VALUE_CAP as int));
            }
            assert forall|i: int, k: int|
                0 <= i < self.size() && 0 <= k < self.geo().links(i).len() implies -COST_CAP <= #[trigger] self.cost(
                    i,
                    k,
                ) <= COST_CAP by {
                assert(start.cost(i, k) == self.cost(i, k));
            }
        }
    }

    /// Runs `tours` resolution passes.
    pub fn simulate(&mut self, tours: u32)
        requires
            old(self).wf(),
            old(self).in_range(),
        ensures
            final(self).wf(),
            final(self).in_range(),
            final(self).same_curves(*old(self)),
            resolved_times(*old(self), *final(self), tours as nat),
    {
        let ghost start = *self;
        let ghost mut chain: Seq<Market> = seq![*self];
        let mut t: u32 = 0;
        while t < tours
            invariant
                t <= tours,
                self.wf(),
                self.in_range(),
                self.same_curves(start),
                start.wf(),
                resolution_chain(start, chain, t as nat),
                chain.last() == *self,
            decreases tours - t,
        {
            let ghost mid = *self;
            self.update_prices();
            proof {
                assert forall|k: int| 0 <= k < self.data().len() implies #[trigger] self.demand_of(k) == start.demand_of(k)
                    && self.supply_of(k) == start.supply_of(k) && self.data()[k].wf() == start.data()[k].wf() by {
                    assert(mid.demand_of(k) == start.demand_of(k));
                    assert(self.demand_of(k) == mid.demand_of(k));
                }
                let c2 = chain.push(*self);
                assert forall|i: int| 0 <= i < (t + 1) as nat implies #[trigger] pass_from(start, c2[i], c2[i + 1]) by {
                    if i < t as nat {
                        assert(c2[i] == chain[i] && c2[i + 1] == chain[i + 1]);
                        assert(pass_from(start, chain[i], chain[i + 1]));
                    } else {
                        assert(chain[i] == mid);
                        assert(c2[i] == mid);
                        assert(c2[i + 1] == *self);
                    }
                }
                assert(c2[0] == chain[0]);
                assert(resolution_chain(start, c2, (t + 1) as nat));
                chain = c2;
            }
            t = t + 1;
        }
        assert(resolution_chain(start, chain, tours as nat));
    }

    /// The price of each city, `None` where it is not in equilibrium.
    pub fn prices(&self) -> (r: BTreeMap<CityId, Option<Price>>)
        requires
            self.wf(),
        ensures
            forall|k: CityId| #[trigger] r@.contains_key(k) <==> has_city(self.geo().cities_spec(), k),
            forall|i: int|
                0 <= i < self.size() ==> r@[#[trigger] self.id(i)] == state_price(self.state(i)),
    {
        broadcast use vstd::laws_cmp::group_laws_cmp;

        let mut r: BTreeMap<CityId, Option<Price>> = BTreeMap::new();
        let n = self.cities.len();
        let mut i: usize = 0;
        while i < n
            invariant
                self.wf(),
                n == self.size(),
                i <= n,
                forall|k: CityId| #[trigger] r@.contains_key(k) <==> has_city(self.geo().cities_spec().take(i as int), k),
                forall|j: int| 0 <= j < i ==> r@[#[trigger] self.id(j)] == state_price(self.state(j)),
            decreases n - i,
        {
            let id = self.geography.get_cities()[i].id;
            r.insert(id, self.cities[i].price());
            i = i + 1;
            proof {
                assert forall|j: int| 0 <= j < i implies r@[#[trigger] self.id(j)] == state_price(self.state(j)) by {
                    if j < i - 1 {
                        assert(self.id(j) != self.id(i - 1));
                    }
                }
                lemma_take_one_more(self.geo().cities_spec(), i as int);
                assert forall|k: CityId| #[trigger] r@.contains_key(k) <==> has_city(self.geo().cities_spec().take(i as int), k) by {
                    assert(has_city(self.geo().cities_spec().take(i - 1), k) || k == id <==> has_city(self.geo().cities_spec().take(i as int), k));
                }
            }
        }
        assert(self.geo().cities_spec().take(n as int) =~= self.geo().cities_spec());
        r
    }
    /// The demanded volume of each city, `None` where it is not in equilibrium.
    pub fn demand_volumes(&self) -> (r: BTreeMap<CityId, Option<Volume>>)
        requires
            self.wf(),
        ensures
            forall|k: CityId| #[trigger] r@.contains_key(k) <==> has_city(self.geo().cities_spec(), k),
            forall|i: int|
                0 <= i < self.size() ==> r@[#[trigger] self.id(i)] == state_demand_volume(self.state(i)),
    {
        broadcast use vstd::laws_cmp::group_laws_cmp;

        let mut r: BTreeMap<CityId, Option<Volume>> = BTreeMap::new();
        let n = self.cities.len();
        let mut i: usize = 0;
        while i < n
            invariant
                self.wf(),
                n == self.size(),
                i <= n,
                forall|k: CityId| #[trigger] r@.contains_key(k) <==> has_city(self.geo().cities_spec().take(i as int), k),
                forall|j: int| 0 <= j < i ==> r@[#[trigger] self.id(j)] == state_demand_volume(self.state(j)),
            decreases n - i,
        {
            let id = self.geography.get_cities()[i].id;
            r.insert(id, self.cities[i].demand_volume());
            i = i + 1;
            proof {
                assert forall|j: int| 0 <= j < i implies r@[#[trigger] self.id(j)] == state_demand_volume(self.state(j)) by {
                    if j < i - 1 {
                        assert(self.id(j) != self.id(i - 1));
                    }
                }
                lemma_take_one_more(self.geo().cities_spec(), i as int);
                assert forall|k: CityId| #[trigger] r@.contains_key(k) <==> has_city(self.geo().cities_spec().take(i as int), k) by {
                    assert(has_city(self.geo().cities_spec().take(i - 1), k) || k == id <==> has_city(self.geo().cities_spec().take(i as int), k));
                }
            }
        }
        assert(self.geo().cities_spec().take(n as int) =~= self.geo().cities_spec());
        r
    }
    /// The supplied volume of each city, `None` where it is not in equilibrium.
    pub fn supply_volumes(&self) -> (r: BTreeMap<CityId, Option<Volume>>)
        requires
            self.wf(),
        ensures
            forall|k: CityId| #[trigger] r@.contains_key(k) <==> has_city(self.geo().cities_spec(), k),
            forall|i: int|
                0 <= i < self.size() ==> r@[#[trigger] self.id(i)] == state_supply_volume(self.state(i)),
    {
        broadcast use vstd::laws_cmp::group_laws_cmp;

        let mut r: BTreeMap<CityId, Option<Volume>> = BTreeMap::new();
        let n = self.cities.len();
        let mut i: usize = 0;
        while i < n
            invariant
                self.wf(),
                n == self.size(),
                i <= n,
                forall|k: CityId| #[trigger] r@.contains_key(k) <==> has_city(self.geo().cities_spec().take(i as int), k),
                forall|j: int| 0 <= j < i ==> r@[#[trigger] self.id(j)] == state_supply_volume(self.state(j)),
            decreases n - i,
        {
            let id = self.geography.get_cities()[i].id;
            r.insert(id, self.cities[i].supply_volume());
            i = i + 1;
            proof {
                assert forall|j: int| 0 <= j < i implies r@[#[trigger] self.id(j)] == state_supply_volume(self.state(j)) by {
                    if j < i - 1 {
                        assert(self.id(j) != self.id(i - 1));
                    }
                }
                lemma_take_one_more(self.geo().cities_spec(), i as int);
                assert forall|k: CityId| #[trigger] r@.contains_key(k) <==> has_city(self.geo().cities_spec().take(i as int), k) by {
                    assert(has_city(self.geo().cities_spec().take(i - 1), k) || k == id <==> has_city(self.geo().cities_spec().take(i as int), k));
                }
            }
        }
        assert(self.geo().cities_spec().take(n as int) =~= self.geo().cities_spec());
        r
    }
    /// Forgets every computed state; curves are kept.
    pub fn reset_prices(&mut self)
        requires
            old(self).wf(),
        ensures
            final(self).wf(),
            final(self).same_curves(*old(self)),
            forall|i: int| 0 <= i < final(self).size() ==> #[trigger] final(self).state(i) == MarketState::Undefined,
    {
        let n = self.cities.len();
        let mut i: usize = 0;
        while i < n
            invariant
                n == self.data().len(),
                i <= n,
                self.wf(),
                self.same_curves(*old(self)),
                forall|j: int| 0 <= j < i ==> #[trigger] self.state(j) == MarketState::Undefined,
            decreases n - i,
        {
            let ghost before = self.cities@;
            let ghost head = *self;
            self.cities[i].state = MarketState::Undefined;
            assert(self.state(i as int) == MarketState::Undefined);
            assert forall|j: int| 0 <= j < i implies #[trigger] self.state(j) == MarketState::Undefined by {
                assert(self.cities@[j] == before[j]);
                assert(head.state(j) == MarketState::Undefined);
            }
            assert(self.cities@[i as int].demand == before[i as int].demand);
            assert(self.cities@[i as int].supply == before[i as int].supply);
            assert forall|j: int| 0 <= j < self.size() implies #[trigger] self.data()[j].wf() by {
                assert(head.data()[j].wf());
                if j != i {
                    assert(self.cities@[j] == before[j]);
                }
            }
            assert forall|j: int| 0 <= j < self.data().len() implies #[trigger] self.demand_of(j) == old(self).demand_of(j)
                && self.supply_of(j) == old(self).supply_of(j) && self.data()[j].wf() == old(self).data()[j].wf() by {
                assert(head.demand_of(j) == old(self).demand_of(j));
                if j != i {
                    assert(self.cities@[j] == before[j]);
                }
            }
            i = i + 1;
        }
    }

}

} // verus!
