//! A market together with its producers and consumers, run turn by turn.
use vstd::prelude::*;
use std::collections::BTreeMap;
use crate::curve::curve_combination_fits;
use crate::entity::{Consumer, Producer};
use crate::geography::{has_city, index_of, CityId, Geography};
use crate::market::{
    curve_within, pass_from, resolution_chain, resolved, resolved_times, Market, ARG_CAP, CITY_CAP,
    COST_CAP, VALUE_CAP,
};
use crate::curve::{curve_difference, curve_sum};
use crate::types::Price;

verus! {

/// A market, the entities registered with it, and how many turns to run.
#[derive(Debug)]
pub struct Simulation {
    pub turns: usize,
    pub market: Market,
    pub producers: Vec<Producer>,
    pub consumers: Vec<Consumer>,
}

impl Simulation {
    /// The market can be resolved.
    pub open spec fn wf(&self) -> bool {
        self.market.wf() && self.market.in_range()
    }

    pub open spec fn producers_spec(&self) -> Seq<Producer> {
        self.producers@
    }

    pub open spec fn consumers_spec(&self) -> Seq<Consumer> {
        self.consumers@
    }

    /// A simulation over `geography` with no entities yet.
    pub fn new(turns: usize, geography: Geography, prices: BTreeMap<CityId, Price>) -> (r: Simulation)
        requires
            geography.wf(),
            geography.cities_spec().len() <= CITY_CAP,
            forall|i: int, k: int|
                0 <= i < geography.cities_spec().len() && 0 <= k < geography.links(i).len() ==> -COST_CAP
                    <= #[trigger] geography.links(i)[k].cost.units <= COST_CAP,
        ensures
            r.wf(),
            r.turns == turns,
            r.market.geo() == geography,
            forall|i: int|
                0 <= i < r.market.size() ==> #[trigger] r.market.demand_of(i).is_none()
                    && r.market.supply_of(i).is_none(),
            r.producers_spec().len() == 0,
            r.consumers_spec().len() == 0,
    {
        let market = Market::new(geography, prices);
        assert forall|i: int, k: int|
            0 <= i < market.size() && 0 <= k < market.geo().links(i).len() implies -COST_CAP <= #[trigger] market.cost(
                i,
                k,
            ) <= COST_CAP by {
            assert(market.cost(i, k) == geography.links(i)[k].cost.units);
        }
        assert forall|i: int|
            0 <= i < market.size() implies curve_within(#[trigger] market.demand_of(i), ARG_CAP as int, VALUE_CAP as int)
                && curve_within(market.supply_of(i), ARG_CAP as int, VALUE_CAP as int) by {
            assert(market.state(i) == crate::market::seeded_state(prices@, market.id(i)));
        }
        let r = Simulation { turns, market, producers: Vec::new(), consumers: Vec::new() };
        assert forall|i: int|
            0 <= i < r.market.size() implies #[trigger] r.market.demand_of(i).is_none()
                && r.market.supply_of(i).is_none() by {
            assert(r.market.state(i) == crate::market::seeded_state(prices@, r.market.id(i)));
        }
        r
    }

    /// Registers a producer: its supply joins its city's aggregate.
    pub fn add_producer(&mut self, producer: Producer)
        requires
            old(self).wf(),
            producer.supply_spec().wf(),
            has_city(old(self).market.geo().cities_spec(), producer.city_spec()),
            ({
                let c = index_of(old(self).market.geo().cities_spec(), producer.city_spec());
                &&& curve_combination_fits(old(self).market.supply_of(c), producer.supply_spec()@, 1)
                &&& forall|r: Option<Seq<(i64, i64)>>|
                    #[trigger] curve_sum(r, old(self).market.supply_of(c), producer.supply_spec()@)
                        ==> curve_within(r, ARG_CAP as int, VALUE_CAP as int)
            }),
        ensures
            final(self).wf(),
            final(self).turns == old(self).turns,
            final(self).producers_spec() == old(self).producers_spec().push(producer),
            final(self).consumers_spec() == old(self).consumers_spec(),
            final(self).market.geo() == old(self).market.geo(),
            ({
                let c = index_of(old(self).market.geo().cities_spec(), producer.city_spec());
                &&& curve_sum(final(self).market.supply_of(c), old(self).market.supply_of(c), producer.supply_spec()@)
                &&& forall|i: int|
                    0 <= i < final(self).market.size() ==> #[trigger] final(self).market.state(i) == old(
                        self,
                    ).market.state(i) && final(self).market.demand_of(i) == old(self).market.demand_of(i) && (i
                        != c ==> final(self).market.supply_of(i) == old(self).market.supply_of(i))
            }),
    {
        let ghost before = self.market;
        self.market.add_producer(&producer);
        proof {
            let c = index_of(before.geo().cities_spec(), producer.city_spec());
            assert forall|i: int, k: int|
                0 <= i < self.market.size() && 0 <= k < self.market.geo().links(i).len() implies -COST_CAP
                    <= #[trigger] self.market.cost(i, k) <= COST_CAP by {
                assert(self.market.cost(i, k) == before.cost(i, k));
            }
            assert forall|i: int|
                0 <= i < self.market.size() implies curve_within(#[trigger] self.market.demand_of(i), ARG_CAP as int, VALUE_CAP as int)
                    && curve_within(self.market.supply_of(i), ARG_CAP as int, VALUE_CAP as int) by {
                assert(self.market.state(i) == before.state(i));
                assert(curve_within(before.demand_of(i), ARG_CAP as int, VALUE_CAP as int));
                if i != c {
                    assert(curve_within(before.supply_of(i), ARG_CAP as int, VALUE_CAP as int));
                } else {
                    assert(curve_sum(self.market.supply_of(i), before.supply_of(c), producer.supply_spec()@));
                }
            }
        }
        self.producers.push(producer);
    }

    /// Registers a consumer: its demand joins its city's aggregate.
    pub fn add_consumer(&mut self, consumer: Consumer)
        requires
            old(self).wf(),
            consumer.demand_spec().wf(),
            has_city(old(self).market.geo().cities_spec(), consumer.city_spec()),
            ({
                let c = index_of(old(self).market.geo().cities_spec(), consumer.city_spec());
                &&& curve_combination_fits(old(self).market.demand_of(c), consumer.demand_spec()@, 1)
                &&& forall|r: Option<Seq<(i64, i64)>>|
                    #[trigger] curve_sum(r, old(self).market.demand_of(c), consumer.demand_spec()@)
                        ==> curve_within(r, ARG_CAP as int, VALUE_CAP as int)
            }),
        ensures
            final(self).wf(),
            final(self).turns == old(self).turns,
            final(self).consumers_spec() == old(self).consumers_spec().push(consumer),
            final(self).producers_spec() == old(self).producers_spec(),
            final(self).market.geo() == old(self).market.geo(),
            ({
                let c = index_of(old(self).market.geo().cities_spec(), consumer.city_spec());
                &&& curve_sum(final(self).market.demand_of(c), old(self).market.demand_of(c), consumer.demand_spec()@)
                &&& forall|i: int|
                    0 <= i < final(self).market.size() ==> #[trigger] final(self).market.state(i) == old(
                        self,
                    ).market.state(i) && final(self).market.supply_of(i) == old(self).market.supply_of(i) && (i
                        != c ==> final(self).market.demand_of(i) == old(self).market.demand_of(i))
            }),
    {
        let ghost before = self.market;
        self.market.add_consumer(&consumer);
        proof {
            let c = index_of(before.geo().cities_spec(), consumer.city_spec());
            assert forall|i: int, k: int|
                0 <= i < self.market.size() && 0 <= k < self.market.geo().links(i).len() implies -COST_CAP
                    <= #[trigger] self.market.cost(i, k) <= COST_CAP by {
                assert(self.market.cost(i, k) == before.cost(i, k));
            }
            assert forall|i: int|
                0 <= i < self.market.size() implies curve_within(#[trigger] self.market.demand_of(i), ARG_CAP as int, VALUE_CAP as int)
                    && curve_within(self.market.supply_of(i), ARG_CAP as int, VALUE_CAP as int) by {
                assert(self.market.state(i) == before.state(i));
                assert(curve_within(before.supply_of(i), ARG_CAP as int, VALUE_CAP as int));
                if i != c {
                    assert(curve_within(before.demand_of(i), ARG_CAP as int, VALUE_CAP as int));
                } else {
                    assert(curve_sum(self.market.demand_of(i), before.demand_of(c), consumer.demand_spec()@));
                }
            }
        }
        self.consumers.push(consumer);
    }

    /// One turn: a resolution pass, then every entity reacts.
    pub fn simulate_turn(&mut self)
        requires
            old(self).wf(),
        ensures
            final(self).wf(),
            final(self).turns == old(self).turns,
            final(self).market.same_curves(old(self).market),
            resolved(old(self).market, final(self).market),
    {
        self.market.update_prices();
        let ghost after = *self;
        let mut i: usize = 0;
        while i < self.producers.len()
            invariant
                i <= self.producers@.len(),
                self.market == after.market,
                self.turns == after.turns,
                self.producers@ == after.producers@,
                self.consumers@ == after.consumers@,
            decreases self.producers@.len() - i,
        {
            self.producers[i].update(&mut self.market);
            assert(self.producers@ =~= after.producers@);
            i = i + 1;
        }
        let mut j: usize = 0;
        while j < self.consumers.len()
            invariant
                j <= self.consumers@.len(),
                self.market == after.market,
                self.turns == after.turns,
                self.producers@ == after.producers@,
                self.consumers@ == after.consumers@,
            decreases self.consumers@.len() - j,
        {
            self.consumers[j].update(&mut self.market);
            assert(self.consumers@ =~= after.consumers@);
            j = j + 1;
        }
    }

    /// Runs every turn.
    pub fn run(&mut self)
        requires
            old(self).wf(),
        ensures
            final(self).wf(),
            final(self).market.same_curves(old(self).market),
            resolved_times(old(self).market, final(self).market, old(self).turns as nat),
    {
        let ghost start = self.market;
        let ghost mut chain: Seq<Market> = seq![self.market];
        let turns = self.turns;
        let mut t: usize = 0;
        while t < turns
            invariant
                turns == self.turns,
                t <= turns,
                self.wf(),
                self.market.same_curves(start),
                start.wf(),
                resolution_chain(start, chain, t as nat),
                chain.last() == self.market,
            decreases turns - t,
        {
            let ghost mid = self.market;
            self.simulate_turn();
            proof {
                assert forall|k: int| 0 <= k < self.market.data().len() implies #[trigger] self.market.demand_of(k)
                    == start.demand_of(k) && self.market.supply_of(k) == start.supply_of(k)
                    && self.market.data()[k].wf() == start.data()[k].wf() by {
                    assert(mid.demand_of(k) == start.demand_of(k));
                    assert(self.market.demand_of(k) == mid.demand_of(k));
                }
                let c2 = chain.push(self.market);
                assert forall|i: int| 0 <= i < (t + 1) as nat implies #[trigger] pass_from(start, c2[i], c2[i + 1]) by {
                    if i < t as nat {
                        assert(c2[i] == chain[i] && c2[i + 1] == chain[i + 1]);
                        assert(pass_from(start, chain[i], chain[i + 1]));
                    } else {
                        assert(chain[i] == mid);
                        assert(c2[i] == mid);
                        assert(c2[i + 1] == self.market);
                    }
                }
                assert(c2[0] == chain[0]);
                assert(resolution_chain(start, c2, (t + 1) as nat));
                chain = c2;
            }
            t = t + 1;
        }
        assert(resolution_chain(start, chain, turns as nat));
    }
}

} // verus!
