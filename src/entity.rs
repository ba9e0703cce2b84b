//! Producers and consumers: each contributes one curve to one city.
use vstd::prelude::*;
use crate::curve::{Demand, Supply};
use crate::geography::CityId;
use crate::market::Market;

verus! {

/// A seller in one city, with the supply curve of its production costs.
#[derive(Clone, Debug)]
pub struct Producer {
    city: CityId,
    production_costs: Supply,
}

impl Producer {
    pub closed spec fn city_spec(&self) -> CityId {
        self.city
    }

    pub closed spec fn supply_spec(&self) -> Supply {
        self.production_costs
    }

    pub fn new(city: CityId, production_costs: Supply) -> (r: Producer)
        ensures
            r.city_spec() == city,
            r.supply_spec()@ == production_costs@,
    {
        Producer { city, production_costs }
    }

    pub fn city(&self) -> (r: CityId)
        ensures
            r == self.city_spec(),
    {
        self.city
    }

    pub fn supply(&self) -> (r: &Supply)
        ensures
            r@ == self.supply_spec()@,
    {
        &self.production_costs
    }

    /// Reacts to the market after a turn; producers keep their curve.
    pub fn update(&mut self, market: &mut Market)
        ensures
            *final(self) == *old(self),
            *final(market) == *old(market),
    {
    }
}

/// A buyer in one city, with the demand curve of the use it has for goods.
#[derive(Clone, Debug)]
pub struct Consumer {
    city: CityId,
    usefulness: Demand,
}

impl Consumer {
    pub closed spec fn city_spec(&self) -> CityId {
        self.city
    }

    pub closed spec fn demand_spec(&self) -> Demand {
        self.usefulness
    }

    pub fn new(city: CityId, usefulness: Demand) -> (r: Consumer)
        ensures
            r.city_spec() == city,
            r.demand_spec()@ == usefulness@,
    {
        Consumer { city, usefulness }
    }

    pub fn city(&self) -> (r: CityId)
        ensures
            r == self.city_spec(),
    {
        self.city
    }

    pub fn demand(&self) -> (r: &Demand)
        ensures
            r@ == self.demand_spec()@,
    {
        &self.usefulness
    }

    /// Reacts to the market after a turn; consumers keep their curve.
    pub fn update(&mut self, market: &mut Market)
        ensures
            *final(self) == *old(self),
            *final(market) == *old(market),
    {
    }
}

} // verus!
