use economy::curve::{Demand, Supply};
use economy::entity::{Consumer, Producer};
use economy::geography::{City, CityId, Connection, Geography};
use economy::simulation::Simulation;
use economy::types::{Price, Volume};
use std::collections::BTreeMap;

fn p(x: f64) -> Price {
    Price::new((x * 1e6).round() as i64)
}

fn vol(x: f64) -> Volume {
    Volume::new((x * 1e6).round() as i64)
}

fn pts(values: Vec<(f64, f64)>) -> Vec<(Price, Volume)> {
    values.into_iter().map(|(a, v)| (p(a), vol(v))).collect()
}

#[test]
fn simulation_runs_every_turn() {
    let mut geography = Geography::new();
    geography.add_city(City::new(0, "city 0".to_string()));
    geography.add_city(City::new(1, "city 1".to_string()));
    geography.add_connection(Connection::new(0, 1, p(4.)));
    let mut sim = Simulation::new(2, geography, BTreeMap::<CityId, Price>::new());
    sim.add_consumer(Consumer::new(0, Demand::new(pts(vec![(0., 6.), (1., 5.), (2., 3.), (3., 2.), (4., 0.)]))));
    sim.add_producer(Producer::new(0, Supply::new(pts(vec![(1., 0.), (2., 1.), (3., 3.), (5., 4.)]))));
    sim.add_consumer(Consumer::new(1, Demand::new(pts(vec![(5., 9.), (7., 7.), (8., 4.), (9., 2.), (11., 1.)]))));
    sim.add_producer(Producer::new(1, Supply::new(pts(vec![(6., 0.), (8., 2.), (9., 5.), (10., 6.)]))));
    assert_eq!(sim.producers.len(), 2);
    assert_eq!(sim.consumers.len(), 2);
    sim.run();
    let prices = sim.market.prices();
    assert!((prices[&0].unwrap().units - p(3.769230769).units).abs() < 100_000);
    assert!((prices[&1].unwrap().units - p(7.769230769).units).abs() < 100_000);
}

#[test]
fn simulation_with_no_turns_keeps_seeded_prices() {
    let mut geography = Geography::new();
    geography.add_city(City::new(5, "only".to_string()));
    let mut prices = BTreeMap::new();
    prices.insert(5, p(1.5));
    let mut sim = Simulation::new(0, geography, prices);
    sim.simulate_turn();
    assert_eq!(sim.market.prices()[&5].unwrap().units, 0);
    let mut geography = Geography::new();
    geography.add_city(City::new(5, "only".to_string()));
    let mut prices = BTreeMap::new();
    prices.insert(5, p(1.5));
    let mut idle = Simulation::new(0, geography, prices);
    idle.run();
    assert_eq!(idle.market.prices()[&5], Some(p(1.5)));
}
