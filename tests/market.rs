use economy::curve::{Demand, Supply};
use economy::entity::{Consumer, Producer};
use economy::geography::{City, CityId, Connection, Geography};
use economy::market::{Market, MarketState};
use economy::types::{Price, Volume};
use std::collections::BTreeMap;

fn p(x: f64) -> Price {
    Price::new((x * 1e6).round() as i64)
}

fn vol(x: f64) -> Volume {
    Volume::new((x * 1e6).round() as i64)
}

fn make_demand(values: Vec<(f64, f64)>) -> Demand {
    Demand::new(values.into_iter().map(|(a, v)| (p(a), vol(v))).collect())
}

fn make_supply(values: Vec<(f64, f64)>) -> Supply {
    Supply::new(values.into_iter().map(|(a, v)| (p(a), vol(v))).collect())
}

fn test_eq_arg(a: Price, b: Price) {
    assert!((a.units - b.units).abs() < 100_000, "{} != {}", a.units, b.units);
}

fn test_eq_value(a: Volume, b: Volume) {
    assert!((a.units - b.units).abs() < 100_000, "{} != {}", a.units, b.units);
}

fn seeded_market(geography: Geography, prices_vec: Vec<(CityId, f64)>) -> Market {
    let prices: BTreeMap<CityId, Price> = prices_vec.into_iter().map(|(id, x)| (id, p(x))).collect();
    Market::new(geography, prices)
}

fn test_groups(market: &Market, groups: &BTreeMap<CityId, Vec<(CityId, Price)>>) {
    let mut id_to_group: BTreeMap<CityId, CityId> = BTreeMap::new();
    let prices: BTreeMap<CityId, Price> = market.prices().iter().map(|x| (*x.0, x.1.unwrap())).collect();
    for (base, group) in groups {
        for (id, _diff) in group {
            id_to_group.insert(*id, *base);
        }
    }
    for vec in market.geography().get_connections() {
        for conn in vec {
            let from = &conn.get_from_id();
            let to = &conn.get_to_id();
            if id_to_group[from] != id_to_group[to] {
                assert!(
                    prices[from].units - prices[to].units < conn.get_cost().units
                        && prices[to].units - prices[from].units < conn.get_cost().units
                )
            }
        }
    }
}

fn geography_with(n: usize, links: Vec<(CityId, CityId, f64)>) -> Geography {
    let mut geography = Geography::new();
    for i in 0..n {
        geography.add_city(City::new(i, String::new()));
    }
    for (a, b, c) in links {
        geography.add_connection(Connection::new(a, b, p(c)));
    }
    geography
}

#[test]
fn two_nodes_two_groups() {
    let geography = geography_with(2, vec![(0, 1, 100.)]);
    let market = seeded_market(geography, vec![(0, 5.), (1, 7.)]);
    let groups = market.calculate_groups();
    assert_eq!(groups.iter().filter(|(_, v)| v.len() != 0).count(), 2);
    test_groups(&market, &groups);
}

#[test]
fn two_nodes_one_group_1() {
    let geography = geography_with(2, vec![(0, 1, 5.)]);
    let market = seeded_market(geography, vec![(0, 5.), (1, 25.)]);
    let groups = market.calculate_groups();
    assert_eq!(groups.iter().filter(|(_, v)| v.len() != 0).count(), 1);
    test_groups(&market, &groups);
}

#[test]
fn two_nodes_one_group_2() {
    let geography = geography_with(2, vec![(0, 1, 5.)]);
    let market = seeded_market(geography, vec![(0, 0.), (1, 20.)]);
    let groups = market.calculate_groups();
    assert_eq!(groups.iter().filter(|(_, v)| v.len() != 0).count(), 1);
    test_groups(&market, &groups);
}

#[test]
fn three_nodes_two_groups() {
    let geography = geography_with(3, vec![(0, 1, 5.), (1, 2, 100.), (0, 2, 100.)]);
    let market = seeded_market(geography, vec![(0, 5.), (1, 25.), (2, 30.)]);
    let groups = market.calculate_groups();
    assert_eq!(groups.iter().filter(|(_, v)| v.len() != 0).count(), 2);
    test_groups(&market, &groups);
}

#[test]
fn three_nodes_one_group() {
    let geography = geography_with(3, vec![(0, 1, 5.), (1, 2, 5.), (0, 2, 100.)]);
    let market = seeded_market(geography, vec![(0, 5.), (1, 25.), (2, 45.)]);
    let groups = market.calculate_groups();
    assert_eq!(groups.iter().filter(|(_, v)| v.len() != 0).count(), 1);
    test_groups(&market, &groups);
}

#[test]
fn five_nodes_two_groups() {
    let geography = geography_with(
        5,
        vec![(0, 1, 5.), (1, 2, 5.), (0, 2, 5.), (1, 3, 100.), (0, 4, 100.), (2, 3, 100.), (3, 4, 5.)],
    );
    let market = seeded_market(geography, vec![(0, 5.), (1, 25.), (2, 45.), (3, 20.), (4, 10.)]);
    let groups = market.calculate_groups();
    assert_eq!(groups.iter().filter(|(_, v)| v.len() != 0).count(), 2);
    test_groups(&market, &groups);
}

#[test]
fn one_group_offsets_follow_transport_costs() {
    let geography = geography_with(2, vec![(0, 1, 5.)]);
    let market = seeded_market(geography, vec![(0, 5.), (1, 25.)]);
    let groups = market.calculate_groups();
    assert_eq!(groups[&0], vec![(0, p(0.)), (1, p(5.))]);
    assert_eq!(groups[&1], vec![]);
}

#[test]
fn undefined_cities_join_only_over_free_links() {
    let geography = geography_with(3, vec![(0, 1, 0.), (1, 2, 1.)]);
    let market = Market::new(geography, BTreeMap::new());
    let groups = market.calculate_groups();
    assert_eq!(groups[&0], vec![(0, p(0.)), (1, p(0.))]);
    assert_eq!(groups[&2], vec![(2, p(0.))]);
}

#[test]
fn single_node_1() {
    let mut geography = Geography::new();
    geography.add_city(City::new(0, "city".to_string()));

    let city_consumption = Consumer::new(0, make_demand(vec![(0., 4.), (4., 0.)]));
    let city_production = Producer::new(0, make_supply(vec![(0., 0.), (4., 4.)]));

    let mut market = Market::new(geography, BTreeMap::new());
    market.add_consumer(&city_consumption);
    market.add_producer(&city_production);

    market.update_prices();
    let prices = market.prices();
    let demands = market.demand_volumes();
    let supplies = market.supply_volumes();
    test_eq_arg(prices[&0].unwrap(), p(2.));
    test_eq_value(demands[&0].unwrap(), vol(2.));
    test_eq_value(supplies[&0].unwrap(), vol(2.));

    market.update_prices();
    let prices = market.prices();
    test_eq_arg(prices[&0].unwrap(), p(2.));
    test_eq_value(demands[&0].unwrap(), vol(2.));
    test_eq_value(supplies[&0].unwrap(), vol(2.));
}

#[test]
fn single_node_2() {
    let mut geography = Geography::new();
    geography.add_city(City::new(0, "city".to_string()));

    let city_consumption = Consumer::new(0, make_demand(vec![(1., 5.), (5., 0.)]));
    let city_production = Producer::new(0, make_supply(vec![(0., 0.), (2., 1.), (4., 4.), (6., 6.)]));

    let mut market = Market::new(geography, BTreeMap::new());
    market.add_consumer(&city_consumption);
    market.add_producer(&city_production);

    market.update_prices();
    let prices = market.prices();
    let demands = market.demand_volumes();
    let supplies = market.supply_volumes();
    test_eq_arg(prices[&0].unwrap(), p(3.));
    test_eq_value(demands[&0].unwrap(), vol(2.5));
    test_eq_value(supplies[&0].unwrap(), vol(2.5));

    market.update_prices();
    let prices = market.prices();
    let demands = market.demand_volumes();
    let supplies = market.supply_volumes();
    test_eq_arg(prices[&0].unwrap(), p(3.));
    test_eq_value(demands[&0].unwrap(), vol(2.5));
    test_eq_value(supplies[&0].unwrap(), vol(2.5));
}

#[test]
fn single_node_3() {
    let mut geography = Geography::new();
    geography.add_city(City::new(0, "city".to_string()));

    let city_consumption = Consumer::new(0, make_demand(vec![(3., 4.), (5., 1.)]));
    let city_production = Producer::new(0, make_supply(vec![(0., 1.), (2., 2.), (3., 6.), (5., 8.)]));

    let mut market = Market::new(geography, BTreeMap::new());
    market.add_consumer(&city_consumption);
    market.add_producer(&city_production);

    market.update_prices();
    let prices = market.prices();
    let demands = market.demand_volumes();
    let supplies = market.supply_volumes();
    test_eq_arg(prices[&0].unwrap(), p(2.5));
    test_eq_value(demands[&0].unwrap(), vol(4.));
    test_eq_value(supplies[&0].unwrap(), vol(4.));

    market.update_prices();
    let prices = market.prices();
    let demands = market.demand_volumes();
    let supplies = market.supply_volumes();
    test_eq_arg(prices[&0].unwrap(), p(2.5));
    test_eq_value(demands[&0].unwrap(), vol(4.));
    test_eq_value(supplies[&0].unwrap(), vol(4.));
}

fn two_city_market(cost: f64, swap_city_1: bool) -> Market {
    let mut geography = Geography::new();
    geography.add_city(City::new(0, "city 0".to_string()));
    geography.add_city(City::new(1, "city 1".to_string()));
    geography.add_connection(Connection::new(0, 1, p(cost)));

    let city_0_consumption = Consumer::new(0, make_demand(vec![(0., 6.), (1., 5.), (2., 3.), (3., 2.), (4., 0.)]));
    let city_0_production = Producer::new(0, make_supply(vec![(1., 0.), (2., 1.), (3., 3.), (5., 4.)]));
    let (d1, s1) = if swap_city_1 {
        (
            vec![(6., 0.), (8., 2.), (9., 5.), (10., 6.)],
            vec![(5., 9.), (7., 7.), (8., 4.), (9., 2.), (11., 1.)],
        )
    } else {
        (
            vec![(5., 9.), (7., 7.), (8., 4.), (9., 2.), (11., 1.)],
            vec![(6., 0.), (8., 2.), (9., 5.), (10., 6.)],
        )
    };
    let city_1_consumption = Consumer::new(1, make_demand(d1));
    let city_1_production = Producer::new(1, make_supply(s1));

    let mut market = Market::new(geography, BTreeMap::new());
    market.add_consumer(&city_0_consumption);
    market.add_producer(&city_0_production);
    market.add_consumer(&city_1_consumption);
    market.add_producer(&city_1_production);
    market
}

#[test]
fn two_nodes_1() {
    let mut market = two_city_market(4., false);

    market.update_prices();
    let prices = market.prices();
    let demands = market.demand_volumes();
    let supplies = market.supply_volumes();
    test_eq_arg(prices[&0].unwrap(), p(2.666666666));
    test_eq_value(demands[&0].unwrap(), vol(2.33333333));
    test_eq_value(supplies[&0].unwrap(), vol(2.3333333));
    test_eq_arg(prices[&1].unwrap(), p(8.4));
    test_eq_value(demands[&1].unwrap(), vol(3.2));
    test_eq_value(supplies[&1].unwrap(), vol(3.2));

    market.update_prices();
    let prices = market.prices();
    let demands = market.demand_volumes();
    let supplies = market.supply_volumes();
    test_eq_arg(prices[&0].unwrap(), p(3.769230769));
    test_eq_value(demands[&0].unwrap(), vol(0.46153855));
    test_eq_value(supplies[&0].unwrap(), vol(3.38461536));
    test_eq_arg(prices[&1].unwrap(), p(7.769230769));
    test_eq_value(demands[&1].unwrap(), vol(4.6923078));
    test_eq_value(supplies[&1].unwrap(), vol(1.7692307));

    market.update_prices();
    let prices = market.prices();
    let demands = market.demand_volumes();
    let supplies = market.supply_volumes();
    test_eq_arg(prices[&0].unwrap(), p(3.769230769));
    test_eq_value(demands[&0].unwrap(), vol(0.46153855));
    test_eq_value(supplies[&0].unwrap(), vol(3.38461536));
    test_eq_arg(prices[&1].unwrap(), p(7.769230769));
    test_eq_value(demands[&1].unwrap(), vol(4.6923078));
    test_eq_value(supplies[&1].unwrap(), vol(1.7692307));
}

#[test]
fn two_nodes_2() {
    let mut market = two_city_market(10., true);

    market.update_prices();
    let prices = market.prices();
    let demands = market.demand_volumes();
    let supplies = market.supply_volumes();
    test_eq_arg(prices[&0].unwrap(), p(2.666666666));
    test_eq_value(demands[&0].unwrap(), vol(2.33333333));
    test_eq_value(supplies[&0].unwrap(), vol(2.3333333));
    test_eq_arg(prices[&1].unwrap(), p(8.4));
    test_eq_value(demands[&1].unwrap(), vol(3.2));
    test_eq_value(supplies[&1].unwrap(), vol(3.2));

    market.update_prices();
    let prices = market.prices();
    let demands = market.demand_volumes();
    let supplies = market.supply_volumes();
    test_eq_arg(prices[&0].unwrap(), p(2.666666666));
    test_eq_value(demands[&0].unwrap(), vol(2.33333333));
    test_eq_value(supplies[&0].unwrap(), vol(2.3333333));
    test_eq_arg(prices[&1].unwrap(), p(8.4));
    test_eq_value(demands[&1].unwrap(), vol(3.2));
    test_eq_value(supplies[&1].unwrap(), vol(3.2));
}

#[test]
fn three_node_1() {
    let mut geography = Geography::new();
    geography.add_city(City::new(0, "city 0".to_string()));
    geography.add_city(City::new(1, "city 1".to_string()));
    geography.add_city(City::new(2, "city 2".to_string()));
    geography.add_connection(Connection::new(0, 1, p(2.)));
    geography.add_connection(Connection::new(1, 2, p(1.)));

    let city_0_consumption = Consumer::new(0, make_demand(vec![(0., 8.), (1., 7.), (3., 3.), (5., 1.)]));
    let city_0_production = Producer::new(0, make_supply(vec![(0., 2.), (1., 3.), (3., 7.), (5., 8.)]));
    let city_1_consumption = Consumer::new(1, make_demand(vec![(3., 8.), (4., 6.), (5., 3.), (7., 2.)]));
    let city_1_production = Producer::new(1, make_supply(vec![(2., 1.), (4., 3.), (5., 5.), (6., 6.)]));
    let city_2_consumption = Consumer::new(2, make_demand(vec![(5., 6.), (6., 5.), (7., 3.), (9., 1.)]));
    let city_2_production = Producer::new(2, make_supply(vec![(3., 1.), (6., 3.), (8., 5.), (10., 6.)]));

    let mut market = Market::new(geography, BTreeMap::new());
    market.add_consumer(&city_0_consumption);
    market.add_producer(&city_0_production);
    market.add_consumer(&city_1_consumption);
    market.add_producer(&city_1_production);
    market.add_consumer(&city_2_consumption);
    market.add_producer(&city_2_production);

    market.update_prices();
    let prices = market.prices();
    test_eq_arg(prices[&0].unwrap(), p(2.));
    test_eq_arg(prices[&1].unwrap(), p(4.6));
    test_eq_arg(prices[&2].unwrap(), p(6.666666666));

    market.update_prices();
    let prices = market.prices();
    test_eq_arg(prices[&0].unwrap(), p(2.6249999));
    test_eq_arg(prices[&1].unwrap(), p(4.6249999));
    test_eq_arg(prices[&2].unwrap(), p(5.6249999));

    market.update_prices();
    let prices = market.prices();
    test_eq_arg(prices[&0].unwrap(), p(2.6249999));
    test_eq_arg(prices[&1].unwrap(), p(4.6249999));
    test_eq_arg(prices[&2].unwrap(), p(5.6249999));
}

#[test]
fn one_city_clears_at_the_crossing() {
    let mut geography = Geography::new();
    geography.add_city(City::new(0, "only".to_string()));
    let mut market = Market::new(geography, BTreeMap::new());
    market.add_consumer(&Consumer::new(0, make_demand(vec![(0., 4.), (4., 0.)])));
    market.add_producer(&Producer::new(0, make_supply(vec![(0., 0.), (4., 4.)])));
    market.update_prices();
    match market.cities()[0].state() {
        MarketState::Equilibrium(price, d, s) => {
            test_eq_arg(*price, p(2.));
            test_eq_value(*d, vol(2.));
            test_eq_value(*s, vol(2.));
        }
        other => panic!("unexpected state {:?}", other),
    }
}

#[test]
fn far_apart_cities_clear_independently() {
    let geography = geography_with(2, vec![(0, 1, 100.)]);
    let mut market = seeded_market(geography, vec![(0, 5.), (1, 50.)]);
    market.add_consumer(&Consumer::new(0, make_demand(vec![(0., 4.), (4., 0.)])));
    market.add_producer(&Producer::new(0, make_supply(vec![(0., 0.), (4., 4.)])));
    market.add_consumer(&Consumer::new(1, make_demand(vec![(40., 10.), (60., 0.)])));
    market.add_producer(&Producer::new(1, make_supply(vec![(40., 0.), (60., 10.)])));
    let groups = market.calculate_groups();
    assert_eq!(groups.iter().filter(|(_, v)| v.len() != 0).count(), 2);
    market.update_prices();
    let prices = market.prices();
    test_eq_arg(prices[&0].unwrap(), p(2.));
    test_eq_arg(prices[&1].unwrap(), p(50.));
}

#[test]
fn joined_cities_differ_by_exactly_the_transport_cost() {
    let geography = geography_with(2, vec![(0, 1, 5.)]);
    let mut market = seeded_market(geography, vec![(0, 5.), (1, 25.)]);
    market.add_consumer(&Consumer::new(0, make_demand(vec![(0., 10.), (20., 0.)])));
    market.add_producer(&Producer::new(0, make_supply(vec![(0., 0.), (20., 10.)])));
    market.add_consumer(&Consumer::new(1, make_demand(vec![(10., 10.), (40., 0.)])));
    market.add_producer(&Producer::new(1, make_supply(vec![(10., 0.), (40., 10.)])));
    let groups = market.calculate_groups();
    assert_eq!(groups.iter().filter(|(_, v)| v.len() != 0).count(), 1);
    market.update_prices();
    let prices = market.prices();
    assert_eq!(prices[&1].unwrap().units - prices[&0].unwrap().units, p(5.).units);
}

#[test]
fn stable_states_stay_stable() {
    let mut market = two_city_market(4., false);
    market.simulate(2);
    let second = market.prices();
    let second_d = market.demand_volumes();
    market.update_prices();
    assert_eq!(market.prices(), second);
    assert_eq!(market.demand_volumes(), second_d);
    market.update_prices();
    assert_eq!(market.prices(), second);
    assert_eq!(market.demand_volumes(), second_d);
}

#[test]
fn unbalanced_markets_report_shortage_and_surplus() {
    let geography = geography_with(2, vec![]);
    let mut market = Market::new(geography, BTreeMap::new());
    market.add_consumer(&Consumer::new(0, make_demand(vec![(0., 10.), (5., 8.)])));
    market.add_producer(&Producer::new(0, make_supply(vec![(0., 1.), (5., 2.)])));
    market.add_consumer(&Consumer::new(1, make_demand(vec![(0., 1.), (5., 0.)])));
    market.add_producer(&Producer::new(1, make_supply(vec![(0., 3.), (5., 4.)])));
    market.update_prices();
    assert_eq!(*market.cities()[0].state(), MarketState::UnderSupply);
    assert_eq!(*market.cities()[1].state(), MarketState::OverSupply);
    assert_eq!(market.prices()[&0], None);
    assert_eq!(market.supply_volumes()[&1], None);
}

#[test]
fn reset_forgets_states_and_keeps_curves() {
    let mut market = two_city_market(4., false);
    market.update_prices();
    market.reset_prices();
    assert_eq!(market.prices()[&0], None);
    assert_eq!(*market.cities()[1].state(), MarketState::Undefined);
    market.update_prices();
    test_eq_arg(market.prices()[&0].unwrap(), p(2.666666666));
}

#[test]
fn removing_a_producer_undoes_its_supply() {
    let geography = geography_with(1, vec![]);
    let mut market = Market::new(geography, BTreeMap::new());
    let prod = Producer::new(0, make_supply(vec![(0., 0.), (4., 4.)]));
    market.add_producer(&prod);
    market.add_producer(&prod);
    market.remove_producer(&prod);
    assert_eq!(market.cities()[0].supply().value(p(2.)), vol(2.));
    let cons = Consumer::new(0, make_demand(vec![(0., 4.), (4., 0.)]));
    market.add_consumer(&cons);
    market.remove_consumer(&cons);
    assert_eq!(market.cities()[0].demand().value(p(1.)), vol(0.));
}

#[test]
fn seeded_prices_start_in_equilibrium() {
    let geography = geography_with(2, vec![]);
    let market = seeded_market(geography, vec![(1, 3.)]);
    assert_eq!(market.prices()[&0], None);
    assert_eq!(market.prices()[&1], Some(p(3.)));
    assert_eq!(market.demand_volumes()[&1], Some(Volume::zero()));
    assert_eq!(market.cities()[1].price(), Some(p(3.)));
    assert_eq!(market.cities()[1].supply_volume(), Some(Volume::zero()));
}

#[test]
fn five_nodes_groups_are_the_joined_components() {
    let geography = geography_with(
        5,
        vec![(0, 1, 5.), (1, 2, 5.), (0, 2, 5.), (1, 3, 100.), (0, 4, 100.), (2, 3, 100.), (3, 4, 5.)],
    );
    let market = seeded_market(geography, vec![(0, 5.), (1, 25.), (2, 45.), (3, 20.), (4, 10.)]);
    let groups = market.calculate_groups();
    let members = |r: CityId| -> Vec<CityId> { groups[&r].iter().map(|(id, _)| *id).collect() };
    assert_eq!(members(0), vec![0, 1, 2]);
    assert_eq!(members(3), vec![3, 4]);
    assert!(members(1).is_empty() && members(2).is_empty() && members(4).is_empty());
    assert_eq!(groups[&3], vec![(3, p(0.)), (4, p(-5.))]);
}
