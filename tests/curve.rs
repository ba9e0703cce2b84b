use economy::curve::{Demand, Supply};
use economy::entity::{Consumer, Producer};
use economy::geography::{City, Connection, Geography};
use economy::market::MarketState;
use economy::types::{Price, Volume};

fn p(x: f64) -> Price {
    Price::new((x * 1e6).round() as i64)
}

fn vol(x: f64) -> Volume {
    Volume::new((x * 1e6).round() as i64)
}

fn pts(values: Vec<(f64, f64)>) -> Vec<(Price, Volume)> {
    values.into_iter().map(|(a, v)| (p(a), vol(v))).collect()
}

#[test]
fn zero_curves_hold_no_function() {
    assert!(Demand::zero().function().is_none());
    assert!(Supply::zero().function().is_none());
    assert_eq!(Supply::zero().intervals(), vec![]);
    assert_eq!(Demand::zero().value(p(3.)), vol(0.));
}

#[test]
fn adding_to_zero_takes_the_curve_without_extra_breakpoints() {
    let mut s = Supply::zero();
    s.add_function(&Supply::new(pts(vec![(1., 2.), (3., 4.)])));
    assert_eq!(s.intervals(), pts(vec![(1., 2.), (3., 4.)]));
    s.add_function(&Supply::zero());
    assert_eq!(s.intervals(), pts(vec![(1., 2.), (3., 4.)]));
}

#[test]
fn subtracting_from_zero_negates() {
    let mut s = Supply::zero();
    s.substract_function(&Supply::new(pts(vec![(1., 2.), (3., 4.)])));
    assert_eq!(s.intervals(), pts(vec![(1., -2.), (3., -4.)]));
}

#[test]
fn supply_negate_and_shift() {
    let mut s = Supply::new(pts(vec![(1., 2.), (3., 4.)]));
    s.negate();
    assert_eq!(s.intervals(), pts(vec![(1., -2.), (3., -4.)]));
    s.shift_right(p(1.));
    assert_eq!(s.intervals(), pts(vec![(2., -2.), (4., -4.)]));
    s.shift_left(p(2.));
    assert_eq!(s.intervals(), pts(vec![(0., -2.), (2., -4.)]));
}

#[test]
fn demand_meets_supply_in_equilibrium() {
    let d = Demand::new(pts(vec![(0., 4.), (4., 0.)]));
    let s = Supply::new(pts(vec![(0., 0.), (4., 4.)]));
    match d.intersect(&s) {
        MarketState::Equilibrium(price, a, b) => {
            assert!((price.units - p(2.).units).abs() <= 1);
            assert_eq!(a, b);
        }
        other => panic!("unexpected {:?}", other),
    }
    assert_eq!(d.intersect(&s), s.intersect(&d));
}

#[test]
fn shortage_and_surplus_are_classified() {
    let high = Demand::new(pts(vec![(0., 10.), (5., 8.)]));
    let low = Supply::new(pts(vec![(0., 1.), (5., 2.)]));
    assert_eq!(high.intersect(&low), MarketState::UnderSupply);
    let small = Demand::new(pts(vec![(0., 1.), (5., 0.)]));
    let big = Supply::new(pts(vec![(0., 3.), (5., 4.)]));
    assert_eq!(small.intersect(&big), MarketState::OverSupply);
}

#[test]
fn demand_against_zero_supply() {
    let d = Demand::new(pts(vec![(0., 4.), (4., 0.)]));
    match d.intersect(&Supply::zero()) {
        MarketState::Equilibrium(_, a, _) => assert_eq!(a, vol(0.)),
        other => panic!("unexpected {:?}", other),
    }
}

#[test]
fn demand_add_and_subtract() {
    let mut d = Demand::new(pts(vec![(0., 4.), (4., 0.)]));
    let e = Demand::new(pts(vec![(2., 2.), (6., 0.)]));
    d.add_function(&e);
    assert_eq!(d.value(p(2.)), vol(4.));
    d.substract_function(&e);
    assert_eq!(d.value(p(2.)), vol(2.));
    assert_eq!(d.value(p(6.)), vol(0.));
}

#[test]
fn entities_keep_city_and_curve() {
    let prod = Producer::new(3, Supply::new(pts(vec![(0., 0.), (4., 4.)])));
    assert_eq!(prod.city(), 3);
    assert_eq!(prod.supply().intervals(), pts(vec![(0., 0.), (4., 4.)]));
    let cons = Consumer::new(2, Demand::new(pts(vec![(0., 4.), (4., 0.)])));
    assert_eq!(cons.city(), 2);
    assert_eq!(cons.demand().value(p(1.)), vol(3.));
}

#[test]
fn geography_records_cities_and_reverse_links() {
    let mut g = Geography::new();
    g.add_city(City::new(7, "a".to_string()));
    g.add_city(City::new(9, "b".to_string()));
    g.add_connection(Connection::new(7, 9, p(3.)));
    assert_eq!(g.get_cities().len(), 2);
    assert_eq!(g.get_cities()[1].get_id(), 9);
    assert_eq!(g.get_cities()[0].get_name(), "a");
    assert_eq!(g.position(9), Some(1));
    assert_eq!(g.position(8), None);
    let links = g.get_connections();
    assert_eq!(links[0].len(), 1);
    assert_eq!(links[1][0].get_from_id(), 9);
    assert_eq!(links[1][0].get_to_id(), 7);
    assert_eq!(links[1][0].get_cost(), p(3.));
    g.add_city(City::new(7, "renamed".to_string()));
    assert_eq!(g.get_cities().len(), 2);
    assert_eq!(g.get_cities()[0].get_name(), "renamed");
    assert_eq!(g.get_connections()[0].len(), 1);
}

#[test]
fn add_connection_appends_the_link_and_its_reverse() {
    let mut g = Geography::new();
    g.add_city(City::new(0, "a".to_string()));
    g.add_city(City::new(1, "b".to_string()));
    g.add_city(City::new(2, "c".to_string()));
    g.add_connection(Connection::new(0, 1, p(2.)));
    g.add_connection(Connection::new(2, 0, p(5.)));
    g.add_connection(Connection::new(1, 1, p(1.)));
    let links = g.get_connections();
    let ends = |i: usize| -> Vec<(usize, usize, i64)> {
        links[i].iter().map(|c| (c.get_from_id(), c.get_to_id(), c.get_cost().units)).collect()
    };
    assert_eq!(ends(0), vec![(0, 1, p(2.).units), (0, 2, p(5.).units)]);
    assert_eq!(ends(1), vec![(1, 0, p(2.).units), (1, 1, p(1.).units), (1, 1, p(1.).units)]);
    assert_eq!(ends(2), vec![(2, 0, p(5.).units)]);
}
