use economy::function::Function;
use economy::types::{Price, Volume};

fn p(x: f64) -> Price {
    Price::new((x * 1e6).round() as i64)
}

fn vol(x: f64) -> Volume {
    Volume::new((x * 1e6).round() as i64)
}

fn make_function(values: Vec<(f64, f64)>) -> Function {
    Function::new(values.into_iter().map(|(a, v)| (p(a), vol(v))).collect())
}

fn test_eq_arg(a: Price, b: Price) {
    assert!((a.units - b.units).abs() < 100_000, "{} != {}", a.units, b.units);
}

fn test_eq_value(a: Volume, b: Volume) {
    assert!((a.units - b.units).abs() < 100_000, "{} != {}", a.units, b.units);
}

#[test]
fn mod_basic_1() {
    let fun = make_function(vec![(1., 3.), (5., 7.)]);
    test_eq_value(fun.value(p(3.)), vol(5.));
    test_eq_value(fun.value(p(2.)), vol(4.));
}

#[test]
fn mod_basic_2() {
    let fun = make_function(vec![(1., 3.), (2., 7.), (5., 10.)]);
    test_eq_value(fun.value(p(1.5)), vol(5.));
    test_eq_value(fun.value(p(4.)), vol(9.));
}

#[test]
fn mod_basic_3() {
    let fun = make_function(vec![(1., 3.), (9., 7.), (15., 10.)]);
    test_eq_value(fun.value(p(1.)), vol(3.));
    test_eq_value(fun.value(p(9.)), vol(7.));
    test_eq_value(fun.value(p(15.)), vol(10.));
}

#[test]
fn outside_access_1() {
    let fun = make_function(vec![(1., 3.), (2., 2.)]);
    test_eq_value(fun.value(p(0.)), vol(3.));
    test_eq_value(fun.value(p(6.)), vol(2.));
}

#[test]
fn mod_add_value_1() {
    let mut fun = make_function(vec![(1., 4.), (2., 6.)]);
    fun.add_value(vol(4.));
    test_eq_value(fun.value(p(1.)), vol(8.));
    test_eq_value(fun.value(p(2.)), vol(10.));
}

#[test]
fn mod_add_value_2() {
    let mut fun = make_function(vec![(4., 4.), (8., 6.), (10., 8.)]);
    fun.add_value(vol(-2.));
    test_eq_value(fun.value(p(1.)), vol(2.));
    test_eq_value(fun.value(p(6.)), vol(3.));
    test_eq_value(fun.value(p(9.)), vol(5.));
    test_eq_value(fun.value(p(14.)), vol(6.));
}

#[test]
fn substract_value_1() {
    let mut fun = make_function(vec![(1., 4.), (2., 6.)]);
    fun.substract_value(vol(4.));
    test_eq_value(fun.value(p(-1.)), vol(0.));
    test_eq_value(fun.value(p(1.)), vol(0.));
    test_eq_value(fun.value(p(3.)), vol(2.));
}

#[test]
fn mod_add_function_1() {
    let mut fun = make_function(vec![(1., 4.), (3., 6.)]);
    let other = make_function(vec![(1., 5.), (3., 7.)]);
    fun.add_function(&other);
    test_eq_value(fun.value(p(-1.)), vol(9.));
    test_eq_value(fun.value(p(2.)), vol(11.));
    test_eq_value(fun.value(p(4.)), vol(13.));
}

#[test]
fn mod_add_function_2() {
    let mut fun = make_function(vec![(1., 4.), (3., 6.), (9., 9.)]);
    let other = make_function(vec![(1., 5.), (6., 7.), (9., 10.)]);
    fun.add_function(&other);
    test_eq_value(fun.value(p(2.)), vol(10.4));
    test_eq_value(fun.value(p(4.)), vol(12.7));
    test_eq_value(fun.value(p(8.)), vol(17.5));
}

#[test]
fn mod_add_function_3() {
    let mut fun = make_function(vec![(3., 4.), (5., 6.)]);
    let other = make_function(vec![(1., 5.), (11., 7.)]);
    fun.add_function(&other);
    test_eq_value(fun.value(p(-1.)), vol(9.));
    test_eq_value(fun.value(p(1.)), vol(9.));
    test_eq_value(fun.value(p(2.)), vol(9.2));
    test_eq_value(fun.value(p(4.)), vol(10.6));
    test_eq_value(fun.value(p(8.)), vol(12.4));
}

#[test]
fn shift_left_1() {
    let mut fun = make_function(vec![(3., 4.), (5., 6.)]);
    fun.shift_left(p(2.));
    test_eq_value(fun.value(p(-1.)), vol(4.));
    test_eq_value(fun.value(p(1.)), vol(4.));
    test_eq_value(fun.value(p(2.)), vol(5.));
    test_eq_value(fun.value(p(3.)), vol(6.));
    test_eq_value(fun.value(p(5.)), vol(6.));
}

#[test]
fn shift_right_1() {
    let mut fun = make_function(vec![(3., 4.), (5., 6.)]);
    fun.shift_right(p(2.));
    test_eq_value(fun.value(p(3.)), vol(4.));
    test_eq_value(fun.value(p(5.)), vol(4.));
    test_eq_value(fun.value(p(6.)), vol(5.));
    test_eq_value(fun.value(p(7.)), vol(6.));
    test_eq_value(fun.value(p(9.)), vol(6.));
}

#[test]
fn mod_intersection_basic_1() {
    let fun_1 = make_function(vec![(3., 4.), (5., 6.)]);
    let fun_2 = make_function(vec![(3., 6.), (5., 4.)]);
    let (arg, val) = fun_1.intersect(&fun_2).unwrap();
    test_eq_arg(arg, p(4.));
    test_eq_value(val, vol(5.));
}

#[test]
fn mod_intersection_basic_2() {
    let fun_1 = make_function(vec![(3., 4.), (5., 6.), (7., 10.)]);
    let fun_2 = make_function(vec![(3., 11.), (5., 8.), (7., 4.)]);
    let (arg, val) = fun_1.intersect(&fun_2).unwrap();
    test_eq_arg(arg, p(5.5));
    test_eq_value(val, vol(7.));
}

#[test]
fn mod_intersection_basic_3() {
    let fun_1 = make_function(vec![(0., 8.), (2., 7.), (4., 4.), (7., 3.), (8., 1.), (10., 0.)]);
    let fun_2 = make_function(vec![(0., 0.), (2., 2.), (4., 3.), (7., 4.), (8., 5.), (10., 8.)]);
    let (arg, val) = fun_1.intersect(&fun_2).unwrap();
    test_eq_arg(arg, p(5.5));
    test_eq_value(val, vol(3.5));
}

#[test]
fn unaligned_1() {
    let fun_1 = make_function(vec![(0., 9.), (2., 8.), (6., 2.), (7., 1.)]);
    let fun_2 = make_function(vec![(0., 3.), (3., 4.), (5., 6.), (7., 7.)]);
    let (arg, val) = fun_1.intersect(&fun_2).unwrap();
    test_eq_arg(arg, p(4.));
    test_eq_value(val, vol(5.));
}

#[test]
fn unaligned_2() {
    let fun_1 = make_function(vec![(0., 5.), (3., 2.), (6., 1.), (7., -2.), (8., -3.)]);
    let fun_2 = make_function(vec![(-2., 0.), (1., 2.), (3., 5.), (6., 6.)]);
    let (arg, val) = fun_1.intersect(&fun_2).unwrap();
    test_eq_arg(arg, p(1.8));
    test_eq_value(val, vol(3.2));
}

#[test]
fn node_1() {
    let fun_1 = make_function(vec![(0., 5.), (2., 3.), (3., 2.), (6., 1.), (7., -2.), (8., -3.)]);
    let fun_2 = make_function(vec![(-2., 0.), (1., 2.), (2., 3.), (3., 5.), (6., 6.)]);
    let (arg, val) = fun_1.intersect(&fun_2).unwrap();
    test_eq_arg(arg, p(2.));
    test_eq_value(val, vol(3.));
}

#[test]
fn empty_1() {
    let fun_1 = make_function(vec![(0., 4.)]);
    let fun_2 = make_function(vec![(1., 5.)]);
    assert_eq!(fun_1.intersect(&fun_2), None);
}

#[test]
fn empty_2() {
    let fun_1 = make_function(vec![(0., 4.)]);
    let fun_2 = make_function(vec![(1., 4.)]);
    let (_, val) = fun_1.intersect(&fun_2).unwrap();
    test_eq_value(val, vol(4.));
}

#[test]
fn outside_1() {
    let fun_1 = make_function(vec![(-1., 5.), (1., 1.), (3., 0.)]);
    let fun_2 = make_function(vec![(2., 2.), (4., 4.)]);
    let (arg, val) = fun_1.intersect(&fun_2).unwrap();
    test_eq_arg(arg, p(0.5));
    test_eq_value(val, vol(2.));
}

#[test]
fn outside_2() {
    let fun_1 = make_function(vec![(3., 1.), (5., -2.), (7., -3.)]);
    let fun_2 = make_function(vec![(0., -2.), (2., 2.)]);
    let (arg, val) = fun_1.intersect(&fun_2).unwrap();
    test_eq_arg(arg, p(1.5));
    test_eq_value(val, vol(1.));
}

#[test]
fn outside_3() {
    let fun_1 = make_function(vec![(0., 0.), (2., 2.), (4., 2.)]);
    let fun_2 = make_function(vec![(2., 4.), (4., 0.)]);
    let (arg, val) = fun_1.intersect(&fun_2).unwrap();
    test_eq_arg(arg, p(3.));
    test_eq_value(val, vol(2.));
}

#[test]
fn outside_4() {
    let fun_1 = make_function(vec![(-1., 5.), (1., 3.), (2., 0.)]);
    let fun_2 = make_function(vec![(0., -2.), (3., -1.), (4., 1.), (6., 2.)]);
    let (arg, val) = fun_1.intersect(&fun_2).unwrap();
    test_eq_arg(arg, p(3.5));
    test_eq_value(val, vol(0.));
}

#[test]
fn new_sorts_points_and_keeps_the_last_of_equal_arguments() {
    let fun = make_function(vec![(5., 1.), (1., 2.), (3., 9.), (1., 4.)]);
    let pts = fun.intervals();
    assert_eq!(pts, vec![(p(1.), vol(4.)), (p(3.), vol(9.)), (p(5.), vol(1.))]);
    assert_eq!(fun.min_arg(), p(1.));
    assert_eq!(fun.max_arg(), p(5.));
    assert_eq!(fun.min_value(), vol(4.));
    assert_eq!(fun.max_value(), vol(1.));
}

#[test]
fn zero_function_is_zero_everywhere() {
    let fun = Function::zero();
    assert_eq!(fun.value(p(-100.)), vol(0.));
    assert_eq!(fun.value(p(100.)), vol(0.));
    assert_eq!(fun.intervals(), vec![(p(0.), vol(0.))]);
}

#[test]
fn interpolation_rounds_toward_left_value() {
    let fun = Function::new(vec![(Price::new(0), Volume::new(0)), (Price::new(3), Volume::new(1))]);
    assert_eq!(fun.value(Price::new(1)), Volume::new(0));
    assert_eq!(fun.value(Price::new(2)), Volume::new(0));
    let down = Function::new(vec![(Price::new(0), Volume::new(1)), (Price::new(3), Volume::new(0))]);
    assert_eq!(down.value(Price::new(1)), Volume::new(1));
    assert_eq!(down.value(Price::new(2)), Volume::new(1));
}

#[test]
fn value_is_clamped_outside_the_breakpoints() {
    let fun = make_function(vec![(2., 7.), (4., 1.), (9., 3.)]);
    assert_eq!(fun.value(p(-50.)), vol(7.));
    assert_eq!(fun.value(p(2.)), vol(7.));
    assert_eq!(fun.value(p(9.)), vol(3.));
    assert_eq!(fun.value(p(1000.)), vol(3.));
}

#[test]
fn add_then_subtract_gives_back_the_values_at_all_breakpoints() {
    let f = make_function(vec![(0., 1.), (3., 4.), (7., 2.)]);
    let g = make_function(vec![(1., 5.), (2., 1.), (6., 3.), (9., 8.)]);
    let mut back = f.clone();
    back.add_function(&g);
    back.substract_function(&g);
    for x in [0., 1., 2., 3., 6., 7., 9.] {
        assert_eq!(back.value(p(x)), f.value(p(x)));
    }
    let args: Vec<Price> = back.intervals().into_iter().map(|(a, _)| a).collect();
    assert_eq!(args, vec![p(0.), p(1.), p(2.), p(3.), p(6.), p(7.), p(9.)]);
}

#[test]
fn shift_right_then_left_gives_back_the_function() {
    let f = make_function(vec![(0., 1.), (3.25, 4.), (7., 2.)]);
    let mut g = f.clone();
    g.shift_right(p(2.5));
    assert_eq!(g.min_arg(), p(2.5));
    g.shift_left(p(2.5));
    assert_eq!(g.intervals(), f.intervals());
}

#[test]
fn intersect_is_symmetric_when_left_values_differ() {
    let f = make_function(vec![(0., 9.), (2., 8.), (6., 2.), (7., 1.)]);
    let g = make_function(vec![(0., 3.), (3., 4.), (5., 6.), (7., 7.)]);
    assert_eq!(f.intersect(&g), g.intersect(&f));
    let h = make_function(vec![(-2., 0.), (1., 2.), (3., 5.), (6., 6.)]);
    assert_eq!(f.intersect(&h), h.intersect(&f));
}

#[test]
fn intersect_of_diverging_curves_is_none_both_ways() {
    let low = make_function(vec![(0., 1.), (5., 2.)]);
    let high = make_function(vec![(1., 3.), (4., 6.)]);
    assert_eq!(low.intersect(&high), None);
    assert_eq!(high.intersect(&low), None);
}

#[test]
fn negate_flips_every_value() {
    let mut f = make_function(vec![(1., 2.), (4., -3.)]);
    f.negate();
    assert_eq!(f.intervals(), vec![(p(1.), vol(-2.)), (p(4.), vol(3.))]);
}

#[test]
fn intersect_bracket_is_one_unit() {
    let f = Function::new(vec![(Price::new(0), Volume::new(0)), (Price::new(1000), Volume::new(1000))]);
    let g = Function::new(vec![(Price::new(0), Volume::new(1000)), (Price::new(1000), Volume::new(0))]);
    let (arg, val) = f.intersect(&g).unwrap();
    assert!((arg.units - 500).abs() <= 1);
    assert!((val.units - 500).abs() <= 1);
}

#[test]
fn intersect_is_symmetric_when_left_values_tie() {
    let zero = Function::zero();
    let ramp = make_function(vec![(0., 0.), (1., 1.)]);
    assert_eq!(zero.intersect(&ramp), ramp.intersect(&zero));
    assert_eq!(zero.intersect(&ramp), Some((p(0.), vol(0.))));
    let f = make_function(vec![(2., 5.), (4., 9.)]);
    let g = make_function(vec![(-1., 5.), (3., 1.)]);
    assert_eq!(f.intersect(&g), Some((p(-1.), vol(5.))));
    assert_eq!(g.intersect(&f), Some((p(-1.), vol(5.))));
}
