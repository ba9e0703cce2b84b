//! Demand and supply curves.
//!
//! Each wraps a function that may be absent: an absent curve is the zero
//! curve, and adding or subtracting an absent curve changes nothing, so no
//! breakpoint is added for it.
use vstd::prelude::*;
use crate::function::{
    combination_fits, crossing, eval, has_arg, points_map, is_difference, is_sum, negated, shift_fits, shifted, valid,
    Function,
};
use crate::market::MarketState;
use crate::types::{in_bound, Price, Volume};

verus! {

/// The breakpoints of a curve that may be absent; absent is the zero curve.
pub open spec fn points_or_zero(c: Option<Seq<(i64, i64)>>) -> Seq<(i64, i64)> {
    match c {
        Some(p) => p,
        None => seq![(0i64, 0i64)],
    }
}

/// A curve that may be absent is well formed.
pub open spec fn curve_valid(c: Option<Seq<(i64, i64)>>) -> bool {
    match c {
        Some(p) => valid(p),
        None => true,
    }
}

/// `r` is `f + g`, an absent operand leaving the other unchanged.
pub open spec fn curve_sum(r: Option<Seq<(i64, i64)>>, f: Option<Seq<(i64, i64)>>, g: Option<Seq<(i64, i64)>>) -> bool {
    match (f, g) {
        (_, None) => r == f,
        (None, Some(q)) => r == Some(q),
        (Some(p), Some(q)) => r.is_some() && is_sum(r.unwrap(), p, q),
    }
}

/// `r` is `f - g`; subtracting from an absent curve negates `g`.
pub open spec fn curve_difference(r: Option<Seq<(i64, i64)>>, f: Option<Seq<(i64, i64)>>, g: Option<Seq<(i64, i64)>>) -> bool {
    match (f, g) {
        (_, None) => r == f,
        (None, Some(q)) => r == Some(negated(q)),
        (Some(p), Some(q)) => r.is_some() && is_difference(r.unwrap(), p, q),
    }
}

/// The values of `f + sign * g` may be stored.
pub open spec fn curve_combination_fits(f: Option<Seq<(i64, i64)>>, g: Option<Seq<(i64, i64)>>, sign: int) -> bool {
    match (f, g) {
        (Some(p), Some(q)) => combination_fits(p, q, sign),
        _ => true,
    }
}

/// A curve moved right by `d`.
pub open spec fn curve_shifted(c: Option<Seq<(i64, i64)>>, d: int) -> Option<Seq<(i64, i64)>> {
    match c {
        Some(p) => Some(shifted(p, d)),
        None => None,
    }
}

/// Moving a curve by `d` keeps its arguments storable.
pub open spec fn curve_shift_fits(c: Option<Seq<(i64, i64)>>, d: int) -> bool {
    match c {
        Some(p) => shift_fits(p, d),
        None => true,
    }
}

/// The market state that a demand and a supply curve give: their crossing
/// when they cross; else under-supply when demand still exceeds supply at
/// the highest price, over-supply when supply exceeds demand at the lowest.
pub open spec fn clearing(d: Seq<(i64, i64)>, s: Seq<(i64, i64)>) -> MarketState {
    match crossing(d, s) {
        Some((p, q)) => MarketState::Equilibrium(
            Price { units: p as i64 },
            Volume { units: q as i64 },
            Volume { units: q as i64 },
        ),
        None => if d.last().1 > s.last().1 {
            MarketState::UnderSupply
        } else if d[0].1 < s[0].1 {
            MarketState::OverSupply
        } else {
            MarketState::Undefined
        },
    }
}

/// The spec view of a curve that may be absent.
pub open spec fn opt_view(c: Option<Function>) -> Option<Seq<(i64, i64)>> {
    match c {
        Some(f) => Some(f@),
        None => None,
    }
}

fn curve_value(c: &Option<Function>, arg: Price) -> (r: Volume)
    requires
        curve_valid(opt_view(*c)),
    ensures
        r.units == eval(points_or_zero(opt_view(*c)), arg.units as int),
{
    match c {
        Some(f) => f.value(arg),
        None => Volume::zero(),
    }
}

fn curve_or_zero(c: &Option<Function>) -> (r: Function)
    requires
        curve_valid(opt_view(*c)),
    ensures
        r.wf(),
        r@ == points_or_zero(opt_view(*c)),
{
    match c {
        Some(f) => f.clone(),
        None => Function::zero(),
    }
}

fn curve_add(c: &mut Option<Function>, other: &Option<Function>)
    requires
        curve_valid(opt_view(*old(c))),
        curve_valid(opt_view(*other)),
        curve_combination_fits(opt_view(*old(c)), opt_view(*other), 1),
    ensures
        curve_valid(opt_view(*final(c))),
        curve_sum(opt_view(*final(c)), opt_view(*old(c)), opt_view(*other)),
{
    match other {
        None => {},
        Some(g) => {
            match c {
                Some(f) => f.add_function(g),
                None => {
                    *c = Some(g.clone());
                },
            }
        },
    }
}

fn curve_substract(c: &mut Option<Function>, other: &Option<Function>)
    requires
        curve_valid(opt_view(*old(c))),
        curve_valid(opt_view(*other)),
        curve_combination_fits(opt_view(*old(c)), opt_view(*other), -1),
    ensures
        curve_valid(opt_view(*final(c))),
        curve_difference(opt_view(*final(c)), opt_view(*old(c)), opt_view(*other)),
{
    match other {
        None => {},
        Some(g) => {
            match c {
                Some(f) => f.substract_function(g),
                None => {
                    let mut n = g.clone();
                    n.negate();
                    *c = Some(n);
                },
            }
        },
    }
}

fn curve_shift_right(c: &mut Option<Function>, shift: Price)
    requires
        curve_valid(opt_view(*old(c))),
        curve_shift_fits(opt_view(*old(c)), shift.units as int),
    ensures
        curve_valid(opt_view(*final(c))),
        opt_view(*final(c)) == curve_shifted(opt_view(*old(c)), shift.units as int),
{
    match c {
        Some(f) => f.shift_right(shift),
        None => {},
    }
}

/// Aggregate demand: the volume buyers take at each price.
#[derive(Debug)]
pub struct Demand {
    function: Option<Function>,
}

impl View for Demand {
    type V = Option<Seq<(i64, i64)>>;

    closed spec fn view(&self) -> Option<Seq<(i64, i64)>> {
        opt_view(self.function)
    }
}

impl Clone for Demand {
    fn clone(&self) -> (r: Demand)
        ensures
            r@ == self@,
    {
        let function = match &self.function {
            Some(f) => Some(f.clone()),
            None => None,
        };
        Demand { function }
    }
}

impl Demand {
    pub open spec fn wf(&self) -> bool {
        curve_valid(self@)
    }

    /// The zero curve, held as no function at all.
    pub fn zero() -> (r: Demand)
        ensures
            r.wf(),
            r@.is_none(),
    {
        Demand { function: None }
    }

    /// The curve through the given points (see `Function::new`).
    pub fn new(values: Vec<(Price, Volume)>) -> (r: Demand)
        requires
            values.len() > 0,
            forall|i: int|
                0 <= i < values.len() ==> in_bound(#[trigger] values@[i].0.units as int) && in_bound(
                    values@[i].1.units as int,
                ),
        ensures
            r.wf(),
            r@.is_some(),
            forall|k: int| #[trigger] has_arg(r@.unwrap(), k) <==> points_map(values@).contains_key(k),
            forall|i: int|
                0 <= i < r@.unwrap().len() ==> points_map(values@)[#[trigger] r@.unwrap()[i].0 as int]
                    == r@.unwrap()[i].1,
    {
        Demand { function: Some(Function::new(values)) }
    }

    /// The underlying function; `None` for the zero curve.
    pub fn function(&self) -> (r: &Option<Function>)
        ensures
            opt_view(*r) == self@,
    {
        &self.function
    }

    /// The volume at price `arg`.
    pub fn value(&self, arg: Price) -> (r: Volume)
        requires
            self.wf(),
        ensures
            r.units == eval(points_or_zero(self@), arg.units as int),
    {
        curve_value(&self.function, arg)
    }

    /// Adds another curve pointwise.
    pub fn add_function(&mut self, fun: &Demand)
        requires
            old(self).wf(),
            fun.wf(),
            curve_combination_fits(old(self)@, fun@, 1),
        ensures
            final(self).wf(),
            curve_sum(final(self)@, old(self)@, fun@),
    {
        curve_add(&mut self.function, &fun.function);
    }

    /// Subtracts another curve pointwise.
    pub fn substract_function(&mut self, fun: &Demand)
        requires
            old(self).wf(),
            fun.wf(),
            curve_combination_fits(old(self)@, fun@, -1),
        ensures
            final(self).wf(),
            curve_difference(final(self)@, old(self)@, fun@),
    {
        curve_substract(&mut self.function, &fun.function);
    }

    /// Moves the curve right by `arg`.
    pub fn shift_right(&mut self, arg: Price)
        requires
            old(self).wf(),
            curve_shift_fits(old(self)@, arg.units as int),
        ensures
            final(self).wf(),
            final(self)@ == curve_shifted(old(self)@, arg.units as int),
    {
        curve_shift_right(&mut self.function, arg);
    }

    /// Moves the curve left by `arg`.
    pub fn shift_left(&mut self, arg: Price)
        requires
            old(self).wf(),
            in_bound(arg.units as int),
            curve_shift_fits(old(self)@, -arg.units),
        ensures
            final(self).wf(),
            final(self)@ == curve_shifted(old(self)@, -arg.units),
    {
        curve_shift_right(&mut self.function, Price::new(-arg.units));
    }
}

/// Aggregate supply: the volume sellers offer at each price.
#[derive(Debug)]
pub struct Supply {
    function: Option<Function>,
}

impl View for Supply {
    type V = Option<Seq<(i64, i64)>>;

    closed spec fn view(&self) -> Option<Seq<(i64, i64)>> {
        opt_view(self.function)
    }
}

impl Clone for Supply {
    fn clone(&self) -> (r: Supply)
        ensures
            r@ == self@,
    {
        let function = match &self.function {
            Some(f) => Some(f.clone()),
            None => None,
        };
        Supply { function }
    }
}

impl Supply {
    pub open spec fn wf(&self) -> bool {
        curve_valid(self@)
    }

    /// The zero curve, held as no function at all.
    pub fn zero() -> (r: Supply)
        ensures
            r.wf(),
            r@.is_none(),
    {
        Supply { function: None }
    }

    /// The curve through the given points (see `Function::new`).
    pub fn new(values: Vec<(Price, Volume)>) -> (r: Supply)
        requires
            values.len() > 0,
            forall|i: int|
                0 <= i < values.len() ==> in_bound(#[trigger] values@[i].0.units as int) && in_bound(
                    values@[i].1.units as int,
                ),
        ensures
            r.wf(),
            r@.is_some(),
            forall|k: int| #[trigger] has_arg(r@.unwrap(), k) <==> points_map(values@).contains_key(k),
            forall|i: int|
                0 <= i < r@.unwrap().len() ==> points_map(values@)[#[trigger] r@.unwrap()[i].0 as int]
                    == r@.unwrap()[i].1,
    {
        Supply { function: Some(Function::new(values)) }
    }

    /// The underlying function; `None` for the zero curve.
    pub fn function(&self) -> (r: &Option<Function>)
        ensures
            opt_view(*r) == self@,
    {
        &self.function
    }

    /// The volume at price `arg`.
    pub fn value(&self, arg: Price) -> (r: Volume)
        requires
            self.wf(),
        ensures
            r.units == eval(points_or_zero(self@), arg.units as int),
    {
        curve_value(&self.function, arg)
    }

    /// Adds another curve pointwise.
    pub fn add_function(&mut self, fun: &Supply)
        requires
            old(self).wf(),
            fun.wf(),
            curve_combination_fits(old(self)@, fun@, 1),
        ensures
            final(self).wf(),
            curve_sum(final(self)@, old(self)@, fun@),
    {
        curve_add(&mut self.function, &fun.function);
    }

    /// Subtracts another curve pointwise.
    pub fn substract_function(&mut self, fun: &Supply)
        requires
            old(self).wf(),
            fun.wf(),
            curve_combination_fits(old(self)@, fun@, -1),
        ensures
            final(self).wf(),
            curve_difference(final(self)@, old(self)@, fun@),
    {
        curve_substract(&mut self.function, &fun.function);
    }

    /// Moves the curve right by `arg`.
    pub fn shift_right(&mut self, arg: Price)
        requires
            old(self).wf(),
            curve_shift_fits(old(self)@, arg.units as int),
        ensures
            final(self).wf(),
            final(self)@ == curve_shifted(old(self)@, arg.units as int),
    {
        curve_shift_right(&mut self.function, arg);
    }

    /// Moves the curve left by `arg`.
    pub fn shift_left(&mut self, arg: Price)
        requires
            old(self).wf(),
            in_bound(arg.units as int),
            curve_shift_fits(old(self)@, -arg.units),
        ensures
            final(self).wf(),
            final(self)@ == curve_shifted(old(self)@, -arg.units),
    {
        curve_shift_right(&mut self.function, Price::new(-arg.units));
    }
}

impl Demand {
    /// The market state where this demand meets `supply`.
    pub fn intersect(&self, supply: &Supply) -> (r: MarketState)
        requires
            self.wf(),
            supply.wf(),
        ensures
            r == clearing(points_or_zero(self@), points_or_zero(supply@)),
    {
        let d = curve_or_zero(&self.function);
        let s = curve_or_zero(&supply.function);
        match d.intersect(&s) {
            Some((price, amount)) => MarketState::Equilibrium(price, amount, amount),
            None => {
                if d.max_value().units > s.max_value().units {
                    MarketState::UnderSupply
                } else if d.min_value().units < s.min_value().units {
                    MarketState::OverSupply
                } else {
                    MarketState::Undefined
                }
            },
        }
    }
}

impl Supply {
    /// The market state where `demand` meets this supply.
    pub fn intersect(&self, demand: &Demand) -> (r: MarketState)
        requires
            self.wf(),
            demand.wf(),
        ensures
            r == clearing(points_or_zero(demand@), points_or_zero(self@)),
    {
        demand.intersect(self)
    }

    /// The breakpoints in increasing order of argument; none for the zero
    /// curve.
    pub fn intervals(&self) -> (r: Vec<(Price, Volume)>)
        requires
            self.wf(),
        ensures
            self@.is_none() ==> r@.len() == 0,
            self@.is_some() ==> r@.len() == self@.unwrap().len(),
            self@.is_some() ==> forall|i: int|
                0 <= i < r@.len() ==> #[trigger] r@[i].0.units == self@.unwrap()[i].0 && r@[i].1.units
                    == self@.unwrap()[i].1,
    {
        match &self.function {
            Some(f) => f.intervals(),
            None => Vec::new(),
        }
    }

    /// Negates the curve: every value becomes its opposite.
    pub fn negate(&mut self)
        requires
            old(self).wf(),
        ensures
            final(self).wf(),
            final(self)@ == match old(self)@ {
                Some(p) => Some(negated(p)),
                None => None::<Seq<(i64, i64)>>,
            },
    {
        match &mut self.function {
            Some(f) => f.negate(),
            None => {},
        }
    }
}

} // verus!
