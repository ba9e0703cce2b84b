//! Piecewise-linear functions from price to volume.
//!
//! A function is a non-empty list of breakpoints `(argument, value)` with
//! strictly increasing arguments. Between two breakpoints the value is
//! interpolated linearly (rounded toward the left breakpoint's value);
//! outside the breakpoints it is clamped to the nearest boundary value.
use vstd::prelude::*;
use crate::types::{in_bound, Price, Volume, BOUND};

verus! {

/// Breakpoints strictly ordered by argument.
pub open spec fn sorted(pts: Seq<(i64, i64)>) -> bool {
    forall|i: int, j: int| 0 <= i < j < pts.len() ==> pts[i].0 < pts[j].0
}

/// Every argument and value of the breakpoints may be stored.
pub open spec fn in_range(pts: Seq<(i64, i64)>) -> bool {
    forall|i: int| 0 <= i < pts.len() ==> in_bound(pts[i].0 as int) && in_bound(pts[i].1 as int)
}

/// A breakpoint list that forms a function.
pub open spec fn valid(pts: Seq<(i64, i64)>) -> bool {
    pts.len() > 0 && sorted(pts) && in_range(pts)
}

/// `a` is the argument of one of the breakpoints.
pub open spec fn has_arg(pts: Seq<(i64, i64)>, a: int) -> bool {
    exists|i: int| 0 <= i < pts.len() && pts[i].0 == a
}

/// The value at `x` on the segment from `(la, lv)` to `(ua, uv)`, rounded
/// toward `lv`.
pub open spec fn interpolate(la: int, lv: int, ua: int, uv: int, x: int) -> int {
    if lv <= uv {
        lv + (uv - lv) * (x - la) / (ua - la)
    } else {
        lv - (lv - uv) * (x - la) / (ua - la)
    }
}

/// The value at `x`, looking at the breakpoints from index `i` on.
pub open spec fn eval_from(pts: Seq<(i64, i64)>, i: int, x: int) -> int
    decreases pts.len() - i,
{
    if i + 1 >= pts.len() || x <= pts[i].0 {
        pts[i].1 as int
    } else if x < pts[i + 1].0 {
        interpolate(pts[i].0 as int, pts[i].1 as int, pts[i + 1].0 as int, pts[i + 1].1 as int, x)
    } else {
        eval_from(pts, i + 1, x)
    }
}

/// The value of the function with breakpoints `pts` at `x`.
pub open spec fn eval(pts: Seq<(i64, i64)>, x: int) -> int {
    eval_from(pts, 0, x)
}

/// The map from argument to value that a list of points gives, a later
/// point replacing an earlier one with the same argument.
pub open spec fn points_map(s: Seq<(Price, Volume)>) -> Map<int, int>
    decreases s.len(),
{
    if s.len() == 0 {
        Map::empty()
    } else {
        points_map(s.drop_last()).insert(s.last().0.units as int, s.last().1.units as int)
    }
}

/// `f(x) + sign * g(x)`.
pub open spec fn combine_at(f: Seq<(i64, i64)>, g: Seq<(i64, i64)>, sign: int, x: int) -> int {
    eval(f, x) + sign * eval(g, x)
}

/// `r` holds the breakpoints of `f + sign * g` on the union of the
/// breakpoint arguments of `f` and `g`.
pub open spec fn is_combination(r: Seq<(i64, i64)>, f: Seq<(i64, i64)>, g: Seq<(i64, i64)>, sign: int) -> bool {
    &&& sorted(r)
    &&& forall|k: int| #[trigger] has_arg(r, k) <==> (has_arg(f, k) || has_arg(g, k))
    &&& forall|i: int| 0 <= i < r.len() ==> #[trigger] r[i].1 == combine_at(f, g, sign, r[i].0 as int)
}

/// `r` is the pointwise sum of `f` and `g`, on the union of their breakpoints.
pub open spec fn is_sum(r: Seq<(i64, i64)>, f: Seq<(i64, i64)>, g: Seq<(i64, i64)>) -> bool {
    is_combination(r, f, g, 1)
}

/// `r` is the pointwise difference `f - g`, on the union of their breakpoints.
pub open spec fn is_difference(r: Seq<(i64, i64)>, f: Seq<(i64, i64)>, g: Seq<(i64, i64)>) -> bool {
    is_combination(r, f, g, -1)
}

/// The values of `f + sign * g` at the breakpoints of either may be stored.
pub open spec fn combination_fits(f: Seq<(i64, i64)>, g: Seq<(i64, i64)>, sign: int) -> bool {
    forall|k: int| (has_arg(f, k) || has_arg(g, k)) ==> in_bound(#[trigger] combine_at(f, g, sign, k))
}

/// Every breakpoint moved right by `d`.
pub open spec fn shifted(f: Seq<(i64, i64)>, d: int) -> Seq<(i64, i64)> {
    f.map_values(|p: (i64, i64)| ((p.0 + d) as i64, p.1))
}

/// Moving every breakpoint by `d` keeps its argument storable.
pub open spec fn shift_fits(f: Seq<(i64, i64)>, d: int) -> bool {
    forall|i: int| 0 <= i < f.len() ==> in_bound(#[trigger] f[i].0 + d)
}

/// Every breakpoint value raised by `v`.
pub open spec fn raised(f: Seq<(i64, i64)>, v: int) -> Seq<(i64, i64)> {
    f.map_values(|p: (i64, i64)| (p.0, (p.1 + v) as i64))
}

/// Raising every breakpoint value by `v` keeps it storable.
pub open spec fn raise_fits(f: Seq<(i64, i64)>, v: int) -> bool {
    forall|i: int| 0 <= i < f.len() ==> in_bound(#[trigger] f[i].1 + v)
}

/// Every breakpoint value negated.
pub open spec fn negated(f: Seq<(i64, i64)>) -> Seq<(i64, i64)> {
    f.map_values(|p: (i64, i64)| (p.0, (-p.1) as i64))
}

/// One curve lies strictly above the other at both ends: they do not cross.
pub open spec fn diverge(f: Seq<(i64, i64)>, g: Seq<(i64, i64)>) -> bool {
    (f[0].1 > g[0].1 && f.last().1 > g.last().1) || (f[0].1 < g[0].1 && f.last().1 < g.last().1)
}

/// Bisection on `[lo, hi]` for the point where `low` stops lying below `high`,
/// down to a bracket of one unit; the left end of the last bracket.
pub open spec fn bisect(low: Seq<(i64, i64)>, high: Seq<(i64, i64)>, lo: int, hi: int) -> int
    decreases hi - lo,
{
    if hi - lo <= 1 {
        lo
    } else {
        let mid = lo + (hi - lo) / 2;
        if eval(low, mid) < eval(high, mid) {
            bisect(low, high, mid, hi)
        } else {
            bisect(low, high, lo, mid)
        }
    }
}

/// The curve of the two whose leftmost value is smaller (`g` on a tie).
pub open spec fn lower_curve(f: Seq<(i64, i64)>, g: Seq<(i64, i64)>) -> Seq<(i64, i64)> {
    if f[0].1 < g[0].1 { f } else { g }
}

/// The other curve of the two.
pub open spec fn upper_curve(f: Seq<(i64, i64)>, g: Seq<(i64, i64)>) -> Seq<(i64, i64)> {
    if f[0].1 < g[0].1 { g } else { f }
}

/// Where `f` and `g` cross: `None` when they diverge; the smaller first
/// argument and the shared value when both start at the same value; else the
/// argument that bisection over the span of both curves finds, with the lower
/// curve's value there.
pub open spec fn crossing(f: Seq<(i64, i64)>, g: Seq<(i64, i64)>) -> Option<(int, int)> {
    let lo = if f[0].0 <= g[0].0 { f[0].0 as int } else { g[0].0 as int };
    let hi = if f.last().0 >= g.last().0 { f.last().0 as int } else { g.last().0 as int };
    if diverge(f, g) {
        None
    } else if f[0].1 == g[0].1 {
        Some((lo, f[0].1 as int))
    } else {
        let a = bisect(lower_curve(f, g), upper_curve(f, g), lo, hi);
        Some((a, eval(lower_curve(f, g), a)))
    }
}

proof fn lemma_interpolate_between(la: int, lv: int, ua: int, uv: int, x: int)
    requires
        la <= x < ua,
    ensures
        lv <= uv ==> lv <= interpolate(la, lv, ua, uv, x) <= uv,
        uv < lv ==> uv <= interpolate(la, lv, ua, uv, x) <= lv,
{
    let d = if lv <= uv { uv - lv } else { lv - uv };
    let t = x - la;
    let w = ua - la;
    assert(0 <= d * t <= d * w) by (nonlinear_arith)
        requires
            d >= 0,
            0 <= t < w,
    ;
    vstd::arithmetic::div_mod::lemma_div_pos_is_pos(d * t, w);
    vstd::arithmetic::div_mod::lemma_div_is_ordered(d * t, d * w, w);
    vstd::arithmetic::div_mod::lemma_div_by_multiple(d, w);
    assert(d * w == w * d) by (nonlinear_arith);
}

/// Every interpolated value lies between the smallest and the largest
/// breakpoint value.
pub proof fn lemma_eval_between(pts: Seq<(i64, i64)>, i: int, x: int, lo: int, hi: int)
    requires
        valid(pts),
        0 <= i < pts.len(),
        forall|j: int| 0 <= j < pts.len() ==> lo <= #[trigger] pts[j].1 <= hi,
    ensures
        lo <= eval_from(pts, i, x) <= hi,
    decreases pts.len() - i,
{
    if i + 1 >= pts.len() || x <= pts[i].0 {
    } else if x < pts[i + 1].0 {
        lemma_interpolate_between(pts[i].0 as int, pts[i].1 as int, pts[i + 1].0 as int, pts[i + 1].1 as int, x);
    } else {
        lemma_eval_between(pts, i + 1, x, lo, hi);
    }
}

/// At a breakpoint the function takes the breakpoint's value.
pub proof fn lemma_eval_at_breakpoint(pts: Seq<(i64, i64)>, k: int)
    requires
        valid(pts),
        0 <= k < pts.len(),
    ensures
        eval(pts, pts[k].0 as int) == pts[k].1,
{
    lemma_eval_from_at_breakpoint(pts, 0, k);
}

proof fn lemma_eval_from_at_breakpoint(pts: Seq<(i64, i64)>, i: int, k: int)
    requires
        valid(pts),
        0 <= i <= k < pts.len(),
    ensures
        eval_from(pts, i, pts[k].0 as int) == pts[k].1,
    decreases k - i,
{
    if i < k {
        lemma_eval_from_at_breakpoint(pts, i + 1, k);
    }
}

proof fn lemma_eval_from_right(pts: Seq<(i64, i64)>, i: int, x: int)
    requires
        valid(pts),
        0 <= i < pts.len(),
        x >= pts.last().0,
    ensures
        eval_from(pts, i, x) == pts.last().1,
    decreases pts.len() - i,
{
    if i + 1 < pts.len() {
        lemma_eval_from_right(pts, i + 1, x);
    }
}

/// Outside its breakpoints a function is constant: below the first one it
/// takes the leftmost value, above the last one the rightmost value.
pub proof fn lemma_value_clamped(f: Function, x: int)
    requires
        f.wf(),
    ensures
        x <= f@[0].0 ==> eval(f@, x) == f@[0].1,
        x >= f@.last().0 ==> eval(f@, x) == f@.last().1,
{
    if x >= f@.last().0 {
        lemma_eval_from_right(f@, 0, x);
    }
}

proof fn lemma_eval_in_bound(pts: Seq<(i64, i64)>, x: int)
    requires
        valid(pts),
    ensures
        in_bound(eval(pts, x)),
{
    lemma_eval_between(pts, 0, x, -BOUND as int, BOUND as int);
}

fn interpolate_exec(la: i64, lv: i64, ua: i64, uv: i64, x: i64) -> (r: i64)
    requires
        la <= x < ua,
        in_bound(la as int),
        in_bound(ua as int),
        in_bound(lv as int),
        in_bound(uv as int),
    ensures
        r == interpolate(la as int, lv as int, ua as int, uv as int, x as int),
{
    proof {
        lemma_interpolate_between(la as int, lv as int, ua as int, uv as int, x as int);
    }
    let w: u128 = (ua as i128 - la as i128) as u128;
    let t: u128 = (x as i128 - la as i128) as u128;
    let d: u128 = if lv <= uv {
        (uv as i128 - lv as i128) as u128
    } else {
        (lv as i128 - uv as i128) as u128
    };
    assert(d * t <= 64_000_000_000_000_000_000_000_000_000_000_000_000) by (nonlinear_arith)
        requires
            d <= 8_000_000_000_000_000_000,
            t <= 8_000_000_000_000_000_000,
    ;
    let q: u128 = d * t / w;
    if lv <= uv {
        (lv as i128 + q as i128) as i64
    } else {
        (lv as i128 - q as i128) as i64
    }
}

/// Inserts the breakpoint `(a, v)`, replacing one with the same argument.
fn upsert(pts: &mut Vec<(i64, i64)>, a: i64, v: i64)
    requires
        sorted(old(pts)@),
        in_range(old(pts)@),
        in_bound(a as int),
        in_bound(v as int),
    ensures
        valid(final(pts)@),
        forall|k: int| #[trigger] has_arg(final(pts)@, k) <==> (k == a || has_arg(old(pts)@, k)),
        forall|i: int|
            0 <= i < final(pts)@.len() && #[trigger] final(pts)@[i].0 == a ==> final(pts)@[i].1 == v,
        forall|i: int|
            0 <= i < final(pts)@.len() && #[trigger] final(pts)@[i].0 != a ==> old(pts)@.contains(
                final(pts)@[i],
            ),
{
    let n = pts.len();
    let mut j: usize = 0;
    while j < n && pts[j].0 < a
        invariant
            n == pts@.len(),
            j <= n,
            forall|i: int| 0 <= i < j ==> #[trigger] pts@[i].0 < a,
        decreases n - j,
    {
        j = j + 1;
    }
    let ghost old_pts = pts@;
    if j < n && pts[j].0 == a {
        pts.set(j, (a, v));
        assert(pts@[j as int].0 == a);
        assert forall|k: int| #[trigger] has_arg(pts@, k) <==> (k == a || has_arg(old_pts, k)) by {
            if has_arg(old_pts, k) {
                let i = choose|i: int| 0 <= i < old_pts.len() && old_pts[i].0 == k;
                assert(pts@[i].0 == k);
            }
            if has_arg(pts@, k) && k != a {
                let i = choose|i: int| 0 <= i < pts@.len() && pts@[i].0 == k;
                assert(old_pts[i].0 == k);
            }
        }
        assert forall|i: int|
            0 <= i < pts@.len() && #[trigger] pts@[i].0 != a implies old_pts.contains(pts@[i]) by {
            assert(old_pts[i] == pts@[i]);
        }
    } else {
        pts.insert(j, (a, v));
        assert(pts@[j as int] == (a, v));
        assert forall|k: int| #[trigger] has_arg(pts@, k) <==> (k == a || has_arg(old_pts, k)) by {
            if has_arg(old_pts, k) {
                let i = choose|i: int| 0 <= i < old_pts.len() && old_pts[i].0 == k;
                if i < j {
                    assert(pts@[i].0 == k);
                } else {
                    assert(pts@[i + 1].0 == k);
                }
            }
            if has_arg(pts@, k) {
                let i = choose|i: int| 0 <= i < pts@.len() && pts@[i].0 == k;
                if i < j {
                    assert(old_pts[i].0 == k);
                } else if i > j {
                    assert(old_pts[i - 1].0 == k);
                }
            }
        }
        assert forall|i: int|
            0 <= i < pts@.len() && #[trigger] pts@[i].0 != a implies old_pts.contains(pts@[i]) by {
            if i < j {
                assert(old_pts[i] == pts@[i]);
            } else {
                assert(old_pts[i - 1] == pts@[i]);
            }
        }
    }
}

/// A piecewise-linear function from price to volume.
#[derive(Debug)]
pub struct Function {
    points: Vec<(i64, i64)>,
}

impl View for Function {
    type V = Seq<(i64, i64)>;

    closed spec fn view(&self) -> Seq<(i64, i64)> {
        self.points@
    }
}

impl Clone for Function {
    fn clone(&self) -> (r: Function)
        ensures
            r@ == self@,
    {
        Function { points: copy_points(&self.points) }
    }
}

fn copy_points(pts: &Vec<(i64, i64)>) -> (r: Vec<(i64, i64)>)
    ensures
        r@ == pts@,
{
    let mut r: Vec<(i64, i64)> = Vec::new();
    let mut i: usize = 0;
    while i < pts.len()
        invariant
            i <= pts@.len(),
            r@ == pts@.subrange(0, i as int),
        decreases pts@.len() - i,
    {
        r.push(pts[i]);
        i = i + 1;
        assert(r@ =~= pts@.subrange(0, i as int));
    }
    assert(r@ =~= pts@);
    r
}

impl Function {
    pub open spec fn wf(&self) -> bool {
        valid(self@)
    }

    /// The function that is zero everywhere: one breakpoint `(0, 0)`.
    pub fn zero() -> (r: Function)
        ensures
            r.wf(),
            r@ == seq![(0i64, 0i64)],
    {
        let mut points: Vec<(i64, i64)> = Vec::new();
        points.push((0, 0));
        Function { points }
    }

    /// The function through the given points, sorted by argument; of two
    /// points with the same argument the later one is kept.
    pub fn new(values: Vec<(Price, Volume)>) -> (r: Function)
        requires
            values.len() > 0,
            forall|i: int|
                0 <= i < values.len() ==> in_bound(#[trigger] values@[i].0.units as int) && in_bound(
                    values@[i].1.units as int,
                ),
        ensures
            r.wf(),
            forall|k: int| #[trigger] has_arg(r@, k) <==> points_map(values@).contains_key(k),
            forall|i: int|
                0 <= i < r@.len() ==> points_map(values@)[#[trigger] r@[i].0 as int] == r@[i].1,
    {
        let mut points: Vec<(i64, i64)> = Vec::new();
        let mut n: usize = 0;
        while n < values.len()
            invariant
                n <= values@.len(),
                sorted(points@),
                in_range(points@),
                n > 0 ==> points@.len() > 0,
                forall|i: int|
                    0 <= i < values.len() ==> in_bound(#[trigger] values@[i].0.units as int)
                        && in_bound(values@[i].1.units as int),
                forall|k: int|
                    has_arg(points@, k) <==> points_map(values@.subrange(0, n as int)).contains_key(k),
                forall|i: int|
                    0 <= i < points@.len() ==> points_map(values@.subrange(0, n as int))[#[trigger] points@[i].0 as int]
                        == points@[i].1,
            decreases values@.len() - n,
        {
            let (a, v) = values[n];
            let ghost before = points@;
            let ghost m = points_map(values@.subrange(0, n as int));
            upsert(&mut points, a.units, v.units);
            n = n + 1;
            assert(values@.subrange(0, n as int).drop_last() =~= values@.subrange(0, n as int - 1));
            let ghost m2 = points_map(values@.subrange(0, n as int));
            assert(m2 == m.insert(a.units as int, v.units as int));
            assert forall|i: int| 0 <= i < points@.len() implies m2[#[trigger] points@[i].0 as int] == points@[i].1 by {
                if points@[i].0 != a.units {
                    assert(before.contains(points@[i]));
                    let j = choose|j: int| 0 <= j < before.len() && before[j] == points@[i];
                    assert(m[before[j].0 as int] == before[j].1);
                }
            }
        }
        assert(values@.subrange(0, n as int) =~= values@);
        Function { points }
    }

    /// The value at `arg`: interpolated between breakpoints, clamped outside
    /// them.
    pub fn value(&self, arg: Price) -> (r: Volume)
        requires
            self.wf(),
        ensures
            r.units == eval(self@, arg.units as int),
            in_bound(r.units as int),
    {
        proof {
            lemma_eval_in_bound(self@, arg.units as int);
        }
        let x = arg.units;
        let n = self.points.len();
        let mut i: usize = 0;
        while i + 1 < n && self.points[i].0 < x && self.points[i + 1].0 <= x
            invariant
                n == self@.len(),
                0 <= i < n,
                self.wf(),
                eval(self@, x as int) == eval_from(self@, i as int, x as int),
            decreases n - i,
        {
            i = i + 1;
        }
        if i + 1 >= n || x <= self.points[i].0 {
            Volume::new(self.points[i].1)
        } else {
            let (la, lv) = self.points[i];
            let (ua, uv) = self.points[i + 1];
            Volume::new(interpolate_exec(la, lv, ua, uv, x))
        }
    }

    /// The breakpoints, in increasing order of argument.
    pub fn intervals(&self) -> (r: Vec<(Price, Volume)>)
        ensures
            r@.len() == self@.len(),
            forall|i: int|
                0 <= i < r@.len() ==> #[trigger] r@[i].0.units == self@[i].0 && r@[i].1.units == self@[i].1,
    {
        let mut r: Vec<(Price, Volume)> = Vec::new();
        let mut i: usize = 0;
        while i < self.points.len()
            invariant
                i <= self@.len(),
                r@.len() == i,
                forall|j: int|
                    0 <= j < i ==> #[trigger] r@[j].0.units == self@[j].0 && r@[j].1.units == self@[j].1,
            decreases self@.len() - i,
        {
            let (a, v) = self.points[i];
            r.push((Price::new(a), Volume::new(v)));
            i = i + 1;
        }
        r
    }

    /// The argument of the leftmost breakpoint.
    pub fn min_arg(&self) -> (r: Price)
        requires
            self.wf(),
        ensures
            r.units == self@[0].0,
    {
        Price::new(self.points[0].0)
    }

    /// The value of the leftmost breakpoint.
    pub fn min_value(&self) -> (r: Volume)
        requires
            self.wf(),
        ensures
            r.units == self@[0].1,
    {
        Volume::new(self.points[0].1)
    }

    /// The argument of the rightmost breakpoint.
    pub fn max_arg(&self) -> (r: Price)
        requires
            self.wf(),
        ensures
            r.units == self@.last().0,
    {
        Price::new(self.points[self.points.len() - 1].0)
    }

    /// The value of the rightmost breakpoint.
    pub fn max_value(&self) -> (r: Volume)
        requires
            self.wf(),
        ensures
            r.units == self@.last().1,
    {
        Volume::new(self.points[self.points.len() - 1].1)
    }
}

/// `k` is the argument of one of the first `n` breakpoints.
pub open spec fn has_arg_before(pts: Seq<(i64, i64)>, n: int, k: int) -> bool {
    exists|j: int| 0 <= j < n && pts[j].0 == k
}

/// Adds to `res` a breakpoint at each argument of `src`, valued
/// `f + sign * g` there.
fn merge_args(res: &mut Vec<(i64, i64)>, src: &Function, f: &Function, g: &Function, add: bool)
    requires
        src.wf(),
        f.wf(),
        g.wf(),
        sorted(old(res)@),
        in_range(old(res)@),
        forall|k: int| has_arg(src@, k) ==> (has_arg(f@, k) || has_arg(g@, k)),
        combination_fits(f@, g@, if add { 1 } else { -1 }),
        forall|i: int|
            0 <= i < old(res)@.len() ==> #[trigger] old(res)@[i].1 == combine_at(
                f@,
                g@,
                if add { 1 } else { -1 },
                old(res)@[i].0 as int,
            ),
    ensures
        sorted(final(res)@),
        in_range(final(res)@),
        final(res)@.len() > 0,
        forall|k: int| #[trigger] has_arg(final(res)@, k) <==> (has_arg(old(res)@, k) || has_arg(src@, k)),
        forall|i: int|
            0 <= i < final(res)@.len() ==> #[trigger] final(res)@[i].1 == combine_at(
                f@,
                g@,
                if add { 1 } else { -1 },
                final(res)@[i].0 as int,
            ),
{
    let ghost sign: int = if add { 1 } else { -1 };
    let ghost start = res@;
    let n = src.points.len();
    let mut i: usize = 0;
    while i < n
        invariant
            n == src@.len(),
            i <= n,
            src.wf(),
            f.wf(),
            g.wf(),
            sign == if add { 1int } else { -1int },
            sorted(res@),
            in_range(res@),
            i > 0 ==> res@.len() > 0,
            forall|k: int| has_arg(src@, k) ==> (has_arg(f@, k) || has_arg(g@, k)),
            combination_fits(f@, g@, sign),
            forall|k: int| #[trigger] has_arg(res@, k) <==> (has_arg(start, k) || has_arg_before(src@, i as int, k)),
            forall|j: int|
                0 <= j < res@.len() ==> #[trigger] res@[j].1 == combine_at(f@, g@, sign, res@[j].0 as int),
        decreases n - i,
    {
        let a = src.points[i].0;
        assert(has_arg(src@, a as int));
        let fv = f.value(Price::new(a)).units;
        let gv = g.value(Price::new(a)).units;
        let v = if add { fv + gv } else { fv - gv };
        assert(v == combine_at(f@, g@, sign, a as int));
        let ghost before = res@;
        upsert(res, a, v);
        i = i + 1;
        assert forall|k: int|
            has_arg(res@, k) <==> (has_arg(start, k) || has_arg_before(src@, i as int, k)) by {
            if k == a {
                assert(src@[i - 1].0 == k);
            }
            if has_arg_before(src@, i as int, k) {
                let j = choose|j: int| 0 <= j < i && src@[j].0 == k;
                if j < i - 1 {
                    assert(has_arg_before(src@, i - 1, k));
                }
            }
        }
        assert forall|j: int|
            0 <= j < res@.len() implies #[trigger] res@[j].1 == combine_at(f@, g@, sign, res@[j].0 as int) by {
            if res@[j].0 != a {
                assert(before.contains(res@[j]));
                let m = choose|m: int| 0 <= m < before.len() && before[m] == res@[j];
                assert(before[m].1 == combine_at(f@, g@, sign, before[m].0 as int));
            }
        }
    }
    assert forall|k: int| has_arg(src@, k) implies has_arg_before(src@, n as int, k) by {
        let j = choose|j: int| 0 <= j < src@.len() && src@[j].0 == k;
        assert(src@[j].0 == k);
    }
}

impl Function {
    /// `self + sign * other` on the union of both breakpoint sets.
    fn combined(&self, other: &Function, add: bool) -> (r: Function)
        requires
            self.wf(),
            other.wf(),
            combination_fits(self@, other@, if add { 1 } else { -1 }),
        ensures
            r.wf(),
            is_combination(r@, self@, other@, if add { 1 } else { -1 }),
    {
        let mut res: Vec<(i64, i64)> = Vec::new();
        assert(forall|k: int| !has_arg(res@, k));
        merge_args(&mut res, self, self, other, add);
        let ghost first = res@;
        merge_args(&mut res, other, self, other, add);
        assert(forall|k: int| #[trigger] has_arg(first, k) <==> has_arg(self@, k));
        assert(forall|k: int| #[trigger] has_arg(res@, k) <==> (has_arg(first, k) || has_arg(other@, k)));
        Function { points: res }
    }

    /// Adds `function` pointwise; the breakpoints of the sum are those of
    /// both operands.
    pub fn add_function(&mut self, function: &Function)
        requires
            old(self).wf(),
            function.wf(),
            combination_fits(old(self)@, function@, 1),
        ensures
            final(self).wf(),
            is_sum(final(self)@, old(self)@, function@),
    {
        *self = self.combined(function, true);
    }

    /// Subtracts `function` pointwise; the breakpoints of the difference are
    /// those of both operands.
    pub fn substract_function(&mut self, function: &Function)
        requires
            old(self).wf(),
            function.wf(),
            combination_fits(old(self)@, function@, -1),
        ensures
            final(self).wf(),
            is_difference(final(self)@, old(self)@, function@),
    {
        *self = self.combined(function, false);
    }

    /// Moves every breakpoint right by `shift`; values are unchanged.
    pub fn shift_right(&mut self, shift: Price)
        requires
            old(self).wf(),
            shift_fits(old(self)@, shift.units as int),
        ensures
            final(self).wf(),
            final(self)@ == shifted(old(self)@, shift.units as int),
    {
        let ghost start = self@;
        let d = shift.units;
        let n = self.points.len();
        let mut i: usize = 0;
        while i < n
            invariant
                n == self@.len(),
                n == start.len(),
                i <= n,
                shift_fits(start, d as int),
                forall|j: int| 0 <= j < i ==> #[trigger] self@[j] == ((start[j].0 + d) as i64, start[j].1),
                forall|j: int| i <= j < n ==> #[trigger] self@[j] == start[j],
            decreases n - i,
        {
            let (a, v) = self.points[i];
            self.points.set(i, (a + d, v));
            i = i + 1;
        }
        assert(self@ =~= shifted(start, d as int));
    }

    /// Moves every breakpoint left by `shift`; values are unchanged.
    pub fn shift_left(&mut self, shift: Price)
        requires
            old(self).wf(),
            in_bound(shift.units as int),
            shift_fits(old(self)@, -shift.units),
        ensures
            final(self).wf(),
            final(self)@ == shifted(old(self)@, -shift.units),
    {
        self.shift_right(Price::new(-shift.units));
    }

    /// Raises every value by `value`.
    pub fn add_value(&mut self, value: Volume)
        requires
            old(self).wf(),
            raise_fits(old(self)@, value.units as int),
        ensures
            final(self).wf(),
            final(self)@ == raised(old(self)@, value.units as int),
    {
        let ghost start = self@;
        let d = value.units;
        let n = self.points.len();
        let mut i: usize = 0;
        while i < n
            invariant
                n == self@.len(),
                n == start.len(),
                i <= n,
                raise_fits(start, d as int),
                forall|j: int| 0 <= j < i ==> #[trigger] self@[j] == (start[j].0, (start[j].1 + d) as i64),
                forall|j: int| i <= j < n ==> #[trigger] self@[j] == start[j],
            decreases n - i,
        {
            let (a, v) = self.points[i];
            self.points.set(i, (a, v + d));
            i = i + 1;
        }
        assert(self@ =~= raised(start, d as int));
    }

    /// Lowers every value by `value`.
    pub fn substract_value(&mut self, value: Volume)
        requires
            old(self).wf(),
            in_bound(value.units as int),
            raise_fits(old(self)@, -value.units),
        ensures
            final(self).wf(),
            final(self)@ == raised(old(self)@, -value.units),
    {
        self.add_value(Volume::new(-value.units));
    }

    /// The function `-self`: every value negated, arguments kept.
    pub fn negate(&mut self)
        requires
            old(self).wf(),
        ensures
            final(self).wf(),
            final(self)@ == negated(old(self)@),
    {
        let ghost start = self@;
        let n = self.points.len();
        let mut i: usize = 0;
        while i < n
            invariant
                n == self@.len(),
                n == start.len(),
                i <= n,
                valid(start),
                forall|j: int| 0 <= j < i ==> #[trigger] self@[j] == (start[j].0, (-start[j].1) as i64),
                forall|j: int| i <= j < n ==> #[trigger] self@[j] == start[j],
            decreases n - i,
        {
            let (a, v) = self.points[i];
            self.points.set(i, (a, -v));
            i = i + 1;
        }
        assert(self@ =~= negated(start));
    }

    /// Where `self` and `other` cross, found by bisection to within one unit
    /// of price; `None` when one lies strictly above the other at both ends.
    pub fn intersect(&self, other: &Function) -> (r: Option<(Price, Volume)>)
        requires
            self.wf(),
            other.wf(),
        ensures
            r.is_none() <==> crossing(self@, other@).is_none(),
            r.is_some() ==> crossing(self@, other@) == Some(
                (r.unwrap().0.units as int, r.unwrap().1.units as int),
            ),
    {
        let n = self.points.len();
        let m = other.points.len();
        let (fa0, fv0) = self.points[0];
        let (fan, fvn) = self.points[n - 1];
        let (ga0, gv0) = other.points[0];
        let (gan, gvn) = other.points[m - 1];
        if fv0 > gv0 && fvn > gvn {
            return None;
        }
        if fv0 < gv0 && fvn < gvn {
            return None;
        }
        let lo0: i64 = if fa0 <= ga0 { fa0 } else { ga0 };
        if fv0 == gv0 {
            return Some((Price::new(lo0), Volume::new(fv0)));
        }
        let (low, high) = if fv0 < gv0 {
            (self, other)
        } else {
            (other, self)
        };
        let mut lo: i64 = if fa0 <= ga0 { fa0 } else { ga0 };
        let mut hi: i64 = if fan >= gan { fan } else { gan };
        let ghost target = bisect(low@, high@, lo as int, hi as int);
        while hi - lo > 1
            invariant
                low.wf(),
                high.wf(),
                lo <= hi,
                in_bound(lo as int),
                in_bound(hi as int),
                bisect(low@, high@, lo as int, hi as int) == target,
            decreases hi - lo,
        {
            let mid = lo + (hi - lo) / 2;
            if low.value(Price::new(mid)).units < high.value(Price::new(mid)).units {
                lo = mid;
            } else {
                hi = mid;
            }
        }
        Some((Price::new(lo), low.value(Price::new(lo))))
    }
}

/// Adding `g` to `f` and then subtracting `g` again gives back the values of
/// `f` at every breakpoint of `f` or `g`.
pub proof fn lemma_add_subtract_round_trip(f: Function, g: Function, sum: Function, back: Function)
    requires
        f.wf(),
        g.wf(),
        sum.wf(),
        back.wf(),
        is_sum(sum@, f@, g@),
        is_difference(back@, sum@, g@),
    ensures
        forall|x: int| (has_arg(f@, x) || has_arg(g@, x)) ==> eval(back@, x) == eval(f@, x),
{
    assert forall|x: int| (has_arg(f@, x) || has_arg(g@, x)) implies eval(back@, x) == eval(f@, x) by {
        assert(has_arg(sum@, x));
        assert(has_arg(back@, x));
        let i = choose|i: int| 0 <= i < back@.len() && back@[i].0 == x;
        let j = choose|j: int| 0 <= j < sum@.len() && sum@[j].0 == x;
        lemma_eval_at_breakpoint(back@, i);
        lemma_eval_at_breakpoint(sum@, j);
    }
}

/// Shifting right by `d` and then left by `d` gives back the same breakpoints.
pub proof fn lemma_shift_round_trip(f: Function, d: int)
    requires
        f.wf(),
        shift_fits(f@, d),
    ensures
        shifted(shifted(f@, d), -d) == f@,
{
    assert(shifted(shifted(f@, d), -d) =~= f@);
}

/// The crossing of `f` with `g` is the crossing of `g` with `f`.
pub proof fn lemma_intersect_symmetric(f: Function, g: Function)
    requires
        f.wf(),
        g.wf(),
    ensures
        crossing(f@, g@) == crossing(g@, f@),
{
    if f@[0].1 != g@[0].1 {
        assert(lower_curve(f@, g@) == lower_curve(g@, f@));
        assert(upper_curve(f@, g@) == upper_curve(g@, f@));
    }
}

/// `b` is the right end `end`, or `low` does not lie below `high` at `b`.
pub open spec fn stops_below(low: Seq<(i64, i64)>, high: Seq<(i64, i64)>, b: int, end: int) -> bool {
    b == end || !(eval(low, b) < eval(high, b))
}

/// Bisection brackets the crossing to one unit: its result `a` is the left
/// end or a point where `low` lies below `high`, and `a` or `a + 1` is the
/// right end or a point where `low` no longer lies below `high`.
pub proof fn lemma_bisect_bracket(low: Seq<(i64, i64)>, high: Seq<(i64, i64)>, lo: int, hi: int)
    requires
        lo <= hi,
    ensures
        lo <= bisect(low, high, lo, hi) <= hi,
        bisect(low, high, lo, hi) == lo || eval(low, bisect(low, high, lo, hi)) < eval(
            high,
            bisect(low, high, lo, hi),
        ),
        exists|b: int|
            bisect(low, high, lo, hi) <= b <= bisect(low, high, lo, hi) + 1 && b <= hi && #[trigger] stops_below(
                low,
                high,
                b,
                hi,
            ),
{
    lemma_bisect_bracket_from(low, high, lo, hi, lo, hi);
}

proof fn lemma_bisect_bracket_from(
    low: Seq<(i64, i64)>,
    high: Seq<(i64, i64)>,
    lo0: int,
    hi0: int,
    lo: int,
    hi: int,
)
    requires
        lo0 <= lo <= hi <= hi0,
        lo == lo0 || eval(low, lo) < eval(high, lo),
        hi == hi0 || !(eval(low, hi) < eval(high, hi)),
    ensures
        lo <= bisect(low, high, lo, hi) <= hi,
        bisect(low, high, lo, hi) == lo0 || eval(low, bisect(low, high, lo, hi)) < eval(
            high,
            bisect(low, high, lo, hi),
        ),
        exists|b: int|
            bisect(low, high, lo, hi) <= b <= bisect(low, high, lo, hi) + 1 && b <= hi0 && #[trigger] stops_below(
                low,
                high,
                b,
                hi0,
            ),
    decreases hi - lo,
{
    if hi - lo <= 1 {
        assert(stops_below(low, high, hi, hi0));
    } else {
        let mid = lo + (hi - lo) / 2;
        if eval(low, mid) < eval(high, mid) {
            lemma_bisect_bracket_from(low, high, lo0, hi0, mid, hi);
        } else {
            lemma_bisect_bracket_from(low, high, lo0, hi0, lo, mid);
        }
    }
}

} // verus!
