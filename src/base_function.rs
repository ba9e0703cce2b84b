//! Step functions over consecutive integer arguments.
//!
//! `values[k]` is the value on `[arg_min + k, arg_min + k + 1)`; below
//! `arg_min` the function takes the first value, from `arg_max` on the last.
use vstd::prelude::*;

verus! {

/// A step function: the value on each unit interval from `arg_min` on.
#[derive(Clone, Debug)]
pub struct FunctionVec {
    pub arg_min: i32,
    pub values: Vec<i32>,
}

/// The value at `arg` of the step function starting at `lo` with `vals`.
pub open spec fn step_value(lo: int, vals: Seq<i32>, arg: int) -> int {
    if arg < lo {
        vals[0] as int
    } else if arg >= lo + vals.len() {
        vals.last() as int
    } else {
        vals[arg - lo] as int
    }
}

/// Whether a value fits an `i32`.
pub open spec fn fits_i32(x: int) -> bool {
    i32::MIN <= x <= i32::MAX
}

impl FunctionVec {
    /// The function has a value and its end argument fits an `i32`.
    pub open spec fn wf(&self) -> bool {
        self.values@.len() > 0 && self.values@.len() <= i32::MAX && fits_i32(self.arg_min + self.values@.len())
    }

    pub open spec fn value_spec(&self, arg: int) -> int {
        step_value(self.arg_min as int, self.values@, arg)
    }

    pub fn new(arg_min: i32, values: Vec<i32>) -> (r: FunctionVec)
        ensures
            r.arg_min == arg_min,
            r.values@ == values@,
    {
        FunctionVec { arg_min, values }
    }

    pub fn arg_min(&self) -> (r: i32)
        ensures
            r == self.arg_min,
    {
        self.arg_min
    }

    /// The first argument past the last interval.
    pub fn arg_max(&self) -> (r: i32)
        requires
            self.values@.len() <= i32::MAX,
            fits_i32(self.arg_min + self.values@.len()),
        ensures
            r == self.arg_min + self.values@.len(),
    {
        self.arg_min + (self.values.len() as i32)
    }

    pub fn value_at(&self, arg: i32) -> (r: i32)
        requires
            self.wf(),
        ensures
            r == self.value_spec(arg as int),
    {
        if arg < self.arg_min() {
            self.values[0]
        } else if arg >= self.arg_max() {
            self.values[self.values.len() - 1]
        } else {
            self.values[(arg - self.arg_min()) as usize]
        }
    }

    /// The intervals `(i, i + 1, value)` from the smaller of the two left
    /// ends to the larger of the two right ends.
    pub fn value_at_interval(&self, arg_min: i32, arg_max: i32) -> (r: Vec<(i32, i32, i32)>)
        requires
            self.wf(),
        ensures
            ({
                let lo = if arg_min <= self.arg_min { arg_min as int } else { self.arg_min as int };
                let hi = if arg_max >= self.arg_min + self.values@.len() {
                    arg_max as int
                } else {
                    self.arg_min + self.values@.len()
                };
                &&& r@.len() == if hi > lo { hi - lo } else { 0 }
                &&& forall|k: int|
                    0 <= k < r@.len() ==> #[trigger] r@[k] == ((lo + k) as i32, (lo + k + 1) as i32, self.value_spec(
                        lo + k,
                    ) as i32)
            }),
    {
        let mut res: Vec<(i32, i32, i32)> = Vec::new();
        let lo = if arg_min <= self.arg_min() { arg_min } else { self.arg_min() };
        let hi = if arg_max >= self.arg_max() { arg_max } else { self.arg_max() };
        let mut i = lo;
        while i < hi
            invariant
                self.wf(),
                lo <= i || hi <= lo,
                i <= hi || hi <= lo,
                i == lo || lo < hi,
                res@.len() == if i > lo { i - lo } else { 0 },
                forall|k: int|
                    0 <= k < res@.len() ==> #[trigger] res@[k] == ((lo + k) as i32, (lo + k + 1) as i32, self.value_spec(
                        lo + k,
                    ) as i32),
            decreases hi - i,
        {
            res.push((i, i + 1, self.value_at(i)));
            i = i + 1;
        }
        res
    }

    /// Raises every value by `val`.
    pub fn add_value(&mut self, val: i32)
        requires
            forall|k: int| 0 <= k < old(self).values@.len() ==> fits_i32(#[trigger] old(self).values@[k] + val),
        ensures
            final(self).arg_min == old(self).arg_min,
            final(self).values@.len() == old(self).values@.len(),
            forall|k: int|
                0 <= k < final(self).values@.len() ==> #[trigger] final(self).values@[k] == old(self).values@[k] + val,
    {
        let ghost start = self.values@;
        let n = self.values.len();
        let mut k: usize = 0;
        while k < n
            invariant
                n == start.len(),
                self.values@.len() == n,
                self.arg_min == old(self).arg_min,
                k <= n,
                forall|j: int| 0 <= j < n ==> fits_i32(#[trigger] start[j] + val),
                forall|j: int| 0 <= j < k ==> #[trigger] self.values@[j] == start[j] + val,
                forall|j: int| k <= j < n ==> #[trigger] self.values@[j] == start[j],
            decreases n - k,
        {
            let v = self.values[k] + val;
            self.values.set(k, v);
            k = k + 1;
        }
    }

    /// Adds `fun` pointwise over the union of both argument ranges.
    pub fn add_function(&mut self, fun: FunctionVec)
        requires
            old(self).wf(),
            fun.wf(),
            forall|x: int| #[trigger] fits_i32(old(self).value_spec(x) + fun.value_spec(x)),
        ensures
            ({
                let lo = if old(self).arg_min <= fun.arg_min { old(self).arg_min } else { fun.arg_min };
                let hi_s = old(self).arg_min + old(self).values@.len();
                let hi_f = fun.arg_min + fun.values@.len();
                let hi = if hi_s >= hi_f { hi_s } else { hi_f };
                &&& final(self).arg_min == lo
                &&& final(self).values@.len() == hi - lo
                &&& forall|k: int|
                    0 <= k < final(self).values@.len() ==> #[trigger] final(self).values@[k] == old(self).value_spec(lo + k)
                        + fun.value_spec(lo + k)
            }),
    {
        let lo = if self.arg_min() <= fun.arg_min() { self.arg_min() } else { fun.arg_min() };
        let hi = if self.arg_max() >= fun.arg_max() { self.arg_max() } else { fun.arg_max() };
        let mut new_values: Vec<i32> = Vec::new();
        let mut i = lo;
        while i < hi
            invariant
                self.wf(),
                fun.wf(),
                forall|x: int| #[trigger] fits_i32(self.value_spec(x) + fun.value_spec(x)),
                lo <= i <= hi,
                new_values@.len() == i - lo,
                forall|k: int|
                    0 <= k < new_values@.len() ==> #[trigger] new_values@[k] == self.value_spec(lo + k) + fun.value_spec(
                        lo + k,
                    ),
            decreases hi - i,
        {
            assert(fits_i32(self.value_spec(i as int) + fun.value_spec(i as int)));
            new_values.push(self.value_at(i) + fun.value_at(i));
            i = i + 1;
        }
        self.arg_min = lo;
        self.values = new_values;
    }

    /// Moves the function by `val` along the argument axis.
    pub fn shift(&mut self, val: i32)
        requires
            fits_i32(old(self).arg_min + val),
        ensures
            final(self).arg_min == old(self).arg_min + val,
            final(self).values@ == old(self).values@,
    {
        self.arg_min = self.arg_min + val;
    }
}

} // verus!
