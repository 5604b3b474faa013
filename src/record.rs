//! Running statistics of the values seen for one key.
use vstd::prelude::*;

verus! {

/// Count, sum, minimum and maximum of the values folded in so far, in tenths.
#[derive(Clone, Copy, Debug, PartialEq, Eq, Structural)]
pub struct Record {
    pub count: u64,
    pub min: i32,
    pub max: i32,
    pub sum: i128,
}

/// The smaller of two values.
pub open spec fn min_of(a: int, b: int) -> int {
    if a <= b {
        a
    } else {
        b
    }
}

/// The larger of two values.
pub open spec fn max_of(a: int, b: int) -> int {
    if a >= b {
        a
    } else {
        b
    }
}

/// Integer division rounded toward zero.
pub open spec fn trunc_div(a: int, b: int) -> int {
    if a >= 0 {
        a / b
    } else {
        -((-a) / b)
    }
}

impl Record {
    /// The statistics before any value: the identity of `add`.
    pub open spec fn empty() -> Record {
        Record { count: 0, min: i32::MAX, max: i32::MIN, sum: 0 }
    }

    /// Whether `add(value)` stays within the counters' ranges.
    pub open spec fn can_add(self, value: int) -> bool {
        self.count < u64::MAX && i128::MIN <= self.sum + value <= i128::MAX
    }

    /// The statistics with one more value folded in.
    pub open spec fn added(self, value: i32) -> Record {
        Record {
            count: (self.count + 1) as u64,
            min: min_of(self.min as int, value as int) as i32,
            max: max_of(self.max as int, value as int) as i32,
            sum: (self.sum + value) as i128,
        }
    }

    /// Statistics of at least one value: the sum lies between `count`
    /// copies of the minimum and of the maximum.
    pub open spec fn is_populated(self) -> bool {
        &&& self.count > 0
        &&& self.min <= self.max
        &&& self.min * self.count <= self.sum <= self.max * self.count
    }

    /// The mean, rounded toward zero.
    pub open spec fn mean(self) -> int {
        trunc_div(self.sum as int, self.count as int)
    }

    /// Statistics of no values yet: zero count and sum, the minimum at the
    /// largest value and the maximum at the smallest.
    pub fn default() -> (r: Record)
        ensures
            r == Record::empty(),
    {
        Record { count: 0, min: i32::MAX, max: i32::MIN, sum: 0 }
    }

    /// Folds one value in.
    pub fn add(&mut self, value: i32)
        requires
            old(self).can_add(value as int),
        ensures
            *final(self) == old(self).added(value),
    {
        self.count = self.count + 1;
        self.sum = self.sum + value as i128;
        if value < self.min {
            self.min = value;
        }
        if value > self.max {
            self.max = value;
        }
    }

    /// The mean of the values folded in, rounded toward zero.
    pub fn avg(&self) -> (r: i32)
        requires
            self.is_populated(),
        ensures
            r == self.mean(),
            self.min <= r <= self.max,
    {
        proof {
            lemma_mean_within(*self);
        }
        let c = self.count as i128;
        proof {
            let (lo, n) = (self.min as int, self.count as int);
            assert(lo * n >= -0x8000_0000 * 0x1_0000_0000_0000_0000) by (nonlinear_arith)
                requires
                    lo >= -0x8000_0000,
                    0 < n <= 0xffff_ffff_ffff_ffff,
            {
                assert(lo * n >= -0x8000_0000 * n);
            }
        }
        if self.sum >= 0 {
            (self.sum / c) as i32
        } else {
            -((-self.sum) / c) as i32
        }
    }
}

/// The mean of populated statistics lies between their minimum and maximum.
pub proof fn lemma_mean_within(r: Record)
    requires
        r.is_populated(),
    ensures
        r.min <= r.mean() <= r.max,
{
    let c = r.count as int;
    let s = r.sum as int;
    let lo = r.min as int;
    let hi = r.max as int;
    if s >= 0 {
        assert(lo <= s / c <= hi) by (nonlinear_arith)
            requires
                c > 0,
                s >= 0,
                lo * c <= s <= hi * c,
        {
            assert(s / c * c <= s);
            assert(s < (s / c + 1) * c);
        }
    } else {
        assert(lo <= -((-s) / c) <= hi) by (nonlinear_arith)
            requires
                c > 0,
                s < 0,
                lo * c <= s <= hi * c,
        {
            assert((-s) / c * c <= -s);
            assert(-s < ((-s) / c + 1) * c);
        }
    }
}

/// Folding a value into empty or populated statistics gives populated ones.
pub proof fn lemma_added_populated(r: Record, value: i32)
    requires
        r == Record::empty() || r.is_populated(),
        r.can_add(value as int),
    ensures
        r.added(value).is_populated(),
{
    let n = r.added(value);
    if r.count == 0 {
        assert(n.min == value && n.max == value && n.sum == value && n.count == 1);
    } else {
        let c = r.count as int;
        let (lo, hi, v, s) = (r.min as int, r.max as int, value as int, r.sum as int);
        let (lo2, hi2) = (min_of(lo, v), max_of(hi, v));
        assert(lo2 * (c + 1) <= s + v <= hi2 * (c + 1)) by (nonlinear_arith)
            requires
                c > 0,
                lo * c <= s <= hi * c,
                lo2 <= lo,
                lo2 <= v,
                hi <= hi2,
                v <= hi2,
        {
            assert(lo2 * c <= lo * c);
            assert(hi * c <= hi2 * c);
        }
    }
}

} // verus!
