use vstd::prelude::*;

verus! {

/// Running extrema of a series of `(value, day of year)` samples. Each
/// extreme keeps the day on which it was first seen.
#[derive(Debug, Clone, Copy)]
pub struct SineFitter {
    /// Whether any sample has been seen.
    pub seen: bool,
    pub min: i64,
    pub min_day: u64,
    pub max: i64,
    pub max_day: u64,
}

/// Parameters of the sinusoid `amplitude * sin(w * day - phase) + midline`,
/// where `w = 2π * harmonic / 365` radians per day and the phase shift is
/// `shift_num / shift_den` days. Amplitude and midline are in microseconds.
#[derive(Debug, Clone, Copy)]
pub struct SineFitment {
    /// Cycles per year of the sinusoid.
    pub harmonic: u32,
    pub amplitude: i64,
    pub shift_num: i64,
    pub shift_den: u64,
    pub midline: i64,
}

/// The tracker before any sample.
pub open spec fn initial() -> SineFitter {
    SineFitter { seen: false, min: 0, min_day: 0, max: 0, max_day: 0 }
}

impl SineFitter {
    /// Before any sample every field is zero; after one the minimum is no
    /// larger than the maximum.
    pub open spec fn wf(&self) -> bool {
        if self.seen {
            self.min <= self.max
        } else {
            *self == initial()
        }
    }

    /// The tracker after one more sample.
    pub open spec fn step(self, value: i64, yday: u64) -> SineFitter {
        let lower = !self.seen || value < self.min;
        let higher = !self.seen || value > self.max;
        SineFitter {
            seen: true,
            min: if lower { value } else { self.min },
            min_day: if lower { yday } else { self.min_day },
            max: if higher { value } else { self.max },
            max_day: if higher { yday } else { self.max_day },
        }
    }

    /// `(min + max) / 2`, rounded down.
    pub open spec fn midline_spec(self) -> int {
        (self.min + self.max) / 2
    }

    /// `(max - min) / 2`, rounded down.
    pub open spec fn amplitude_spec(self) -> int {
        (self.max - self.min) / 2
    }
}

/// The tracker after the samples of `s`, in order.
pub open spec fn extrema_of(s: Seq<(i64, u64)>) -> SineFitter
    decreases s.len(),
{
    if s.len() == 0 {
        initial()
    } else {
        extrema_of(s.drop_last()).step(s.last().0, s.last().1)
    }
}


/// The days of a series lie in 1..=366 and strictly increase.
pub open spec fn valid_series(s: Seq<(i64, u64)>) -> bool {
    &&& forall|i: int| 0 <= i < s.len() ==> 1 <= (#[trigger] s[i]).1 <= 366
    &&& forall|i: int| 0 < i < s.len() ==> s[i - 1].1 < (#[trigger] s[i]).1
}

/// Twice the distance from `v` to the midline `sum / 2`.
pub open spec fn dist2(v: int, sum: int) -> int {
    if 2 * v >= sum {
        2 * v - sum
    } else {
        sum - 2 * v
    }
}

/// Index of the first sample whose value is closest to the midline
/// `sum / 2`.
pub open spec fn closest_index(s: Seq<(i64, u64)>, sum: int) -> int
    decreases s.len(),
{
    if s.len() <= 1 {
        0
    } else {
        let j = closest_index(s.drop_last(), sum);
        if dist2(s.last().0 as int, sum) < dist2(s[j].0 as int, sum) {
            s.len() - 1
        } else {
            j
        }
    }
}

/// The local derivative at sample `i` is positive (it is zero at the first).
pub open spec fn rising(s: Seq<(i64, u64)>, i: int) -> bool {
    i > 0 && s[i].0 > s[i - 1].0
}

/// The local derivative at sample `i` is at least 0.01 hours per day.
pub open spec fn steep(s: Seq<(i64, u64)>, i: int) -> bool {
    i > 0 && 100 * (s[i].0 - s[i - 1].0) >= 3_600_000_000 * (s[i].1 - s[i - 1].1)
}

/// The phase shift, in units of `1 / (2k)` days, for a crossing on `day`: a
/// day in the second half of the year is folded by half a period towards
/// the origin, then the sign is flipped where the series climbs steeply.
pub open spec fn shift_spec(day: int, k: int, rising: bool, steep: bool) -> int {
    let base = if 2 * day > 365 && day < 365 {
        if rising {
            2 * k * day - 365
        } else {
            365 - 2 * k * day
        }
    } else {
        2 * k * day
    };
    if steep {
        -base
    } else {
        base
    }
}

/// The fit of series `s` with harmonic `k`, from the extrema `t`; the empty
/// series has amplitude, midline and phase shift zero.
pub open spec fn fit_spec(t: SineFitter, s: Seq<(i64, u64)>, k: u32) -> SineFitment {
    let i = closest_index(s, t.min + t.max);
    SineFitment {
        harmonic: k,
        amplitude: if s.len() == 0 {
            0
        } else {
            t.amplitude_spec() as i64
        },
        shift_num: if s.len() == 0 {
            0
        } else {
            shift_spec(s[i].1 as int, k as int, rising(s, i), steep(s, i)) as i64
        },
        shift_den: (2 * k) as u64,
        midline: if s.len() == 0 {
            0
        } else {
            t.midline_spec() as i64
        },
    }
}

proof fn lemma_extrema_wf(s: Seq<(i64, u64)>)
    ensures
        extrema_of(s).wf(),
        extrema_of(s).seen == (s.len() > 0),
    decreases s.len(),
{
    if s.len() > 0 {
        lemma_extrema_wf(s.drop_last());
    }
}

impl SineFitter {
    /// The tracker before any sample.
    pub fn new() -> (r: SineFitter)
        ensures
            r == initial(),
    {
        SineFitter { seen: false, min: 0, min_day: 0, max: 0, max_day: 0 }
    }

    /// Takes one more sample into account.
    pub fn update(&mut self, value: i64, yday: u64)
        requires
            old(self).wf(),
        ensures
            *final(self) == old(self).step(value, yday),
            final(self).wf(),
    {
        let first = !self.seen;
        if first || value < self.min {
            self.min = value;
            self.min_day = yday;
        }
        if first || value > self.max {
            self.max = value;
            self.max_day = yday;
        }
        self.seen = true;
    }

    /// `(min + max) / 2`, rounded down.
    pub fn get_midline(&self) -> (r: i64)
        requires
            self.wf(),
        ensures
            r == self.midline_spec(),
    {
        let sum: i128 = self.min as i128 + self.max as i128;
        if sum >= 0 {
            ((sum as u128) / 2) as i64
        } else {
            let neg: u128 = (-sum) as u128;
            let half: u128 = (neg + 1) / 2;
            let r: i128 = -(half as i128);
            assert(r == sum / 2);
            r as i64
        }
    }

    /// `(max - min) / 2`, rounded down.
    pub fn get_amplitude(&self) -> (r: i64)
        requires
            self.wf(),
        ensures
            r == self.amplitude_spec(),
    {
        let diff: i128 = self.max as i128 - self.min as i128;
        ((diff as u128) / 2) as i64
    }

    /// Fits a sinusoid with `period_mul_2pi` cycles per year to the series:
    /// amplitude and midline from the extrema, the phase from the first
    /// sample closest to the midline and the local derivative there.
    pub fn fit(&self, data: &Vec<(i64, u64)>, period_mul_2pi: u32) -> (r: SineFitment)
        requires
            self.wf(),
            valid_series(data@),
            period_mul_2pi >= 1,
        ensures
            r == fit_spec(*self, data@, period_mul_2pi),
    {
        let k = period_mul_2pi;
        let amplitude = self.get_amplitude();
        let midline = self.get_midline();
        let den: u64 = 2 * (k as u64);
        let n = data.len();
        if n == 0 {
            return SineFitment { harmonic: k, amplitude: 0, shift_num: 0, shift_den: den, midline: 0 };
        }
        let sum: i128 = self.min as i128 + self.max as i128;
        let mut closest: usize = 0;
        let mut best: i128 = distance2(data[0].0, sum);
        let mut i: usize = 1;
        while i < n
            invariant
                n == data@.len(),
                1 <= i <= n,
                closest < i,
                sum == self.min + self.max,
                -0x4_0000_0000_0000_0000 < sum < 0x4_0000_0000_0000_0000,
                best == dist2(data@[closest as int].0 as int, sum as int),
                closest == closest_index(data@.subrange(0, i as int), sum as int),
            decreases n - i,
        {
            let d = distance2(data[i].0, sum);
            let ghost t = data@.subrange(0, i + 1);
            proof {
                assert(t.drop_last() =~= data@.subrange(0, i as int));
                assert(t[closest as int] == data@[closest as int]);
            }
            if d < best {
                closest = i;
                best = d;
            }
            i = i + 1;
        }
        assert(data@.subrange(0, n as int) =~= data@);
        let c = closest;
        let (up, climbing) = if c == 0 {
            (false, false)
        } else {
            let dv: i128 = data[c].0 as i128 - data[c - 1].0 as i128;
            let dd: i128 = data[c].1 as i128 - data[c - 1].1 as i128;
            (dv > 0, 100 * dv >= 3_600_000_000 * dd)
        };
        let day: i64 = data[c].1 as i64;
        let k2: i64 = 2 * (k as i64);
        assert(0 <= k2 * day <= 2 * 0xffff_ffff * 366) by (nonlinear_arith)
            requires
                0 <= k2 <= 2 * 0xffff_ffff,
                0 <= day <= 366,
        ;
        let base: i64 = if 2 * day > 365 && day < 365 {
            if up {
                k2 * day - 365
            } else {
                365 - k2 * day
            }
        } else {
            k2 * day
        };
        let shift_num: i64 = if climbing {
            -base
        } else {
            base
        };
        SineFitment { harmonic: k, amplitude, shift_num, shift_den: den, midline }
    }
}

/// Twice the distance from `v` to the midline `sum / 2`.
fn distance2(v: i64, sum: i128) -> (r: i128)
    requires
        -0x4_0000_0000_0000_0000 < sum < 0x4_0000_0000_0000_0000,
    ensures
        r == dist2(v as int, sum as int),
{
    let x: i128 = 2 * (v as i128) - sum;
    if x >= 0 {
        x
    } else {
        -x
    }
}

/// The extrema of a series, from one pass over it in order.
pub fn track(data: &Vec<(i64, u64)>) -> (r: SineFitter)
    ensures
        r == extrema_of(data@),
        r.wf(),
{
    let mut t = SineFitter::new();
    let mut i: usize = 0;
    while i < data.len()
        invariant
            i <= data@.len(),
            t == extrema_of(data@.subrange(0, i as int)),
            t.wf(),
        decreases data@.len() - i,
    {
        proof {
            assert(data@.subrange(0, i + 1).drop_last() =~= data@.subrange(0, i as int));
        }
        let (v, d) = data[i];
        t.update(v, d);
        i = i + 1;
    }
    assert(data@.subrange(0, i as int) =~= data@);
    t
}

/// Fits a sinusoid with `period_mul_2pi` cycles per year to a series, from
/// its own extrema.
pub fn fit_series(data: &Vec<(i64, u64)>, period_mul_2pi: u32) -> (r: SineFitment)
    requires
        valid_series(data@),
        period_mul_2pi >= 1,
    ensures
        r == fit_spec(extrema_of(data@), data@, period_mul_2pi),
{
    let t = track(data);
    t.fit(data, period_mul_2pi)
}


/// The crossing sample is the first of those whose value is closest to the
/// midline `sum / 2`.
pub proof fn lemma_closest_is_first_minimum(s: Seq<(i64, u64)>, sum: int)
    requires
        s.len() > 0,
    ensures
        0 <= closest_index(s, sum) < s.len(),
        forall|j: int|
            0 <= j < s.len() ==> dist2(s[closest_index(s, sum)].0 as int, sum) <= dist2(
                (#[trigger] s[j]).0 as int,
                sum,
            ),
        forall|j: int|
            0 <= j < closest_index(s, sum) ==> dist2((#[trigger] s[j]).0 as int, sum) > dist2(
                s[closest_index(s, sum)].0 as int,
                sum,
            ),
    decreases s.len(),
{
    if s.len() > 1 {
        let p = s.drop_last();
        lemma_closest_is_first_minimum(p, sum);
        let i = closest_index(p, sum);
        assert(s[i] == p[i]);
        assert forall|j: int| 0 <= j < s.len() - 1 implies #[trigger] s[j] == p[j] by {}
    }
}

/// The amplitude and midline of a fit are exactly those of the extrema
/// tracked over the same series, whatever the phase.
pub proof fn lemma_fit_agrees_with_extrema(s: Seq<(i64, u64)>, k: u32)
    ensures
        fit_spec(extrema_of(s), s, k).amplitude == extrema_of(s).amplitude_spec(),
        fit_spec(extrema_of(s), s, k).midline == extrema_of(s).midline_spec(),
        fit_spec(extrema_of(s), s, k).harmonic == k,
{
    lemma_extrema_wf(s);
}

/// A fit of the empty series has amplitude, midline and phase shift zero,
/// and keeps its harmonic, whatever extrema it is given.
pub proof fn lemma_empty_fit(t: SineFitter, k: u32)
    ensures
        fit_spec(t, Seq::empty(), k) == (SineFitment {
            harmonic: k,
            amplitude: 0,
            shift_num: 0,
            shift_den: (2 * k) as u64,
            midline: 0,
        }),
{
}

/// Over a non-empty series the tracker holds the least and the greatest
/// value, each with the day of the first sample that has it.
pub proof fn lemma_extrema_first_occurrence(s: Seq<(i64, u64)>)
    requires
        s.len() > 0,
    ensures
        forall|j: int| 0 <= j < s.len() ==> extrema_of(s).min <= (#[trigger] s[j]).0 <= extrema_of(s).max,
        exists|i: int|
            0 <= i < s.len() && s[i] == (extrema_of(s).min, extrema_of(s).min_day) && forall|j: int|
                0 <= j < i ==> (#[trigger] s[j]).0 > extrema_of(s).min,
        exists|i: int|
            0 <= i < s.len() && s[i] == (extrema_of(s).max, extrema_of(s).max_day) && forall|j: int|
                0 <= j < i ==> (#[trigger] s[j]).0 < extrema_of(s).max,
    decreases s.len(),
{
    let t = extrema_of(s);
    let n = s.len() - 1;
    let p = s.drop_last();
    lemma_extrema_wf(p);
    if n == 0 {
        assert(s[0] == (t.min, t.min_day));
        assert(s[0] == (t.max, t.max_day));
    } else {
        lemma_extrema_first_occurrence(p);
        let u = extrema_of(p);
        assert forall|j: int| 0 <= j < s.len() implies t.min <= (#[trigger] s[j]).0 <= t.max by {
            if j < n {
                assert(s[j] == p[j]);
            }
        }
        let i1 = choose|i: int|
            0 <= i < p.len() && p[i] == (u.min, u.min_day) && forall|j: int|
                0 <= j < i ==> (#[trigger] p[j]).0 > u.min;
        let i2 = choose|i: int|
            0 <= i < p.len() && p[i] == (u.max, u.max_day) && forall|j: int|
                0 <= j < i ==> (#[trigger] p[j]).0 < u.max;
        if s[n].0 < u.min {
            assert forall|j: int| 0 <= j < n implies (#[trigger] s[j]).0 > t.min by {
                assert(s[j] == p[j]);
            }
            assert(s[n] == (t.min, t.min_day));
        } else {
            assert forall|j: int| 0 <= j < i1 implies (#[trigger] s[j]).0 > t.min by {
                assert(s[j] == p[j]);
            }
            assert(s[i1] == p[i1]);
        }
        if s[n].0 > u.max {
            assert forall|j: int| 0 <= j < n implies (#[trigger] s[j]).0 < t.max by {
                assert(s[j] == p[j]);
            }
            assert(s[n] == (t.max, t.max_day));
        } else {
            assert forall|j: int| 0 <= j < i2 implies (#[trigger] s[j]).0 < t.max by {
                assert(s[j] == p[j]);
            }
            assert(s[i2] == p[i2]);
        }
    }
}

} // verus!
