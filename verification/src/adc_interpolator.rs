use crate::interpolate::{
    interpolate, lemma_interpolate_bounds, lemma_interpolate_endpoints, lemma_interpolate_monotone,
    spec_interpolate,
};
use vstd::arithmetic::div_mod::{lemma_div_is_ordered, lemma_div_pos_is_pos};
use vstd::arithmetic::mul::{lemma_mul_inequality, lemma_mul_nonnegative, lemma_mul_upper_bound};
use vstd::arithmetic::power2::{
    lemma2_to64, lemma_pow2_pos, lemma_pow2_strictly_increases, lemma_pow2_unfold, pow2,
};
use vstd::prelude::*;

verus! {

/// The calibration table is sorted in non-decreasing order by raw code; ties
/// are permitted and produce a zero-width step.
pub open spec fn table_sorted(t: Seq<(u16, u32)>) -> bool {
    forall|i: int| 0 <= i < t.len() - 1 ==> (#[trigger] t[i]).0 <= t[i + 1].0
}

/// Distance between two output values, as a mathematical integer.
pub open spec fn value_gap(a: u32, b: u32) -> int {
    if a > b {
        a - b
    } else {
        b - a
    }
}

/// Every segment's numerator product fits in `u32`, so interpolating inside
/// any segment stays within the machine arithmetic.
pub open spec fn table_spans_fit(t: Seq<(u16, u32)>) -> bool {
    forall|i: int| 0 <= i < t.len() - 1 ==> ((#[trigger] t[i + 1]).0 - t[i].0) * value_gap(
        t[i].1,
        t[i + 1].1,
    ) <= u32::MAX
}

/// The result of the bracket search started at index `i`: the first interval
/// `[t[j].0, t[j+1].0]` with `j >= i` that contains `x` decides the value. A
/// zero-width interval yields its left value outright; otherwise the value is
/// interpolated linearly within the interval.
pub open spec fn lookup_from(t: Seq<(u16, u32)>, x: u16, i: int) -> Option<u32>
    decreases t.len() - i,
{
    if i < 0 || i + 1 >= t.len() {
        None
    } else if t[i].0 <= x && x <= t[i + 1].0 {
        if t[i].0 == t[i + 1].0 {
            Some(t[i].1)
        } else {
            Some(
                spec_interpolate(
                    t[i].0 as int,
                    t[i + 1].0 as int,
                    t[i].1 as int,
                    t[i + 1].1 as int,
                    x as int,
                ) as u32,
            )
        }
    } else {
        lookup_from(t, x, i + 1)
    }
}

/// What a query for raw code `x` against table `t` returns: the value decided
/// by the lowest-index bracketing interval, or nothing when `x` lies outside
/// the table's range (or the table has fewer than two entries).
pub open spec fn spec_lookup(t: Seq<(u16, u32)>, x: u16) -> Option<u32> {
    lookup_from(t, x, 0)
}

/// The smaller of the first and last entries' values.
pub open spec fn spec_min_value(t: Seq<(u16, u32)>) -> u32 {
    if t[0].1 <= t[t.len() - 1].1 {
        t[0].1
    } else {
        t[t.len() - 1].1
    }
}

/// The larger of the first and last entries' values.
pub open spec fn spec_max_value(t: Seq<(u16, u32)>) -> u32 {
    if t[0].1 >= t[t.len() - 1].1 {
        t[0].1
    } else {
        t[t.len() - 1].1
    }
}

/// In a sorted table, raw codes are ordered between any two indices.
pub proof fn lemma_sorted_indices(t: Seq<(u16, u32)>, a: int, b: int)
    requires
        table_sorted(t),
        0 <= a <= b < t.len(),
    ensures
        t[a].0 <= t[b].0,
    decreases b - a,
{
    if a < b {
        lemma_sorted_indices(t, a, b - 1);
        assert((t[b - 1]).0 <= t[b - 1 + 1].0);
    }
}

/// The bracket search skips past intervals that do not contain `x`.
proof fn lemma_lookup_from_skip(t: Seq<(u16, u32)>, x: u16, a: int, b: int)
    requires
        0 <= a <= b <= t.len(),
        forall|j: int| a <= j < b && j + 1 < t.len() ==> !((#[trigger] t[j]).0 <= x && x <= t[j
            + 1].0),
    ensures
        lookup_from(t, x, a) == lookup_from(t, x, b),
    decreases b - a,
{
    if a < b {
        if a + 1 >= t.len() {
            assert(lookup_from(t, x, a) == None::<u32>);
            assert(lookup_from(t, x, b) == None::<u32>);
        } else {
            assert(!((t[a]).0 <= x && x <= t[a + 1].0));
            lemma_lookup_from_skip(t, x, a + 1, b);
        }
    }
}

/// In a sorted table of at least two entries, a raw code between the first
/// and last entries' codes always has a bracketing interval.
proof fn lemma_lookup_from_in_range(t: Seq<(u16, u32)>, x: u16, i: int)
    requires
        table_sorted(t),
        0 <= i < t.len() - 1,
        t[i].0 <= x,
        x <= t[t.len() - 1].0,
    ensures
        lookup_from(t, x, i) is Some,
    decreases t.len() - i,
{
    if t[i].0 <= x && x <= t[i + 1].0 {
    } else {
        assert(x > t[i + 1].0);
        assert(i + 1 < t.len() - 1) by {
            if i + 1 == t.len() - 1 {
                assert(x <= t[i + 1].0);
            }
        };
        lemma_lookup_from_in_range(t, x, i + 1);
    }
}

/// A query for a raw code that appears in the table is exact: it returns the
/// value stored at the lowest index carrying that code, not an interpolated
/// approximation.
pub proof fn lemma_lookup_exact_match(t: Seq<(u16, u32)>, x: u16, i: int)
    requires
        table_sorted(t),
        t.len() >= 2,
        0 <= i < t.len(),
        t[i].0 == x,
        forall|j: int| 0 <= j < i ==> (#[trigger] t[j]).0 != x,
    ensures
        spec_lookup(t, x) == Some(t[i].1),
{
    if i == 0 {
        assert((t[0]).0 <= t[1].0);
        if t[0].0 != t[1].0 {
            lemma_interpolate_endpoints(t[0].0 as int, t[1].0 as int, t[0].1 as int, t[1].1 as int);
        }
    } else {
        assert((t[i - 1]).0 <= t[i - 1 + 1].0);
        assert((t[i - 1]).0 != x);
        assert forall|j: int| 0 <= j < i - 1 && j + 1 < t.len() implies !((#[trigger] t[j]).0 <= x
            && x <= t[j + 1].0) by {
            lemma_sorted_indices(t, j + 1, i - 1);
        };
        lemma_lookup_from_skip(t, x, 0, i - 1);
        lemma_interpolate_endpoints(
            t[i - 1].0 as int,
            t[i].0 as int,
            t[i - 1].1 as int,
            t[i].1 as int,
        );
        assert(lookup_from(t, x, i - 1) == Some(t[i].1));
    }
}

/// A raw code strictly below the first entry's code or strictly above the
/// last entry's code is out of range: the query returns nothing.
pub proof fn lemma_lookup_out_of_range(t: Seq<(u16, u32)>, x: u16)
    requires
        table_sorted(t),
        t.len() >= 1,
        x < t[0].0 || x > t[t.len() - 1].0,
    ensures
        spec_lookup(t, x) == None::<u32>,
{
    assert forall|j: int| 0 <= j < t.len() && j + 1 < t.len() implies !((#[trigger] t[j]).0 <= x
        && x <= t[j + 1].0) by {
        lemma_sorted_indices(t, 0, j);
        lemma_sorted_indices(t, j + 1, t.len() - 1);
    };
    lemma_lookup_from_skip(t, x, 0, t.len() as int);
    assert(lookup_from(t, x, t.len() as int) is None);
}

/// A table with fewer than two entries has no interval to bracket a query:
/// every query returns nothing.
pub proof fn lemma_lookup_short_table(t: Seq<(u16, u32)>, x: u16)
    requires
        t.len() < 2,
    ensures
        spec_lookup(t, x) == None::<u32>,
{
    assert(lookup_from(t, x, 0) is None);
}

/// Across a single two-entry segment, the query's value is monotone in the
/// raw code: non-decreasing over a rising segment, non-increasing over a
/// falling one.
pub proof fn lemma_lookup_segment_monotone(t: Seq<(u16, u32)>, xa: u16, xb: u16)
    requires
        table_sorted(t),
        t.len() == 2,
        t[0].0 <= xa <= xb <= t[1].0,
    ensures
        spec_lookup(t, xa) is Some,
        spec_lookup(t, xb) is Some,
        t[0].1 <= t[1].1 ==> spec_lookup(t, xa).unwrap() <= spec_lookup(t, xb).unwrap(),
        t[0].1 > t[1].1 ==> spec_lookup(t, xa).unwrap() >= spec_lookup(t, xb).unwrap(),
{
    if t[0].0 != t[1].0 {
        let x0 = t[0].0 as int;
        let x1 = t[1].0 as int;
        let y0 = t[0].1 as int;
        let y1 = t[1].1 as int;
        lemma_interpolate_bounds(x0, x1, y0, y1, xa as int);
        lemma_interpolate_bounds(x0, x1, y0, y1, xb as int);
        lemma_interpolate_monotone(x0, x1, y0, y1, xa as int, xb as int);
    }
}

/// Configuration for an [`AdcInterpolator`].
///
/// - `max_voltage`: the voltage corresponding to the largest code the ADC can
///   produce (mV)
/// - `precision`: the precision of the ADC in bits
/// - `voltage_to_values`: pairs of `(voltage in mV, value)` from which the
///   calibration table is computed, in ascending order by voltage
pub struct Config {
    pub max_voltage: u32,
    pub precision: u32,
    pub voltage_to_values: Vec<(u32, u32)>,
}

impl Config {
    /// The full-scale code of the configured ADC: two to the power of its
    /// bit precision.
    pub open spec fn full_scale(self) -> int {
        pow2(self.precision as nat) as int
    }

    /// The raw code a calibration voltage maps to: the voltage's share of the
    /// full-scale code, with the division truncating toward zero.
    pub open spec fn spec_code(self, voltage: u32) -> int {
        (voltage as int) * self.full_scale() / (self.max_voltage as int)
    }

    /// The arithmetic that computes the table stays within the machine types:
    /// the reference voltage is nonzero, the full-scale code fits in `u32`,
    /// and every computed raw code fits in the table's `u16` code type.
    pub open spec fn arith_ok(self) -> bool {
        &&& self.max_voltage > 0
        &&& self.precision <= 31
        &&& forall|i: int|
            0 <= i < self.voltage_to_values@.len() ==> {
                let v = (#[trigger] self.voltage_to_values@[i]).0;
                (v as int) * self.full_scale() <= u32::MAX && self.spec_code(v) <= u16::MAX
            }
    }

    /// The calibration points are listed in non-decreasing order by voltage.
    pub open spec fn sorted_by_voltage(self) -> bool {
        forall|i: int|
            0 <= i < self.voltage_to_values@.len() - 1 ==> (
            #[trigger] self.voltage_to_values@[i]).0 <= self.voltage_to_values@[i + 1].0
    }

    /// Each segment of the computed table keeps its interpolation numerator
    /// within `u32`.
    pub open spec fn spans_fit(self) -> bool {
        forall|i: int|
            0 <= i < self.voltage_to_values@.len() - 1 ==> {
                let a = #[trigger] self.voltage_to_values@[i];
                let b = self.voltage_to_values@[i + 1];
                (self.spec_code(b.0) - self.spec_code(a.0)) * value_gap(a.1, b.1) <= u32::MAX
            }
    }

    /// A configuration from which an interpolator may be constructed.
    pub open spec fn valid(self) -> bool {
        self.arith_ok() && self.sorted_by_voltage() && self.spans_fit()
    }

    /// The calibration table this configuration describes: each voltage
    /// replaced by the raw code it maps to.
    pub open spec fn spec_table(self) -> Seq<(u16, u32)> {
        self.voltage_to_values@.map(|i: int, p: (u32, u32)| (self.spec_code(p.0) as u16, p.1))
    }

    /// Decides [`Config::valid`] at run time, so that a caller can reject a
    /// bad configuration before constructing an interpolator.
    pub fn is_valid(&self) -> (r: bool)
        ensures
            r == self.valid(),
    {
        if self.max_voltage == 0 {
            return false;
        }
        if self.precision > 31 {
            return false;
        }
        let full: u32 = pow2_u32(self.precision);
        let n = self.voltage_to_values.len();
        let mut prev_code: u32 = 0;
        let mut i: usize = 0;
        while i < n
            invariant
                self.max_voltage > 0,
                self.precision <= 31,
                full == pow2(self.precision as nat),
                n == self.voltage_to_values@.len(),
                i <= n,
                forall|j: int|
                    0 <= j < i ==> {
                        let v = (#[trigger] self.voltage_to_values@[j]).0;
                        (v as int) * self.full_scale() <= u32::MAX && self.spec_code(v)
                            <= u16::MAX
                    },
                forall|j: int|
                    0 <= j && j + 1 < i ==> (#[trigger] self.voltage_to_values@[j]).0
                        <= self.voltage_to_values@[j + 1].0,
                forall|j: int|
                    0 <= j && j + 1 < i ==> {
                        let a = #[trigger] self.voltage_to_values@[j];
                        let b = self.voltage_to_values@[j + 1];
                        (self.spec_code(b.0) - self.spec_code(a.0)) * value_gap(a.1, b.1)
                            <= u32::MAX
                    },
                i > 0 ==> prev_code == self.spec_code(self.voltage_to_values@[i - 1].0),
            decreases n - i,
        {
            let (v, y) = self.voltage_to_values[i];
            proof {
                lemma_mul_upper_bound(v as int, 0xFFFF_FFFF, full as int, 0xFFFF_FFFF);
            }
            if (v as u64) * (full as u64) > u32::MAX as u64 {
                proof {
                    if self.arith_ok() {
                        assert((self.voltage_to_values@[i as int].0 as int) * self.full_scale()
                            <= u32::MAX);
                        assert(false);
                    }
                }
                return false;
            }
            let num: u32 = v * full;
            let code: u32 = num / self.max_voltage;
            proof {
                lemma_mul_nonnegative(v as int, self.full_scale());
                lemma_div_pos_is_pos((v as int) * self.full_scale(), self.max_voltage as int);
            }
            if code > 0xFFFF {
                proof {
                    if self.arith_ok() {
                        assert(self.spec_code(self.voltage_to_values@[i as int].0) <= u16::MAX);
                        assert(false);
                    }
                }
                return false;
            }
            if i > 0 {
                let (pv, py) = self.voltage_to_values[i - 1];
                if pv > v {
                    proof {
                        if self.sorted_by_voltage() {
                            assert((self.voltage_to_values@[i - 1]).0
                                <= self.voltage_to_values@[i - 1 + 1].0);
                            assert(false);
                        }
                    }
                    return false;
                }
                proof {
                    lemma_pow2_pos(self.precision as nat);
                    lemma_mul_inequality(pv as int, v as int, self.full_scale());
                    lemma_div_is_ordered(
                        (pv as int) * self.full_scale(),
                        (v as int) * self.full_scale(),
                        self.max_voltage as int,
                    );
                    lemma_mul_upper_bound(
                        (code - prev_code) as int,
                        0xFFFF_FFFF,
                        (if y > py {
                            y - py
                        } else {
                            py - y
                        }) as int,
                        0xFFFF_FFFF,
                    );
                }
                let gap: u32 = if y > py {
                    y - py
                } else {
                    py - y
                };
                if ((code - prev_code) as u64) * (gap as u64) > u32::MAX as u64 {
                    proof {
                        if self.spans_fit() {
                            let a = self.voltage_to_values@[i - 1];
                            let b = self.voltage_to_values@[i - 1 + 1];
                            assert((self.spec_code(b.0) - self.spec_code(a.0)) * value_gap(
                                a.1,
                                b.1,
                            ) <= u32::MAX);
                            assert(false);
                        }
                    }
                    return false;
                }
            }
            prev_code = code;
            i += 1;
        }
        true
    }

    /// Computes the calibration table: each `(voltage, value)` pair becomes a
    /// `(raw code, value)` entry, the raw code narrowed to `u16`.
    pub fn table(&self) -> (r: Vec<(u16, u32)>)
        requires
            self.arith_ok(),
        ensures
            r@ == self.spec_table(),
    {
        let full: u32 = pow2_u32(self.precision);
        let n = self.voltage_to_values.len();
        let mut out: Vec<(u16, u32)> = Vec::new();
        let mut i: usize = 0;
        while i < n
            invariant
                self.arith_ok(),
                full == pow2(self.precision as nat),
                n == self.voltage_to_values@.len(),
                i <= n,
                out@.len() == i,
                forall|j: int| 0 <= j < i ==> out@[j] == self.spec_table()[j],
            decreases n - i,
        {
            let (v, y) = self.voltage_to_values[i];
            proof {
                assert((self.voltage_to_values@[i as int].0 as int) * self.full_scale()
                    <= u32::MAX);
                assert(self.spec_code(self.voltage_to_values@[i as int].0) <= u16::MAX);
                lemma_mul_nonnegative(v as int, self.full_scale());
                lemma_div_pos_is_pos((v as int) * self.full_scale(), self.max_voltage as int);
            }
            let code: u32 = v * full / self.max_voltage;
            out.push((code as u16, y));
            i += 1;
        }
        proof {
            assert(out@ =~= self.spec_table());
        }
        out
    }
}

/// Two to the power of `e`, for exponents that keep the result in `u32`.
fn pow2_u32(e: u32) -> (r: u32)
    requires
        e <= 31,
    ensures
        r == pow2(e as nat),
{
    let mut result: u32 = 1;
    let mut i: u32 = 0;
    proof {
        lemma2_to64();
    }
    while i < e
        invariant
            i <= e,
            e <= 31,
            result == pow2(i as nat),
        decreases e - i,
    {
        proof {
            lemma_pow2_strictly_increases(i as nat, 31);
            lemma2_to64();
            lemma_pow2_unfold((i + 1) as nat);
        }
        result = result * 2;
        i = i + 1;
    }
    result
}

/// An interpolation engine owning one calibration table for its lifetime,
/// together with the ADC pin it calibrates readings for. The table never
/// mutates after construction.
#[derive(Debug)]
pub struct AdcInterpolator<Pin> {
    pin: Pin,
    table: Vec<(u16, u32)>,
}

impl<Pin> View for AdcInterpolator<Pin> {
    type V = Seq<(u16, u32)>;

    closed spec fn view(&self) -> Seq<(u16, u32)> {
        self.table@
    }
}

impl<Pin> AdcInterpolator<Pin> {
    #[verifier::type_invariant]
    spec fn wf(self) -> bool {
        table_sorted(self.table@) && table_spans_fit(self.table@)
    }

    /// The pin this interpolator owns.
    pub closed spec fn spec_pin(self) -> Pin {
        self.pin
    }

    /// Returns an interpolator using the provided `config`, owning `pin`.
    ///
    /// The configuration must be valid: calibration points sorted by voltage
    /// and table arithmetic within the machine types, as [`Config::valid`]
    /// states and [`Config::is_valid`] decides.
    pub fn new(pin: Pin, config: Config) -> (r: Self)
        requires
            config.valid(),
        ensures
            r@ == config.spec_table(),
            r.spec_pin() == pin,
    {
        let table = config.table();
        proof {
            let tt = table@;
            let vs = config.voltage_to_values@;
            assert forall|i: int| 0 <= i < tt.len() - 1 implies (#[trigger] tt[i]).0 <= tt[i
                + 1].0 by {
                assert((vs[i]).0 <= vs[i + 1].0);
                lemma_code_in_range(config, i);
                lemma_code_in_range(config, i + 1);
                lemma_code_monotone(config, vs[i].0, vs[i + 1].0);
            };
            assert forall|i: int| 0 <= i < tt.len() - 1 implies ((#[trigger] tt[i + 1]).0
                - tt[i].0) * value_gap(tt[i].1, tt[i + 1].1) <= u32::MAX by {
                let a = vs[i];
                let b = vs[i + 1];
                assert((config.spec_code(b.0) - config.spec_code(a.0)) * value_gap(a.1, b.1)
                    <= u32::MAX);
                lemma_code_in_range(config, i);
                lemma_code_in_range(config, i + 1);
            };
        }
        AdcInterpolator { pin, table }
    }

    /// Destroys the interpolator and returns the `Pin`.
    pub fn free(self) -> (r: Pin)
        ensures
            r == self.spec_pin(),
    {
        let AdcInterpolator { pin, table } = self;
        pin
    }

    /// Returns the calibrated value for a raw code, interpolating linearly
    /// between the two entries of the code's bracketing interval. Returns
    /// `None` when the code falls outside the table's range, and always when
    /// the table has fewer than two entries.
    pub fn lookup(&self, raw_code: u16) -> (r: Option<u32>)
        ensures
            r == spec_lookup(self@, raw_code),
            r is Some <==> (self@.len() >= 2 && self@[0].0 <= raw_code && raw_code <= self@[
                self@.len() - 1].0),
    {
        proof {
            use_type_invariant(&*self);
        }
        let ghost t = self.table@;
        let n = self.table.len();
        if n < 2 {
            return None;
        }
        let mut i: usize = 0;
        while i + 1 < n
            invariant
                table_sorted(t),
                table_spans_fit(t),
                t == self.table@,
                n == t.len(),
                2 <= n,
                i < n,
                lookup_from(t, raw_code, 0) == lookup_from(t, raw_code, i as int),
            decreases n - i,
        {
            let (x0, y0) = self.table[i];
            let (x1, y1) = self.table[i + 1];
            if x0 <= raw_code && raw_code <= x1 {
                proof {
                    lemma_sorted_indices(t, 0, i as int);
                    lemma_sorted_indices(t, i as int + 1, n as int - 1);
                }
                if x0 == x1 {
                    return Some(y0);
                }
                proof {
                    assert(((t[i as int + 1]).0 - t[i as int].0) * value_gap(
                        t[i as int].1,
                        t[i as int + 1].1,
                    ) <= u32::MAX);
                    lemma_mul_inequality(
                        raw_code - x0,
                        x1 - x0,
                        (if y0 > y1 {
                            y0 - y1
                        } else {
                            y1 - y0
                        }) as int,
                    );
                }
                let value = interpolate(x0 as u32, x1 as u32, y0, y1, raw_code as u32);
                return Some(value);
            }
            proof {
                assert(lookup_from(t, raw_code, i as int) == lookup_from(t, raw_code, i as int
                    + 1));
            }
            i += 1;
        }
        proof {
            assert(lookup_from(t, raw_code, i as int) is None);
            if t[0].0 <= raw_code && raw_code <= t[n as int - 1].0 {
                lemma_lookup_from_in_range(t, raw_code, 0);
                assert(false);
            }
        }
        None
    }

    /// The lower end of the value range spanned by the table's endpoints:
    /// the smaller of the first and last entries' values, whatever the
    /// entries in between hold.
    pub fn min_value(&self) -> (r: u32)
        requires
            self@.len() >= 1,
        ensures
            r == spec_min_value(self@),
    {
        let first = self.first_value();
        let last = self.last_value();
        if first <= last {
            first
        } else {
            last
        }
    }

    /// The upper end of the value range spanned by the table's endpoints:
    /// the larger of the first and last entries' values, whatever the
    /// entries in between hold.
    pub fn max_value(&self) -> (r: u32)
        requires
            self@.len() >= 1,
        ensures
            r == spec_max_value(self@),
    {
        let first = self.first_value();
        let last = self.last_value();
        if first >= last {
            first
        } else {
            last
        }
    }

    /// The first entry's value.
    pub fn first_value(&self) -> (r: u32)
        requires
            self@.len() >= 1,
        ensures
            r == self@[0].1,
    {
        self.table[0].1
    }

    /// The last entry's value.
    pub fn last_value(&self) -> (r: u32)
        requires
            self@.len() >= 1,
        ensures
            r == self@[self@.len() - 1].1,
    {
        self.table[self.table.len() - 1].1
    }
}

/// Raw codes grow with the voltage they are computed from.
proof fn lemma_code_monotone(c: Config, v1: u32, v2: u32)
    requires
        c.max_voltage > 0,
        v1 <= v2,
    ensures
        c.spec_code(v1) <= c.spec_code(v2),
{
    lemma_pow2_pos(c.precision as nat);
    lemma_mul_inequality(v1 as int, v2 as int, c.full_scale());
    lemma_div_is_ordered(
        (v1 as int) * c.full_scale(),
        (v2 as int) * c.full_scale(),
        c.max_voltage as int,
    );
}

/// Under a valid configuration every computed raw code fits in `u16`.
proof fn lemma_code_in_range(c: Config, i: int)
    requires
        c.arith_ok(),
        0 <= i < c.voltage_to_values@.len(),
    ensures
        0 <= c.spec_code(c.voltage_to_values@[i].0) <= u16::MAX,
{
    let v = (c.voltage_to_values@[i]).0;
    lemma_pow2_pos(c.precision as nat);
    lemma_mul_nonnegative(v as int, c.full_scale());
    lemma_div_pos_is_pos((v as int) * c.full_scale(), c.max_voltage as int);
}

} // verus!
