//! The percentile normalizer: turns band samples of any range into 8-bit display
//! values by a linear stretch between two percentiles of the valid samples.
//!
//! Samples are integers in a fixed-point unit of the caller's choice. The stretch
//! depends only on ratios of differences, so the unit cancels out.

use crate::arith::{lemma_quotient_bounds, lemma_quotient_monotone};
use vstd::prelude::*;
use vstd::relations::{sorted_by, total_ordering};
use vstd::seq_lib::{lemma_multiset_commutative, lemma_sorted_unique, to_multiset_build};

verus! {

/// One sample of a band: a finite value, or the mark of a value that is not finite.
#[derive(Clone, Copy, Debug, PartialEq, Eq, Structural)]
pub enum Sample {
    NonFinite,
    Value(i64),
}

/// A fraction between zero and one.
#[derive(Clone, Copy, Debug, PartialEq, Eq, Structural)]
pub struct Fraction {
    pub num: u64,
    pub den: u64,
}

impl Fraction {
    /// The denominator is positive and the fraction is at most one.
    pub open spec fn wf(self) -> bool {
        0 < self.den && self.num <= self.den
    }

    /// Whether the denominator is positive and the fraction is at most one.
    pub fn is_valid(&self) -> (ok: bool)
        ensures
            ok == self.wf(),
    {
        0 < self.den && self.num <= self.den
    }
}

/// A sample counts towards the percentiles if it is finite and is not the nodata
/// sentinel.
pub open spec fn is_valid(s: Sample, nodata: Option<i64>) -> bool {
    match s {
        Sample::NonFinite => false,
        Sample::Value(v) => nodata != Some(v),
    }
}

/// The value of a finite sample.
pub open spec fn value_of(s: Sample) -> i64 {
    match s {
        Sample::NonFinite => 0,
        Sample::Value(v) => v,
    }
}

/// The values of the valid samples of an array, in the array's order.
pub open spec fn valid_values(samples: Seq<Sample>, nodata: Option<i64>) -> Seq<i64> {
    samples.filter(|s: Sample| is_valid(s, nodata)).map_values(|s: Sample| value_of(s))
}

/// The order by which samples are ranked.
pub open spec fn at_most() -> spec_fn(i64, i64) -> bool {
    |a: i64, b: i64| a <= b
}

/// The values in ascending order.
pub open spec fn ascending(values: Seq<i64>) -> Seq<i64> {
    values.sort_by(at_most())
}

/// The position in `n` ascending values at which the percentile `p` is read:
/// `n * p` rounded down, and at most the last position.
pub open spec fn percentile_index(n: int, p: Fraction) -> int {
    let i = n * p.num / (p.den as int);
    if i < n - 1 {
        i
    } else {
        n - 1
    }
}

/// The stretch window of a pool of valid values: the values at the low and the high
/// percentile, or `(0, 1)` for an empty pool.
pub open spec fn percentile_range(pool: Seq<i64>, low: Fraction, high: Fraction) -> (i64, i64) {
    if pool.len() == 0 {
        (0, 1)
    } else {
        (
            ascending(pool)[percentile_index(pool.len() as int, low)],
            ascending(pool)[percentile_index(pool.len() as int, high)],
        )
    }
}

/// The display value of `v` under a stretch from `low` to `high`: `low` and all below
/// it map to 0, `high` and all above it to 255, and what lies between is scaled
/// linearly and rounded down. A window without width maps everything to 128.
pub open spec fn stretch_byte(v: int, low: int, high: int) -> int {
    if high > low {
        let scaled = (v - low) * 255 / (high - low);
        if scaled < 0 {
            0
        } else if scaled > 255 {
            255
        } else {
            scaled
        }
    } else {
        128
    }
}

/// The display value of a sample: 0 for the nodata sentinel and for a value that is
/// not finite, the stretched value otherwise.
pub open spec fn display_byte(s: Sample, nodata: Option<i64>, low: int, high: int) -> int {
    if is_valid(s, nodata) {
        stretch_byte(value_of(s) as int, low, high)
    } else {
        0
    }
}

/// The display values of an array under a given stretch window.
pub open spec fn display_bytes(
    samples: Seq<Sample>,
    nodata: Option<i64>,
    low: int,
    high: int,
) -> Seq<u8> {
    Seq::new(samples.len(), |i: int| display_byte(samples[i], nodata, low, high) as u8)
}

/// Whether a sample counts towards the percentiles.
pub fn sample_is_valid(s: Sample, nodata: Option<i64>) -> (ok: bool)
    ensures
        ok == is_valid(s, nodata),
{
    match s {
        Sample::NonFinite => false,
        Sample::Value(v) => match nodata {
            None => true,
            Some(nd) => v != nd,
        },
    }
}

/// Stretches one finite value to its display value.
pub fn stretch_value(v: i64, low: i64, high: i64) -> (out: u8)
    ensures
        out == stretch_byte(v as int, low as int, high as int),
{
    if high > low {
        let offset: i128 = v as i128 - low as i128;
        let width: i128 = high as i128 - low as i128;
        if offset <= 0 {
            proof {
                lemma_stretch_low(v as int, low as int, high as int);
            }
            0
        } else if offset >= width {
            proof {
                lemma_stretch_high(v as int, low as int, high as int);
            }
            255
        } else {
            proof {
                lemma_stretch_between(v as int, low as int, high as int);
            }
            assert(0 <= offset * 255 < 0x1_0000_0000_0000_0000 * 255) by (nonlinear_arith)
                requires
                    0 < offset < 0x1_0000_0000_0000_0000,
            ;
            let scaled: i128 = offset * 255 / width;
            scaled as u8
        }
    } else {
        128
    }
}

/// Normalizes an array to display values with a stretch window that is already known.
pub fn normalize_with_range(
    values: &[Sample],
    nodata: Option<i64>,
    min_val: i64,
    max_val: i64,
) -> (out: Vec<u8>)
    ensures
        out@ == display_bytes(values@, nodata, min_val as int, max_val as int),
{
    let mut out: Vec<u8> = Vec::with_capacity(values.len());
    let mut i: usize = 0;
    while i < values.len()
        invariant
            i <= values.len(),
            out@.len() == i,
            forall|k: int|
                0 <= k < i ==> out@[k] == display_byte(
                    values@[k],
                    nodata,
                    min_val as int,
                    max_val as int,
                ) as u8,
        decreases values.len() - i,
    {
        let s = values[i];
        let byte: u8 = match s {
            Sample::NonFinite => 0,
            Sample::Value(v) => {
                if sample_is_valid(s, nodata) {
                    stretch_value(v, min_val, max_val)
                } else {
                    0
                }
            },
        };
        out.push(byte);
        i += 1;
    }
    assert(out@ =~= display_bytes(values@, nodata, min_val as int, max_val as int));
    out
}

/// A value at or below the lower end of the window maps to 0.
pub proof fn lemma_stretch_low(v: int, low: int, high: int)
    requires
        low < high,
        v <= low,
    ensures
        stretch_byte(v, low, high) == 0,
{
    let scaled = (v - low) * 255 / (high - low);
    assert((v - low) * 255 <= 0) by (nonlinear_arith)
        requires
            v <= low,
    ;
    assert(scaled <= 0) by (nonlinear_arith)
        requires
            scaled == (v - low) * 255 / (high - low),
            (v - low) * 255 <= 0,
            high - low > 0,
    ;
}

/// A value at or above the upper end of the window maps to 255.
pub proof fn lemma_stretch_high(v: int, low: int, high: int)
    requires
        low < high,
        v >= high,
    ensures
        stretch_byte(v, low, high) == 255,
{
    let width = high - low;
    let scaled = (v - low) * 255 / width;
    assert((v - low) * 255 >= 255 * width) by (nonlinear_arith)
        requires
            v - low >= width,
    ;
    vstd::arithmetic::div_mod::lemma_div_is_ordered(255 * width, (v - low) * 255, width);
    vstd::arithmetic::div_mod::lemma_div_multiples_vanish(255, width);
    assert(255 * width == width * 255) by (nonlinear_arith);
}

/// A value inside the window maps to its share of 255, rounded down.
pub proof fn lemma_stretch_between(v: int, low: int, high: int)
    requires
        low < v < high,
    ensures
        stretch_byte(v, low, high) == (v - low) * 255 / (high - low),
        0 <= (v - low) * 255 / (high - low) <= 255,
{
    let width = high - low;
    assert(0 <= (v - low) * 255 <= 255 * width) by (nonlinear_arith)
        requires
            0 < v - low < width,
    ;
    vstd::arithmetic::div_mod::lemma_div_is_ordered(0, (v - low) * 255, width);
    vstd::arithmetic::div_mod::lemma_div_is_ordered((v - low) * 255, 255 * width, width);
    vstd::arithmetic::div_mod::lemma_div_multiples_vanish(255, width);
    assert(255 * width == width * 255) by (nonlinear_arith);
    assert(0int / width == 0) by (nonlinear_arith)
        requires
            width > 0,
    ;
}


/// The valid values of three bands, pooled.
pub open spec fn pooled_values(
    r: Seq<Sample>,
    g: Seq<Sample>,
    b: Seq<Sample>,
    nodata: Option<i64>,
) -> Seq<i64> {
    valid_values(r, nodata) + valid_values(g, nodata) + valid_values(b, nodata)
}

/// `<[i64]>::sort_unstable`: afterwards the vector holds the values it held before,
/// in ascending order.
#[verifier::external_body]
fn sort_values(values: &mut Vec<i64>)
    ensures
        final(values)@.to_multiset() == old(values)@.to_multiset(),
        forall|i: int, j: int|
            0 <= i < j < final(values)@.len() ==> final(values)@[i] <= final(values)@[j],
{
    values.sort_unstable()
}

/// Whoever holds the values of a pool in ascending order holds `ascending` of it.
pub proof fn lemma_ascending_unique(pool: Seq<i64>, sorted: Seq<i64>)
    requires
        sorted.to_multiset() == pool.to_multiset(),
        forall|i: int, j: int| 0 <= i < j < sorted.len() ==> sorted[i] <= sorted[j],
    ensures
        sorted == ascending(pool),
{
    assert(total_ordering(at_most()));
    pool.lemma_sort_by_ensures(at_most());
    assert(sorted_by(sorted, at_most()));
    lemma_sorted_unique(sorted, ascending(pool), at_most());
}

/// The ascending values are as many as the pool holds, they are in order, and each of
/// them is a value of the pool.
pub proof fn lemma_ascending(pool: Seq<i64>)
    ensures
        ascending(pool).len() == pool.len(),
        ascending(pool).to_multiset() == pool.to_multiset(),
        forall|i: int, j: int|
            0 <= i <= j < pool.len() ==> ascending(pool)[i] <= ascending(pool)[j],
        forall|i: int| 0 <= i < pool.len() ==> pool.contains(#[trigger] ascending(pool)[i]),
{
    assert(total_ordering(at_most()));
    pool.lemma_sort_by_ensures(at_most());
    pool.to_multiset_ensures();
    ascending(pool).to_multiset_ensures();
    assert forall|i: int, j: int| 0 <= i <= j < pool.len() implies ascending(pool)[i]
        <= ascending(pool)[j] by {
        if i < j {
            assert(at_most()(ascending(pool)[i], ascending(pool)[j]));
        }
    }
    assert forall|i: int| 0 <= i < pool.len() implies pool.contains(
        #[trigger] ascending(pool)[i],
    ) by {
        assert(ascending(pool).contains(ascending(pool)[i]));
    }
}

/// A percentile is read inside the pool.
pub proof fn lemma_percentile_index_bounds(n: int, p: Fraction)
    requires
        n > 0,
        p.wf(),
    ensures
        0 <= percentile_index(n, p) < n,
{
    assert(0 <= n * p.num) by (nonlinear_arith)
        requires
            n > 0,
            p.num >= 0,
    ;
    lemma_quotient_monotone(0, n * p.num, p.den as int);
    assert(0int / (p.den as int) == 0) by (nonlinear_arith)
        requires
            p.den > 0,
    ;
}

/// Computes the position at which a percentile is read.
pub fn percentile_position(n: usize, p: Fraction) -> (i: usize)
    requires
        n > 0,
        p.wf(),
    ensures
        i == percentile_index(n as int, p),
        i < n,
{
    proof {
        lemma_percentile_index_bounds(n as int, p);
    }
    assert(0 <= n * p.num <= 0xffff_ffff_ffff_ffff * 0xffff_ffff_ffff_ffff) by (nonlinear_arith)
        requires
            0 <= n <= 0xffff_ffff_ffff_ffff,
            0 <= p.num <= 0xffff_ffff_ffff_ffff,
    ;
    let at: u128 = (n as u128) * (p.num as u128) / (p.den as u128);
    if at < (n - 1) as u128 {
        at as usize
    } else {
        n - 1
    }
}

/// Appends the valid values of an array to a pool.
pub fn append_valid(values: &[Sample], nodata: Option<i64>, pool: &mut Vec<i64>)
    ensures
        final(pool)@ == old(pool)@ + valid_values(values@, nodata),
{
    let mut i: usize = 0;
    proof {
        assert(values@.take(0) =~= Seq::<Sample>::empty());
        assert(valid_values(values@.take(0), nodata) =~= Seq::<i64>::empty());
    }
    while i < values.len()
        invariant
            i <= values.len(),
            pool@ == old(pool)@ + valid_values(values@.take(i as int), nodata),
        decreases values.len() - i,
    {
        let s = values[i];
        proof {
            lemma_valid_values_push(values@.take(i as int), s, nodata);
            assert(values@.take(i + 1) =~= values@.take(i as int).push(s));
        }
        match s {
            Sample::NonFinite => {},
            Sample::Value(v) => {
                if sample_is_valid(s, nodata) {
                    pool.push(v);
                    assert(pool@ =~= old(pool)@ + valid_values(values@.take(i + 1), nodata));
                }
            },
        }
        i += 1;
    }
    assert(values@.take(values@.len() as int) =~= values@);
}

/// One more sample adds its value to the valid values if it is valid, and nothing
/// otherwise.
pub proof fn lemma_valid_values_push(samples: Seq<Sample>, s: Sample, nodata: Option<i64>)
    ensures
        valid_values(samples.push(s), nodata) == if is_valid(s, nodata) {
            valid_values(samples, nodata).push(value_of(s))
        } else {
            valid_values(samples, nodata)
        },
{
    let keep = |s: Sample| is_valid(s, nodata);
    let value = |s: Sample| value_of(s);
    samples.lemma_filter_push(s, keep);
    if is_valid(s, nodata) {
        samples.filter(keep).lemma_push_map_commute(value, s);
    }
}

/// Reads the stretch window off a pool of valid values, which it puts in order.
pub fn range_of_pool(pool: Vec<i64>, low_pct: Fraction, high_pct: Fraction) -> (range: (i64, i64))
    requires
        low_pct.wf(),
        high_pct.wf(),
    ensures
        range == percentile_range(pool@, low_pct, high_pct),
{
    let mut sorted = pool;
    if sorted.len() == 0 {
        return (0, 1);
    }
    sort_values(&mut sorted);
    proof {
        lemma_ascending_unique(pool@, sorted@);
        lemma_ascending(pool@);
    }
    let low_idx = percentile_position(sorted.len(), low_pct);
    let high_idx = percentile_position(sorted.len(), high_pct);
    (sorted[low_idx], sorted[high_idx])
}

/// Computes the stretch window that three bands share: the low and the high
/// percentile of their pooled valid values, or `(0, 1)` when no sample is valid.
pub fn compute_global_percentiles(
    r: &[Sample],
    g: &[Sample],
    b: &[Sample],
    nodata: Option<i64>,
    low_pct: Fraction,
    high_pct: Fraction,
) -> (range: (i64, i64))
    requires
        low_pct.wf(),
        high_pct.wf(),
    ensures
        range == percentile_range(pooled_values(r@, g@, b@, nodata), low_pct, high_pct),
{
    let mut pool: Vec<i64> = Vec::new();
    append_valid(r, nodata, &mut pool);
    append_valid(g, nodata, &mut pool);
    append_valid(b, nodata, &mut pool);
    assert(pool@ =~= pooled_values(r@, g@, b@, nodata));
    range_of_pool(pool, low_pct, high_pct)
}

/// Computes the stretch window of a single array: the low and the high percentile of
/// its valid values, or `(0, 1)` when no sample is valid.
pub fn compute_percentiles(
    values: &[Sample],
    nodata: Option<i64>,
    low_pct: Fraction,
    high_pct: Fraction,
) -> (range: (i64, i64))
    requires
        low_pct.wf(),
        high_pct.wf(),
    ensures
        range == percentile_range(valid_values(values@, nodata), low_pct, high_pct),
{
    let mut pool: Vec<i64> = Vec::new();
    append_valid(values, nodata, &mut pool);
    assert(pool@ =~= valid_values(values@, nodata));
    range_of_pool(pool, low_pct, high_pct)
}

/// Normalizes a single array: the stretch window is read off the array's own valid
/// values. An array without valid samples gives zeros only.
pub fn normalize(values: &[Sample], nodata: Option<i64>, low_pct: Fraction, high_pct: Fraction) -> (out:
    Vec<u8>)
    requires
        low_pct.wf(),
        high_pct.wf(),
    ensures
        out@ == display_bytes(
            values@,
            nodata,
            percentile_range(valid_values(values@, nodata), low_pct, high_pct).0 as int,
            percentile_range(valid_values(values@, nodata), low_pct, high_pct).1 as int,
        ),
{
    let range = compute_percentiles(values, nodata, low_pct, high_pct);
    normalize_with_range(values, nodata, range.0, range.1)
}

/// Normalizes three bands with one stretch window, read off their pooled valid
/// values, so that the bands keep their brightness relative to each other.
pub fn normalize_shared(
    r: &[Sample],
    g: &[Sample],
    b: &[Sample],
    nodata: Option<i64>,
    low_pct: Fraction,
    high_pct: Fraction,
) -> (out: (Vec<u8>, Vec<u8>, Vec<u8>))
    requires
        low_pct.wf(),
        high_pct.wf(),
    ensures
        ({
            let range = percentile_range(pooled_values(r@, g@, b@, nodata), low_pct, high_pct);
            &&& out.0@ == display_bytes(r@, nodata, range.0 as int, range.1 as int)
            &&& out.1@ == display_bytes(g@, nodata, range.0 as int, range.1 as int)
            &&& out.2@ == display_bytes(b@, nodata, range.0 as int, range.1 as int)
        }),
{
    let range = compute_global_percentiles(r, g, b, nodata, low_pct, high_pct);
    let red = normalize_with_range(r, nodata, range.0, range.1);
    let green = normalize_with_range(g, nodata, range.0, range.1);
    let blue = normalize_with_range(b, nodata, range.0, range.1);
    (red, green, blue)
}

/// Every display value is a byte, and under a window with `low < high` the value
/// `low` maps to 0 and the value `high` to 255.
pub proof fn lemma_window_ends(v: int, low: int, high: int)
    ensures
        0 <= stretch_byte(v, low, high) <= 255,
        low < high ==> stretch_byte(low, low, high) == 0,
        low < high ==> stretch_byte(high, low, high) == 255,
{
    if low < high {
        lemma_stretch_low(low, low, high);
        lemma_stretch_high(high, low, high);
    }
}

/// A sample that holds the window's lower end displays as 0 and one that holds its
/// upper end as 255, unless that value is the nodata sentinel.
pub proof fn lemma_window_ends_of_samples(nodata: Option<i64>, low: i64, high: i64)
    requires
        low < high,
    ensures
        nodata != Some(low) ==> display_byte(Sample::Value(low), nodata, low as int, high as int)
            == 0,
        nodata != Some(high) ==> display_byte(Sample::Value(high), nodata, low as int, high as int)
            == 255,
{
    lemma_window_ends(low as int, low as int, high as int);
}

/// The stretch keeps the order of values: a larger value never displays darker.
pub proof fn lemma_stretch_monotone(v: int, w: int, low: int, high: int)
    requires
        v <= w,
    ensures
        stretch_byte(v, low, high) <= stretch_byte(w, low, high),
{
    if low < high {
        assert((v - low) * 255 <= (w - low) * 255) by (nonlinear_arith)
            requires
                v <= w,
        ;
        lemma_quotient_monotone((v - low) * 255, (w - low) * 255, high - low);
    }
}

/// No valid value of an array is the nodata sentinel.
pub proof fn lemma_valid_values_are_valid(samples: Seq<Sample>, nodata: Option<i64>, i: int)
    requires
        0 <= i < valid_values(samples, nodata).len(),
    ensures
        nodata != Some(valid_values(samples, nodata)[i]),
{
    let keep = |s: Sample| is_valid(s, nodata);
    samples.lemma_filter_pred(keep, i);
}

/// The boundary property: where an array has valid samples and their window has a
/// width, every sample that holds the window's lower end displays as 0 and every
/// sample that holds its upper end as 255.
pub proof fn lemma_boundary_bytes(
    band: Seq<Sample>,
    nodata: Option<i64>,
    low: Fraction,
    high: Fraction,
    i: int,
)
    requires
        low.wf(),
        high.wf(),
        valid_values(band, nodata).len() > 0,
        percentile_range(valid_values(band, nodata), low, high).0 < percentile_range(
            valid_values(band, nodata),
            low,
            high,
        ).1,
        0 <= i < band.len(),
    ensures
        ({
            let window = percentile_range(valid_values(band, nodata), low, high);
            let out = display_bytes(band, nodata, window.0 as int, window.1 as int);
            &&& band[i] == Sample::Value(window.0) ==> out[i] == 0
            &&& band[i] == Sample::Value(window.1) ==> out[i] == 255
        }),
{
    let pool = valid_values(band, nodata);
    let window = percentile_range(pool, low, high);
    lemma_ascending(pool);
    lemma_percentile_index_bounds(pool.len() as int, low);
    lemma_percentile_index_bounds(pool.len() as int, high);
    let a = percentile_index(pool.len() as int, low);
    let b = percentile_index(pool.len() as int, high);
    assert(pool.contains(ascending(pool)[a]));
    assert(pool.contains(ascending(pool)[b]));
    let ka = choose|k: int| 0 <= k < pool.len() && pool[k] == window.0;
    let kb = choose|k: int| 0 <= k < pool.len() && pool[k] == window.1;
    lemma_valid_values_are_valid(band, nodata, ka);
    lemma_valid_values_are_valid(band, nodata, kb);
    lemma_window_ends(window.0 as int, window.0 as int, window.1 as int);
}

/// The sequence that holds every value of `w` three times in a row.
pub open spec fn thrice(w: Seq<i64>) -> Seq<i64> {
    Seq::new(3 * w.len(), |j: int| w[j / 3])
}

/// Repeating every value three times yields the values of three copies.
proof fn lemma_thrice_multiset(w: Seq<i64>)
    ensures
        thrice(w).to_multiset() =~= w.to_multiset().add(w.to_multiset()).add(w.to_multiset()),
    decreases w.len(),
{
    broadcast use vstd::multiset::group_multiset_axioms;

    if w.len() == 0 {
        assert(thrice(w) =~= Seq::<i64>::empty());
        assert(w =~= Seq::<i64>::empty());
        Seq::<i64>::empty().to_multiset_ensures();
        assert(Seq::<i64>::empty().to_multiset().len() == 0);
        assert(thrice(w).to_multiset() =~= vstd::multiset::Multiset::<i64>::empty());
        assert(w.to_multiset() =~= vstd::multiset::Multiset::<i64>::empty());
    } else {
        let head = w.drop_last();
        let x = w.last();
        lemma_thrice_multiset(head);
        assert(w =~= head.push(x));
        assert(thrice(w) =~= thrice(head).push(x).push(x).push(x));
        to_multiset_build(head, x);
        to_multiset_build(thrice(head), x);
        to_multiset_build(thrice(head).push(x), x);
        to_multiset_build(thrice(head).push(x).push(x), x);
    }
}

/// Three copies of a pool, put in order, hold every value of the ordered pool three
/// times in a row.
pub proof fn lemma_ascending_of_three_copies(pool: Seq<i64>)
    ensures
        ascending(pool + pool + pool) == thrice(ascending(pool)),
{
    let w = ascending(pool);
    lemma_ascending(pool);
    lemma_thrice_multiset(w);
    lemma_multiset_commutative(pool, pool);
    lemma_multiset_commutative(pool + pool, pool);
    assert forall|i: int, j: int| 0 <= i < j < thrice(w).len() implies thrice(w)[i] <= thrice(
        w,
    )[j] by {
        assert(0 <= i / 3 <= j / 3 < w.len());
    }
    lemma_ascending_unique(pool + pool + pool, thrice(w));
}

/// In three copies of a pool a percentile is read at a position that holds the value
/// which the pool itself holds at that percentile.
pub proof fn lemma_percentile_index_of_three_copies(n: int, p: Fraction)
    requires
        n > 0,
        p.wf(),
    ensures
        percentile_index(3 * n, p) / 3 == percentile_index(n, p),
{
    let d = p.den as int;
    let q = n * p.num / d;
    let q3 = (3 * n) * p.num / d;
    lemma_quotient_bounds(n * p.num, d);
    lemma_quotient_bounds((3 * n) * p.num, d);
    assert((3 * n) * p.num == 3 * (n * p.num)) by (nonlinear_arith);
    assert((3 * q) * d == 3 * (q * d)) by (nonlinear_arith);
    assert((3 * q + 3) * d == 3 * ((q + 1) * d)) by (nonlinear_arith);
    // 3q <= q3 < 3q + 3
    assert(3 * q <= q3) by {
        if q3 < 3 * q {
            assert((q3 + 1) * d <= (3 * q) * d) by (nonlinear_arith)
                requires
                    q3 + 1 <= 3 * q,
                    d > 0,
            ;
        }
    }
    assert(q3 < 3 * q + 3) by {
        if q3 >= 3 * q + 3 {
            assert(q3 * d >= (3 * q + 3) * d) by (nonlinear_arith)
                requires
                    q3 >= 3 * q + 3,
                    d > 0,
            ;
        }
    }
}

/// Three identical bands share the stretch window that each of them has alone.
pub proof fn lemma_identical_bands_share_range(
    band: Seq<Sample>,
    nodata: Option<i64>,
    low: Fraction,
    high: Fraction,
)
    requires
        low.wf(),
        high.wf(),
    ensures
        percentile_range(pooled_values(band, band, band, nodata), low, high) == percentile_range(
            valid_values(band, nodata),
            low,
            high,
        ),
{
    let pool = valid_values(band, nodata);
    let n = pool.len() as int;
    if n > 0 {
        lemma_ascending_of_three_copies(pool);
        lemma_ascending(pool);
        lemma_percentile_index_of_three_copies(n, low);
        lemma_percentile_index_of_three_copies(n, high);
        lemma_percentile_index_bounds(3 * n, low);
        lemma_percentile_index_bounds(3 * n, high);
        assert((pool + pool + pool).len() == 3 * n);
    } else {
        assert(pool + pool + pool =~= pool);
    }
}

/// Shared-range normalization of three identical bands gives each of them the display
/// values that single-array normalization gives the band.
pub proof fn lemma_shared_equals_single(
    band: Seq<Sample>,
    nodata: Option<i64>,
    low: Fraction,
    high: Fraction,
)
    requires
        low.wf(),
        high.wf(),
    ensures
        ({
            let shared = percentile_range(pooled_values(band, band, band, nodata), low, high);
            let single = percentile_range(valid_values(band, nodata), low, high);
            display_bytes(band, nodata, shared.0 as int, shared.1 as int) == display_bytes(
                band,
                nodata,
                single.0 as int,
                single.1 as int,
            )
        }),
{
    lemma_identical_bands_share_range(band, nodata, low, high);
}

/// The valid values of an array in which every sample holds the same valid value are
/// as many copies of that value.
proof fn lemma_valid_values_of_flat(band: Seq<Sample>, nodata: Option<i64>, c: i64)
    requires
        nodata != Some(c),
        forall|i: int| 0 <= i < band.len() ==> band[i] == Sample::Value(c),
    ensures
        valid_values(band, nodata).len() == band.len(),
        forall|i: int|
            0 <= i < band.len() ==> (#[trigger] valid_values(band, nodata)[i]) == c,
    decreases band.len(),
{
    if band.len() > 0 {
        let head = band.drop_last();
        lemma_valid_values_of_flat(head, nodata, c);
        assert(band =~= head.push(band.last()));
        lemma_valid_values_push(head, band.last(), nodata);
    } else {
        assert(band =~= Seq::<Sample>::empty());
        assert(valid_values(band, nodata) =~= Seq::<i64>::empty());
    }
}

/// A flat array, in which every sample holds the same value and none is nodata, has a
/// window without width and displays as 128 throughout.
pub proof fn lemma_flat_is_mid_gray(
    band: Seq<Sample>,
    nodata: Option<i64>,
    c: i64,
    low: Fraction,
    high: Fraction,
)
    requires
        low.wf(),
        high.wf(),
        band.len() > 0,
        nodata != Some(c),
        forall|i: int| 0 <= i < band.len() ==> band[i] == Sample::Value(c),
    ensures
        percentile_range(valid_values(band, nodata), low, high) == (c, c),
        forall|i: int|
            0 <= i < band.len() ==> (#[trigger] display_bytes(band, nodata, c as int, c as int)[i])
                == 128,
{
    let pool = valid_values(band, nodata);
    lemma_valid_values_of_flat(band, nodata, c);
    lemma_ascending(pool);
    lemma_percentile_index_bounds(pool.len() as int, low);
    lemma_percentile_index_bounds(pool.len() as int, high);
    let i = percentile_index(pool.len() as int, low);
    let j = percentile_index(pool.len() as int, high);
    assert(pool.contains(ascending(pool)[i]));
    assert(pool.contains(ascending(pool)[j]));
}

/// An array that holds nothing but the nodata sentinel and values that are not
/// finite displays as 0 throughout, whatever the window.
pub proof fn lemma_no_valid_sample_is_black(
    band: Seq<Sample>,
    nodata: Option<i64>,
    low: int,
    high: int,
)
    requires
        forall|i: int| 0 <= i < band.len() ==> !is_valid(#[trigger] band[i], nodata),
    ensures
        display_bytes(band, nodata, low, high) == Seq::new(band.len(), |i: int| 0u8),
{
    assert(display_bytes(band, nodata, low, high) =~= Seq::new(band.len(), |i: int| 0u8));
}

} // verus!
