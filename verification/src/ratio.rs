use vstd::prelude::*;

verus! {

/// A non-negative rational number `num / den`, with `den` positive.
pub struct Ratio {
    pub num: nat,
    pub den: nat,
}

impl Ratio {
    /// `self < other`, decided exactly by cross-multiplication.
    pub open spec fn lt(self, other: Ratio) -> bool {
        self.num * other.den < other.num * self.den
    }

    /// `self > other`.
    pub open spec fn gt(self, other: Ratio) -> bool {
        other.lt(self)
    }

    /// `self <= other`.
    pub open spec fn le(self, other: Ratio) -> bool {
        !other.lt(self)
    }
}

/// Among the indices `lo..hi`, `k` is the first at which `f` is largest:
/// no index has a larger value, and every index before `k` has a smaller one.
pub open spec fn first_max(f: spec_fn(int) -> Ratio, lo: int, hi: int, k: int) -> bool {
    &&& lo <= k < hi
    &&& forall|j: int| lo <= j < hi ==> (#[trigger] f(j)).le(f(k))
    &&& forall|j: int| lo <= j < k ==> (#[trigger] f(j)).lt(f(k))
}

/// Among the indices `lo..hi`, `k` is the first at which `f` is smallest:
/// no index has a smaller value, and every index before `k` has a larger one.
pub open spec fn first_min(f: spec_fn(int) -> Ratio, lo: int, hi: int, k: int) -> bool {
    &&& lo <= k < hi
    &&& forall|j: int| lo <= j < hi ==> f(k).le(#[trigger] f(j))
    &&& forall|j: int| lo <= j < k ==> f(k).lt(#[trigger] f(j))
}

/// All values of `f` on `lo..hi` have a positive denominator.
pub open spec fn positive_on(f: spec_fn(int) -> Ratio, lo: int, hi: int) -> bool {
    forall|j: int| lo <= j < hi ==> (#[trigger] f(j)).den > 0
}

/// From `x <= y` and `y < z` follows `x < z`.
pub proof fn lemma_le_lt(x: Ratio, y: Ratio, z: Ratio)
    requires
        x.den > 0,
        y.den > 0,
        z.den > 0,
        x.le(y),
        y.lt(z),
    ensures
        x.lt(z),
{
    let a = x.num as int;
    let b = x.den as int;
    let c = y.num as int;
    let d = y.den as int;
    let e = z.num as int;
    let f = z.den as int;
    assert((a * f) * d <= (c * f) * b) by (nonlinear_arith)
        requires
            a * d <= c * b,
            f >= 0,
    ;
    assert((c * f) * b < (e * b) * d) by (nonlinear_arith)
        requires
            c * f < e * d,
            b > 0,
    ;
    assert(a * f < e * b) by (nonlinear_arith)
        requires
            (a * f) * d < (e * b) * d,
            d > 0,
    ;
}

/// From `x < y` and `y <= z` follows `x < z`.
pub proof fn lemma_lt_le(x: Ratio, y: Ratio, z: Ratio)
    requires
        x.den > 0,
        y.den > 0,
        z.den > 0,
        x.lt(y),
        y.le(z),
    ensures
        x.lt(z),
{
    let a = x.num as int;
    let b = x.den as int;
    let c = y.num as int;
    let d = y.den as int;
    let e = z.num as int;
    let f = z.den as int;
    assert((a * f) * d < (c * f) * b) by (nonlinear_arith)
        requires
            a * d < c * b,
            f > 0,
    ;
    assert((c * f) * b <= (e * b) * d) by (nonlinear_arith)
        requires
            c * f <= e * d,
            b >= 0,
    ;
    assert(a * f < e * b) by (nonlinear_arith)
        requires
            (a * f) * d < (e * b) * d,
            d > 0,
    ;
}

/// A search for the first maximum goes on by one index: a strictly larger
/// value takes over, any other leaves the earlier index in place.
pub proof fn lemma_first_max_next(f: spec_fn(int) -> Ratio, lo: int, hi: int, k: int)
    requires
        first_max(f, lo, hi, k),
        positive_on(f, lo, hi + 1),
    ensures
        f(hi).gt(f(k)) ==> first_max(f, lo, hi + 1, hi),
        !f(hi).gt(f(k)) ==> first_max(f, lo, hi + 1, k),
{
    if f(hi).gt(f(k)) {
        assert forall|j: int| lo <= j < hi implies (#[trigger] f(j)).lt(f(hi)) by {
            lemma_le_lt(f(j), f(k), f(hi));
        }
    }
}

/// A search for the first minimum goes on by one index: a strictly smaller
/// value takes over, any other leaves the earlier index in place.
pub proof fn lemma_first_min_next(f: spec_fn(int) -> Ratio, lo: int, hi: int, k: int)
    requires
        first_min(f, lo, hi, k),
        positive_on(f, lo, hi + 1),
    ensures
        f(hi).lt(f(k)) ==> first_min(f, lo, hi + 1, hi),
        !f(hi).lt(f(k)) ==> first_min(f, lo, hi + 1, k),
{
    if f(hi).lt(f(k)) {
        assert forall|j: int| lo <= j < hi implies f(hi).lt(#[trigger] f(j)) by {
            lemma_lt_le(f(hi), f(k), f(j));
        }
    }
}

/// A range has one first maximum at most.
pub proof fn lemma_first_max_unique(f: spec_fn(int) -> Ratio, lo: int, hi: int, k: int, m: int)
    requires
        first_max(f, lo, hi, k),
        first_max(f, lo, hi, m),
    ensures
        k == m,
{
    if k < m {
        assert(f(k).lt(f(m)));
        assert(f(m).le(f(k)));
    } else if m < k {
        assert(f(m).lt(f(k)));
        assert(f(k).le(f(m)));
    }
}

/// A range has one first minimum at most.
pub proof fn lemma_first_min_unique(f: spec_fn(int) -> Ratio, lo: int, hi: int, k: int, m: int)
    requires
        first_min(f, lo, hi, k),
        first_min(f, lo, hi, m),
    ensures
        k == m,
{
    if k < m {
        assert(f(m).lt(f(k)));
        assert(f(k).le(f(m)));
    } else if m < k {
        assert(f(k).lt(f(m)));
        assert(f(m).le(f(k)));
    }
}

/// Two to the power 64: the radix of the two-digit products below.
pub const RADIX: u128 = 0x1_0000_0000_0000_0000;

/// The largest numerator that `ratio_less` takes: two to the power 96, less one.
pub const NUMERATOR_MAX: u128 = 0xffff_ffff_ffff_ffff_ffff_ffff;

/// The product `a * d` as two digits to the radix two to the power 64:
/// the result is `(high, low)` with `a * d == high * RADIX + low`.
fn wide_product(a: u128, d: usize) -> (r: (u128, u128))
    requires
        a <= NUMERATOR_MAX,
    ensures
        r.1 < RADIX,
        r.0 * RADIX + r.1 == a * d,
{
    let a_high: u128 = a / RADIX;
    let a_low: u128 = a % RADIX;
    let factor: u128 = d as u128;
    assert(a_low * factor <= 0xffff_ffff_ffff_ffff * 0xffff_ffff_ffff_ffff) by (nonlinear_arith)
        requires
            a_low <= 0xffff_ffff_ffff_ffff,
            factor <= 0xffff_ffff_ffff_ffff,
    ;
    assert(a_high * factor <= 0xffff_ffff * 0xffff_ffff_ffff_ffff) by (nonlinear_arith)
        requires
            a_high <= 0xffff_ffff,
            factor <= 0xffff_ffff_ffff_ffff,
    ;
    let partial: u128 = a_low * factor;
    let high: u128 = a_high * factor + partial / RADIX;
    let low: u128 = partial % RADIX;
    assert(high * RADIX + low == a * d) by (nonlinear_arith)
        requires
            a == a_high * RADIX + a_low,
            partial == a_low * factor,
            factor == d,
            high == a_high * factor + partial / RADIX,
            low == partial % RADIX,
            partial == (partial / RADIX) * RADIX + partial % RADIX,
    ;
    (high, low)
}

/// Decides `a / b < c / d` exactly, for positive `b` and `d`, without
/// overflow: the two cross products are compared digit by digit.
pub fn ratio_less(a: u128, b: usize, c: u128, d: usize) -> (r: bool)
    requires
        a <= NUMERATOR_MAX,
        c <= NUMERATOR_MAX,
    ensures
        r == (a * d < c * b),
        r == (Ratio { num: a as nat, den: b as nat }).lt(Ratio { num: c as nat, den: d as nat }),
{
    let left = wide_product(a, d);
    let right = wide_product(c, b);
    left.0 < right.0 || (left.0 == right.0 && left.1 < right.1)
}

} // verus!
