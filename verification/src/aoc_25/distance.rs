//! The distance between two places as a number in IEEE 754 double precision,
//! held by its bit pattern. The square root of a whole number is worked out
//! in integers, to the bit that rounding to nearest gives.

use vstd::prelude::*;
use std::cmp::Ordering;
use std::hash::{Hash, Hasher};
use vstd::std_specs::cmp::PartialEqSpec;
use vstd::std_specs::cmp::PartialOrdSpec;

verus! {

/// Two to the power of 52.
pub const TWO_52: u64 = 0x10_0000_0000_0000;

/// Two to the power of 53: a double holds 53 binary digits.
pub const TWO_53: u64 = 0x20_0000_0000_0000;

/// Two to the power of 104.
pub const TWO_104: u128 = 0x100_0000_0000_0000_0000_0000_0000;

/// Two to the power of 106.
pub const TWO_106: u128 = 0x400_0000_0000_0000_0000_0000_0000;

/// The bit pattern of the sign of a double.
pub const SIGN_BIT: u64 = 0x8000_0000_0000_0000;

/// The bit pattern of positive infinity; above it, without the sign, lie the
/// patterns that are not a number.
pub const INFINITY_BITS: u64 = 0x7ff0_0000_0000_0000;

/// The bit pattern that stands for every value that is not a number.
pub const CANONICAL_NAN: u64 = 0x7ff8_0000_0000_0000;

/// Four to the power of `t`.
pub open spec fn pow4(t: nat) -> nat
    decreases t,
{
    if t == 0 {
        1
    } else {
        4 * pow4((t - 1) as nat)
    }
}

/// How often `y` has to be multiplied by four to reach two to the power of
/// 104.
pub open spec fn scale_steps(y: nat) -> nat
    decreases
            if y < 0x100_0000_0000_0000_0000_0000_0000 {
                0x100_0000_0000_0000_0000_0000_0000 - y
            } else {
                0
            },
{
    if y == 0 || y >= 0x100_0000_0000_0000_0000_0000_0000 {
        0
    } else {
        1 + scale_steps(4 * y)
    }
}

/// `m` is the square root of `y`, rounded down.
pub open spec fn is_floor_root(y: nat, m: nat) -> bool {
    m * m <= y < (m + 1) * (m + 1)
}

/// The square root of `y`, rounded down.
pub open spec fn floor_root(y: nat) -> nat {
    choose|m: nat| is_floor_root(y, m)
}

/// The whole number nearest to the square root of `y`. The root is never
/// half-way between two whole numbers.
pub open spec fn nearest_root(y: nat) -> nat {
    let m = floor_root(y);
    if y - m * m > m {
        m + 1
    } else {
        m
    }
}

/// The bit pattern of the double nearest to the square root of `x`, for an
/// `x` that a double holds: the root is scaled by a power of two so that it
/// has 53 binary digits, and rounded; the bits are those digits without the
/// leading one, below the exponent that undoes the scaling.
pub open spec fn root_bits(x: nat) -> int {
    if x == 0 {
        0
    } else {
        let t = scale_steps(x);
        (1075 - t) * TWO_52 + nearest_root(x * pow4(t)) - TWO_52
    }
}

/// The distance between neighbouring doubles around `n`, for an `n` below two
/// to the power of 64: 1 up to two to the power of 53, and twice as much for
/// each binary digit more.
pub open spec fn unit_of(n: nat) -> nat {
    if n < 0x20_0000_0000_0000 {
        1
    } else if n < 0x40_0000_0000_0000 {
        2
    } else if n < 0x80_0000_0000_0000 {
        4
    } else if n < 0x100_0000_0000_0000 {
        8
    } else if n < 0x200_0000_0000_0000 {
        16
    } else if n < 0x400_0000_0000_0000 {
        32
    } else if n < 0x800_0000_0000_0000 {
        64
    } else if n < 0x1000_0000_0000_0000 {
        128
    } else if n < 0x2000_0000_0000_0000 {
        256
    } else if n < 0x4000_0000_0000_0000 {
        512
    } else if n < 0x8000_0000_0000_0000 {
        1024
    } else {
        2048
    }
}

/// The double nearest to `n`, as a whole number: the multiple of the unit
/// that is nearest, and of two that are equally near the even one.
pub open spec fn rounded(n: nat) -> nat {
    let p = unit_of(n);
    let q = n / p;
    let r = n % p;
    if 2 * r > p || (2 * r == p && q % 2 == 1) {
        (q + 1) * p
    } else {
        q * p
    }
}

/// The bit pattern of the double that is the square root of `total`, worked
/// out as doubles do: `total` is rounded to a double first, and the root of
/// that double is rounded again.
pub open spec fn distance_bits(total: nat) -> int {
    root_bits(rounded(total))
}

/// Four to the power of 52 is two to the power of 104.
pub proof fn lemma_pow4_52()
    ensures
        pow4(52) == TWO_104,
{
    reveal_with_fuel(pow4, 53);
}

/// A number has one square root rounded down.
pub proof fn lemma_floor_root_unique(y: nat, a: nat, b: nat)
    requires
        is_floor_root(y, a),
        is_floor_root(y, b),
    ensures
        a == b,
{
    assert(a == b) by (nonlinear_arith)
        requires
            a * a <= y < (a + 1) * (a + 1),
            b * b <= y < (b + 1) * (b + 1),
    ;
}

/// The number that `is_floor_root` holds of is the square root rounded down.
pub proof fn lemma_floor_root(y: nat, m: nat)
    requires
        is_floor_root(y, m),
    ensures
        floor_root(y) == m,
{
    lemma_floor_root_unique(y, m, floor_root(y));
}

/// The double nearest to `n`, for an `n` below two to the power of 63.
pub fn round_to_double(n: u64) -> (x: u64)
    requires
        n < 0x8000_0000_0000_0000,
    ensures
        x == rounded(n as nat),
        n > 0 ==> x > 0,
{
    let p: u64 = if n < 0x20_0000_0000_0000 {
        1
    } else if n < 0x40_0000_0000_0000 {
        2
    } else if n < 0x80_0000_0000_0000 {
        4
    } else if n < 0x100_0000_0000_0000 {
        8
    } else if n < 0x200_0000_0000_0000 {
        16
    } else if n < 0x400_0000_0000_0000 {
        32
    } else if n < 0x800_0000_0000_0000 {
        64
    } else if n < 0x1000_0000_0000_0000 {
        128
    } else if n < 0x2000_0000_0000_0000 {
        256
    } else if n < 0x4000_0000_0000_0000 {
        512
    } else {
        1024
    };
    assert(p == unit_of(n as nat));
    assert(n < TWO_53 * p);
    let q: u64 = n / p;
    let r: u64 = n % p;
    assert(q < TWO_53 && (q + 1) * p <= TWO_53 * p && q * p <= n) by (nonlinear_arith)
        requires
            q == n / p,
            0 < p,
            n < TWO_53 * p,
    ;
    assert(n > 0 ==> n >= p);
    assert((q + 1) * p > 0 && (n >= p ==> q * p > 0)) by (nonlinear_arith)
        requires
            q == n / p,
            0 < p,
    ;
    if 2 * r > p || (2 * r == p && q % 2 == 1) {
        (q + 1) * p
    } else {
        q * p
    }
}

/// The bit pattern of the double nearest to the square root of `x`.
pub fn root_to_double(x: u64) -> (bits: u64)
    ensures
        bits == root_bits(x as nat),
        bits < SIGN_BIT,
{
    if x == 0 {
        return 0;
    }
    let mut y: u128 = x as u128;
    let mut t: u64 = 0;
    proof {
        lemma_pow4_52();
        assert(pow4(0) == 1);
        assert(x * pow4(0) == x) by (nonlinear_arith)
            requires
                pow4(0) == 1,
        ;
        assert((x as nat) * pow4(52) >= TWO_104) by (nonlinear_arith)
            requires
                x >= 1,
                pow4(52) == TWO_104,
        ;
    }
    while y < TWO_104
        invariant
            0 < y < TWO_106,
            y == x * pow4(t as nat),
            t <= 52,
            t < 52 || y >= TWO_104,
            scale_steps(x as nat) == t + scale_steps(y as nat),
            (y as nat) * pow4((52 - t) as nat) >= TWO_104,
        decreases
                if y < 0x100_0000_0000_0000_0000_0000_0000 {
                    0x100_0000_0000_0000_0000_0000_0000 - y
                } else {
                    0
                },
    {
        proof {
            assert(pow4((52 - t) as nat) == 4 * pow4((51 - t) as nat));
            assert((4 * y) * pow4((51 - t) as nat) == y * pow4((52 - t) as nat)) by (nonlinear_arith)
                requires
                    pow4((52 - t) as nat) == 4 * pow4((51 - t) as nat),
            ;
            assert(x * pow4((t + 1) as nat) == 4 * (x * pow4(t as nat))) by (nonlinear_arith)
                requires
                    pow4((t + 1) as nat) == 4 * pow4(t as nat),
            ;
        }
        y = y * 4;
        t = t + 1;
    }
    // the square root of y lies between two to the power of 52 and of 53
    let mut lo: u128 = 0x10_0000_0000_0000;
    let mut hi: u128 = 0x20_0000_0000_0000;
    assert(lo * lo == TWO_104 && hi * hi == TWO_106) by (nonlinear_arith)
        requires
            lo == 0x10_0000_0000_0000,
            hi == 0x20_0000_0000_0000,
    ;
    while hi - lo > 1
        invariant
            0x10_0000_0000_0000 <= lo < hi <= 0x20_0000_0000_0000,
            lo * lo <= y < hi * hi,
        decreases hi - lo,
    {
        let mid: u128 = lo + (hi - lo) / 2;
        assert(mid * mid <= 0x20_0000_0000_0000 * 0x20_0000_0000_0000) by (nonlinear_arith)
            requires
                mid <= 0x20_0000_0000_0000,
        ;
        if mid * mid <= y {
            lo = mid;
        } else {
            hi = mid;
        }
    }
    proof {
        assert(is_floor_root(y as nat, lo as nat));
        lemma_floor_root(y as nat, lo as nat);
    }
    let m: u128 = if y - lo * lo > lo {
        lo + 1
    } else {
        lo
    };
    let exponent: u64 = 1075 - t;
    let mantissa: u64 = (m - 0x10_0000_0000_0000) as u64;
    assert(exponent * TWO_52 <= 1075 * TWO_52) by (nonlinear_arith)
        requires
            exponent <= 1075,
    ;
    exponent * TWO_52 + mantissa
}

/// A distance: a double, held by its bit pattern.
#[derive(Clone, Copy, Debug)]
pub struct Distance(pub u64);

impl Distance {
    /// The double is zero, with either sign.
    pub open spec fn is_zero(self) -> bool {
        self.0 == 0 || self.0 == SIGN_BIT
    }

    /// The double is not a number: without its sign, its pattern lies above
    /// that of infinity.
    pub open spec fn is_nan(self) -> bool {
        self.0 % SIGN_BIT > INFINITY_BITS
    }

    /// The bit pattern that stands for the double where distances are
    /// compared for equality: one pattern for both zeros, one for all that is
    /// not a number, and its own pattern for any other double.
    pub open spec fn canonical(self) -> u64 {
        if self.is_zero() {
            0
        } else if self.is_nan() {
            CANONICAL_NAN
        } else {
            self.0
        }
    }

    /// The place of the distance in the order of distances, which is the
    /// total order of doubles taken on the canonical bit patterns: the
    /// positive ones stand in the order of their patterns, the negative ones
    /// below them in the reverse order of theirs.
    pub open spec fn rank(self) -> int {
        if self.canonical() < SIGN_BIT {
            self.canonical() as int
        } else {
            SIGN_BIT - 1 - self.canonical()
        }
    }

    /// The bit pattern of the double.
    pub fn bits(&self) -> (b: u64)
        ensures
            b == self.0,
    {
        self.0
    }

    /// The canonical bit pattern of the distance: all that is not a number has
    /// one pattern, both zeros have one, and any other double has its own.
    pub fn norm_bits(self) -> (b: u64)
        ensures
            b == self.canonical(),
    {
        let x: u64 = self.0;
        if x == 0 || x == SIGN_BIT {
            // both zeros
            0
        } else if x % SIGN_BIT > INFINITY_BITS {
            // all that is not a number
            CANONICAL_NAN
        } else {
            x
        }
    }

    /// The place of the distance in the order of distances.
    pub fn order_key(&self) -> (k: i64)
        ensures
            k == self.rank(),
    {
        let bits: u64 = self.norm_bits();
        if bits < SIGN_BIT {
            bits as i64
        } else {
            -1i64 - ((bits - SIGN_BIT) as i64)
        }
    }

    /// How the distance stands to `other` in the order of distances.
    pub fn cmp(&self, other: &Self) -> (o: Ordering)
        ensures
            o is Less <==> self.rank() < other.rank(),
            o is Equal <==> self.rank() == other.rank(),
            o is Greater <==> self.rank() > other.rank(),
    {
        let left: i64 = self.order_key();
        let right: i64 = other.order_key();
        if left < right {
            Ordering::Less
        } else if left > right {
            Ordering::Greater
        } else {
            Ordering::Equal
        }
    }

    /// The square root of `total`, as doubles work it out.
    pub fn of_square(total: i64) -> (d: Distance)
        requires
            0 <= total,
        ensures
            d.0 == distance_bits(total as nat),
            d.0 < SIGN_BIT,
    {
        Distance(root_to_double(round_to_double(total as u64)))
    }
}

impl PartialEq for Distance {
    fn eq(&self, other: &Self) -> (r: bool) {
        self.norm_bits() == other.norm_bits()
    }
}

impl vstd::std_specs::cmp::PartialEqSpecImpl for Distance {
    open spec fn obeys_eq_spec() -> bool {
        true
    }

    open spec fn eq_spec(&self, other: &Self) -> bool {
        self.canonical() == other.canonical()
    }
}

impl Eq for Distance {

}

/// Feeds `bits` to the hasher with `<u64 as Hash>::hash` of std. Nothing is
/// claimed of what the hasher makes of them.
#[verifier::external_body]
fn write_bits<H: Hasher>(bits: u64, state: &mut H) {
    bits.hash(state);
}

impl Hash for Distance {
    /// Feeds the canonical bit pattern of the distance to the hasher, and
    /// nothing else: distances that are equal are hashed alike.
    fn hash<H: Hasher>(&self, state: &mut H) {
        let bits: u64 = self.norm_bits();
        assert(bits == self.canonical());
        write_bits(bits, state);
    }
}

impl PartialOrd for Distance {
    fn partial_cmp(&self, other: &Self) -> (r: Option<Ordering>) {
        Some(self.cmp(other))
    }
}

impl vstd::std_specs::cmp::PartialOrdSpecImpl for Distance {
    open spec fn obeys_partial_cmp_spec() -> bool {
        true
    }

    open spec fn partial_cmp_spec(&self, other: &Self) -> Option<Ordering> {
        if self.rank() < other.rank() {
            Some(Ordering::Less)
        } else if self.rank() > other.rank() {
            Some(Ordering::Greater)
        } else {
            Some(Ordering::Equal)
        }
    }
}

/// Zero compares equal to zero, whatever the signs: the two are equal, they
/// stand at the same place in the order, and they have the same canonical bit
/// pattern, which is all that a hash of a distance is made from.
pub proof fn lemma_zeros_are_equal(a: Distance, b: Distance)
    requires
        a.is_zero(),
        b.is_zero(),
    ensures
        a.eq_spec(&b),
        a.partial_cmp_spec(&b) == Some(Ordering::Equal),
        a.canonical() == b.canonical(),
{
}

/// What is not a number compares equal to anything else that is not a number,
/// whatever the bit patterns: the two are equal, they stand at the same place
/// in the order, and they have the same canonical bit pattern, which is all
/// that a hash of a distance is made from.
pub proof fn lemma_nans_are_equal(a: Distance, b: Distance)
    requires
        a.is_nan(),
        b.is_nan(),
    ensures
        a.eq_spec(&b),
        a.partial_cmp_spec(&b) == Some(Ordering::Equal),
        a.canonical() == b.canonical(),
{
}

/// Distances are equal exactly if they stand at the same place in the order,
/// and exactly if their canonical bit patterns are the same; two doubles that
/// are numbers and not zero are equal only if they are the same double.
pub proof fn lemma_equal_distances(a: Distance, b: Distance)
    ensures
        a.eq_spec(&b) <==> a.canonical() == b.canonical(),
        a.eq_spec(&b) <==> a.rank() == b.rank(),
        a.eq_spec(&b) <==> a.partial_cmp_spec(&b) == Some(Ordering::Equal),
        !a.is_zero() && !a.is_nan() && !b.is_zero() && !b.is_nan() ==> (a.eq_spec(&b) <==> a.0
            == b.0),
{
}

/// Every number has a square root rounded down.
pub proof fn lemma_floor_root_is_root(y: nat)
    ensures
        is_floor_root(y, floor_root(y)),
    decreases y,
{
    if y == 0 {
        assert(is_floor_root(0, 0)) by (nonlinear_arith);
    } else {
        lemma_floor_root_is_root((y - 1) as nat);
        let m = floor_root((y - 1) as nat);
        if (m + 1) * (m + 1) <= y {
            assert(is_floor_root(y, m + 1)) by (nonlinear_arith)
                requires
                    m * m <= y - 1 < (m + 1) * (m + 1),
                    (m + 1) * (m + 1) <= y,
            ;
        } else {
            assert(is_floor_root(y, m));
        }
    }
}

/// A larger number has no smaller square root, rounded down or to the
/// nearest whole number.
pub proof fn lemma_roots_grow(a: nat, b: nat)
    requires
        a <= b,
    ensures
        floor_root(a) <= floor_root(b),
        nearest_root(a) <= nearest_root(b),
{
    lemma_floor_root_is_root(a);
    lemma_floor_root_is_root(b);
    let f = floor_root(a);
    let g = floor_root(b);
    assert(f <= g) by (nonlinear_arith)
        requires
            f * f <= a < (f + 1) * (f + 1),
            g * g <= b < (g + 1) * (g + 1),
            a <= b,
    ;
}

/// The square root of a number between two to the power of 104 and of 106
/// lies between two to the power of 52 and of 53.
pub proof fn lemma_root_in_range(y: nat)
    requires
        TWO_104 <= y < TWO_106,
    ensures
        TWO_52 <= floor_root(y) < TWO_53,
        TWO_52 <= nearest_root(y) <= TWO_53,
{
    lemma_floor_root_is_root(y);
    let f = floor_root(y);
    assert(TWO_52 <= f < TWO_53) by (nonlinear_arith)
        requires
            f * f <= y < (f + 1) * (f + 1),
            0x100_0000_0000_0000_0000_0000_0000 <= y < 0x400_0000_0000_0000_0000_0000_0000,
            TWO_52 == 0x10_0000_0000_0000,
            TWO_53 == 0x20_0000_0000_0000,
    ;
}

/// A number below two to the power of 104 is scaled to a number between two
/// to the power of 104 and of 106.
pub proof fn lemma_scaled_in_range(x: nat)
    requires
        1 <= x < TWO_104,
    ensures
        TWO_104 <= x * pow4(scale_steps(x)) < TWO_106,
        scale_steps(x) >= 1,
    decreases TWO_104 - x,
{
    if 4 * x >= TWO_104 {
        assert(scale_steps(4 * x) == 0);
        assert(scale_steps(x) == 1);
        assert(pow4(1) == 4) by {
            reveal_with_fuel(pow4, 2);
        }
    } else {
        lemma_scaled_in_range(4 * x);
        let t = scale_steps(4 * x);
        assert(scale_steps(x) == t + 1);
        assert(x * pow4(t + 1) == (4 * x) * pow4(t)) by (nonlinear_arith)
            requires
                pow4(t + 1) == 4 * pow4(t),
        ;
    }
}

/// A larger number is scaled by no more steps, and by the same steps to no
/// smaller number.
pub proof fn lemma_scale_steps_shrink(a: nat, b: nat)
    requires
        1 <= a <= b < TWO_104,
    ensures
        scale_steps(a) >= scale_steps(b),
        scale_steps(a) == scale_steps(b) ==> a * pow4(scale_steps(a)) <= b * pow4(scale_steps(b)),
    decreases TWO_104 - a,
{
    if 4 * b >= TWO_104 {
        assert(scale_steps(4 * b) == 0);
        assert(scale_steps(b) == 1);
        lemma_scaled_in_range(a);
        assert(pow4(1) == 4) by {
            reveal_with_fuel(pow4, 2);
        }
        assert(a * pow4(1) <= b * pow4(1)) by (nonlinear_arith)
            requires
                a <= b,
                pow4(1) == 4,
        ;
    } else {
        lemma_scale_steps_shrink(4 * a, 4 * b);
        let s = scale_steps(4 * a);
        let t = scale_steps(4 * b);
        assert(scale_steps(a) == s + 1);
        assert(scale_steps(b) == t + 1);
        if s == t {
            assert(a * pow4(s + 1) == (4 * a) * pow4(s)) by (nonlinear_arith)
                requires
                    pow4(s + 1) == 4 * pow4(s),
            ;
            assert(b * pow4(t + 1) == (4 * b) * pow4(t)) by (nonlinear_arith)
                requires
                    pow4(t + 1) == 4 * pow4(t),
            ;
        }
    }
}

/// A larger number has no smaller square root among the doubles: the bit
/// patterns of the roots stand in the order of the numbers.
pub proof fn lemma_root_bits_grow(a: nat, b: nat)
    requires
        a <= b < TWO_104,
    ensures
        root_bits(a) <= root_bits(b),
        0 <= root_bits(a),
        root_bits(b) <= INFINITY_BITS,
{
    assert(1075 * TWO_52 < INFINITY_BITS);
    if a >= 1 {
        let s = scale_steps(a);
        let t = scale_steps(b);
        lemma_scaled_in_range(a);
        lemma_scaled_in_range(b);
        lemma_scale_steps_shrink(a, b);
        let ya = a * pow4(s);
        let yb = b * pow4(t);
        lemma_root_in_range(ya);
        lemma_root_in_range(yb);
        lemma_scale_steps_bound(a);
        lemma_scale_steps_bound(b);
        if s == t {
            lemma_roots_grow(ya, yb);
        } else {
            assert((1075 - s) * TWO_52 + TWO_52 <= (1075 - t) * TWO_52) by (nonlinear_arith)
                requires
                    s > t,
            ;
        }
        assert((1075 - t) * TWO_52 <= 1074 * TWO_52) by (nonlinear_arith)
            requires
                t >= 1,
        ;
    } else if b >= 1 {
        lemma_scaled_in_range(b);
        lemma_root_in_range(b * pow4(scale_steps(b)));
        lemma_scale_steps_bound(b);
        assert(0 <= (1075 - scale_steps(b)) * TWO_52 <= 1074 * TWO_52) by (nonlinear_arith)
            requires
                1 <= scale_steps(b) <= 52,
        ;
    }
}

/// No number is scaled by more than 52 steps.
pub proof fn lemma_scale_steps_bound(x: nat)
    requires
        1 <= x < TWO_104,
    ensures
        scale_steps(x) <= 52,
{
    lemma_pow4_52();
    lemma_scale_steps_shrink(1, x);
    lemma_scale_steps_of_one(52);
    assert(pow4(0) == 1);
}

/// Two to the power of 104, divided by four `k` times, is scaled by `k`
/// steps.
pub proof fn lemma_scale_steps_of_one(k: nat)
    requires
        k <= 52,
    ensures
        scale_steps(pow4((52 - k) as nat)) == k,
    decreases k,
{
    lemma_pow4_52();
    if k > 0 {
        lemma_scale_steps_of_one((k - 1) as nat);
        let x = pow4((52 - k) as nat);
        assert(pow4((52 - k + 1) as nat) == 4 * x);
        lemma_pow4_grows((52 - k) as nat, 51);
        lemma_pow4_grows(0, (52 - k) as nat);
        assert(pow4(0) == 1);
        assert(pow4(52) == 4 * pow4(51));
    }
}

/// Four to a higher power is no less.
pub proof fn lemma_pow4_grows(a: nat, b: nat)
    requires
        a <= b,
    ensures
        1 <= pow4(a) <= pow4(b),
    decreases b,
{
    if a < b {
        lemma_pow4_grows(a, (b - 1) as nat);
    } else if a > 0 {
        lemma_pow4_grows((a - 1) as nat, (a - 1) as nat);
    }
}

/// The double nearest to a number below two to the power of 63 lies where the
/// doubles have the unit of the number, or at the first double above them.
pub proof fn lemma_rounded_in_range(n: nat)
    requires
        n < 0x8000_0000_0000_0000,
    ensures
        unit_of(n) == 1 ==> rounded(n) == n,
        unit_of(n) > 1 ==> TWO_52 * unit_of(n) <= rounded(n) <= TWO_53 * unit_of(n),
        rounded(n) <= 0x8000_0000_0000_0000,
{
    let p = unit_of(n);
    let q = n / p;
    assert(n < TWO_53 * p);
    assert(p > 1 ==> n >= TWO_52 * p);
    assert(q < TWO_53 && (q + 1) * p <= TWO_53 * p && q * p <= n && (p > 1 ==> q >= TWO_52) && (p
        > 1 ==> q * p >= TWO_52 * p)) by (nonlinear_arith)
        requires
            q == n / p,
            0 < p,
            n < TWO_53 * p,
            p > 1 ==> n >= TWO_52 * p,
    ;
    assert((q + 1) * p >= q * p) by (nonlinear_arith)
        requires
            0 < p,
    ;
}

/// A larger number has no smaller double nearest to it.
pub proof fn lemma_rounded_grows(a: nat, b: nat)
    requires
        a <= b < 0x8000_0000_0000_0000,
    ensures
        rounded(a) <= rounded(b),
{
    lemma_rounded_in_range(a);
    lemma_rounded_in_range(b);
    let p = unit_of(a);
    if unit_of(b) == p {
        if p > 1 {
            let qa = a / p;
            let qb = b / p;
            let ra = a % p;
            let rb = b % p;
            assert(qa < qb || (qa == qb && ra <= rb)) by (nonlinear_arith)
                requires
                    qa == a / p,
                    qb == b / p,
                    ra == a % p,
                    rb == b % p,
                    a <= b,
                    0 < p,
            ;
            assert((qa + 1) * p <= qb * p || qa == qb) by (nonlinear_arith)
                requires
                    qa < qb || qa == qb,
                    0 < p,
            ;
            assert((qb + 1) * p >= qb * p && (qa + 1) * p >= qa * p) by (nonlinear_arith)
                requires
                    0 < p,
            ;
            assert(rounded(a) == qa * p || rounded(a) == (qa + 1) * p);
            assert(rounded(b) == qb * p || rounded(b) == (qb + 1) * p);
            if qa == qb {
                assert(rounded(a) == (qa + 1) * p ==> rounded(b) == (qb + 1) * p);
            }
        }
    } else {
        assert(unit_of(b) >= 2 * p);
        assert(rounded(a) <= TWO_53 * p);
        assert(rounded(b) >= TWO_52 * unit_of(b));
    }
}

/// The nearer pair comes first: a larger squared distance has no smaller
/// distance, and so no earlier place in the order of the distances.
pub proof fn lemma_distance_bits_grow(a: nat, b: nat)
    requires
        a <= b < 0x8000_0000_0000_0000,
    ensures
        0 <= distance_bits(a) <= distance_bits(b) <= INFINITY_BITS,
        Distance(distance_bits(a) as u64).rank() <= Distance(distance_bits(b) as u64).rank(),
{
    lemma_rounded_grows(a, b);
    lemma_rounded_in_range(b);
    lemma_root_bits_grow(rounded(a), rounded(b));
}


} // verus!
