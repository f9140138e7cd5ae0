use vstd::prelude::*;

verus! {

/// Largest power of ten (number of fractional digits) a `Decimal` may carry.
pub const MAX_SCALE: u32 = 18;

/// Bound on the magnitude of a `Decimal` mantissa.
pub const MANT_LIMIT: i128 = 0x7fff_ffff_ffff_ffff;

/// Number of bits of a uniform draw compared against a Bernoulli threshold.
pub const TWO_POW_53: u64 = 0x20_0000_0000_0000;

pub open spec fn pow10(k: nat) -> nat
    decreases k,
{
    if k == 0 {
        1
    } else {
        10 * pow10((k - 1) as nat)
    }
}

pub proof fn lemma_pow10_positive(k: nat)
    ensures
        pow10(k) >= 1,
    decreases k,
{
    if k > 0 {
        lemma_pow10_positive((k - 1) as nat);
    }
}

pub proof fn lemma_pow10_adds(a: nat, b: nat)
    ensures
        pow10(a + b) == pow10(a) * pow10(b),
    decreases a,
{
    if a == 0 {
        assert(pow10(0 + b) == 1 * pow10(b));
    } else {
        lemma_pow10_adds((a - 1) as nat, b);
        assert(pow10(a + b) == 10 * pow10(((a + b) - 1) as nat));
        assert(pow10(a) * pow10(b) == 10 * (pow10((a - 1) as nat) * pow10(b)))
            by (nonlinear_arith)
            requires
                pow10(a) == 10 * pow10((a - 1) as nat),
        ;
    }
}

pub proof fn lemma_pow10_le(a: nat, b: nat)
    requires
        a <= b,
    ensures
        pow10(a) <= pow10(b),
    decreases b,
{
    if a < b {
        lemma_pow10_le(a, (b - 1) as nat);
        lemma_pow10_positive((b - 1) as nat);
    }
}

pub proof fn lemma_pow10_18()
    ensures
        pow10(18) == 1_000_000_000_000_000_000,
{
    reveal_with_fuel(pow10, 19);
}

/// An exact decimal number `mant / 10^scale`, the form in which instruction
/// arguments (noise probabilities, coordinates, indices) are carried.
#[derive(Clone, Copy, Debug, PartialEq, Eq, Structural)]
pub struct Decimal {
    pub mant: i128,
    pub scale: u32,
}

impl Decimal {
    /// Well-formedness: bounded scale and mantissa.
    pub open spec fn inv(self) -> bool {
        self.scale <= MAX_SCALE && -MANT_LIMIT <= self.mant && self.mant <= MANT_LIMIT
    }

    /// The value, as an integer count of units of `10^-18`.
    pub open spec fn val(self) -> int {
        self.mant * pow10((MAX_SCALE - self.scale) as nat)
    }

    pub fn zero() -> (r: Decimal)
        ensures
            r.inv(),
            r.val() == 0,
            r.mant == 0,
            r.scale == 0,
    {
        Decimal { mant: 0, scale: 0 }
    }

    pub fn from_parts(mant: i64, scale: u32) -> (r: Decimal)
        requires
            scale <= MAX_SCALE,
            -MANT_LIMIT <= mant as i128,
        ensures
            r.inv(),
            r.mant == mant,
            r.scale == scale,
    {
        Decimal { mant: mant as i128, scale }
    }

    pub fn from_int(i: i64) -> (r: Decimal)
        requires
            -MANT_LIMIT <= i as i128,
        ensures
            r.inv(),
            r.mant == i,
            r.scale == 0,
            r.val() == i * pow10(18),
    {
        Decimal { mant: i as i128, scale: 0 }
    }

    /// Whether the representation lies within the library's bounds.
    pub fn is_valid(&self) -> (r: bool)
        ensures
            r == self.inv(),
    {
        self.scale <= MAX_SCALE && -MANT_LIMIT <= self.mant && self.mant <= MANT_LIMIT
    }

    pub fn mantissa(&self) -> (r: i128)
        ensures
            r == self.mant,
    {
        self.mant
    }

    pub fn scale_pow10(&self) -> (r: u32)
        ensures
            r == self.scale,
    {
        self.scale
    }
}

/// Exact power of ten as a machine word, for scales up to 18.
pub fn pow10_u64(k: u32) -> (r: u64)
    requires
        k <= MAX_SCALE,
    ensures
        r == pow10(k as nat),
        r >= 1,
{
    let mut i: u32 = 0;
    let mut acc: u64 = 1;
    proof {
        lemma_pow10_18();
    }
    while i < k
        invariant
            i <= k,
            k <= MAX_SCALE,
            acc == pow10(i as nat),
            pow10(18) == 1_000_000_000_000_000_000,
        decreases k - i,
    {
        proof {
            lemma_pow10_le((i + 1) as nat, 18);
            assert(pow10((i + 1) as nat) == 10 * pow10(i as nat));
        }
        acc = acc * 10;
        i = i + 1;
    }
    proof {
        lemma_pow10_positive(k as nat);
    }
    acc
}

/// The mantissa of `a + b` once both are brought to the scale
/// `max(a.scale, b.scale)`.
pub open spec fn aligned_sum(a: Decimal, b: Decimal) -> int {
    let s = if a.scale >= b.scale {
        a.scale
    } else {
        b.scale
    };
    a.mant * pow10((s - a.scale) as nat) + b.mant * pow10((s - b.scale) as nat)
}

proof fn lemma_align_keeps_val(m: int, low: nat, high: nat)
    requires
        low <= high <= MAX_SCALE,
    ensures
        (m * pow10((high - low) as nat)) * pow10((MAX_SCALE - high) as nat) == m * pow10(
            (MAX_SCALE - low) as nat,
        ),
{
    let d1 = (high - low) as nat;
    let d2 = (MAX_SCALE - high) as nat;
    lemma_pow10_adds(d1, d2);
    assert((m * pow10(d1)) * pow10(d2) == m * (pow10(d1) * pow10(d2))) by (nonlinear_arith);
}

impl Decimal {
    /// Exact addition; `None` exactly when the aligned mantissa overflows the
    /// representable range.
    pub fn checked_add(&self, other: &Decimal) -> (r: Option<Decimal>)
        requires
            self.inv(),
            other.inv(),
        ensures
            match r {
                Some(c) => c.inv() && c.mant == aligned_sum(*self, *other) && c.val()
                    == self.val() + other.val() && c.scale == if self.scale >= other.scale {
                    self.scale
                } else {
                    other.scale
                },
                None => aligned_sum(*self, *other) > MANT_LIMIT || aligned_sum(*self, *other)
                    < -MANT_LIMIT,
            },
    {
        let s = if self.scale >= other.scale {
            self.scale
        } else {
            other.scale
        };
        let fa = pow10_u64(s - self.scale);
        let fb = pow10_u64(s - other.scale);
        proof {
            lemma_pow10_18();
            lemma_pow10_le((s - self.scale) as nat, 18);
            lemma_pow10_le((s - other.scale) as nat, 18);
            assert(-(0x7fff_ffff_ffff_ffffi128 * 1_000_000_000_000_000_000) <= self.mant * (
            fa as i128) <= 0x7fff_ffff_ffff_ffffi128 * 1_000_000_000_000_000_000)
                by (nonlinear_arith)
                requires
                    -MANT_LIMIT <= self.mant <= MANT_LIMIT,
                    1 <= fa as i128 <= 1_000_000_000_000_000_000,
            ;
            assert(-(0x7fff_ffff_ffff_ffffi128 * 1_000_000_000_000_000_000) <= other.mant * (
            fb as i128) <= 0x7fff_ffff_ffff_ffffi128 * 1_000_000_000_000_000_000)
                by (nonlinear_arith)
                requires
                    -MANT_LIMIT <= other.mant <= MANT_LIMIT,
                    1 <= fb as i128 <= 1_000_000_000_000_000_000,
            ;
        }
        let ma: i128 = self.mant * (fa as i128);
        let mb: i128 = other.mant * (fb as i128);
        let m: i128 = ma + mb;
        if m > MANT_LIMIT || m < -MANT_LIMIT {
            None
        } else {
            let c = Decimal { mant: m, scale: s };
            proof {
                lemma_align_keeps_val(self.mant as int, self.scale as nat, s as nat);
                lemma_align_keeps_val(other.mant as int, other.scale as nat, s as nat);
                assert((ma + mb) * pow10((MAX_SCALE - s) as nat) == ma * pow10(
                    (MAX_SCALE - s) as nat,
                ) + mb * pow10((MAX_SCALE - s) as nat)) by (nonlinear_arith);
            }
            Some(c)
        }
    }

    /// Truncation toward zero, saturating into `u32` — the reading the
    /// executor gives an observable-index argument.
    pub fn trunc_u32(&self) -> (r: u32)
        requires
            self.inv(),
        ensures
            r == trunc_u32_spec(*self),
    {
        if self.mant <= 0 {
            return 0;
        }
        let d = pow10_u64(self.scale);
        let q: i128 = self.mant / (d as i128);
        if q > 0xffff_ffffi128 {
            0xffff_ffffu32
        } else {
            proof {
                assert(0 <= self.mant / (d as i128) <= self.mant)
                    by (nonlinear_arith)
                    requires
                        self.mant > 0,
                        d as i128 >= 1,
                ;
            }
            q as u32
        }
    }
}

pub open spec fn trunc_u32_spec(p: Decimal) -> int {
    if p.mant <= 0 {
        0
    } else if (p.mant as int) / (pow10(p.scale as nat) as int) > 0xffff_ffff {
        0xffff_ffff
    } else {
        (p.mant as int) / (pow10(p.scale as nat) as int)
    }
}

/// Threshold of the Bernoulli event "a uniform draw of 53 bits is below
/// `p`": a draw `u < 2^53` fires exactly when `u < threshold_spec(p)`.
pub open spec fn threshold_spec(p: Decimal) -> int {
    if p.mant <= 0 {
        0
    } else if p.mant >= pow10(p.scale as nat) {
        TWO_POW_53 as int
    } else {
        (p.mant * (TWO_POW_53 as int) + pow10(p.scale as nat) - 1) / (pow10(p.scale as nat) as int)
    }
}

/// Exact Bernoulli threshold `ceil(p * 2^53)`, clamped to `[0, 2^53]`.
pub fn bernoulli_threshold(p: &Decimal) -> (r: u64)
    requires
        p.inv(),
    ensures
        r == threshold_spec(*p),
        r <= TWO_POW_53,
{
    if p.mant <= 0 {
        return 0;
    }
    let d = pow10_u64(p.scale);
    if p.mant >= d as i128 {
        return TWO_POW_53;
    }
    proof {
        lemma_pow10_18();
        lemma_pow10_le(p.scale as nat, 18);
    }
    let num: u128 = (p.mant as u128) * (TWO_POW_53 as u128);
    let t: u128 = (num + (d as u128) - 1) / (d as u128);
    proof {
        let mi = p.mant as int;
        let di = d as int;
        assert(mi * (TWO_POW_53 as int) <= di * (TWO_POW_53 as int))
            by (nonlinear_arith)
            requires
                0 < mi <= di,
        ;
        assert((mi * (TWO_POW_53 as int) + di - 1) / di <= TWO_POW_53)
            by (nonlinear_arith)
            requires
                mi * (TWO_POW_53 as int) + di - 1 <= di * (TWO_POW_53 as int) + di - 1,
                di >= 1,
        ;
        assert((mi * (TWO_POW_53 as int) + di - 1) / di >= 0)
            by (nonlinear_arith)
            requires
                mi >= 1,
                di >= 1,
                TWO_POW_53 as int >= 1,
        ;
    }
    t as u64
}

/// A decimal that is zero or less has an empty Bernoulli event.
pub proof fn lemma_threshold_of_nonpositive(p: Decimal)
    requires
        p.inv(),
        p.val() <= 0,
    ensures
        threshold_spec(p) == 0,
{
    lemma_pow10_positive((MAX_SCALE - p.scale) as nat);
    assert(p.mant <= 0) by (nonlinear_arith)
        requires
            p.mant * pow10((MAX_SCALE - p.scale) as nat) <= 0,
            pow10((MAX_SCALE - p.scale) as nat) >= 1,
    ;
}

/// A decimal that is one or more has a full Bernoulli event: every draw
/// below `2^53` is below the threshold.
pub proof fn lemma_threshold_of_one_or_more(p: Decimal)
    requires
        p.inv(),
        p.val() >= pow10(MAX_SCALE as nat),
    ensures
        threshold_spec(p) == TWO_POW_53,
{
    let rest = (MAX_SCALE - p.scale) as nat;
    lemma_pow10_adds(p.scale as nat, rest);
    lemma_pow10_positive(rest);
    lemma_pow10_positive(p.scale as nat);
    assert(p.mant >= pow10(p.scale as nat)) by (nonlinear_arith)
        requires
            p.mant * pow10(rest) >= pow10(p.scale as nat) * pow10(rest),
            pow10(rest) >= 1,
    ;
}

} // verus!
