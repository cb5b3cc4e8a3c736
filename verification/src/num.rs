//! Numeric values and the total order across their two representations.
//!
//! A numeric value is either an integer or a decimal. A decimal stands for
//! the exact value `mant / 10^scale`; it is kept normalized (no trailing
//! zero digits in the fraction) and its scale is bounded so that comparisons
//! can cross-multiply without overflow. The two representations are
//! distinguishable values — an integer `2` and a decimal `2.0` are different
//! map keys — but they compare as equal numbers, so they share one bucket in
//! a numeric index.

use vstd::prelude::*;

verus! {

/// Largest scale a decimal may carry; 10^18 still fits in i64/u64 and keeps
/// cross-multiplied comparisons inside i128.
pub const MAX_SCALE: u32 = 18;

/// An exact decimal: the value `mant / 10^scale`.
#[derive(Clone, Copy, Debug, PartialEq, Eq, Structural)]
pub struct Decimal {
    pub mant: i64,
    pub scale: u32,
}

/// A numeric value as stored in rows and used as a numeric index key:
/// tagged as an integer or as a decimal.
#[derive(Clone, Copy, Debug, PartialEq, Eq, Structural)]
pub enum IndexNumber {
    Int(i64),
    Float(Decimal),
}

/// Three-way comparison outcome.
#[derive(Clone, Copy, Debug, PartialEq, Eq, Structural)]
pub enum Rank {
    Less,
    Equal,
    Greater,
}

pub open spec fn pow10(n: nat) -> int
    decreases n,
{
    if n == 0 {
        1
    } else {
        10 * pow10((n - 1) as nat)
    }
}

impl Decimal {
    /// Normal form: bounded scale, and no trailing fraction zeros (so equal
    /// values have equal representations).
    pub open spec fn wf(self) -> bool {
        self.scale <= MAX_SCALE && (self.scale == 0 || self.mant % 10 != 0)
    }
}

impl IndexNumber {
    pub open spec fn wf(self) -> bool {
        match self {
            IndexNumber::Int(_) => true,
            IndexNumber::Float(d) => d.wf(),
        }
    }

    /// Numerator of the value, read as `numer / 10^denom_pow`.
    pub open spec fn numer(self) -> int {
        match self {
            IndexNumber::Int(i) => i as int,
            IndexNumber::Float(d) => d.mant as int,
        }
    }

    pub open spec fn denom_pow(self) -> nat {
        match self {
            IndexNumber::Int(_) => 0,
            IndexNumber::Float(d) => d.scale as nat,
        }
    }
}

/// The value of `a` is strictly below the value of `b`.
pub open spec fn num_lt(a: IndexNumber, b: IndexNumber) -> bool {
    a.numer() * pow10(b.denom_pow()) < b.numer() * pow10(a.denom_pow())
}

/// `a` and `b` stand for the same number (possibly in different
/// representations).
pub open spec fn num_eq(a: IndexNumber, b: IndexNumber) -> bool {
    a.numer() * pow10(b.denom_pow()) == b.numer() * pow10(a.denom_pow())
}

pub open spec fn rank_of(a: IndexNumber, b: IndexNumber) -> Rank {
    if num_lt(a, b) {
        Rank::Less
    } else if num_eq(a, b) {
        Rank::Equal
    } else {
        Rank::Greater
    }
}

proof fn lemma_pow10_positive(n: nat)
    ensures
        pow10(n) >= 1,
    decreases n,
{
    if n > 0 {
        lemma_pow10_positive((n - 1) as nat);
    }
}

proof fn lemma_pow10_18()
    ensures
        pow10(18) == 1000000000000000000,
{
    reveal_with_fuel(pow10, 19);
}

proof fn lemma_pow10_bound(n: nat)
    requires
        n <= 18,
    ensures
        1 <= pow10(n) <= 1000000000000000000,
{
    lemma_pow10_positive(n);
    lemma_pow10_mono(n, 18);
    lemma_pow10_18();
}

proof fn lemma_pow10_mono(a: nat, b: nat)
    requires
        a <= b,
    ensures
        pow10(a) <= pow10(b),
    decreases b,
{
    if a < b {
        lemma_pow10_mono(a, (b - 1) as nat);
        lemma_pow10_positive((b - 1) as nat);
    }
}

/// 10^n for n up to MAX_SCALE.
pub fn pow10_u64(n: u32) -> (r: u64)
    requires
        n <= MAX_SCALE,
    ensures
        r == pow10(n as nat),
{
    let mut r: u64 = 1;
    let mut i: u32 = 0;
    proof {
        lemma_pow10_bound(n as nat);
    }
    while i < n
        invariant
            i <= n <= MAX_SCALE,
            r == pow10(i as nat),
        decreases n - i,
    {
        proof {
            lemma_pow10_bound(n as nat);
            lemma_pow10_mono((i + 1) as nat, n as nat);
            lemma_pow10_positive(i as nat);
        }
        r = r * 10;
        i = i + 1;
    }
    r
}

/// Compare two numeric values by their exact numeric value, across both
/// representations: integers against integers as integers, everything else
/// by cross-multiplying onto a common denominator.
pub fn num_cmp(a: &IndexNumber, b: &IndexNumber) -> (r: Rank)
    requires
        a.wf(),
        b.wf(),
    ensures
        r == rank_of(*a, *b),
{
    let an: i64 = match a {
        IndexNumber::Int(i) => *i,
        IndexNumber::Float(d) => d.mant,
    };
    let asc: u32 = match a {
        IndexNumber::Int(_) => 0,
        IndexNumber::Float(d) => d.scale,
    };
    let bn: i64 = match b {
        IndexNumber::Int(i) => *i,
        IndexNumber::Float(d) => d.mant,
    };
    let bsc: u32 = match b {
        IndexNumber::Int(_) => 0,
        IndexNumber::Float(d) => d.scale,
    };
    let pa = pow10_u64(bsc);
    let pb = pow10_u64(asc);
    proof {
        lemma_pow10_bound(asc as nat);
        lemma_pow10_bound(bsc as nat);
        lemma_cross_mul_fits(an as int, pa as int);
        lemma_cross_mul_fits(bn as int, pb as int);
    }
    let left: i128 = (an as i128) * (pa as i128);
    let right: i128 = (bn as i128) * (pb as i128);
    if left < right {
        Rank::Less
    } else if left == right {
        Rank::Equal
    } else {
        Rank::Greater
    }
}

proof fn lemma_cross_mul_fits(x: int, p: int)
    requires
        -0x8000_0000_0000_0000 <= x <= 0x7fff_ffff_ffff_ffff,
        0 <= p <= 1000000000000000000,
    ensures
        -0x8000_0000_0000_0000_0000_0000_0000_0000 <= x * p
            <= 0x7fff_ffff_ffff_ffff_ffff_ffff_ffff_ffff,
{
    assert(-0x8000_0000_0000_0000_0000_0000_0000_0000 <= x * p
        <= 0x7fff_ffff_ffff_ffff_ffff_ffff_ffff_ffff) by (nonlinear_arith)
        requires
            -0x8000_0000_0000_0000 <= x <= 0x7fff_ffff_ffff_ffff,
            0 <= p <= 1000000000000000000,
    ;
}

/// The numeric order is transitive, so a strictly sorted run of index keys
/// stays sorted when one more key is placed at its position.
pub proof fn lemma_num_lt_trans(a: IndexNumber, b: IndexNumber, c: IndexNumber)
    requires
        num_lt(a, b),
        num_lt(b, c),
    ensures
        num_lt(a, c),
{
    lemma_pow10_positive(a.denom_pow());
    lemma_pow10_positive(b.denom_pow());
    lemma_pow10_positive(c.denom_pow());
    let pa = pow10(a.denom_pow());
    let pb = pow10(b.denom_pow());
    let pc = pow10(c.denom_pow());
    assert(a.numer() * pc < c.numer() * pa) by (nonlinear_arith)
        requires
            a.numer() * pb < b.numer() * pa,
            b.numer() * pc < c.numer() * pb,
            pa >= 1,
            pb >= 1,
            pc >= 1,
    ;
}

/// Equal numbers can replace each other on either side of the order.
pub proof fn lemma_num_eq_lt_compat(a: IndexNumber, b: IndexNumber, c: IndexNumber)
    requires
        num_eq(a, b),
    ensures
        num_lt(a, c) == num_lt(b, c),
        num_lt(c, a) == num_lt(c, b),
        num_eq(a, c) == num_eq(b, c),
{
    lemma_pow10_positive(a.denom_pow());
    lemma_pow10_positive(b.denom_pow());
    lemma_pow10_positive(c.denom_pow());
    let pa = pow10(a.denom_pow());
    let pb = pow10(b.denom_pow());
    let pc = pow10(c.denom_pow());
    assert((a.numer() * pc < c.numer() * pa) == (b.numer() * pc < c.numer() * pb)
        && (c.numer() * pa < a.numer() * pc) == (c.numer() * pb < b.numer() * pc)
        && (a.numer() * pc == c.numer() * pa) == (b.numer() * pc == c.numer() * pb))
        by (nonlinear_arith)
        requires
            a.numer() * pb == b.numer() * pa,
            pa >= 1,
            pb >= 1,
            pc >= 1,
    ;
}

} // verus!
