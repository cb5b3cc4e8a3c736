//! Token-level text utilities: numeric and boolean literal parsing,
//! lexicographic ordering of strings, whitespace trimming, case-insensitive
//! keyword matching, and rendering of values back to text.
//!
//! Literals are ASCII: a numeric token is an optional sign followed by
//! digits, with at most one decimal point. Decimal literals are read
//! exactly (no binary rounding) and normalized as `num::Decimal` asks.

use vstd::prelude::*;
use crate::num::{Decimal, IndexNumber, MAX_SCALE, pow10};

verus! {

pub open spec fn is_digit(c: char) -> bool {
    48 <= c as int <= 57
}

pub open spec fn digit_val(c: char) -> int {
    c as int - 48
}

pub open spec fn all_digits(s: Seq<char>) -> bool {
    forall|i: int| 0 <= i < s.len() ==> is_digit(#[trigger] s[i])
}

/// The number written by a run of decimal digits, most significant first.
pub open spec fn digits_val(s: Seq<char>) -> int
    decreases s.len(),
{
    if s.len() == 0 {
        0
    } else {
        10 * digits_val(s.drop_last()) + digit_val(s.last())
    }
}

/// Strip one leading `+` or `-`; report whether the value is negated.
pub open spec fn sign_of(s: Seq<char>) -> bool {
    s.len() > 0 && s[0] == '-'
}

pub open spec fn unsigned_part(s: Seq<char>) -> Seq<char> {
    if s.len() > 0 && (s[0] == '-' || s[0] == '+') {
        s.drop_first()
    } else {
        s
    }
}

/// The token is an integer literal: optional sign, one or more digits.
pub open spec fn int_ok(s: Seq<char>) -> bool {
    unsigned_part(s).len() > 0 && all_digits(unsigned_part(s))
}

pub open spec fn int_val(s: Seq<char>) -> int {
    if sign_of(s) {
        -digits_val(unsigned_part(s))
    } else {
        digits_val(unsigned_part(s))
    }
}

pub open spec fn i64_ok(s: Seq<char>) -> bool {
    int_ok(s) && -0x8000_0000_0000_0000 <= int_val(s) <= 0x7fff_ffff_ffff_ffff
}

pub open spec fn in_i32_range(v: int) -> bool {
    -0x8000_0000 <= v <= 0x7fff_ffff
}

proof fn lemma_digits_val_nonneg(s: Seq<char>)
    requires
        all_digits(s),
    ensures
        digits_val(s) >= 0,
    decreases s.len(),
{
    if s.len() > 0 {
        assert(all_digits(s.drop_last())) by {
            assert(forall|i: int| 0 <= i < s.len() - 1 ==> s.drop_last()[i] == s[i]);
        }
        lemma_digits_val_nonneg(s.drop_last());
    }
}

proof fn lemma_digits_val_grows(s: Seq<char>)
    requires
        all_digits(s),
        s.len() > 0,
    ensures
        digits_val(s) >= digits_val(s.drop_last()),
    decreases s.len(),
{
    assert(all_digits(s.drop_last())) by {
        assert(forall|i: int| 0 <= i < s.len() - 1 ==> s.drop_last()[i] == s[i]);
    }
    lemma_digits_val_nonneg(s.drop_last());
}

/// Parse an integer literal, within the i64 range; anything else is `None`.
pub fn parse_i64(s: &str) -> (r: Option<i64>)
    ensures
        match r {
            Some(v) => i64_ok(s@) && v as int == int_val(s@),
            None => !i64_ok(s@),
        },
{
    let n = s.unicode_len();
    let mut start: usize = 0;
    let mut neg = false;
    if n > 0 {
        let c0 = s.get_char(0);
        if c0 == '-' {
            neg = true;
            start = 1;
        } else if c0 == '+' {
            start = 1;
        }
    }
    if start >= n {
        return None;  // no digits
    }
    let ghost u = unsigned_part(s@);
    proof {
        assert(u =~= s@.subrange(start as int, n as int));
    }
    let mut mag: u64 = 0;
    let mut over = false;
    let mut i: usize = start;
    while i < n
        invariant
            start <= i <= n,
            n == s@.len(),
            u == unsigned_part(s@),
            u == s@.subrange(start as int, n as int),
            all_digits(u.take(i - start)),
            !over ==> mag == digits_val(u.take(i - start)),
            over ==> digits_val(u.take(i - start)) > 9223372036854775808int,
            mag <= 9223372036854775808u64,
        decreases n - i,
    {
        let c = s.get_char(i);
        let cu = c as u32;
        if !(48 <= cu && cu <= 57) {
            proof {
                assert(u[i - start] == c);
                assert(!all_digits(u));
                assert(!int_ok(s@));
            }
            return None;
        }
        let d: u64 = (cu - 48) as u64;
        proof {
            assert(u[i - start] == c);
            assert(u.take(i + 1 - start).drop_last() =~= u.take(i - start));
            assert(u.take(i + 1 - start).last() == c);
            assert(all_digits(u.take(i + 1 - start)));
            lemma_digits_val_nonneg(u.take(i - start));
        }
        if !over {
            if mag > 922337203685477580u64 || mag * 10 + d > 9223372036854775808u64 {
                proof {
                    assert(digits_val(u.take(i + 1 - start)) > 9223372036854775808int);
                }
                over = true;
                mag = 9223372036854775808u64;
            } else {
                mag = mag * 10 + d;
            }
        }
        i = i + 1;
    }
    proof {
        assert(u.take(n - start) =~= u);
    }
    if over {
        return None;
    }
    if neg {
        if mag == 9223372036854775808u64 {
            return Some(i64::MIN);
        }
        Some(-(mag as i64))
    } else {
        if mag >= 9223372036854775808u64 {
            return None;
        }
        Some(mag as i64)
    }
}

/// The digit characters of a numeric token, with the decimal point removed.
pub open spec fn strip_dot(s: Seq<char>) -> Seq<char>
    decreases s.len(),
{
    if s.len() == 0 {
        Seq::empty()
    } else if s.last() == '.' {
        strip_dot(s.drop_last())
    } else {
        strip_dot(s.drop_last()).push(s.last())
    }
}

/// How many decimal points the token holds.
pub open spec fn dots(s: Seq<char>) -> nat
    decreases s.len(),
{
    if s.len() == 0 {
        0
    } else if s.last() == '.' {
        dots(s.drop_last()) + 1
    } else {
        dots(s.drop_last())
    }
}

/// How many characters follow the first decimal point.
pub open spec fn frac_len(s: Seq<char>) -> nat
    decreases s.len(),
{
    if s.len() == 0 {
        0
    } else if dots(s.drop_last()) >= 1 {
        frac_len(s.drop_last()) + 1
    } else {
        0
    }
}

/// Length of the trailing run of `0` digits.
pub open spec fn tz(s: Seq<char>) -> nat
    decreases s.len(),
{
    if s.len() > 0 && s.last() == '0' {
        tz(s.drop_last()) + 1
    } else {
        0
    }
}

pub open spec fn min_nat(a: nat, b: nat) -> nat {
    if a <= b {
        a
    } else {
        b
    }
}

/// The token is a decimal literal: optional sign, digits with at most one
/// decimal point, at least one digit.
pub open spec fn dec_shape(s: Seq<char>) -> bool {
    let u = unsigned_part(s);
    strip_dot(u).len() > 0 && all_digits(strip_dot(u)) && dots(u) <= 1
}

/// Significant digits: everything except fraction-trailing zeros.
pub open spec fn dec_eff(s: Seq<char>) -> Seq<char> {
    let digs = strip_dot(unsigned_part(s));
    digs.take(digs.len() - min_nat(tz(digs), frac_len(unsigned_part(s))))
}

pub open spec fn dec_scale(s: Seq<char>) -> nat {
    let digs = strip_dot(unsigned_part(s));
    (frac_len(unsigned_part(s)) - min_nat(tz(digs), frac_len(unsigned_part(s)))) as nat
}

pub open spec fn dec_mant(s: Seq<char>) -> int {
    if sign_of(s) {
        -digits_val(dec_eff(s))
    } else {
        digits_val(dec_eff(s))
    }
}

/// The token denotes a decimal value that fits the bounded representation.
pub open spec fn dec_ok(s: Seq<char>) -> bool {
    dec_shape(s) && dec_scale(s) <= MAX_SCALE && -0x8000_0000_0000_0000 <= dec_mant(s)
        <= 0x7fff_ffff_ffff_ffff
}

pub open spec fn dec_of(s: Seq<char>) -> Decimal {
    Decimal { mant: dec_mant(s) as i64, scale: dec_scale(s) as u32 }
}

proof fn lemma_strip_dot_add(a: Seq<char>, b: Seq<char>)
    ensures
        strip_dot(a + b) == strip_dot(a) + strip_dot(b),
        dots(a + b) == dots(a) + dots(b),
    decreases b.len(),
{
    if b.len() == 0 {
        assert(a + b =~= a);
        assert(strip_dot(a) + Seq::<char>::empty() =~= strip_dot(a));
    } else {
        lemma_strip_dot_add(a, b.drop_last());
        assert((a + b).drop_last() =~= a + b.drop_last());
        assert((a + b).last() == b.last());
        if b.last() != '.' {
            assert(strip_dot(a) + strip_dot(b) =~= (strip_dot(a) + strip_dot(b.drop_last())).push(
                b.last(),
            ));
        }
    }
}

proof fn lemma_tz_chars(s: Seq<char>, m: int)
    requires
        0 <= m <= s.len(),
        forall|i: int| m <= i < s.len() ==> s[i] == '0',
        m == 0 || s[m - 1] != '0',
    ensures
        tz(s) == s.len() - m,
    decreases s.len(),
{
    if s.len() > 0 {
        if m == s.len() {
            // last char is not part of a zero run past m
        } else {
            assert(s.last() == '0');
            lemma_tz_chars(s.drop_last(), m);
        }
    }
}

proof fn lemma_digits_val_mod(s: Seq<char>)
    requires
        all_digits(s),
        s.len() > 0,
    ensures
        digits_val(s) % 10 == digit_val(s.last()),
{
    assert(forall|i: int| 0 <= i < s.len() - 1 ==> s.drop_last()[i] == s[i]);
    lemma_digits_val_nonneg(s.drop_last());
}

/// Parse a decimal literal into the normalized bounded representation;
/// anything else (including values out of range) is `None`.
#[verifier::rlimit(60)]
pub fn parse_decimal(s: &str) -> (r: Option<Decimal>)
    ensures
        match r {
            Some(d) => dec_ok(s@) && d == dec_of(s@) && d.wf(),
            None => !dec_ok(s@),
        },
{
    let n = s.unicode_len();
    let mut start: usize = 0;
    let mut neg = false;
    if n > 0 {
        let c0 = s.get_char(0);
        if c0 == '-' {
            neg = true;
            start = 1;
        } else if c0 == '+' {
            start = 1;
        }
    }
    let ghost u = unsigned_part(s@);
    proof {
        assert(u =~= s@.subrange(start as int, n as int));
    }
    let mut digs: Vec<char> = Vec::new();
    let mut dot_seen = false;
    let mut predot: usize = 0;
    let mut i: usize = start;
    while i < n
        invariant
            start <= i <= n,
            n == s@.len(),
            u == unsigned_part(s@),
            u == s@.subrange(start as int, n as int),
            digs@ == strip_dot(u.take(i - start)),
            all_digits(digs@),
            dots(u.take(i - start)) == if dot_seen {
                1nat
            } else {
                0nat
            },
            dot_seen ==> predot <= digs@.len() && frac_len(u.take(i - start)) == digs@.len()
                - predot,
            !dot_seen ==> frac_len(u.take(i - start)) == 0,
        decreases n - i,
    {
        let c = s.get_char(i);
        let cu = c as u32;
        proof {
            assert(u[i - start] == c);
            assert(u.take(i + 1 - start).drop_last() =~= u.take(i - start));
            assert(u.take(i + 1 - start).last() == c);
        }
        if cu == 46 {  // '.'
            if dot_seen {
                proof {
                    lemma_strip_dot_add(u.take(i + 1 - start), u.skip(i + 1 - start));
                    assert(u.take(i + 1 - start) + u.skip(i + 1 - start) =~= u);
                    assert(dots(u) >= 2);
                }
                return None;
            }
            dot_seen = true;
            predot = digs.len();
        } else if 48 <= cu && cu <= 57 {
            digs.push(c);
        } else {
            proof {
                lemma_strip_dot_add(u.take(i + 1 - start), u.skip(i + 1 - start));
                assert(u.take(i + 1 - start) + u.skip(i + 1 - start) =~= u);
                assert(strip_dot(u.take(i + 1 - start)) == digs@.push(c));
                assert(strip_dot(u)[digs@.len() as int] == c);
                assert(!all_digits(strip_dot(u)));
            }
            return None;
        }
        i = i + 1;
    }
    proof {
        assert(u.take(n - start) =~= u);
    }
    if digs.len() == 0 {
        return None;
    }
    let fr: usize = if dot_seen {
        digs.len() - predot
    } else {
        0
    };
    // trailing zeros of the digit run
    let mut m: usize = digs.len();
    while m > 0 && digs[m - 1] == '0'
        invariant
            0 <= m <= digs@.len(),
            forall|k: int| m <= k < digs@.len() ==> digs@[k] == '0',
        decreases m,
    {
        m = m - 1;
    }
    proof {
        lemma_tz_chars(digs@, m as int);
    }
    let t: usize = if digs.len() - m <= fr {
        digs.len() - m
    } else {
        fr
    };
    let eff_len: usize = digs.len() - t;
    let scale: usize = fr - t;
    if scale > 18 {
        return None;
    }
    // accumulate the significant digits, watching the i64 bound
    let ghost eff = dec_eff(s@);
    proof {
        assert(eff =~= digs@.take(eff_len as int));
    }
    let mut mag: u64 = 0;
    let mut over = false;
    let mut j: usize = 0;
    while j < eff_len
        invariant
            0 <= j <= eff_len <= digs@.len(),
            eff == dec_eff(s@),
            eff =~= digs@.take(eff_len as int),
            all_digits(digs@),
            !over ==> mag == digits_val(eff.take(j as int)),
            over ==> digits_val(eff.take(j as int)) > 9223372036854775808int,
            mag <= 9223372036854775808u64,
        decreases eff_len - j,
    {
        let c = digs[j];
        let d: u64 = ((c as u32) - 48) as u64;
        proof {
            assert(eff.take(j + 1).drop_last() =~= eff.take(j as int));
            assert(eff.take(j + 1).last() == c);
            assert(is_digit(c));
            assert(forall|k: int| 0 <= k < j ==> eff.take(j as int)[k] == digs@[k]);
            lemma_digits_val_nonneg(eff.take(j as int));
        }
        if !over {
            if mag > 922337203685477580u64 || mag * 10 + d > 9223372036854775808u64 {
                over = true;
                mag = 9223372036854775808u64;
            } else {
                mag = mag * 10 + d;
            }
        }
        j = j + 1;
    }
    proof {
        assert(eff.take(eff_len as int) =~= eff);
    }
    if over {
        return None;
    }
    let mant: i64 = if neg {
        if mag == 9223372036854775808u64 {
            i64::MIN
        } else {
            -(mag as i64)
        }
    } else {
        if mag >= 9223372036854775808u64 {
            return None;
        }
        mag as i64
    };
    let d = Decimal { mant, scale: scale as u32 };
    proof {
        if scale > 0 {
            assert(t == tz(digs@));
            assert(tz(digs@) < digs@.len());
            assert(digs@[eff_len - 1] != '0');
            assert(eff.last() == digs@[eff_len - 1]);
            assert(forall|k: int| 0 <= k < eff.len() ==> eff[k] == digs@[k]);
            lemma_digits_val_mod(eff);
            assert(digit_val(eff.last()) != 0);
            assert(mant as int % 10 != 0) by {
                assert(digits_val(eff) % 10 != 0);
            }
        }
        assert(d.wf());
    }
    Some(d)
}

/// The token is a boolean literal, exactly `true` or `false`.
pub fn parse_bool(s: &str) -> (r: Option<bool>)
    ensures
        match r {
            Some(true) => s@ == "true"@,
            Some(false) => s@ == "false"@,
            None => s@ != "true"@ && s@ != "false"@,
        },
{
    if str_eq(s, "true") {
        Some(true)
    } else if str_eq(s, "false") {
        Some(false)
    } else {
        None
    }
}

/// Lexicographic order on character sequences (by code point), as `String`
/// ordering has it.
pub open spec fn lex_lt(a: Seq<char>, b: Seq<char>) -> bool
    decreases a.len(),
{
    if b.len() == 0 {
        false
    } else if a.len() == 0 {
        true
    } else if a[0] == b[0] {
        lex_lt(a.drop_first(), b.drop_first())
    } else {
        (a[0] as int) < (b[0] as int)
    }
}

proof fn lemma_lex_lt_skip(a: Seq<char>, b: Seq<char>, i: int)
    requires
        0 <= i <= a.len(),
        i <= b.len(),
        forall|j: int| 0 <= j < i ==> a[j] == b[j],
    ensures
        lex_lt(a, b) == lex_lt(a.skip(i), b.skip(i)),
    decreases i,
{
    if i == 0 {
        assert(a.skip(0) =~= a);
        assert(b.skip(0) =~= b);
    } else {
        assert(a.drop_first() =~= a.skip(1));
        assert(b.drop_first() =~= b.skip(1));
        assert(forall|j: int| 0 <= j < i - 1 ==> a.skip(1)[j] == b.skip(1)[j]);
        lemma_lex_lt_skip(a.skip(1), b.skip(1), i - 1);
        assert(a.skip(1).skip(i - 1) =~= a.skip(i));
        assert(b.skip(1).skip(i - 1) =~= b.skip(i));
    }
}

pub proof fn lemma_lex_lt_trans(a: Seq<char>, b: Seq<char>, c: Seq<char>)
    requires
        lex_lt(a, b),
        lex_lt(b, c),
    ensures
        lex_lt(a, c),
    decreases a.len(),
{
    if a.len() > 0 && b.len() > 0 && c.len() > 0 {
        if a[0] == b[0] && b[0] == c[0] {
            lemma_lex_lt_trans(a.drop_first(), b.drop_first(), c.drop_first());
        }
    }
}

pub proof fn lemma_lex_lt_connected(a: Seq<char>, b: Seq<char>)
    requires
        !lex_lt(a, b),
        !lex_lt(b, a),
    ensures
        a == b,
    decreases a.len(),
{
    if a.len() == 0 && b.len() == 0 {
        assert(a =~= b);
    } else {
        lemma_lex_lt_connected(a.drop_first(), b.drop_first());
        assert(a =~= b) by {
            assert(a[0] == b[0]);
            assert(forall|j: int| 1 <= j < a.len() ==> a[j] == a.drop_first()[j - 1]
                && b[j] == b.drop_first()[j - 1]);
        }
    }
}

pub proof fn lemma_lex_lt_irrefl(a: Seq<char>)
    ensures
        !lex_lt(a, a),
    decreases a.len(),
{
    if a.len() > 0 {
        lemma_lex_lt_irrefl(a.drop_first());
    }
}

/// Lexicographic comparison of two strings.
pub fn str_lt(a: &str, b: &str) -> (r: bool)
    ensures
        r == lex_lt(a@, b@),
{
    let na = a.unicode_len();
    let nb = b.unicode_len();
    let min: usize = if na <= nb {
        na
    } else {
        nb
    };
    let mut i: usize = 0;
    while i < min
        invariant
            0 <= i <= min,
            na == a@.len(),
            nb == b@.len(),
            min == if na <= nb {
                na
            } else {
                nb
            },
            forall|j: int| 0 <= j < i ==> a@[j] == b@[j],
        decreases min - i,
    {
        let ca = a.get_char(i);
        let cb = b.get_char(i);
        if ca != cb {
            proof {
                lemma_lex_lt_skip(a@, b@, i as int);
            }
            return (ca as u32) < (cb as u32);
        }
        i = i + 1;
    }
    proof {
        lemma_lex_lt_skip(a@, b@, min as int);
    }
    na < nb
}

pub open spec fn is_space(c: char) -> bool {
    c == ' ' || c == '\t' || c == '\n' || c == '\r'
}

fn is_space_char(c: char) -> (r: bool)
    ensures
        r == is_space(c),
{
    c == ' ' || c == '\t' || c == '\n' || c == '\r'
}

pub open spec fn ltrim(s: Seq<char>) -> Seq<char>
    decreases s.len(),
{
    if s.len() > 0 && is_space(s[0]) {
        ltrim(s.drop_first())
    } else {
        s
    }
}

pub open spec fn rtrim(s: Seq<char>) -> Seq<char>
    decreases s.len(),
{
    if s.len() > 0 && is_space(s.last()) {
        rtrim(s.drop_last())
    } else {
        s
    }
}

/// The token with leading and trailing whitespace removed.
pub open spec fn trim_spec(s: Seq<char>) -> Seq<char> {
    rtrim(ltrim(s))
}

proof fn lemma_ltrim_skip(s: Seq<char>, i: int)
    requires
        0 <= i <= s.len(),
        forall|j: int| 0 <= j < i ==> is_space(s[j]),
    ensures
        ltrim(s) == ltrim(s.skip(i)),
    decreases i,
{
    if i == 0 {
        assert(s.skip(0) =~= s);
    } else {
        assert(s.drop_first() =~= s.skip(1));
        assert(forall|j: int| 0 <= j < i - 1 ==> is_space(#[trigger] s.skip(1)[j]));
        lemma_ltrim_skip(s.skip(1), i - 1);
        assert(s.skip(1).skip(i - 1) =~= s.skip(i));
    }
}

proof fn lemma_rtrim_take(s: Seq<char>, i: int)
    requires
        0 <= i <= s.len(),
        forall|j: int| i <= j < s.len() ==> is_space(s[j]),
    ensures
        rtrim(s) == rtrim(s.take(i)),
    decreases s.len() - i,
{
    if i == s.len() {
        assert(s.take(i) =~= s);
    } else {
        assert(s.drop_last() =~= s.take(s.len() - 1));
        assert(is_space(s.last()));
        assert(forall|j: int| i <= j < s.len() - 1 ==> is_space(
            #[trigger] s.take(s.len() - 1)[j],
        ));
        lemma_rtrim_take(s.take(s.len() - 1), i);
        assert(s.take(s.len() - 1).take(i) =~= s.take(i));
    }
}

/// Remove leading and trailing whitespace.
pub fn str_trim(s: &str) -> (r: String)
    ensures
        r@ == trim_spec(s@),
{
    let n = s.unicode_len();
    let mut lo: usize = 0;
    while lo < n && is_space_char(s.get_char(lo))
        invariant
            0 <= lo <= n,
            n == s@.len(),
            forall|j: int| 0 <= j < lo ==> is_space(s@[j]),
        decreases n - lo,
    {
        lo = lo + 1;
    }
    proof {
        lemma_ltrim_skip(s@, lo as int);
        assert(ltrim(s@) == s@.skip(lo as int));
    }
    let mut hi: usize = n;
    while hi > lo && is_space_char(s.get_char(hi - 1))
        invariant
            lo <= hi <= n,
            n == s@.len(),
            forall|j: int| hi <= j < n ==> is_space(s@[j]),
        decreases hi,
    {
        hi = hi - 1;
    }
    proof {
        assert(s@.skip(lo as int).take(hi - lo) =~= s@.subrange(lo as int, hi as int));
        assert(forall|j: int| hi - lo <= j < s@.skip(lo as int).len() ==> is_space(
            #[trigger] s@.skip(lo as int)[j],
        ));
        lemma_rtrim_take(s@.skip(lo as int), hi - lo);
        if hi > lo {
            assert(!is_space(s@.subrange(lo as int, hi as int).last()));
        }
        assert(rtrim(s@.subrange(lo as int, hi as int)) == s@.subrange(lo as int, hi as int));
    }
    let part = s.substring_char(lo, hi);
    part.to_owned()
}

/// ASCII-folded code point: upper-case letters fold onto lower-case.
pub open spec fn fold_c(c: char) -> int {
    if 65 <= c as int <= 90 {
        c as int + 32
    } else {
        c as int
    }
}

/// Case-insensitive equality, folding ASCII letters only.
pub open spec fn eq_ci(a: Seq<char>, b: Seq<char>) -> bool {
    a.len() == b.len() && forall|i: int| 0 <= i < a.len() ==> fold_c(a[i]) == fold_c(b[i])
}

/// Case-insensitive string comparison (ASCII folding).
pub fn str_eq_ci(a: &str, b: &str) -> (r: bool)
    ensures
        r == eq_ci(a@, b@),
{
    let na = a.unicode_len();
    let nb = b.unicode_len();
    if na != nb {
        return false;
    }
    let mut i: usize = 0;
    while i < na
        invariant
            0 <= i <= na,
            na == a@.len(),
            na == b@.len(),
            forall|j: int| 0 <= j < i ==> fold_c(a@[j]) == fold_c(b@[j]),
        decreases na - i,
    {
        let mut ca = a.get_char(i) as u32;
        let mut cb = b.get_char(i) as u32;
        if 65 <= ca && ca <= 90 {
            ca = ca + 32;
        }
        if 65 <= cb && cb <= 90 {
            cb = cb + 32;
        }
        if ca != cb {
            return false;
        }
        i = i + 1;
    }
    true
}

pub open spec fn digit_char(d: int) -> char {
    if d == 0 {
        '0'
    } else if d == 1 {
        '1'
    } else if d == 2 {
        '2'
    } else if d == 3 {
        '3'
    } else if d == 4 {
        '4'
    } else if d == 5 {
        '5'
    } else if d == 6 {
        '6'
    } else if d == 7 {
        '7'
    } else if d == 8 {
        '8'
    } else {
        '9'
    }
}

/// The decimal digits of a non-negative number, most significant first.
pub open spec fn digits_of(n: nat) -> Seq<char>
    decreases n,
{
    if n < 10 {
        seq![digit_char(n as int)]
    } else {
        digits_of(n / 10).push(digit_char((n % 10) as int))
    }
}

/// The text an integer displays as.
pub open spec fn render_int(v: int) -> Seq<char> {
    if v < 0 {
        seq!['-'] + digits_of((-v) as nat)
    } else {
        digits_of(v as nat)
    }
}

pub open spec fn zeroes(n: nat) -> Seq<char>
    decreases n,
{
    if n == 0 {
        Seq::empty()
    } else {
        seq!['0'] + zeroes((n - 1) as nat)
    }
}

/// The text a decimal displays as: a whole part, a point, and a fraction,
/// with `.0` written out for whole-valued decimals.
pub open spec fn render_dec(d: Decimal) -> Seq<char> {
    let sgn: Seq<char> = if d.mant < 0 {
        seq!['-']
    } else {
        Seq::empty()
    };
    let m = digits_of(if d.mant < 0 {
        (-(d.mant as int)) as nat
    } else {
        d.mant as nat
    });
    if d.scale == 0 {
        sgn + m + seq!['.', '0']
    } else if m.len() > d.scale {
        sgn + m.take(m.len() - d.scale) + seq!['.'] + m.skip(m.len() - d.scale)
    } else {
        sgn + seq!['0', '.'] + zeroes((d.scale - m.len()) as nat) + m
    }
}

fn digit_str(d: u64) -> (s: &'static str)
    requires
        d < 10,
    ensures
        s@ == seq![digit_char(d as int)],
{
    proof {
        reveal_strlit("0");
        reveal_strlit("1");
        reveal_strlit("2");
        reveal_strlit("3");
        reveal_strlit("4");
        reveal_strlit("5");
        reveal_strlit("6");
        reveal_strlit("7");
        reveal_strlit("8");
        reveal_strlit("9");
    }
    let r = match d {
        0 => "0",
        1 => "1",
        2 => "2",
        3 => "3",
        4 => "4",
        5 => "5",
        6 => "6",
        7 => "7",
        8 => "8",
        _ => "9",
    };
    proof {
        assert(r@ =~= seq![digit_char(d as int)]);
    }
    r
}

/// Write out the digits of a non-negative number.
pub fn render_digits(n: u64) -> (s: String)
    ensures
        s@ == digits_of(n as nat),
    decreases n,
{
    if n < 10 {
        digit_str(n).to_owned()
    } else {
        let mut s = render_digits(n / 10);
        s.append(digit_str(n % 10));
        s
    }
}

/// Write out an integer, sign included.
pub fn render_i64(v: i64) -> (s: String)
    ensures
        s@ == render_int(v as int),
{
    if v < 0 {
        let mag: u64 = if v == i64::MIN {
            9223372036854775808u64
        } else {
            (-v) as u64
        };
        proof {
            reveal_strlit("-");
        }
        let mut s = String::from_str("-");
        let ds = render_digits(mag);
        s.append(ds.as_str());
        proof {
            assert(s@ =~= render_int(v as int));
        }
        s
    } else {
        render_digits(v as u64)
    }
}

/// Write out a decimal, always with a decimal point.
pub fn render_decimal(d: &Decimal) -> (s: String)
    requires
        d.wf(),
    ensures
        s@ == render_dec(*d),
{
    let mag: u64 = if d.mant < 0 {
        if d.mant == i64::MIN {
            9223372036854775808u64
        } else {
            (-d.mant) as u64
        }
    } else {
        d.mant as u64
    };
    let mut s = String::new();
    if d.mant < 0 {
        proof {
            reveal_strlit("-");
        }
        s.append("-");
    }
    let m = render_digits(mag);
    let ml = m.unicode_len();
    if d.scale == 0 {
        proof {
            reveal_strlit(".0");
        }
        s.append(m.as_str());
        s.append(".0");
        proof {
            assert(s@ =~= render_dec(*d));
        }
        s
    } else if ml > d.scale as usize {
        proof {
            reveal_strlit(".");
        }
        let cut = ml - d.scale as usize;
        s.append(m.as_str().substring_char(0, cut));
        s.append(".");
        s.append(m.as_str().substring_char(cut, ml));
        proof {
            assert(m@.subrange(0, cut as int) =~= m@.take(m@.len() - d.scale));
            assert(m@.subrange(cut as int, ml as int) =~= m@.skip(m@.len() - d.scale));
            assert(s@ =~= render_dec(*d));
        }
        s
    } else {
        proof {
            reveal_strlit("0.");
            reveal_strlit("0");
        }
        s.append("0.");
        let mut z: usize = d.scale as usize - ml;
        let ghost zfull = z as nat;
        while z > 0
            invariant
                s@ == (if d.mant < 0 {
                    seq!['-']
                } else {
                    Seq::<char>::empty()
                }) + seq!['0', '.'] + zeroes((zfull - z) as nat),
                z <= zfull,
                "0"@ == seq!['0'],
        decreases z,
        {
            s.append("0");
            proof {
                assert(zeroes((zfull - z + 1) as nat) =~= zeroes((zfull - z) as nat) + seq!['0'])
                    by {
                    lemma_zeroes_snoc((zfull - z + 1) as nat);
                }
                assert(s@ =~= (if d.mant < 0 {
                    seq!['-']
                } else {
                    Seq::<char>::empty()
                }) + seq!['0', '.'] + zeroes((zfull - z + 1) as nat));
            }
            z = z - 1;
        }
        s.append(m.as_str());
        proof {
            assert(s@ =~= render_dec(*d));
        }
        s
    }
}

proof fn lemma_zeroes_snoc(n: nat)
    requires
        n > 0,
    ensures
        zeroes(n) == zeroes((n - 1) as nat) + seq!['0'],
    decreases n,
{
    if n > 1 {
        lemma_zeroes_snoc((n - 1) as nat);
        assert(zeroes(n) =~= zeroes((n - 1) as nat) + seq!['0']);
    } else {
        assert(zeroes(1nat) =~= zeroes(0nat) + seq!['0']);
    }
}

/// Character-by-character string equality.
pub fn str_eq(a: &str, b: &str) -> (r: bool)
    ensures
        r == (a@ == b@),
{
    let na = a.unicode_len();
    let nb = b.unicode_len();
    if na != nb {
        proof {
            assert(a@ != b@);
        }
        return false;
    }
    let mut i: usize = 0;
    while i < na
        invariant
            0 <= i <= na,
            na == a@.len(),
            na == b@.len(),
            forall|j: int| 0 <= j < i ==> a@[j] == b@[j],
        decreases na - i,
    {
        if a.get_char(i) != b.get_char(i) {
            return false;
        }
        i = i + 1;
    }
    proof {
        assert(a@ =~= b@);
    }
    true
}

} // verus!
