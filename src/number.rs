use vstd::prelude::*;
use crate::measurement::clamp_tenths;

verus! {

/// Byte codes used below: `-` is 45, `.` is 46, `0`..`9` are 48..57.
pub open spec fn is_digit(b: u8) -> bool {
    48 <= b <= 57
}

pub open spec fn all_digits(s: Seq<u8>) -> bool {
    forall|i: int| 0 <= i < s.len() ==> is_digit(#[trigger] s[i])
}

/// The natural number written by the decimal digits `s`.
pub open spec fn digits_value(s: Seq<u8>) -> int
    decreases s.len(),
{
    if s.len() == 0 {
        0
    } else {
        digits_value(s.drop_last()) * 10 + (s.last() - 48)
    }
}

/// One or more digits, optionally followed by `.` and exactly one digit.
pub open spec fn unsigned_ok(s: Seq<u8>) -> bool {
    ||| s.len() >= 1 && all_digits(s)
    ||| s.len() >= 3 && s[s.len() - 2] == 46 && all_digits(s.take(s.len() - 2)) && is_digit(s.last())
}

/// Tenths written by an unsigned decimal accepted by `unsigned_ok`.
pub open spec fn unsigned_tenths(s: Seq<u8>) -> int {
    if all_digits(s) {
        digits_value(s) * 10
    } else {
        digits_value(s.take(s.len() - 2)) * 10 + (s.last() - 48)
    }
}

pub open spec fn has_sign(s: Seq<u8>) -> bool {
    s.len() > 0 && s[0] == 45
}

/// A decimal with an optional leading `-` and at most one fractional digit.
pub open spec fn well_formed(s: Seq<u8>) -> bool {
    if has_sign(s) {
        unsigned_ok(s.drop_first())
    } else {
        unsigned_ok(s)
    }
}

/// The value of a well-formed decimal, times ten.
pub open spec fn value_of(s: Seq<u8>) -> int {
    if has_sign(s) {
        -unsigned_tenths(s.drop_first())
    } else {
        unsigned_tenths(s)
    }
}

/// The digits before the point of an unsigned decimal.
pub open spec fn whole_digits(u: Seq<u8>) -> Seq<u8> {
    if all_digits(u) {
        u
    } else {
        u.take(u.len() - 2)
    }
}

/// The digit after the point of an unsigned decimal, zero when there is none.
pub open spec fn frac_digit(u: Seq<u8>) -> int {
    if all_digits(u) {
        0
    } else {
        u.last() - 48
    }
}

/// Tenths of an unsigned decimal whose whole part saturates at 1000 units.
pub open spec fn saturated_tenths(u: Seq<u8>) -> int {
    let w = digits_value(whole_digits(u));
    (if w < 1000 { w } else { 1000 }) * 10 + frac_digit(u)
}

/// What decoding yields: `None` for bytes that are not a decimal, else its
/// tenths with the whole part saturated at 1000 units.
pub open spec fn decoded(s: Seq<u8>) -> Option<int> {
    if !well_formed(s) {
        None
    } else if has_sign(s) {
        Some(-saturated_tenths(s.drop_first()))
    } else {
        Some(saturated_tenths(s))
    }
}

/// Whole units at which decoding saturates: every value from here on lies
/// beyond the domain, where only its clamped form matters.
const WHOLE_CAP: i64 = 1000;

pub proof fn lemma_digits_value_nonneg(s: Seq<u8>)
    requires
        all_digits(s),
    ensures
        digits_value(s) >= 0,
    decreases s.len(),
{
    if s.len() > 0 {
        assert(all_digits(s.drop_last()));
        lemma_digits_value_nonneg(s.drop_last());
    }
}

/// Decodes a decimal with at most one fractional digit into tenths: exactly
/// up to 999.9 in magnitude, saturating beyond, so that clamping the result
/// clamps the value. `None` when the bytes are not such a decimal.
pub fn parse_fake_float(bytes: &[u8]) -> (r: Option<i16>)
    ensures
        r.is_some() == well_formed(bytes@),
        r.is_some() ==> decoded(bytes@) == Some(r.unwrap() as int),
        r.is_some() && -9999 <= value_of(bytes@) <= 9999 ==> r.unwrap() as int == value_of(bytes@),
        r.is_some() ==> clamp_tenths(r.unwrap() as int) == clamp_tenths(value_of(bytes@)),
{
    let s = Ghost(bytes@);
    let len = bytes.len();
    let negative = len > 0 && bytes[0] == 45u8;
    let start: usize = if negative { 1 } else { 0 };
    let ghost u = if negative { s@.drop_first() } else { s@ };
    assert(u =~= s@.subrange(start as int, len as int));
    let mut acc: i64 = 0;
    let mut j: usize = start;
    while j < len && 48u8 <= bytes[j] && bytes[j] <= 57u8
        invariant
            start <= j <= len,
            0 <= acc <= WHOLE_CAP,
            len == bytes@.len(),
            u =~= bytes@.subrange(start as int, len as int),
            all_digits(bytes@.subrange(start as int, j as int)),
            acc as int == if digits_value(bytes@.subrange(start as int, j as int)) < WHOLE_CAP {
                digits_value(bytes@.subrange(start as int, j as int))
            } else {
                WHOLE_CAP as int
            },
        decreases len - j,
    {
        let ghost p = bytes@.subrange(start as int, j as int);
        let ghost q = bytes@.subrange(start as int, j + 1);
        assert(q.drop_last() =~= p);
        assert(all_digits(q));
        proof {
            lemma_digits_value_nonneg(p);
        }
        let d: i64 = (bytes[j] - 48u8) as i64;
        if acc < WHOLE_CAP {
            let n: i64 = acc * 10 + d;
            acc = if n < WHOLE_CAP { n } else { WHOLE_CAP };
        }
        j = j + 1;
    }
    let ghost w = bytes@.subrange(start as int, j as int);
    assert(w =~= u.take(j - start));
    if j == start {
        assert(!all_digits(u) || u.len() == 0) by {
            if u.len() > 0 {
                assert(!is_digit(u[0]));
            }
        }
        assert(u.len() >= 3 ==> !all_digits(u.take(u.len() - 2))) by {
            if u.len() >= 3 {
                assert(!is_digit(u.take(u.len() - 2)[0]));
            }
        }
        return None;
    }
    proof {
        lemma_digits_value_nonneg(w);
    }
    let tenths: i64;
    if j == len {
        assert(w =~= u);
        tenths = acc * 10;
    } else if bytes[j] == 46u8 && len - j == 2 && 48u8 <= bytes[j + 1] && bytes[j + 1] <= 57u8 {
        assert(u.take(u.len() - 2) =~= w);
        assert(!all_digits(u)) by {
            assert(!is_digit(u[j - start]));
        }
        tenths = acc * 10 + (bytes[j + 1] - 48u8) as i64;
    } else {
        assert(!all_digits(u)) by {
            assert(!is_digit(u[j - start]));
        }
        assert(!(u.len() >= 3 && u[u.len() - 2] == 46 && all_digits(u.take(u.len() - 2)) && is_digit(u.last()))) by {
            if u.len() >= 3 && u[u.len() - 2] == 46 && all_digits(u.take(u.len() - 2)) && is_digit(u.last()) {
                if j - start < u.len() - 2 {
                    assert(!is_digit(u.take(u.len() - 2)[j - start]));
                }
            }
        }
        return None;
    }
    assert(tenths == unsigned_tenths(u) || (tenths >= 10000 && unsigned_tenths(u) >= 10000));
    assert(tenths == saturated_tenths(u));
    let signed: i64 = if negative { -tenths } else { tenths };
    Some(signed as i16)
}

/// The byte of decimal digit `d`.
pub open spec fn digit_byte(d: int) -> u8 {
    (d + 48) as u8
}

/// The decimal digits of `n`, most significant first, without leading zeros.
pub open spec fn nat_digits(n: nat) -> Seq<u8>
    decreases n,
{
    if n < 10 {
        seq![digit_byte(n as int)]
    } else {
        nat_digits(n / 10).push(digit_byte((n % 10) as int))
    }
}

pub open spec fn abs(v: int) -> nat {
    if v < 0 {
        (-v) as nat
    } else {
        v as nat
    }
}

/// Tenths `v` written as a decimal with exactly one fractional digit.
pub open spec fn encode(v: int) -> Seq<u8> {
    let a = abs(v);
    let sign = if v < 0 { seq![45u8] } else { Seq::<u8>::empty() };
    sign + nat_digits(a / 10) + seq![46u8, digit_byte((a % 10) as int)]
}

pub proof fn lemma_nat_digits(n: nat)
    ensures
        nat_digits(n).len() >= 1,
        all_digits(nat_digits(n)),
        digits_value(nat_digits(n)) == n,
    decreases n,
{
    if n >= 10 {
        lemma_nat_digits(n / 10);
        let d = nat_digits(n);
        assert(d.drop_last() =~= nat_digits(n / 10));
        assert forall|i: int| 0 <= i < d.len() implies is_digit(#[trigger] d[i]) by {
            if i < d.len() - 1 {
                assert(d[i] == nat_digits(n / 10)[i]);
            }
        }
        assert(d.last() as int == n % 10 + 48);
        assert(digits_value(d) == digits_value(nat_digits(n / 10)) * 10 + (n % 10));
    } else {
        let d = nat_digits(n);
        assert(d.last() as int == n + 48);
        assert(d.drop_last() =~= Seq::<u8>::empty());
        assert(digits_value(d) == digits_value(Seq::<u8>::empty()) * 10 + n);
    }
}

/// Writing tenths as a decimal and decoding it gives the same tenths, for
/// every value up to 999.9 in magnitude; the written value is exact for all.
pub proof fn lemma_round_trip(v: int)
    ensures
        well_formed(encode(v)),
        value_of(encode(v)) == v,
        -9999 <= v <= 9999 ==> decoded(encode(v)) == Some(v),
{
    let a = abs(v);
    let d = nat_digits(a / 10);
    lemma_nat_digits(a / 10);
    let u = d + seq![46u8, digit_byte((a % 10) as int)];
    assert(u.take(u.len() - 2) =~= d);
    assert(!all_digits(u)) by {
        assert(!is_digit(u[u.len() - 2]));
    }
    assert(!has_sign(u)) by {
        assert(u[0] == d[0]);
    }
    assert(whole_digits(u) == d);
    assert(u.last() as int == a % 10 + 48);
    if v < 0 {
        assert(encode(v).drop_first() =~= u);
    } else {
        assert(encode(v) =~= u);
    }
}

/// Appends the decimal digits of `n`.
fn push_digits(out: &mut Vec<u8>, n: u32)
    ensures
        final(out)@ == old(out)@ + nat_digits(n as nat),
    decreases n,
{
    if n >= 10 {
        push_digits(out, n / 10);
    }
    out.push((n % 10) as u8 + 48u8);
    assert(n < 10 ==> nat_digits(n as nat) =~= seq![digit_byte(n as int)]);
}

/// Writes tenths as a decimal with exactly one fractional digit (`-12.3`).
pub fn format_tenths(v: i16) -> (r: Vec<u8>)
    ensures
        r@ == encode(v as int),
{
    let mut out: Vec<u8> = Vec::new();
    let a: u32 = if v < 0 { (-(v as i32)) as u32 } else { v as u32 };
    if v < 0 {
        out.push(45u8);
    }
    push_digits(&mut out, a / 10);
    out.push(46u8);
    out.push((a % 10) as u8 + 48u8);
    assert(out@ =~= encode(v as int));
    out
}

} // verus!
