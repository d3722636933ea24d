//! Decimal codec on byte strings: canonical digits of a number, parsing of
//! unsigned integers, and parsing of decimal fractions for relative
//! thresholds. The formatter and the parser are exact inverses, which is what
//! the histogram's tab-separated round trip rests on.

use vstd::prelude::*;

verus! {

pub open spec fn is_digit(b: u8) -> bool {
    48 <= b <= 57
}

pub open spec fn digit_val(b: u8) -> nat
    recommends
        is_digit(b),
{
    (b - 48) as nat
}

pub open spec fn all_digits(s: Seq<u8>) -> bool {
    forall|i: int| 0 <= i < s.len() ==> is_digit(#[trigger] s[i])
}

/// The number denoted by a digit string, most significant digit first.
pub open spec fn dec_value(s: Seq<u8>) -> nat
    recommends
        all_digits(s),
    decreases s.len(),
{
    if s.len() == 0 {
        0
    } else {
        dec_value(s.drop_last()) * 10 + digit_val(s.last())
    }
}

/// The canonical decimal digits of `n`: no leading zero, `"0"` for zero.
pub open spec fn dec_digits(n: nat) -> Seq<u8>
    decreases n,
{
    if n < 10 {
        seq![(n + 48) as u8]
    } else {
        dec_digits(n / 10).push((n % 10 + 48) as u8)
    }
}

pub proof fn lemma_dec_digits_wf(n: nat)
    ensures
        dec_digits(n).len() >= 1,
        all_digits(dec_digits(n)),
        dec_digits(n)[0] != 48 || dec_digits(n).len() == 1,
        (dec_digits(n).len() == 1) == (n < 10),
    decreases n,
{
    if n >= 10 {
        lemma_dec_digits_wf(n / 10);
        assert(dec_digits(n) == dec_digits(n / 10).push((n % 10 + 48) as u8));
        assert(dec_digits(n)[0] == dec_digits(n / 10)[0]);
        if n / 10 < 10 {
            assert(n / 10 >= 1);
            assert(dec_digits(n / 10) == seq![(n / 10 + 48) as u8]);
            assert(dec_digits(n / 10)[0] == (n / 10 + 48) as u8);
        }
    }
}

/// Formatting then reading a number gives the number back.
pub proof fn lemma_dec_round_trip(n: nat)
    ensures
        dec_value(dec_digits(n)) == n,
    decreases n,
{
    if n < 10 {
        assert(dec_digits(n) =~= seq![(n + 48) as u8]);
        assert(dec_value(seq![(n + 48) as u8]) == dec_value(
            seq![(n + 48) as u8].drop_last(),
        ) * 10 + n);
        assert(seq![(n + 48) as u8].drop_last() =~= Seq::<u8>::empty());
    } else {
        lemma_dec_round_trip(n / 10);
        let s = dec_digits(n / 10).push((n % 10 + 48) as u8);
        assert(s.drop_last() =~= dec_digits(n / 10));
        assert(s.last() == (n % 10 + 48) as u8);
        assert(n == (n / 10) * 10 + n % 10) by (nonlinear_arith);
    }
}

/// Appends the canonical digits of `n` to `out`.
pub fn push_digits(n: usize, out: &mut Vec<u8>)
    ensures
        final(out)@ == old(out)@ + dec_digits(n as nat),
    decreases n,
{
    if n < 10 {
        let d: u8 = (n as u8) + 48;
        out.push(d);
        assert(out@ =~= old(out)@ + dec_digits(n as nat));
    } else {
        push_digits(n / 10, out);
        let d: u8 = ((n % 10) as u8) + 48;
        out.push(d);
        assert(out@ =~= old(out)@ + dec_digits(n as nat));
    }
}

/// The canonical digits of `n` as a fresh byte string.
pub fn format_usize(n: usize) -> (r: Vec<u8>)
    ensures
        r@ == dec_digits(n as nat),
{
    let mut out: Vec<u8> = Vec::new();
    push_digits(n, &mut out);
    assert(out@ =~= dec_digits(n as nat));
    out
}

/// Splitting a digit string anywhere relates the values of the parts.
pub proof fn lemma_dec_value_append(a: Seq<u8>, b: Seq<u8>)
    ensures
        dec_value(a + b) == dec_value(a) * pow10(b.len()) + dec_value(b),
    decreases b.len(),
{
    if b.len() == 0 {
        assert(a + b =~= a);
        assert(dec_value(a) * 1 == dec_value(a)) by (nonlinear_arith);
    } else {
        lemma_dec_value_append(a, b.drop_last());
        assert((a + b).drop_last() =~= a + b.drop_last());
        assert((a + b).last() == b.last());
        let va = dec_value(a);
        let p = pow10(b.drop_last().len());
        assert(pow10(b.len()) == p * 10);
        assert((va * p + dec_value(b.drop_last())) * 10 + digit_val(b.last()) == va * (p * 10)
            + (dec_value(b.drop_last()) * 10 + digit_val(b.last()))) by (nonlinear_arith);
    }
}

pub open spec fn pow10(k: nat) -> nat
    decreases k,
{
    if k == 0 {
        1
    } else {
        pow10((k - 1) as nat) * 10
    }
}

pub proof fn lemma_pow10_pos(k: nat)
    ensures
        pow10(k) >= 1,
    decreases k,
{
    if k > 0 {
        lemma_pow10_pos((k - 1) as nat);
    }
}

/// Reads the digit string `s[start..end]` as an unsigned integer. Returns the
/// value exactly when the range is non-empty, holds digits only, and the value
/// fits the machine word.
pub fn parse_usize_range(s: &Vec<u8>, start: usize, end: usize) -> (r: Option<usize>)
    requires
        start <= end <= s@.len(),
    ensures
        match r {
            Some(v) => all_digits(s@.subrange(start as int, end as int)) && start < end && v
                == dec_value(s@.subrange(start as int, end as int)),
            None => start == end || !all_digits(s@.subrange(start as int, end as int))
                || dec_value(s@.subrange(start as int, end as int)) > usize::MAX,
        },
{
    if start == end {
        return None;
    }
    let mut acc: usize = 0;
    let mut i: usize = start;
    while i < end
        invariant
            start <= i <= end <= s@.len(),
            all_digits(s@.subrange(start as int, i as int)),
            acc == dec_value(s@.subrange(start as int, i as int)),
        decreases end - i,
    {
        let b = s[i];
        if b < 48 || b > 57 {
            assert(!is_digit(s@.subrange(start as int, end as int)[i - start]));
            return None;
        }
        let d: usize = (b - 48) as usize;
        let ghost pre = s@.subrange(start as int, i as int);
        let ghost cur = s@.subrange(start as int, i as int + 1);
        assert(cur.drop_last() =~= pre);
        assert(cur.last() == b);
        if acc > usize::MAX / 10 || (acc == usize::MAX / 10 && d > usize::MAX % 10) {
            proof {
                assert(acc * 10 + d > usize::MAX) by (nonlinear_arith)
                    requires
                        acc > usize::MAX / 10 || (acc == usize::MAX / 10 && d > usize::MAX % 10),
                        usize::MAX == usize::MAX / 10 * 10 + usize::MAX % 10,
                ;
                let rest = s@.subrange(i as int + 1, end as int);
                lemma_dec_value_append(cur, rest);
                lemma_pow10_pos(rest.len());
                assert(cur + rest =~= s@.subrange(start as int, end as int));
                assert(dec_value(cur) * pow10(rest.len()) >= dec_value(cur) * 1) by (
                nonlinear_arith)
                    requires
                        pow10(rest.len()) >= 1,
                ;
            }
            return None;
        }
        proof {
            assert(acc * 10 + d <= usize::MAX) by (nonlinear_arith)
                requires
                    acc <= usize::MAX / 10,
                    d <= 9,
                    acc < usize::MAX / 10 || d <= usize::MAX % 10,
                    usize::MAX == usize::MAX / 10 * 10 + usize::MAX % 10,
            ;
        }
        acc = acc * 10 + d;
        i = i + 1;
    }
    assert(s@.subrange(start as int, end as int) =~= s@.subrange(start as int, i as int));
    Some(acc)
}

/// A digit string stays below the power of ten of its width.
pub proof fn lemma_dec_value_bound(s: Seq<u8>)
    requires
        all_digits(s),
    ensures
        dec_value(s) < pow10(s.len()),
    decreases s.len(),
{
    if s.len() == 0 {
    } else {
        lemma_dec_value_bound(s.drop_last());
        let p = pow10(s.drop_last().len());
        assert(dec_value(s.drop_last()) * 10 + digit_val(s.last()) < p * 10) by (nonlinear_arith)
            requires
                dec_value(s.drop_last()) < p,
                digit_val(s.last()) <= 9,
        ;
    }
}

/// Reads the digit string `s[start..end]` as a 64-bit unsigned integer.
pub fn parse_u64_range(s: &Vec<u8>, start: usize, end: usize) -> (r: Option<u64>)
    requires
        start <= end <= s@.len(),
    ensures
        match r {
            Some(v) => all_digits(s@.subrange(start as int, end as int)) && start < end && v
                == dec_value(s@.subrange(start as int, end as int)),
            None => start == end || !all_digits(s@.subrange(start as int, end as int))
                || dec_value(s@.subrange(start as int, end as int)) > u64::MAX,
        },
{
    if start == end {
        return None;
    }
    let mut acc: u64 = 0;
    let mut i: usize = start;
    while i < end
        invariant
            start <= i <= end <= s@.len(),
            all_digits(s@.subrange(start as int, i as int)),
            acc == dec_value(s@.subrange(start as int, i as int)),
        decreases end - i,
    {
        let b = s[i];
        if b < 48 || b > 57 {
            assert(!is_digit(s@.subrange(start as int, end as int)[i - start]));
            return None;
        }
        let d: u64 = (b - 48) as u64;
        let ghost pre = s@.subrange(start as int, i as int);
        let ghost cur = s@.subrange(start as int, i as int + 1);
        assert(cur.drop_last() =~= pre);
        assert(cur.last() == b);
        if acc > u64::MAX / 10 || (acc == u64::MAX / 10 && d > u64::MAX % 10) {
            proof {
                assert(acc * 10 + d > u64::MAX) by (nonlinear_arith)
                    requires
                        acc > u64::MAX / 10 || (acc == u64::MAX / 10 && d > u64::MAX % 10),
                        u64::MAX == u64::MAX / 10 * 10 + u64::MAX % 10,
                ;
                let rest = s@.subrange(i as int + 1, end as int);
                lemma_dec_value_append(cur, rest);
                lemma_pow10_pos(rest.len());
                assert(cur + rest =~= s@.subrange(start as int, end as int));
                assert(dec_value(cur) * pow10(rest.len()) >= dec_value(cur) * 1) by (
                nonlinear_arith)
                    requires
                        pow10(rest.len()) >= 1,
                ;
            }
            return None;
        }
        proof {
            assert(acc * 10 + d <= u64::MAX) by (nonlinear_arith)
                requires
                    acc <= u64::MAX / 10,
                    d <= 9,
                    acc < u64::MAX / 10 || d <= u64::MAX % 10,
                    u64::MAX == u64::MAX / 10 * 10 + u64::MAX % 10,
            ;
        }
        acc = acc * 10 + d;
        i = i + 1;
    }
    assert(s@.subrange(start as int, end as int) =~= s@.subrange(start as int, i as int));
    Some(acc)
}

pub open spec fn is_ws(b: u8) -> bool {
    b == 32 || b == 9 || b == 13 || b == 10
}

/// The string with its leading whitespace removed.
pub open spec fn trim_left(s: Seq<u8>) -> Seq<u8>
    decreases s.len(),
{
    if s.len() > 0 && is_ws(s[0]) {
        trim_left(s.skip(1))
    } else {
        s
    }
}

/// The string with its trailing whitespace removed.
pub open spec fn trim_right(s: Seq<u8>) -> Seq<u8>
    decreases s.len(),
{
    if s.len() > 0 && is_ws(s.last()) {
        trim_right(s.drop_last())
    } else {
        s
    }
}

/// The string with whitespace removed at both ends.
pub open spec fn trim(s: Seq<u8>) -> Seq<u8> {
    trim_right(trim_left(s))
}

proof fn lemma_trim_left_at(s: Seq<u8>, a: int)
    requires
        0 <= a <= s.len(),
        forall|j: int| 0 <= j < a ==> is_ws(#[trigger] s[j]),
        a < s.len() ==> !is_ws(s[a]),
    ensures
        trim_left(s) == s.skip(a),
    decreases a,
{
    if a == 0 {
        assert(s.skip(0) =~= s);
    } else {
        assert(is_ws(s[0]));
        lemma_trim_left_at(s.skip(1), a - 1);
        assert(s.skip(1).skip(a - 1) =~= s.skip(a));
    }
}

proof fn lemma_trim_right_at(s: Seq<u8>, b: int)
    requires
        0 <= b <= s.len(),
        forall|j: int| b <= j < s.len() ==> is_ws(#[trigger] s[j]),
        b > 0 ==> !is_ws(s[b - 1]),
    ensures
        trim_right(s) == s.take(b),
    decreases s.len() - b,
{
    if b == s.len() {
        assert(s.take(b) =~= s);
    } else {
        assert(is_ws(s.last()));
        lemma_trim_right_at(s.drop_last(), b);
        assert(s.drop_last().take(b) =~= s.take(b));
    }
}

/// Copies `s` with ASCII whitespace removed at both ends.
pub fn trim_bytes(s: &Vec<u8>) -> (r: Vec<u8>)
    ensures
        r@ == trim(s@),
{
    let n = s.len();
    let mut a: usize = 0;
    while a < n
        invariant
            a <= n,
            n == s@.len(),
            forall|j: int| 0 <= j < a ==> is_ws(#[trigger] s@[j]),
        ensures
            a <= n,
            forall|j: int| 0 <= j < a ==> is_ws(#[trigger] s@[j]),
            a < n ==> !is_ws(s@[a as int]),
        decreases n - a,
    {
        let b = s[a];
        if !(b == 32 || b == 9 || b == 13 || b == 10) {
            break ;
        }
        a = a + 1;
    }
    proof {
        lemma_trim_left_at(s@, a as int);
    }
    let ghost tl = s@.skip(a as int);
    let mut b: usize = n;
    while b > a
        invariant
            a <= b <= n,
            n == s@.len(),
            tl == s@.skip(a as int),
            forall|j: int| b <= j < n ==> is_ws(#[trigger] s@[j]),
        ensures
            a <= b <= n,
            forall|j: int| b <= j < n ==> is_ws(#[trigger] s@[j]),
            b > a ==> !is_ws(s@[b - 1]),
        decreases b,
    {
        let c = s[b - 1];
        if !(c == 32 || c == 9 || c == 13 || c == 10) {
            break ;
        }
        b = b - 1;
    }
    proof {
        assert forall|j: int| b - a <= j < tl.len() implies is_ws(#[trigger] tl[j]) by {
            assert(tl[j] == s@[j + a]);
        }
        if b > a {
            assert(tl[b - a - 1] == s@[b - 1]);
        }
        lemma_trim_right_at(tl, b - a);
        assert(tl.take(b - a) =~= s@.subrange(a as int, b as int));
    }
    crate::bytes::copy_range(s, a, b)
}

/// The exact decimal fraction a trimmed string denotes, as `num / den` with
/// `den` a power of ten, provided the value lies in `[0, 1]` and at most 19
/// fractional digits are given. `None` otherwise.
pub open spec fn spec_rel_fraction(t: Seq<u8>) -> Option<(u64, u64)> {
    match crate::bytes::find_from(t, 0, t.len() as int, 46u8) {
        None => if t.len() > 0 && all_digits(t) && dec_value(t) <= 1 {
            Some(((dec_value(t) as u64), 1u64))
        } else {
            None
        },
        Some(d) => {
            let left = t.subrange(0, d);
            let right = t.subrange(d + 1, t.len() as int);
            if all_digits(left) && all_digits(right) && left.len() + right.len() > 0
                && right.len() <= 19 && dec_value(left) <= 1 && (dec_value(left) == 1
                ==> dec_value(right) == 0) {
                Some(
                    (
                        (dec_value(left) * pow10(right.len()) + dec_value(right)) as u64,
                        pow10(right.len()) as u64,
                    ),
                )
            } else {
                None
            }
        },
    }
}

/// A denominator of at most 19 digits fits the word.
pub proof fn lemma_pow10_fits(k: nat)
    requires
        k <= 19,
    ensures
        pow10(k) <= 10_000_000_000_000_000_000,
{
    lemma_pow10_mono(k, 19);
    reveal_with_fuel(pow10, 21);
    assert(pow10(19) == 10_000_000_000_000_000_000);
}

pub proof fn lemma_pow10_mono(a: nat, b: nat)
    requires
        a <= b,
    ensures
        pow10(a) <= pow10(b),
    decreases b,
{
    if a < b {
        lemma_pow10_mono(a, (b - 1) as nat);
        lemma_pow10_pos((b - 1) as nat);
    }
}

/// The fraction a relative threshold denotes is well formed: the denominator
/// is positive and the value is at most one.
pub proof fn lemma_rel_fraction_wf(t: Seq<u8>)
    requires
        spec_rel_fraction(t) is Some,
    ensures
        ({
            let (n, d) = spec_rel_fraction(t)->0;
            d > 0 && n <= d
        }),
{
    match crate::bytes::find_from(t, 0, t.len() as int, 46u8) {
        None => {},
        Some(d) => {
            let right = t.subrange(d + 1, t.len() as int);
            lemma_pow10_pos(right.len());
            lemma_dec_value_bound(right);
            lemma_pow10_fits(right.len());
        },
    }
}

/// Reads a trimmed string as an exact decimal fraction in `[0, 1]`.
pub fn parse_rel_fraction(t: &Vec<u8>) -> (r: Option<(u64, u64)>)
    ensures
        r == spec_rel_fraction(t@),
{
    let n = t.len();
    match crate::bytes::find_byte(t, 0, n, 46u8) {
        None => {
            proof {
                assert(t@.subrange(0, n as int) =~= t@);
            }
            match parse_u64_range(t, 0, n) {
                Some(v) => {
                    if v <= 1 {
                        Some((v, 1u64))
                    } else {
                        None
                    }
                },
                None => None,
            }
        },
        Some(d) => {
            proof {
                crate::bytes::lemma_find_from(t@, 0, n as int, 46u8);
            }
            let ghost left = t@.subrange(0, d as int);
            let ghost right = t@.subrange(d + 1, n as int);
            // the digits left of the point: empty means zero
            let lv: u64 = if d == 0 {
                proof {
                    assert(left =~= Seq::<u8>::empty());
                }
                0
            } else {
                match parse_u64_range(t, 0, d) {
                    Some(v) => {
                        if v > 1 {
                            return None;
                        }
                        v
                    },
                    None => {
                        return None;
                    },
                }
            };
            let dlen = n - (d + 1);
            if dlen > 19 {
                return None;
            }
            let rv: u64 = if dlen == 0 {
                proof {
                    assert(right =~= Seq::<u8>::empty());
                }
                0
            } else {
                match parse_u64_range(t, d + 1, n) {
                    Some(v) => v,
                    None => {
                        proof {
                            if all_digits(right) {
                                lemma_dec_value_bound(right);
                                lemma_pow10_fits(right.len());
                            }
                        }
                        return None;
                    },
                }
            };
            if d == 0 && dlen == 0 {
                return None;
            }
            if lv == 1 && rv != 0 {
                return None;
            }
            let den: u64 = pow10_u64(dlen);
            proof {
                lemma_dec_value_bound(right);
                lemma_pow10_fits(right.len());
                assert(rv < den);
                assert(lv * den + rv <= u64::MAX) by (nonlinear_arith)
                    requires
                        lv <= 1,
                        lv == 1 ==> rv == 0,
                        den <= 10_000_000_000_000_000_000u64,
                        rv < den,
                ;
            }
            Some((lv * den + rv, den))
        },
    }
}

/// Ten to the `k`, for `k` at most 19.
pub fn pow10_u64(k: usize) -> (r: u64)
    requires
        k <= 19,
    ensures
        r == pow10(k as nat),
{
    let mut r: u64 = 1;
    let mut i: usize = 0;
    while i < k
        invariant
            i <= k <= 19,
            r == pow10(i as nat),
        decreases k - i,
    {
        proof {
            lemma_pow10_fits(i as nat + 1);
            lemma_pow10_fits(i as nat);
        }
        r = r * 10;
        i = i + 1;
    }
    r
}

} // verus!
