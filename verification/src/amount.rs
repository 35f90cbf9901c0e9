//! Fixed-point money amounts.
//!
//! An amount is a signed count of 1/10000 currency units, so four fractional
//! decimal digits are carried exactly and every balance computation is
//! integer arithmetic. [`parse_amount`] reads the decimal notation of the
//! input boundary (`digits`, optionally `.` and one to four fraction
//! digits, with an optional leading minus); [`format_amount`] renders an
//! amount back with the fixed four-digit precision.

use vstd::prelude::*;

verus! {

/// Number of fixed-point units in one whole currency unit.
pub const SCALE: i64 = 10000;

/// An ASCII decimal digit.
pub open spec fn is_digit(b: u8) -> bool {
    48 <= b && b <= 57
}

/// Every byte of `s` is an ASCII digit.
pub open spec fn all_digits(s: Seq<u8>) -> bool {
    forall|i: int| 0 <= i < s.len() ==> is_digit(#[trigger] s[i])
}

/// The number the digit string `s` denotes, most significant digit first.
pub open spec fn digits_value(s: Seq<u8>) -> int
    decreases s.len(),
{
    if s.len() == 0 {
        0
    } else {
        digits_value(s.drop_last()) * 10 + (s.last() - 48)
    }
}

/// Length of the longest ASCII-digit prefix of `s`.
pub open spec fn digit_prefix_len(s: Seq<u8>) -> int
    decreases s.len(),
{
    if s.len() == 0 || !is_digit(s[0]) {
        0
    } else {
        1 + digit_prefix_len(s.drop_first())
    }
}

/// The factor that scales a fraction of `n` digits to 1/10000 units.
pub open spec fn frac_scale(n: int) -> int {
    if n == 1 {
        1000
    } else if n == 2 {
        100
    } else if n == 3 {
        10
    } else {
        1
    }
}

/// The unsigned decimal grammar: one or more digits, optionally followed
/// by a point and one to four fraction digits.
pub open spec fn valid_unsigned(s: Seq<u8>) -> bool {
    let k = digit_prefix_len(s);
    &&& k > 0
    &&& (k == s.len() || (s[k] == 46 && 1 <= s.len() - k - 1 <= 4 && all_digits(
        s.subrange(k + 1, s.len() as int),
    )))
}

/// The value, in 1/10000 units, of an unsigned decimal string.
pub open spec fn unsigned_value(s: Seq<u8>) -> int {
    let k = digit_prefix_len(s);
    let ip = digits_value(s.subrange(0, k)) * 10000;
    if k == s.len() {
        ip
    } else {
        let f = s.subrange(k + 1, s.len() as int);
        ip + digits_value(f) * frac_scale(f.len() as int)
    }
}

/// The signed decimal grammar: an optional leading minus before the
/// unsigned grammar.
pub open spec fn valid_amount(s: Seq<u8>) -> bool {
    if s.len() > 0 && s[0] == 45 {
        valid_unsigned(s.subrange(1, s.len() as int))
    } else {
        valid_unsigned(s)
    }
}

/// The value, in 1/10000 units, of a signed decimal string.
pub open spec fn amount_value(s: Seq<u8>) -> int {
    if s.len() > 0 && s[0] == 45 {
        -unsigned_value(s.subrange(1, s.len() as int))
    } else {
        unsigned_value(s)
    }
}

proof fn lemma_digits_value_nonneg(s: Seq<u8>)
    requires
        all_digits(s),
    ensures
        digits_value(s) >= 0,
    decreases s.len(),
{
    if s.len() > 0 {
        let p = s.drop_last();
        assert forall|i: int| 0 <= i < p.len() implies is_digit(#[trigger] p[i]) by {
            assert(p[i] == s[i]);
        }
        lemma_digits_value_nonneg(p);
        assert(is_digit(s[s.len() - 1]));
    }
}

proof fn lemma_digits_value_mono(s: Seq<u8>, j: int)
    requires
        all_digits(s),
        0 <= j <= s.len(),
    ensures
        digits_value(s.subrange(0, j)) <= digits_value(s),
    decreases s.len(),
{
    if j == s.len() {
        assert(s.subrange(0, j) =~= s);
    } else {
        let p = s.drop_last();
        assert forall|i: int| 0 <= i < p.len() implies is_digit(#[trigger] p[i]) by {
            assert(p[i] == s[i]);
        }
        lemma_digits_value_mono(p, j);
        assert(p.subrange(0, j) =~= s.subrange(0, j));
        lemma_digits_value_nonneg(p);
        assert(is_digit(s[s.len() - 1]));
    }
}

proof fn lemma_digit_prefix_len_is(s: Seq<u8>, k: int)
    requires
        0 <= k <= s.len(),
        forall|i: int| 0 <= i < k ==> is_digit(#[trigger] s[i]),
        k < s.len() ==> !is_digit(s[k]),
    ensures
        digit_prefix_len(s) == k,
    decreases s.len(),
{
    if k == 0 {
    } else {
        let p = s.drop_first();
        assert(is_digit(s[0]));
        lemma_digit_prefix_len_is(p, k - 1);
    }
}

/// The digits before `digit_prefix_len` are digits, and the byte right
/// after the run, if any, is not.
proof fn lemma_prefix_run(s: Seq<u8>, k: int)
    requires
        digit_prefix_len(s) == k,
    ensures
        0 <= k <= s.len(),
        forall|i: int| 0 <= i < k ==> is_digit(#[trigger] s[i]),
        k < s.len() ==> !is_digit(s[k]),
    decreases s.len(),
{
    if s.len() == 0 || !is_digit(s[0]) {
    } else {
        let p = s.drop_first();
        lemma_prefix_run(p, k - 1);
        assert forall|i: int| 0 <= i < k implies is_digit(#[trigger] s[i]) by {
            if i > 0 {
                assert(p[i - 1] == s[i]);
            }
        }
        if k < s.len() {
            assert(p[k - 1] == s[k]);
        }
    }
}

proof fn lemma_digit_prefix_len_is_outer(s: Seq<u8>, t: Seq<u8>, b: int, i: int)
    requires
        0 <= b <= i <= s.len(),
        t == s.subrange(b, s.len() as int),
        forall|j: int| b <= j < i ==> is_digit(#[trigger] s[j]),
        i < s.len() ==> !is_digit(s[i]),
    ensures
        digit_prefix_len(t) == i - b,
{
    assert forall|j: int| 0 <= j < i - b implies is_digit(#[trigger] t[j]) by {
        assert(t[j] == s[b + j]);
    }
    if i - b < t.len() {
        assert(t[i - b] == s[i]);
    }
    lemma_digit_prefix_len_is(t, i - b);
}

/// A digit run already scanned past the representable range forces the
/// whole string, if it is well formed at all, out of range too.
proof fn lemma_scan_overflow(s: Seq<u8>, t: Seq<u8>, b: int, i: int, w: int)
    requires
        0 <= b <= i < s.len(),
        b == 0 || b == 1,
        t == s.subrange(b, s.len() as int),
        b == 1 ==> s.len() > 0 && s[0] == 45,
        b == 0 ==> !(s.len() > 0 && s[0] == 45),
        forall|j: int| b <= j <= i ==> is_digit(#[trigger] s[j]),
        w == digits_value(s.subrange(b, i + 1)),
        w > i64::MAX,
    ensures
        !valid_amount(s) || amount_value(s) > i64::MAX || amount_value(s) < i64::MIN,
{
    if valid_amount(s) {
        if b == 0 {
            assert(t =~= s);
        }
        assert(valid_unsigned(t));
        let k = digit_prefix_len(t);
        lemma_prefix_run(t, k);
        let m = i + 1 - b;
        assert(m <= t.len());
        if m > k {
            assert(t[k] == s[b + k]);
            assert(is_digit(s[b + k]));
            assert(false);
        }
        let ipart = t.subrange(0, k);
        assert forall|q: int| 0 <= q < ipart.len() implies is_digit(#[trigger] ipart[q]) by {
            assert(ipart[q] == t[q]);
        }
        assert(s.subrange(b, i + 1) =~= ipart.subrange(0, m));
        lemma_digits_value_mono(ipart, m);
        let ipv = digits_value(ipart);
        assert(ipv >= w);
        let uv = unsigned_value(t);
        assert(uv >= ipv * 10000) by {
            if k < t.len() {
                let f = t.subrange(k + 1, t.len() as int);
                lemma_digits_value_nonneg(f);
                assert(digits_value(f) * frac_scale(f.len() as int) >= 0) by (nonlinear_arith)
                    requires
                        digits_value(f) >= 0,
                        frac_scale(f.len() as int) >= 1,
                ;
            }
        }
        assert(ipv * 10000 >= (i64::MAX + 1) * 10000) by (nonlinear_arith)
            requires
                ipv >= i64::MAX + 1,
        ;
        assert(uv > i64::MAX + 1);
    }
}

/// Parse a decimal amount into 1/10000 units.
///
/// Returns the exact value of every well-formed decimal whose value fits
/// the representable range, and nothing else: `None` exactly on malformed
/// text or a value outside that range.
pub fn parse_amount(s: &[u8]) -> (r: Option<i64>)
    ensures
        match r {
            Some(v) => valid_amount(s@) && v as int == amount_value(s@),
            None => !valid_amount(s@) || amount_value(s@) > i64::MAX || amount_value(s@)
                < i64::MIN,
        },
{
    let n = s.len();
    let neg = n > 0 && s[0] == 45;
    let b: usize = if neg {
        1
    } else {
        0
    };
    let ghost t = s@.subrange(b as int, n as int);
    let mut i: usize = b;
    let mut v: u128 = 0;
    while i < n && 48 <= s[i] && s[i] <= 57
        invariant
            b <= i <= n,
            n == s@.len(),
            b == 1 || b == 0,
            neg ==> b == 1 && n > 0 && s@[0] == 45,
            !neg ==> b == 0 && !(n > 0 && s@[0] == 45),
            t == s@.subrange(b as int, n as int),
            forall|j: int| b <= j < i ==> is_digit(#[trigger] s@[j]),
            v == digits_value(s@.subrange(b as int, i as int)),
            v <= i64::MAX,
        decreases n - i,
    {
        let d = (s[i] - 48) as u128;
        let w = v * 10 + d;
        proof {
            let pre = s@.subrange(b as int, i as int);
            let cur = s@.subrange(b as int, i + 1);
            assert(cur.drop_last() =~= pre);
            assert(cur.last() == s@[i as int]);
        }
        if w > i64::MAX as u128 {
            proof {
                lemma_scan_overflow(s@, t, b as int, i as int, w as int);
            }
            return None;
        }
        v = w;
        i = i + 1;
    }
    let k = i - b;
    proof {
        lemma_digit_prefix_len_is_outer(s@, t, b as int, i as int);
        if !neg {
            assert(t =~= s@);
        }
    }
    if k == 0 {
        // empty integer part: not a decimal at all
        return None;
    }
    let ip_end = i;
    let mut mag: u128 = v * 10000;
    proof {
        assert(t.subrange(0, k as int) =~= s@.subrange(b as int, ip_end as int));
    }
    if i < n {
        if s[i] != 46 {
            // the digit run ends in something other than a point
            return None;
        }
        let mut j = i + 1;
        let mut fv: u64 = 0;
        let mut count: usize = 0;
        while j < n && 48 <= s[j] && s[j] <= 57
            invariant
                b <= ip_end,
                ip_end + 1 <= j <= n,
                n == s@.len(),
                b == 1 || b == 0,
                neg ==> b == 1 && n > 0 && s@[0] == 45,
                !neg ==> b == 0 && !(n > 0 && s@[0] == 45),
                t == s@.subrange(b as int, n as int),
                digit_prefix_len(t) == ip_end - b,
                ip_end < n,
                s@[ip_end as int] == 46,
                j == ip_end + 1 + count,
                count <= 4,
                forall|q: int| ip_end + 1 <= q < j ==> is_digit(#[trigger] s@[q]),
                fv == digits_value(s@.subrange(ip_end + 1, j as int)),
                fv as int <= (if count == 0 {
                    0int
                } else if count == 1 {
                    9int
                } else if count == 2 {
                    99int
                } else if count == 3 {
                    999int
                } else {
                    9999int
                }),
            decreases n - j,
        {
            if count == 4 {
                // a fifth fraction digit: the fraction is too long
                proof {
                    if valid_amount(s@) {
                        if !neg {
                            assert(t =~= s@);
                        }
                        assert(valid_unsigned(t));
                        assert(t.len() == n - b);
                        assert(t.len() - (ip_end - b) - 1 >= 5);
                        assert(false);
                    }
                }
                return None;
            }
            let d = (s[j] - 48) as u64;
            proof {
                let pre = s@.subrange(ip_end + 1, j as int);
                let cur = s@.subrange(ip_end + 1, j + 1);
                assert(cur.drop_last() =~= pre);
                assert(cur.last() == s@[j as int]);
            }
            fv = fv * 10 + d;
            count = count + 1;
            j = j + 1;
        }
        if j < n {
            // a non-digit inside the fraction
            proof {
                if valid_amount(s@) {
                    if !neg {
                        assert(t =~= s@);
                    }
                    assert(valid_unsigned(t));
                    let f = t.subrange(ip_end - b + 1, t.len() as int);
                    assert(all_digits(f));
                    assert(f[j - ip_end - 1] == s@[j as int]);
                    assert(is_digit(s@[j as int]));
                    assert(false);
                }
            }
            return None;
        }
        if count == 0 {
            // a point with no fraction digits
            proof {
                if valid_amount(s@) {
                    if !neg {
                        assert(t =~= s@);
                    }
                    assert(valid_unsigned(t));
                    assert(t.len() == n - b);
                    assert(t.len() - (ip_end - b) - 1 >= 1);
                    assert(false);
                }
            }
            return None;
        }
        let scale: u64 = if count == 1 {
            1000
        } else if count == 2 {
            100
        } else if count == 3 {
            10
        } else {
            1
        };
        proof {
            let f = t.subrange(ip_end - b + 1, t.len() as int);
            assert(f =~= s@.subrange(ip_end + 1, n as int));
            assert(f.len() == count);
            assert(frac_scale(f.len() as int) == scale);
            assert((fv as u128) * (scale as u128) <= 9999000) by (nonlinear_arith)
                requires
                    fv <= 9999,
                    scale <= 1000,
            ;
        }
        mag = mag + (fv as u128) * (scale as u128);
    }
    proof {
        if !neg {
            assert(t =~= s@);
        }
        assert(valid_unsigned(t)) by {
            assert forall|q: int| 0 <= q < (k as int) implies is_digit(#[trigger] t[q]) by {
                assert(t[q] == s@[b + q]);
            }
            if (k as int) < t.len() {
                assert(t[k as int] == s@[ip_end as int]);
                let f = t.subrange(k + 1, t.len() as int);
                assert forall|q: int| 0 <= q < f.len() implies is_digit(#[trigger] f[q]) by {
                    assert(f[q] == s@[ip_end + 1 + q]);
                }
            }
        }
        assert(mag == unsigned_value(t));
        lemma_digits_value_nonneg(t.subrange(0, k as int));
        if (k as int) < t.len() {
            lemma_digits_value_nonneg(t.subrange(k + 1, t.len() as int));
        }
        assert(mag >= 0);
    }
    if neg {
        if mag > i64::MAX as u128 + 1 {
            return None;
        }
        if mag == i64::MAX as u128 + 1 {
            return Some(i64::MIN);
        }
        return Some(-(mag as i64));
    }
    if mag > i64::MAX as u128 {
        return None;
    }
    Some(mag as i64)
}

/// The decimal digits of `n`, most significant first, without leading
/// zeros (`0` alone for zero).
pub open spec fn digit_seq(n: int) -> Seq<u8>
    decreases n,
{
    if n <= 9 {
        seq![(48 + n) as u8]
    } else {
        digit_seq(n / 10).push((48 + n % 10) as u8)
    }
}

/// The four fraction digits of `n` in 1/10000 units, zero padded.
pub open spec fn frac4(n: int) -> Seq<u8> {
    seq![
        (48 + n / 1000 % 10) as u8,
        (48 + n / 100 % 10) as u8,
        (48 + n / 10 % 10) as u8,
        (48 + n % 10) as u8,
    ]
}

/// The canonical rendering of an amount: optional minus, the whole units
/// without leading zeros, a point, and exactly four fraction digits.
pub open spec fn amount_repr(a: int) -> Seq<u8> {
    let mag = if a >= 0 {
        a
    } else {
        -a
    };
    let sign: Seq<u8> = if a < 0 {
        seq![45u8]
    } else {
        Seq::empty()
    };
    sign + digit_seq(mag / 10000) + seq![46u8] + frac4(mag % 10000)
}

proof fn lemma_digit_seq_value(n: int)
    requires
        n >= 0,
    ensures
        digit_seq(n).len() >= 1,
        all_digits(digit_seq(n)),
        digits_value(digit_seq(n)) == n,
    decreases n,
{
    if n <= 9 {
        let s = digit_seq(n);
        assert(s.drop_last() =~= Seq::<u8>::empty());
        assert(digits_value(Seq::<u8>::empty()) == 0);
        assert(s.last() == (48 + n) as u8);
        assert((48 + n) as u8 == 48 + n);
    } else {
        lemma_digit_seq_value(n / 10);
        let p = digit_seq(n / 10);
        let s = digit_seq(n);
        assert(s.drop_last() =~= p);
        assert(s.last() == (48 + n % 10) as u8);
        assert((48 + n % 10) as u8 == 48 + n % 10);
        assert(digits_value(s) == n / 10 * 10 + n % 10);
        assert forall|i: int| 0 <= i < s.len() implies is_digit(#[trigger] s[i]) by {
            if i < p.len() {
                assert(s[i] == p[i]);
            }
        }
    }
}

proof fn lemma_frac4_value(f: int)
    requires
        0 <= f <= 9999,
    ensures
        frac4(f).len() == 4,
        all_digits(frac4(f)),
        digits_value(frac4(f)) == f,
{
    let q = frac4(f);
    let q3 = q.drop_last();
    let q2 = q3.drop_last();
    let q1 = q2.drop_last();
    assert(q3 =~= seq![
        (48 + f / 1000 % 10) as u8,
        (48 + f / 100 % 10) as u8,
        (48 + f / 10 % 10) as u8,
    ]);
    assert(q2 =~= seq![(48 + f / 1000 % 10) as u8, (48 + f / 100 % 10) as u8]);
    assert(q1 =~= seq![(48 + f / 1000 % 10) as u8]);
    assert(q1.drop_last() =~= Seq::<u8>::empty());
    assert(digits_value(Seq::<u8>::empty()) == 0);
    assert(q.last() == (48 + f % 10) as u8);
    assert(q3.last() == (48 + f / 10 % 10) as u8);
    assert(q2.last() == (48 + f / 100 % 10) as u8);
    assert(q1.last() == (48 + f / 1000 % 10) as u8);
    assert((48 + f % 10) as u8 == 48 + f % 10);
    assert((48 + f / 10 % 10) as u8 == 48 + f / 10 % 10);
    assert((48 + f / 100 % 10) as u8 == 48 + f / 100 % 10);
    assert((48 + f / 1000 % 10) as u8 == 48 + f / 1000 % 10);
    assert(digits_value(q1) == f / 1000 % 10);
    assert(digits_value(q2) == digits_value(q1) * 10 + f / 100 % 10);
    assert(digits_value(q3) == digits_value(q2) * 10 + f / 10 % 10);
    assert(digits_value(q) == digits_value(q3) * 10 + f % 10);
    vstd::arithmetic::div_mod::lemma_div_denominator(f, 10, 10);
    vstd::arithmetic::div_mod::lemma_div_denominator(f, 100, 10);
    assert(f / 10 / 10 == f / 100);
    assert(f / 100 / 10 == f / 1000);
    assert(f / 1000 % 10 == f / 1000);
    assert(f == f / 10 * 10 + f % 10);
    assert(f / 10 == f / 10 / 10 * 10 + f / 10 % 10);
    assert(f / 100 == f / 100 / 10 * 10 + f / 100 % 10);
}

/// The canonical rendering of any amount is itself a well-formed decimal,
/// and it denotes exactly the amount it was rendered from: formatting and
/// parsing agree.
pub proof fn lemma_repr_round_trip(a: int)
    ensures
        valid_amount(amount_repr(a)),
        amount_value(amount_repr(a)) == a,
{
    let mag = if a >= 0 {
        a
    } else {
        -a
    };
    let ds = digit_seq(mag / 10000);
    let fr = frac4(mag % 10000);
    lemma_digit_seq_value(mag / 10000);
    lemma_frac4_value(mag % 10000);
    let u = ds + seq![46u8] + fr;
    assert forall|i: int| 0 <= i < ds.len() implies is_digit(#[trigger] u[i]) by {
        assert(u[i] == ds[i]);
    }
    assert(u[ds.len() as int] == 46);
    assert(!is_digit(46));
    lemma_digit_prefix_len_is(u, ds.len() as int);
    assert(u.subrange(0, ds.len() as int) =~= ds);
    assert(u.subrange(ds.len() as int + 1, u.len() as int) =~= fr);
    assert(u.len() - ds.len() - 1 == 4);
    assert(valid_unsigned(u));
    assert(frac_scale(4) == 1);
    assert(unsigned_value(u) == digits_value(ds) * 10000 + digits_value(fr));
    assert(mag / 10000 * 10000 + mag % 10000 == mag);
    assert(unsigned_value(u) == mag);
    let r = amount_repr(a);
    if a < 0 {
        assert(r == seq![45u8] + ds + seq![46u8] + fr);
        assert(r[0] == 45);
        assert(r.subrange(1, r.len() as int) =~= u);
        assert(amount_value(r) == -mag);
    } else {
        assert(r =~= u);
        assert(r[0] == ds[0]);
        assert(is_digit(ds[0]));
        assert(r[0] != 45);
        assert(amount_value(r) == unsigned_value(u));
    }
}

fn push_digits(out: &mut Vec<u8>, n: u64)
    ensures
        final(out)@ == old(out)@ + digit_seq(n as int),
    decreases n,
{
    if n <= 9 {
        out.push(48 + n as u8);
        proof {
            assert(out@ =~= old(out)@ + digit_seq(n as int));
        }
    } else {
        push_digits(out, n / 10);
        out.push(48 + (n % 10) as u8);
        proof {
            assert(out@ =~= old(out)@ + digit_seq(n as int));
        }
    }
}

/// Render an amount in the fixed four-fraction-digit decimal notation.
pub fn format_amount(a: i64) -> (out: Vec<u8>)
    ensures
        out@ == amount_repr(a as int),
{
    let mut out: Vec<u8> = Vec::new();
    let mag: u64;
    if a < 0 {
        out.push(45);
        mag = (-(a as i128)) as u64;
    } else {
        mag = a as u64;
    }
    proof {
        assert(mag as int == (if a >= 0 {
            a as int
        } else {
            -(a as int)
        }));
    }
    let q = mag / 10000;
    let f = mag % 10000;
    push_digits(&mut out, q);
    out.push(46);
    out.push(48 + ((f / 1000) % 10) as u8);
    out.push(48 + ((f / 100) % 10) as u8);
    out.push(48 + ((f / 10) % 10) as u8);
    out.push(48 + (f % 10) as u8);
    proof {
        assert(out@ =~= amount_repr(a as int));
    }
    out
}

} // verus!
