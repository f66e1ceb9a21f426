//! What the number texts mean: read back as numbers, they give exactly the
//! values they were written from.

use vstd::prelude::*;
use crate::text::{decimal, nanos_per_second, pow10, seconds_text, trim_trailing_zeros, zero_padded};

verus! {

/// Whether `c` is one of the ASCII digits.
pub open spec fn is_digit(c: char) -> bool {
    48 <= c as int <= 57
}

/// Whether every character of `s` is a digit.
pub open spec fn all_digits(s: Seq<char>) -> bool {
    forall|i: int| 0 <= i < s.len() ==> is_digit(#[trigger] s[i])
}

/// The number that the digits `s` spell, most significant first.
pub open spec fn digits_value(s: Seq<char>) -> int
    decreases s.len(),
{
    if s.len() == 0 {
        0
    } else {
        10 * digits_value(s.drop_last()) + (s.last() as int - 48)
    }
}

/// A whole number written plainly: digits only, at least one, and no
/// leading zero unless it is the only digit.
pub open spec fn plain_number(s: Seq<char>) -> bool {
    &&& s.len() > 0
    &&& all_digits(s)
    &&& (s[0] == '0' ==> s.len() == 1)
}

/// `decimal(n)` is the plain decimal writing of `n`: it reads back as `n`.
pub proof fn law_decimal_reads_back(n: nat)
    ensures
        plain_number(decimal(n)),
        digits_value(decimal(n)) == n,
    decreases n,
{
    let c = crate::text::digit_char(n % 10);
    assert(c as int == 48 + n % 10);
    if n >= 10 {
        law_decimal_reads_back(n / 10);
        let d = decimal(n / 10);
        let s = decimal(n);
        assert(s == d.push(c));
        assert(s.drop_last() =~= d);
        assert(s[0] == d[0]);
        assert(n / 10 > 0);
        assert(10 * (n / 10) + n % 10 == n);
        assert(digits_value(s) == 10 * digits_value(d) + (c as int - 48));
        if d[0] == '0' {
            assert(d.drop_last() =~= Seq::<char>::empty());
            assert(digits_value(d) == 10 * digits_value(d.drop_last()) + (d[0] as int - 48));
            assert(digits_value(d.drop_last()) == 0);
            assert(false);
        }
        assert forall|i: int| 0 <= i < s.len() implies is_digit(#[trigger] s[i]) by {
            if i < d.len() {
                assert(s[i] == d[i]);
            }
        }
    } else {
        let s = decimal(n);
        assert(s.drop_last() =~= Seq::<char>::empty());
        assert(digits_value(s.drop_last()) == 0);
        assert(digits_value(s) == 10 * digits_value(s.drop_last()) + (c as int - 48));
    }
}

/// A number of digits is at most `k` long when the number is below 10^k.
proof fn lemma_decimal_len_bound(n: nat, k: nat)
    requires
        k >= 1,
        n < pow10(k),
    ensures
        decimal(n).len() <= k,
    decreases n,
{
    if n >= 10 {
        assert(k >= 2) by {
            if k == 1 {
                assert(pow10(1) == 10) by {
                    reveal_with_fuel(pow10, 2);
                }
            }
        }
        assert(n / 10 < pow10((k - 1) as nat)) by (nonlinear_arith)
            requires
                n < pow10(k),
                pow10(k) == 10 * pow10((k - 1) as nat),
        ;
        lemma_decimal_len_bound(n / 10, (k - 1) as nat);
    }
}

proof fn lemma_zeros_value(m: nat)
    ensures
        digits_value(Seq::new(m, |i: int| '0')) == 0,
        all_digits(Seq::new(m, |i: int| '0')),
    decreases m,
{
    if m > 0 {
        lemma_zeros_value((m - 1) as nat);
        assert(Seq::new(m, |i: int| '0').drop_last() =~= Seq::new((m - 1) as nat, |i: int| '0'));
    }
}

proof fn lemma_leading_zeros_value(m: nat, s: Seq<char>)
    ensures
        digits_value(Seq::new(m, |i: int| '0') + s) == digits_value(s),
    decreases s.len(),
{
    let z = Seq::new(m, |i: int| '0');
    if s.len() == 0 {
        lemma_zeros_value(m);
        assert(z + s =~= z);
    } else {
        lemma_leading_zeros_value(m, s.drop_last());
        assert((z + s).drop_last() =~= z + s.drop_last());
    }
}

/// `zero_padded(n, width)` is `n` written with exactly as many digits as
/// the larger of `width` and the length of its plain writing, and reads
/// back as `n`.
pub proof fn law_zero_padded_reads_back(n: nat, width: nat)
    ensures
        zero_padded(n, width).len() == if decimal(n).len() < width {
            width
        } else {
            decimal(n).len()
        },
        all_digits(zero_padded(n, width)),
        digits_value(zero_padded(n, width)) == n,
{
    law_decimal_reads_back(n);
    let d = decimal(n);
    if d.len() < width {
        let m = (width - d.len()) as nat;
        lemma_leading_zeros_value(m, d);
        lemma_zeros_value(m);
        let z = Seq::new(m, |i: int| '0');
        assert forall|i: int| 0 <= i < (z + d).len() implies is_digit(#[trigger] (z + d)[i]) by {
            if i < m {
                assert((z + d)[i] == z[i]);
            } else {
                assert((z + d)[i] == d[i - m]);
            }
        }
    }
}

/// Dropping the trailing zeros of a digit string divides its value by ten
/// once for each zero dropped; what is left is empty or ends in another
/// digit.
proof fn lemma_trim_value(s: Seq<char>)
    requires
        all_digits(s),
    ensures
        trim_trailing_zeros(s).len() <= s.len(),
        trim_trailing_zeros(s) == s.take(trim_trailing_zeros(s).len() as int),
        digits_value(trim_trailing_zeros(s)) * pow10((s.len() - trim_trailing_zeros(s).len()) as nat)
            == digits_value(s),
        trim_trailing_zeros(s).len() > 0 ==> trim_trailing_zeros(s).last() != '0',
    decreases s.len(),
{
    if s.len() > 0 && s.last() == '0' {
        let s1 = s.drop_last();
        assert forall|i: int| 0 <= i < s1.len() implies is_digit(#[trigger] s1[i]) by {
            assert(s1[i] == s[i]);
        }
        lemma_trim_value(s1);
        let t = trim_trailing_zeros(s);
        assert(t == trim_trailing_zeros(s1));
        assert('0' as int == 48);
        assert(digits_value(s) == 10 * digits_value(s1) + (s.last() as int - 48));
        let k = (s1.len() - t.len()) as nat;
        assert(pow10(k + 1) == 10 * pow10(k));
        assert((s.len() - t.len()) as nat == k + 1);
        assert(digits_value(s) == 10 * digits_value(s1));
        assert(digits_value(t) * (10 * pow10(k)) == 10 * (digits_value(t) * pow10(k))) by (nonlinear_arith);
        assert(t =~= s.take(t.len() as int));
        assert(digits_value(t) * pow10((s.len() - t.len()) as nat) == digits_value(s));
    } else {
        assert(s.take(s.len() as int) =~= s);
        assert(pow10(0) == 1);
        assert(digits_value(s) * 1 == digits_value(s));
    }
}

proof fn lemma_digits_value_append(a: Seq<char>, b: Seq<char>)
    ensures
        digits_value(a + b) == digits_value(a) * pow10(b.len()) + digits_value(b),
    decreases b.len(),
{
    if b.len() == 0 {
        assert(a + b =~= a);
        assert(pow10(0) == 1);
        assert(digits_value(b) == 0);
        assert(digits_value(a) * 1 == digits_value(a));
    } else {
        lemma_digits_value_append(a, b.drop_last());
        assert((a + b).drop_last() =~= a + b.drop_last());
        let k = b.drop_last().len();
        assert(pow10(k + 1) == 10 * pow10(k));
        assert(10 * (digits_value(a) * pow10(k) + digits_value(b.drop_last())) == digits_value(a) * (10
            * pow10(k)) + 10 * digits_value(b.drop_last())) by (nonlinear_arith);
    }
}

/// Whether `body` reads as the non-negative time `a` nanoseconds, in
/// seconds: plain whole seconds, then, only when there is a fraction, a
/// point and one to nine digits with no trailing zero, the whole reading
/// back exactly as `a`.
pub open spec fn reads_as_seconds(body: Seq<char>, a: int) -> bool {
    ||| plain_number(body) && digits_value(body) * nanos_per_second() == a
    ||| exists|d: int|
        0 < d < body.len() && body[d] == '.' && #[trigger] plain_number(body.take(d)) && all_digits(
            body.skip(d + 1),
        ) && 1 <= body.skip(d + 1).len() <= 9 && body.last() != '0' && digits_value(body.take(d))
            * nanos_per_second() + digits_value(body.skip(d + 1)) * pow10(
            (9 - body.skip(d + 1).len()) as nat,
        ) == a
}

/// `seconds_text(ns)` is a minus sign exactly when `ns` is negative,
/// followed by the shortest decimal writing of |ns| / 10^9 seconds.
pub proof fn law_seconds_text_reads_back(ns: int)
    ensures
        (ns < 0) == (seconds_text(ns).len() > 0 && seconds_text(ns)[0] == '-'),
        reads_as_seconds(
            if ns < 0 {
                seconds_text(ns).drop_first()
            } else {
                seconds_text(ns)
            },
            if ns < 0 {
                -ns
            } else {
                ns
            },
        ),
        ns != 0 ==> (if ns < 0 {
            seconds_text(ns).drop_first()
        } else {
            seconds_text(ns)
        }) != seq!['0'],
{
    let a: int = if ns < 0 { -ns } else { ns };
    let q = (a / nanos_per_second()) as nat;
    let f = a % nanos_per_second();
    let t = seconds_text(ns);
    let dq = decimal(q);
    law_decimal_reads_back(q);
    assert(a == q * nanos_per_second() + f);
    let body = if ns < 0 { t.drop_first() } else { t };
    if f == 0 {
        assert(body =~= dq);
        assert(plain_number(body));
        if ns != 0 && body == seq!['0'] {
            assert(digits_value(body) == 0) by {
                assert(body.drop_last() =~= Seq::<char>::empty());
                assert(digits_value(body.drop_last()) == 0);
                assert('0' as int == 48);
                assert(digits_value(body) == 10 * digits_value(body.drop_last()) + (body.last() as int - 48));
            }
        }
    } else {
        let zp = zero_padded(f as nat, 9);
        let fr = trim_trailing_zeros(zp);
        assert(pow10(9) == 1_000_000_000) by {
            reveal_with_fuel(pow10, 10);
        }
        lemma_decimal_len_bound(f as nat, 9);
        law_zero_padded_reads_back(f as nat, 9);
        assert(zp.len() == 9);
        lemma_trim_value(zp);
        if fr.len() == 0 {
            assert(digits_value(fr) == 0);
            assert(false);
        }
        assert(body =~= dq + seq!['.'] + fr);
        let d = dq.len() as int;
        assert(body.take(d) =~= dq);
        assert(body.skip(d + 1) =~= fr);
        assert(body[d] == '.');
        assert(body.last() == fr.last());
        assert forall|i: int| 0 <= i < fr.len() implies is_digit(#[trigger] fr[i]) by {
            assert(fr[i] == zp[i]);
        }
        assert(plain_number(body.take(d)));
        assert(reads_as_seconds(body, a));
        if ns != 0 {
            assert(body.len() > 1);
        }
    }
}

} // verus!
