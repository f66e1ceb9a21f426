//! Text building blocks with exact specifications: decimal numbers,
//! zero padding, seconds written from nanoseconds, search and replace.

use vstd::prelude::*;

verus! {

/// The ASCII digit for `d` (meaningful for `d < 10`).
pub open spec fn digit_char(d: nat) -> char {
    (48 + d) as char
}

/// The decimal representation of `n`, without sign or leading zeros.
pub open spec fn decimal(n: nat) -> Seq<char>
    decreases n,
{
    if n < 10 {
        seq![digit_char(n)]
    } else {
        decimal(n / 10).push(digit_char(n % 10))
    }
}

/// The one-character string for the digit `d`.
fn digit_str(d: u128) -> (s: &'static str)
    requires
        d < 10,
    ensures
        s@ == seq![digit_char(d as nat)],
{
    proof {
        reveal_strlit("0");
        reveal_strlit("1");
        reveal_strlit("2");
        reveal_strlit("3");
        reveal_strlit("4");
        reveal_strlit("5");
        reveal_strlit("6");
        reveal_strlit("7");
        reveal_strlit("8");
        reveal_strlit("9");
    }
    if d == 0 {
        "0"
    } else if d == 1 {
        "1"
    } else if d == 2 {
        "2"
    } else if d == 3 {
        "3"
    } else if d == 4 {
        "4"
    } else if d == 5 {
        "5"
    } else if d == 6 {
        "6"
    } else if d == 7 {
        "7"
    } else if d == 8 {
        "8"
    } else {
        "9"
    }
}

/// Appends the decimal representation of `n` to `s`.
pub fn append_decimal(s: &mut String, n: u128)
    ensures
        final(s)@ == old(s)@ + decimal(n as nat),
    decreases n,
{
    if n >= 10 {
        append_decimal(s, n / 10);
    }
    s.append(digit_str(n % 10));
    proof {
        assert(old(s)@ + decimal(n as nat) =~= s@);
    }
}

/// `n` written in decimal with zeros in front up to `width` characters.
pub open spec fn zero_padded(n: nat, width: nat) -> Seq<char> {
    let d = decimal(n);
    if d.len() < width {
        Seq::new((width - d.len()) as nat, |i: int| '0') + d
    } else {
        d
    }
}

/// `s` without the zeros at its end.
pub open spec fn trim_trailing_zeros(s: Seq<char>) -> Seq<char>
    decreases s.len(),
{
    if s.len() > 0 && s.last() == '0' {
        trim_trailing_zeros(s.drop_last())
    } else {
        s
    }
}

/// The number of nanoseconds in a second.
pub open spec fn nanos_per_second() -> int {
    1_000_000_000
}

/// `ns` nanoseconds written as seconds in decimal: a minus sign when
/// negative, the whole seconds, and, when there is a fraction, a point and
/// its digits without trailing zeros ("2", "2.5", "-0.25").
pub open spec fn seconds_text(ns: int) -> Seq<char> {
    let a = if ns < 0 { -ns } else { ns };
    let frac = a % nanos_per_second();
    let sign: Seq<char> = if ns < 0 { seq!['-'] } else { seq![] };
    let fraction: Seq<char> = if frac == 0 {
        seq![]
    } else {
        seq!['.'] + trim_trailing_zeros(zero_padded(frac as nat, 9))
    };
    sign + decimal((a / nanos_per_second()) as nat) + fraction
}

/// Appends `n` in decimal, with zeros in front up to `width` characters.
pub fn append_zero_padded(s: &mut String, n: u128, width: usize)
    ensures
        final(s)@ == old(s)@ + zero_padded(n as nat, width as nat),
{
    let mut digits = String::new();
    append_decimal(&mut digits, n);
    let len = digits.as_str().unicode_len();
    let mut k = len;
    while k < width
        invariant
            len == decimal(n as nat).len(),
            len <= k <= width || (k == len && len >= width),
            s@ == old(s)@ + Seq::new((k - len) as nat, |i: int| '0'),
        decreases width - k,
    {
        proof {
            reveal_strlit("0");
        }
        s.append("0");
        k += 1;
        proof {
            assert(s@ =~= old(s)@ + Seq::new((k - len) as nat, |i: int| '0'));
        }
    }
    s.append(digits.as_str());
    proof {
        if len < width {
            assert(s@ =~= old(s)@ + zero_padded(n as nat, width as nat));
        } else {
            assert(s@ =~= old(s)@ + zero_padded(n as nat, width as nat));
        }
    }
}

proof fn lemma_decimal_times_ten(n: nat)
    requires
        n > 0,
    ensures
        decimal(10 * n) == decimal(n).push('0'),
{
    assert((10 * n) / 10 == n && (10 * n) % 10 == 0) by (nonlinear_arith);
    assert(digit_char(0) == '0');
}

proof fn lemma_decimal_last(n: nat)
    ensures
        decimal(n).len() > 0,
        decimal(n).last() == digit_char(n % 10),
{
}

proof fn lemma_zero_padded_times_ten(n: nat, width: nat)
    requires
        n > 0,
    ensures
        zero_padded(10 * n, width + 1) == zero_padded(n, width).push('0'),
{
    lemma_decimal_times_ten(n);
    let d = decimal(n);
    if d.len() < width {
        assert(zero_padded(10 * n, width + 1) =~= zero_padded(n, width).push('0'));
    }
}

/// Appends `seconds_text(ns)`.
pub fn append_seconds(s: &mut String, ns: i128)
    requires
        ns > i128::MIN,
    ensures
        final(s)@ == old(s)@ + seconds_text(ns as int),
{
    proof {
        reveal_strlit("-");
        reveal_strlit(".");
    }
    let ghost start = s@;
    if ns < 0 {
        s.append("-");
    }
    let a: u128 = if ns < 0 { (-ns) as u128 } else { ns as u128 };
    append_decimal(s, a / 1_000_000_000);
    let frac0 = a % 1_000_000_000;
    if frac0 != 0 {
        s.append(".");
        let mut frac = frac0;
        let mut width: usize = 9;
        proof {
            reveal_with_fuel(pow10, 10);
        }
        while frac % 10 == 0
            invariant
                0 < frac < pow10(width as nat),
                width <= 9,
                trim_trailing_zeros(zero_padded(frac0 as nat, 9)) == trim_trailing_zeros(
                    zero_padded(frac as nat, width as nat),
                ),
            decreases frac,
        {
            proof {
                if width == 0 {
                    assert(false);
                }
                let f = frac / 10;
                assert(frac == 10 * f && f > 0 && f < pow10((width - 1) as nat)) by (nonlinear_arith)
                    requires
                        frac % 10 == 0,
                        f == frac / 10,
                        0 < frac < pow10(width as nat),
                        pow10(width as nat) == 10 * pow10((width - 1) as nat),
                ;
                lemma_zero_padded_times_ten(f as nat, (width - 1) as nat);
                let x = zero_padded(f as nat, (width - 1) as nat);
                assert(zero_padded(frac as nat, width as nat) == x.push('0'));
                assert(x.push('0').drop_last() =~= x);
                assert(trim_trailing_zeros(zero_padded(frac as nat, width as nat))
                    == trim_trailing_zeros(zero_padded(f as nat, (width - 1) as nat)));
            }
            frac = frac / 10;
            width = width - 1;
        }
        proof {
            lemma_decimal_last(frac as nat);
            assert(digit_char((frac % 10) as nat) != '0');
            assert(trim_trailing_zeros(zero_padded(frac as nat, width as nat)) == zero_padded(
                frac as nat,
                width as nat,
            ));
        }
        append_zero_padded(s, frac, width);
    }
    proof {
        assert(s@ =~= start + seconds_text(ns as int));
    }
}

/// Ten to the power `k`.
pub open spec fn pow10(k: nat) -> nat
    decreases k,
{
    if k == 0 {
        1
    } else {
        10 * pow10((k - 1) as nat)
    }
}

/// `s` with every occurrence of `pat` replaced by `rep`, occurrences taken
/// from left to right without overlapping (as `str::replace` does for a
/// pattern that is not empty).
pub open spec fn replace_all(s: Seq<char>, pat: Seq<char>, rep: Seq<char>) -> Seq<char>
    decreases s.len(),
{
    if s.len() == 0 || pat.len() == 0 {
        s
    } else if pat.is_prefix_of(s) {
        rep + replace_all(s.skip(pat.len() as int), pat, rep)
    } else {
        seq![s[0]] + replace_all(s.skip(1), pat, rep)
    }
}

/// Whether `pat` occurs in `s` at some position.
pub open spec fn occurs_in(pat: Seq<char>, s: Seq<char>) -> bool {
    exists|i: int| 0 <= i <= s.len() && #[trigger] pat.is_prefix_of(s.skip(i))
}

/// Replacing leaves a text in which the pattern does not occur unchanged,
/// and a text that starts with the pattern becomes the replacement followed
/// by the rest replaced; every character of the result comes from the text
/// or from the replacement.
pub proof fn law_replace_all(s: Seq<char>, pat: Seq<char>, rep: Seq<char>)
    requires
        pat.len() > 0,
    ensures
        !occurs_in(pat, s) ==> replace_all(s, pat, rep) == s,
        replace_all(pat + s, pat, rep) == rep + replace_all(s, pat, rep),
        forall|c: char| #[trigger] replace_all(s, pat, rep).contains(c) ==> s.contains(c) || rep.contains(c),
    decreases s.len(),
{
    let r = replace_all(s, pat, rep);
    assert((pat + s).skip(pat.len() as int) =~= s);
    assert(pat.is_prefix_of(pat + s)) by {
        assert((pat + s).subrange(0, pat.len() as int) =~= pat);
    }
    if s.len() > 0 {
        if pat.is_prefix_of(s) {
            let rest = s.skip(pat.len() as int);
            law_replace_all(rest, pat, rep);
            assert forall|c: char| #[trigger] r.contains(c) implies s.contains(c) || rep.contains(c) by {
                let k = choose|k: int| 0 <= k < r.len() && r[k] == c;
                if k >= rep.len() {
                    let r2 = replace_all(rest, pat, rep);
                    assert(r2[k - rep.len()] == c);
                    assert(r2.contains(c));
                    if rest.contains(c) {
                        let m = choose|m: int| 0 <= m < rest.len() && rest[m] == c;
                        assert(s[m + pat.len()] == c);
                    }
                }
            }
            assert(occurs_in(pat, s)) by {
                assert(s.skip(0) =~= s);
            }
        } else {
            let rest = s.skip(1);
            law_replace_all(rest, pat, rep);
            assert forall|c: char| #[trigger] r.contains(c) implies s.contains(c) || rep.contains(c) by {
                let k = choose|k: int| 0 <= k < r.len() && r[k] == c;
                if k == 0 {
                    assert(s[0] == c);
                } else {
                    let r2 = replace_all(rest, pat, rep);
                    assert(r2[k - 1] == c);
                    assert(r2.contains(c));
                    if rest.contains(c) {
                        let m = choose|m: int| 0 <= m < rest.len() && rest[m] == c;
                        assert(s[m + 1] == c);
                    }
                }
            }
            if !occurs_in(pat, s) {
                assert forall|i: int| 0 <= i <= rest.len() implies !#[trigger] pat.is_prefix_of(rest.skip(i)) by {
                    assert(rest.skip(i) =~= s.skip(i + 1));
                    if pat.is_prefix_of(rest.skip(i)) {
                        assert(pat.is_prefix_of(s.skip(i + 1)));
                    }
                }
                assert(r =~= s);
            }
        }
    } else {
        assert(r =~= s);
    }
}

/// Whether `pat` occurs in `s` at character position `i`.
fn occurs_at(s: &str, n: usize, pat: &str, m: usize, i: usize) -> (r: bool)
    requires
        n == s@.len(),
        m == pat@.len(),
        i <= n,
    ensures
        r == pat@.is_prefix_of(s@.skip(i as int)),
{
    if m > n - i {
        return false;
    }
    let mut j: usize = 0;
    while j < m
        invariant
            m == pat@.len(),
            n == s@.len(),
            i + m <= n,
            j <= m,
            forall|k: int| 0 <= k < j ==> s@[i + k] == pat@[k],
        decreases m - j,
    {
        if s.get_char(i + j) != pat.get_char(j) {
            proof {
                assert(s@.skip(i as int).subrange(0, m as int)[j as int] != pat@[j as int]);
            }
            return false;
        }
        j += 1;
    }
    proof {
        assert(pat@ =~= s@.skip(i as int).subrange(0, m as int));
    }
    true
}

/// `s` with every occurrence of the non-empty `pat` replaced by `rep`.
pub fn replace_all_str(s: &str, pat: &str, rep: &str) -> (r: String)
    requires
        pat@.len() > 0,
    ensures
        r@ == replace_all(s@, pat@, rep@),
{
    let n = s.unicode_len();
    let m = pat.unicode_len();
    let mut out = String::new();
    let mut i: usize = 0;
    proof {
        assert(s@.skip(0) =~= s@);
    }
    while i < n
        invariant
            n == s@.len(),
            m == pat@.len(),
            m > 0,
            i <= n,
            out@ + replace_all(s@.skip(i as int), pat@, rep@) == replace_all(s@, pat@, rep@),
        decreases n - i,
    {
        let ghost rest = s@.skip(i as int);
        if occurs_at(s, n, pat, m, i) {
            out.append(rep);
            proof {
                assert(rest.skip(m as int) =~= s@.skip(i + m));
                assert(out@ + replace_all(s@.skip(i + m), pat@, rep@) =~= replace_all(s@, pat@, rep@));
            }
            i += m;
        } else {
            let piece = s.substring_char(i, i + 1);
            out.append(piece);
            proof {
                assert(rest.skip(1) =~= s@.skip(i + 1));
                assert(piece@ =~= seq![rest[0]]);
                assert(out@ + replace_all(s@.skip(i + 1), pat@, rep@) =~= replace_all(s@, pat@, rep@));
            }
            i += 1;
        }
    }
    proof {
        assert(s@.skip(n as int).len() == 0);
        assert(out@ =~= replace_all(s@, pat@, rep@));
    }
    out
}

/// The text after the last '.' of `path`, or `None` when it has no '.'.
pub fn file_extension(path: &str) -> (ext: Option<String>)
    ensures
        match ext {
            None => forall|j: int| 0 <= j < path@.len() ==> path@[j] != '.',
            Some(e) => exists|i: int|
                0 <= i < path@.len() && path@[i] == '.' && (forall|j: int|
                    i < j < path@.len() ==> path@[j] != '.') && e@ == path@.subrange(
                    i + 1,
                    path@.len() as int,
                ),
        },
{
    let n = path.unicode_len();
    let mut i = n;
    while i > 0
        invariant
            n == path@.len(),
            i <= n,
            forall|j: int| i <= j < n ==> path@[j] != '.',
        decreases i,
    {
        if path.get_char(i - 1) == '.' {
            let e = String::from_str(path.substring_char(i, n));
            proof {
                assert(path@[i - 1] == '.');
            }
            return Some(e);
        }
        i -= 1;
    }
    None
}

/// The strings of a vector of strings.
pub open spec fn strings(v: Seq<String>) -> Seq<Seq<char>> {
    v.map_values(|s: String| s@)
}

/// Appends `piece` to the vector of strings `v`.
pub fn push_str(v: &mut Vec<String>, piece: &str)
    ensures
        strings(final(v)@) == strings(old(v)@).push(piece@),
{
    v.push(String::from_str(piece));
    proof {
        assert(strings(v@) =~= strings(old(v)@).push(piece@));
    }
}

} // verus!
