use vstd::prelude::*;
use vstd::string::*;

verus! {

/// The character of a decimal digit `d` (0 to 9).
pub open spec fn digit_char(d: int) -> char {
    (d + 48) as char
}

/// The decimal rendering of a natural number, without leading zeros.
pub open spec fn decimal(n: nat) -> Seq<char>
    decreases n,
{
    if n < 10 {
        seq![digit_char(n as int)]
    } else {
        decimal(n / 10).push(digit_char((n % 10) as int))
    }
}

/// The decimal rendering of an integer, with a leading `-` when it is negative.
pub open spec fn signed_decimal(i: int) -> Seq<char> {
    if i < 0 {
        seq!['-'] + decimal((-i) as nat)
    } else {
        decimal(i as nat)
    }
}

/// Appends one character to a string.
#[verifier::external_body]
pub(crate) fn push_char(s: &mut String, c: char)
    ensures
        final(s)@ == old(s)@.push(c),
{
    s.push(c);
}

/// Renders an unsigned integer in decimal.
pub fn render_u64(n: u64) -> (s: String)
    ensures
        s@ == decimal(n as nat),
{
    // digits, least significant first
    let mut rev: Vec<char> = Vec::new();
    let mut m: u64 = n;
    let ghost mut acc: Seq<char> = Seq::empty();
    loop
        invariant_except_break
            decimal(n as nat) == decimal(m as nat) + acc,
            rev@.len() == acc.len(),
            forall|j: int| 0 <= j < acc.len() ==> #[trigger] rev@[j] == acc[acc.len() - 1 - j],
        ensures
            decimal(n as nat) == acc,
            rev@.len() == acc.len(),
            forall|j: int| 0 <= j < acc.len() ==> #[trigger] rev@[j] == acc[acc.len() - 1 - j],
        decreases m,
    {
        let d: u8 = (m % 10) as u8;
        let c: char = (d + 48u8) as char;
        assert(c == digit_char((m % 10) as int));
        rev.push(c);
        proof {
            acc = seq![c] + acc;
        }
        if m < 10 {
            assert(decimal(m as nat) == seq![c]);
            break;
        }
        assert(decimal(m as nat) == decimal((m / 10) as nat).push(c));
        m = m / 10;
    }
    let mut s = String::new();
    let len = rev.len();
    let mut k: usize = 0;
    while k < len
        invariant
            k <= len,
            len == rev@.len(),
            rev@.len() == acc.len(),
            forall|j: int| 0 <= j < acc.len() ==> #[trigger] rev@[j] == acc[acc.len() - 1 - j],
            s@ == acc.take(k as int),
        decreases len - k,
    {
        push_char(&mut s, rev[len - 1 - k]);
        k = k + 1;
        assert(s@ == acc.take(k as int));
    }
    assert(acc.take(len as int) == acc);
    s
}


/// Renders a signed integer in decimal.
pub fn render_i64(i: i64) -> (s: String)
    ensures
        s@ == signed_decimal(i as int),
{
    if i < 0 {
        let magnitude: u64 = ((-(i + 1)) as u64) + 1;
        let digits = render_u64(magnitude);
        let mut s = String::from_str("-");
        proof {
            reveal_strlit("-");
        }
        s.append(digits.as_str());
        s
    } else {
        render_u64(i as u64)
    }
}

/// The text of a boolean.
pub open spec fn bool_text(b: bool) -> Seq<char> {
    if b {
        "true"@
    } else {
        "false"@
    }
}

/// Renders a boolean as `true` or `false`.
pub fn render_bool(b: bool) -> (s: String)
    ensures
        s@ == bool_text(b),
{
    if b {
        String::from_str("true")
    } else {
        String::from_str("false")
    }
}

/// `p` occurs in `s` at position `i`.
pub open spec fn occurs_at(s: Seq<char>, p: Seq<char>, i: int) -> bool {
    0 <= i && i + p.len() <= s.len() && s.subrange(i, i + p.len()) == p
}

/// `i` is the first position at which `p` occurs in `s`.
pub open spec fn is_first_occurrence(s: Seq<char>, p: Seq<char>, i: int) -> bool {
    occurs_at(s, p, i) && forall|j: int| 0 <= j < i ==> !occurs_at(s, p, j)
}

/// The first position at which `p` occurs in `s`, if it occurs at all.
pub open spec fn first_occurrence(s: Seq<char>, p: Seq<char>) -> Option<int> {
    if exists|i: int| is_first_occurrence(s, p, i) {
        Some(choose|i: int| is_first_occurrence(s, p, i))
    } else {
        None
    }
}

/// `s` with the first occurrence of `p` replaced by `t`; `s` itself when `p`
/// does not occur in it.
pub open spec fn replace_first(s: Seq<char>, p: Seq<char>, t: Seq<char>) -> Seq<char> {
    match first_occurrence(s, p) {
        Some(i) => s.subrange(0, i) + t + s.subrange(i + p.len(), s.len() as int),
        None => s,
    }
}

/// `s` without its last character when that character is `-`.
pub open spec fn trim_dash(s: Seq<char>) -> Seq<char> {
    if s.len() > 0 && s.last() == '-' {
        s.drop_last()
    } else {
        s
    }
}

/// The characters of a string slice.
fn chars_of(s: &str) -> (v: Vec<char>)
    ensures
        v@ == s@,
{
    let mut v: Vec<char> = Vec::new();
    let n = s.unicode_len();
    let mut i: usize = 0;
    while i < n
        invariant
            i <= n,
            n == s@.len(),
            v@ == s@.take(i as int),
        decreases n - i,
    {
        v.push(s.get_char(i));
        i = i + 1;
        assert(v@ == s@.take(i as int));
    }
    assert(s@.take(n as int) == s@);
    v
}

/// Whether `p` occurs in `s` at position `i`.
fn matches_at(s: &Vec<char>, p: &Vec<char>, i: usize) -> (b: bool)
    requires
        i + p@.len() <= s@.len(),
    ensures
        b == occurs_at(s@, p@, i as int),
{
    let m = p.len();
    let mut k: usize = 0;
    while k < m
        invariant
            k <= m,
            m == p@.len(),
            i + m <= s@.len(),
            s@.len() == s.len(),
            forall|j: int| 0 <= j < k ==> s@[i + j] == p@[j],
        decreases m - k,
    {
        if s[i + k] != p[k] {
            assert(s@.subrange(i as int, i + m)[k as int] != p@[k as int]);
            return false;
        }
        k = k + 1;
    }
    assert(s@.subrange(i as int, i + m) =~= p@);
    true
}

/// Replaces the first occurrence of `pat` in `s` by `to`, as
/// `str::replacen(pat, to, 1)` does.
pub fn replace_first_occurrence(s: &str, pat: &str, to: &str) -> (r: String)
    ensures
        r@ == replace_first(s@, pat@, to@),
{
    let sv = chars_of(s);
    let pv = chars_of(pat);
    let n = sv.len();
    let m = pv.len();
    if m <= n {
        let mut i: usize = 0;
        while i <= n - m
            invariant
                m <= n,
                n == s@.len(),
                m == pat@.len(),
                sv@ == s@,
                pv@ == pat@,
                i <= n - m,
                forall|j: int| 0 <= j < i ==> !occurs_at(s@, pat@, j),
            ensures
                forall|j: int| 0 <= j <= n - m ==> !occurs_at(s@, pat@, j),
            decreases n - m - i,
        {
            if matches_at(&sv, &pv, i) {
                proof {
                    assert(is_first_occurrence(s@, pat@, i as int));
                    let c = choose|c: int| is_first_occurrence(s@, pat@, c);
                    assert(c == i) by {
                        if c < i {
                        } else if c > i {
                            assert(!occurs_at(s@, pat@, i as int));
                        }
                    }
                }
                let mut r = String::from_str(s.substring_char(0, i));
                r.append(to);
                r.append(s.substring_char(i + m, n));
                return r;
            }
            if i == n - m {
                break;
            }
            i = i + 1;
        }
    }
    assert forall|i: int| !is_first_occurrence(s@, pat@, i) by {
        if occurs_at(s@, pat@, i) {
            assert(i + m <= n);
        }
    }
    String::from_str(s)
}

/// Removes a trailing `-` from the string.
pub fn trim_trailing_dash(s: &mut String)
    ensures
        final(s)@ == trim_dash(old(s)@),
{
    let n = s.as_str().unicode_len();
    if n > 0 && s.as_str().get_char(n - 1) == '-' {
        let trimmed = String::from_str(s.as_str().substring_char(0, n - 1));
        *s = trimmed;
    }
}

} // verus!
