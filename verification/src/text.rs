//! Decimal text for integers, the way `Display` spells them.

use vstd::prelude::*;

verus! {

/// The ASCII digit for `d < 10`.
pub open spec fn digit_char(d: nat) -> char {
    if d == 0 {
        '0'
    } else if d == 1 {
        '1'
    } else if d == 2 {
        '2'
    } else if d == 3 {
        '3'
    } else if d == 4 {
        '4'
    } else if d == 5 {
        '5'
    } else if d == 6 {
        '6'
    } else if d == 7 {
        '7'
    } else if d == 8 {
        '8'
    } else {
        '9'
    }
}

/// The decimal digits of `n`, most significant first, no leading zeros.
pub open spec fn decimal(n: nat) -> Seq<char>
    decreases n,
{
    if n < 10 {
        seq![digit_char(n)]
    } else {
        decimal(n / 10).push(digit_char(n % 10))
    }
}

/// `n` in decimal with a leading `-` when negative.
pub open spec fn signed_decimal(n: int) -> Seq<char> {
    if n < 0 {
        seq!['-'] + decimal((-n) as nat)
    } else {
        decimal(n as nat)
    }
}

/// Appends one character.
///
/// Trusted: `String::push`, which std documents as appending the character to
/// the end of the string.
#[verifier::external_body]
pub fn push_char(s: &mut String, c: char)
    ensures
        final(s)@ == old(s)@.push(c),
{
    s.push(c);
}

/// The text `{:?}` writes for the string `s`: `s` in double quotes, with
/// quotes, backslashes and control characters escaped as std's `Debug` for
/// `str` escapes them.
pub uninterp spec fn debug_quoted(s: Seq<char>) -> Seq<char>;

/// `s` as `{:?}` writes it.
///
/// Trusted: `format!("{:?}", s)`, std's `Debug` for `str`, whose text depends
/// on `s` alone; what it escapes, and how, is left to the name.
#[verifier::external_body]
pub fn debug_text(s: &str) -> (r: String)
    ensures
        r@ == debug_quoted(s@),
{
    format!("{:?}", s)
}

fn digit(d: u128) -> (c: char)
    requires
        d < 10,
    ensures
        c == digit_char(d as nat),
{
    if d == 0 {
        '0'
    } else if d == 1 {
        '1'
    } else if d == 2 {
        '2'
    } else if d == 3 {
        '3'
    } else if d == 4 {
        '4'
    } else if d == 5 {
        '5'
    } else if d == 6 {
        '6'
    } else if d == 7 {
        '7'
    } else if d == 8 {
        '8'
    } else {
        '9'
    }
}

/// Appends `n` in decimal.
pub fn push_decimal(s: &mut String, n: u128)
    ensures
        final(s)@ == old(s)@ + decimal(n as nat),
    decreases n,
{
    if n >= 10 {
        push_decimal(s, n / 10);
    }
    push_char(s, digit(n % 10));
    proof {
        if n < 10 {
            assert(n % 10 == n);
        }
        assert(s@ =~= old(s)@ + decimal(n as nat));
    }
}

/// Appends `n` in decimal, with a `-` when negative.
pub fn push_signed(s: &mut String, n: i128)
    ensures
        final(s)@ == old(s)@ + signed_decimal(n as int),
{
    if n < 0 {
        push_char(s, '-');
        let m: u128 = ((-(n + 1)) as u128) + 1;
        push_decimal(s, m);
        proof {
            assert(s@ =~= old(s)@ + signed_decimal(n as int));
        }
    } else {
        push_decimal(s, n as u128);
    }
}

/// The characters of `s`, in order.
pub fn chars_of(s: &str) -> (v: Vec<char>)
    ensures
        v@ == s@,
{
    broadcast use vstd::string::axiom_spec_iter;
    let mut v: Vec<char> = Vec::new();
    for c in it: s.chars()
        invariant
            v@ == it.seq().take(it.index() as int),
    {
        v.push(c);
    }
    proof {
        assert(v@ =~= s@);
    }
    v
}

/// `char::is_whitespace`: the Unicode `White_Space` characters.
pub open spec fn is_whitespace(c: char) -> bool {
    ('\u{9}' <= c && c <= '\u{d}') || c == ' ' || c == '\u{85}' || c == '\u{a0}' || c
        == '\u{1680}' || ('\u{2000}' <= c && c <= '\u{200a}') || c == '\u{2028}' || c
        == '\u{2029}' || c == '\u{202f}' || c == '\u{205f}' || c == '\u{3000}'
}

/// `s` without its leading whitespace.
pub open spec fn trim_start(s: Seq<char>) -> Seq<char>
    decreases s.len(),
{
    if s.len() > 0 && is_whitespace(s[0]) {
        trim_start(s.drop_first())
    } else {
        s
    }
}

/// `s` without its trailing whitespace.
pub open spec fn trim_end(s: Seq<char>) -> Seq<char>
    decreases s.len(),
{
    if s.len() > 0 && is_whitespace(s.last()) {
        trim_end(s.drop_last())
    } else {
        s
    }
}

/// `str::trim`: whitespace removed from both ends.
pub open spec fn trim(s: Seq<char>) -> Seq<char> {
    trim_end(trim_start(s))
}

/// The first position of `c` in `s`, as `str::split_once` finds it.
pub open spec fn first_index(s: Seq<char>, c: char) -> Option<int>
    decreases s.len(),
{
    if s.len() == 0 {
        None
    } else if s[0] == c {
        Some(0)
    } else {
        match first_index(s.drop_first(), c) {
            Some(i) => Some(i + 1),
            None => None,
        }
    }
}

pub open spec fn is_digit(c: char) -> bool {
    '0' <= c && c <= '9'
}

pub open spec fn all_digits(s: Seq<char>) -> bool {
    forall|i: int| 0 <= i < s.len() ==> is_digit(#[trigger] s[i])
}

/// The number a run of decimal digits spells.
pub open spec fn digits_value(s: Seq<char>) -> int
    decreases s.len(),
{
    if s.len() == 0 {
        0
    } else {
        digits_value(s.drop_last()) * 10 + (s.last() as int - '0' as int)
    }
}

/// One or more digits, spelling at most `limit`.
pub open spec fn digits_within(s: Seq<char>, limit: int) -> Option<int> {
    if s.len() > 0 && all_digits(s) && digits_value(s) <= limit {
        Some(digits_value(s))
    } else {
        None
    }
}

/// What `str::parse::<u32>` accepts: an optional `+`, then digits, in range.
pub open spec fn u32_text(s: Seq<char>) -> Option<u32> {
    let body = if s.len() > 0 && s[0] == '+' {
        s.drop_first()
    } else {
        s
    };
    match digits_within(body, u32::MAX as int) {
        Some(v) => Some(v as u32),
        None => None,
    }
}

/// What `str::parse::<i128>` accepts: an optional sign, then digits, in range.
pub open spec fn i128_text(s: Seq<char>) -> Option<i128> {
    if s.len() > 0 && s[0] == '-' {
        match digits_within(s.drop_first(), i128::MAX as int + 1) {
            Some(v) => Some((-v) as i128),
            None => None,
        }
    } else {
        let body = if s.len() > 0 && s[0] == '+' {
            s.drop_first()
        } else {
            s
        };
        match digits_within(body, i128::MAX as int) {
            Some(v) => Some(v as i128),
            None => None,
        }
    }
}

/// Whitespace at the front of `v[lo..hi]` skipped.
pub fn skip_whitespace(v: &Vec<char>, lo: usize, hi: usize) -> (r: usize)
    requires
        lo <= hi <= v.len(),
    ensures
        lo <= r <= hi,
        v@.subrange(r as int, hi as int) == trim_start(v@.subrange(lo as int, hi as int)),
{
    let mut i = lo;
    while i < hi && is_whitespace_char(v[i])
        invariant
            lo <= i <= hi <= v.len(),
            trim_start(v@.subrange(i as int, hi as int)) == trim_start(
                v@.subrange(lo as int, hi as int),
            ),
        decreases hi - i,
    {
        assert(v@.subrange(i as int, hi as int).drop_first() =~= v@.subrange(i + 1, hi as int));
        i = i + 1;
    }
    i
}

/// Whitespace at the back of `v[lo..hi]` dropped.
pub fn drop_whitespace(v: &Vec<char>, lo: usize, hi: usize) -> (r: usize)
    requires
        lo <= hi <= v.len(),
    ensures
        lo <= r <= hi,
        v@.subrange(lo as int, r as int) == trim_end(v@.subrange(lo as int, hi as int)),
{
    let mut j = hi;
    while j > lo && is_whitespace_char(v[j - 1])
        invariant
            lo <= j <= hi <= v.len(),
            trim_end(v@.subrange(lo as int, j as int)) == trim_end(
                v@.subrange(lo as int, hi as int),
            ),
        decreases j - lo,
    {
        assert(v@.subrange(lo as int, j as int).drop_last() =~= v@.subrange(lo as int, j - 1));
        j = j - 1;
    }
    j
}

/// `v[lo..hi]`, trimmed, as a range.
pub fn trim_range(v: &Vec<char>, lo: usize, hi: usize) -> (r: (usize, usize))
    requires
        lo <= hi <= v.len(),
    ensures
        lo <= r.0 <= r.1 <= hi,
        v@.subrange(r.0 as int, r.1 as int) == trim(v@.subrange(lo as int, hi as int)),
{
    let a = skip_whitespace(v, lo, hi);
    let b = drop_whitespace(v, a, hi);
    (a, b)
}

/// `char::is_whitespace`.
pub fn is_whitespace_char(c: char) -> (r: bool)
    ensures
        r == is_whitespace(c),
{
    ('\u{9}' <= c && c <= '\u{d}') || c == ' ' || c == '\u{85}' || c == '\u{a0}' || c
        == '\u{1680}' || ('\u{2000}' <= c && c <= '\u{200a}') || c == '\u{2028}' || c
        == '\u{2029}' || c == '\u{202f}' || c == '\u{205f}' || c == '\u{3000}'
}

/// Where `c` first occurs in `v[lo..hi]`, as an absolute index.
pub fn find_char(v: &Vec<char>, lo: usize, hi: usize, c: char) -> (r: Option<usize>)
    requires
        lo <= hi <= v.len(),
    ensures
        match first_index(v@.subrange(lo as int, hi as int), c) {
            Some(i) => 0 <= i < hi - lo && r == Some((lo + i) as usize),
            None => r is None,
        },
        r matches Some(i) ==> lo <= i < hi && v@[i as int] == c,
{
    let mut i = lo;
    while i < hi
        invariant
            lo <= i <= hi <= v.len(),
            forall|k: int| lo <= k < i ==> v@[k] != c,
        decreases hi - i,
    {
        if v[i] == c {
            proof {
                lemma_first_index_at(v@.subrange(lo as int, hi as int), c, (i - lo) as int);
            }
            return Some(i);
        }
        i = i + 1;
    }
    proof {
        lemma_first_index_none(v@.subrange(lo as int, hi as int), c);
    }
    None
}

proof fn lemma_first_index_at(s: Seq<char>, c: char, i: int)
    requires
        0 <= i < s.len(),
        s[i] == c,
        forall|k: int| 0 <= k < i ==> s[k] != c,
    ensures
        first_index(s, c) == Some(i),
    decreases i,
{
    if i > 0 {
        lemma_first_index_at(s.drop_first(), c, i - 1);
    }
}

proof fn lemma_first_index_none(s: Seq<char>, c: char)
    requires
        forall|k: int| 0 <= k < s.len() ==> s[k] != c,
    ensures
        first_index(s, c) is None,
    decreases s.len(),
{
    if s.len() > 0 {
        lemma_first_index_none(s.drop_first(), c);
    }
}

/// A longer run of digits spells at least as much as its prefix.
proof fn lemma_digits_value_grows(s: Seq<char>, k: int)
    requires
        0 <= k <= s.len(),
        all_digits(s),
    ensures
        digits_value(s.take(k)) <= digits_value(s),
        0 <= digits_value(s.take(k)),
    decreases s.len() - k,
{
    if k < s.len() {
        lemma_digits_value_grows(s, k + 1);
        let t = s.take(k + 1);
        assert(t.drop_last() =~= s.take(k));
        assert(is_digit(t.last()));
    } else {
        assert(s.take(k) =~= s);
        lemma_digits_value_nonneg(s);
    }
}

proof fn lemma_digits_value_nonneg(s: Seq<char>)
    requires
        all_digits(s),
    ensures
        digits_value(s) >= 0,
    decreases s.len(),
{
    if s.len() > 0 {
        assert(all_digits(s.drop_last()));
        lemma_digits_value_nonneg(s.drop_last());
        assert(is_digit(s.last()));
    }
}

/// The digits of `v[lo..hi]` read as a number, when they all are digits and
/// the number is at most `limit`.
pub fn digits_range(v: &Vec<char>, lo: usize, hi: usize, limit: u128) -> (r: Option<u128>)
    requires
        lo <= hi <= v.len(),
        9 <= limit,
    ensures
        r is Some <==> digits_within(v@.subrange(lo as int, hi as int), limit as int) is Some,
        r matches Some(y) ==> digits_within(v@.subrange(lo as int, hi as int), limit as int) == Some(
            y as int,
        ),
{
    let ghost s = v@.subrange(lo as int, hi as int);
    if lo == hi {
        return None;
    }
    let mut acc: u128 = 0;
    let mut i = lo;
    while i < hi
        invariant
            lo <= i <= hi <= v.len(),
            s == v@.subrange(lo as int, hi as int),
            9 <= limit,
            all_digits(s.take((i - lo) as int)),
            acc as int == digits_value(s.take((i - lo) as int)),
            acc <= limit,
        decreases hi - i,
    {
        let c = v[i];
        let ghost k = (i - lo) as int;
        assert(s[k] == c);
        if !('0' <= c && c <= '9') {
            proof {
                assert(!all_digits(s));
            }
            return None;
        }
        let d = (c as u32 - '0' as u32) as u128;
        proof {
            let t = s.take(k + 1);
            assert(t.drop_last() =~= s.take(k));
            assert(t.last() == c);
            assert forall|j: int| 0 <= j < t.len() implies is_digit(#[trigger] t[j]) by {
                if j < k {
                    assert(t[j] == s.take(k)[j]);
                }
            }
        }
        if acc > (limit - d) / 10 {
            proof {
                let t = s.take(k + 1);
                assert(acc * 10 + d > limit) by (nonlinear_arith)
                    requires
                        acc > (limit - d) / 10,
                        d <= 9,
                        9 <= limit,
                ;
                if all_digits(s) {
                    lemma_digits_value_grows(s, k + 1);
                }
            }
            return None;
        }
        proof {
            assert(acc * 10 + d <= limit) by (nonlinear_arith)
                requires
                    acc <= (limit - d) / 10,
                    d <= 9,
                    9 <= limit,
            ;
        }
        acc = acc * 10 + d;
        i = i + 1;
    }
    proof {
        assert(s.take((hi - lo) as int) =~= s);
    }
    Some(acc)
}

/// `str::parse::<u32>` of `v[lo..hi]`.
pub fn parse_u32(v: &Vec<char>, lo: usize, hi: usize) -> (r: Option<u32>)
    requires
        lo <= hi <= v.len(),
    ensures
        r == u32_text(v@.subrange(lo as int, hi as int)),
{
    let ghost s = v@.subrange(lo as int, hi as int);
    let start = if lo < hi && v[lo] == '+' {
        lo + 1
    } else {
        lo
    };
    let ghost body = if s.len() > 0 && s[0] == '+' {
        s.drop_first()
    } else {
        s
    };
    proof {
        assert(v@.subrange(start as int, hi as int) =~= body);
    }
    match digits_range(v, start, hi, 0xFFFF_FFFF) {
        Some(x) => {
            assert(digits_within(body, u32::MAX as int) == Some(x as int));
            assert(u32_text(s) == Some(x as u32));
            Some(x as u32)
        },
        None => {
            assert(digits_within(body, u32::MAX as int) is None);
            assert(u32_text(s) is None);
            None
        },
    }
}

/// `str::parse::<i128>` of `v[lo..hi]`.
pub fn parse_i128(v: &Vec<char>, lo: usize, hi: usize) -> (r: Option<i128>)
    requires
        lo <= hi <= v.len(),
    ensures
        r == i128_text(v@.subrange(lo as int, hi as int)),
{
    let ghost s = v@.subrange(lo as int, hi as int);
    if lo < hi && v[lo] == '-' {
        proof {
            assert(s.drop_first() =~= v@.subrange(lo + 1, hi as int));
        }
        match digits_range(v, lo + 1, hi, 0x8000_0000_0000_0000_0000_0000_0000_0000) {
            Some(x) => {
                assert(digits_within(s.drop_first(), i128::MAX as int + 1) == Some(x as int));
                if x == 0x8000_0000_0000_0000_0000_0000_0000_0000 {
                    Some(i128::MIN)
                } else {
                    let y = x as i128;
                    Some(-y)
                }
            },
            None => None,
        }
    } else {
        let start = if lo < hi && v[lo] == '+' {
            lo + 1
        } else {
            lo
        };
        let ghost body = if s.len() > 0 && s[0] == '+' {
            s.drop_first()
        } else {
            s
        };
        proof {
            assert(v@.subrange(start as int, hi as int) =~= body);
        }
        match digits_range(v, start, hi, 0x7FFF_FFFF_FFFF_FFFF_FFFF_FFFF_FFFF_FFFF) {
            Some(x) => {
                assert(digits_within(body, i128::MAX as int) == Some(x as int));
                Some(x as i128)
            },
            None => None,
        }
    }
}


/// The text `v[lo..hi]`, as an owned string.
pub fn string_of(v: &Vec<char>, lo: usize, hi: usize) -> (s: String)
    requires
        lo <= hi <= v.len(),
    ensures
        s@ == v@.subrange(lo as int, hi as int),
{
    let mut s = String::new();
    let mut i = lo;
    while i < hi
        invariant
            lo <= i <= hi <= v.len(),
            s@ == v@.subrange(lo as int, i as int),
        decreases hi - i,
    {
        push_char(&mut s, v[i]);
        proof {
            assert(s@ =~= v@.subrange(lo as int, i + 1));
        }
        i = i + 1;
    }
    s
}

/// Whether every character of `v[lo..hi]` is an ASCII digit.
pub fn all_digits_in(v: &Vec<char>, lo: usize, hi: usize) -> (r: bool)
    requires
        lo <= hi <= v.len(),
    ensures
        r == all_digits(v@.subrange(lo as int, hi as int)),
{
    let mut i = lo;
    while i < hi
        invariant
            lo <= i <= hi <= v.len(),
            all_digits(v@.subrange(lo as int, i as int)),
        decreases hi - i,
    {
        if !('0' <= v[i] && v[i] <= '9') {
            proof {
                assert(v@.subrange(lo as int, hi as int)[i - lo] == v@[i as int]);
            }
            return false;
        }
        proof {
            assert forall|k: int| 0 <= k < i + 1 - lo implies is_digit(
                #[trigger] v@.subrange(lo as int, i + 1)[k],
            ) by {
                if k < i - lo {
                    assert(v@.subrange(lo as int, i + 1)[k] == v@.subrange(lo as int, i as int)[k]);
                }
            }
        }
        i = i + 1;
    }
    true
}

/// `10^k`.
pub open spec fn pow10(k: nat) -> int
    decreases k,
{
    if k == 0 {
        1
    } else {
        10 * pow10((k - 1) as nat)
    }
}

/// `10^a <= 10^b` for `a <= b`, and every power is positive.
pub proof fn lemma_pow10_grows(a: nat, b: nat)
    requires
        a <= b,
    ensures
        1 <= pow10(a) <= pow10(b),
    decreases b,
{
    if b > a {
        lemma_pow10_grows(a, (b - 1) as nat);
    } else if a > 0 {
        lemma_pow10_grows((a - 1) as nat, (a - 1) as nat);
    }
}

/// `10^k` fits in an `i128` exactly up to `k = 38`.
pub proof fn lemma_pow10_fits(k: nat)
    ensures
        k <= 38 ==> pow10(k) <= i128::MAX,
        k > 38 ==> pow10(k) > i128::MAX,
{
    reveal_with_fuel(pow10, 40);
    assert(pow10(38) == 100_000_000_000_000_000_000_000_000_000_000_000_000int);
    assert(pow10(39) == 1_000_000_000_000_000_000_000_000_000_000_000_000_000int);
    if k <= 38 {
        lemma_pow10_grows(k, 38);
    } else {
        lemma_pow10_grows(39, k);
    }
}

/// A run of `k` digits spells less than `10^k`.
pub proof fn lemma_digits_below_pow10(s: Seq<char>)
    requires
        all_digits(s),
    ensures
        0 <= digits_value(s) < pow10(s.len()),
    decreases s.len(),
{
    if s.len() > 0 {
        let t = s.drop_last();
        assert forall|i: int| 0 <= i < t.len() implies is_digit(#[trigger] t[i]) by {
            assert(t[i] == s[i]);
        }
        lemma_digits_below_pow10(t);
        assert(is_digit(s[s.len() - 1]));
    }
}

/// `10^k` for `k <= 38`.
pub fn pow10_i128(k: usize) -> (p: i128)
    requires
        k <= 38,
    ensures
        p == pow10(k as nat),
{
    let mut p: i128 = 1;
    let mut i: usize = 0;
    while i < k
        invariant
            i <= k <= 38,
            p == pow10(i as nat),
        decreases k - i,
    {
        proof {
            lemma_pow10_grows((i + 1) as nat, 38);
            lemma_pow10_fits(38);
        }
        p = p * 10;
        i = i + 1;
    }
    p
}

/// Appends the text `t`.
pub fn push_text(s: &mut String, t: &str)
    ensures
        final(s)@ == old(s)@ + t@,
{
    let v = chars_of(t);
    let mut i: usize = 0;
    while i < v.len()
        invariant
            i <= v.len(),
            v@ == t@,
            s@ == old(s)@ + v@.take(i as int),
        decreases v.len() - i,
    {
        push_char(s, v[i]);
        proof {
            assert(v@.take(i + 1) =~= v@.take(i as int).push(v@[i as int]));
        }
        i = i + 1;
    }
    proof {
        assert(v@.take(v.len() as int) =~= v@);
    }
}

/// `c` with an ASCII capital folded to lower case.
pub open spec fn lower_char(c: char) -> char {
    if 'A' <= c && c <= 'Z' {
        ((c as int) + 32) as char
    } else {
        c
    }
}

/// `s` with ASCII capitals folded to lower case, as `to_ascii_lowercase`.
pub open spec fn ascii_lowercase(s: Seq<char>) -> Seq<char> {
    s.map_values(|c: char| lower_char(c))
}

/// `v[lo..hi]` with ASCII capitals folded to lower case.
pub fn lowercase_of(v: &Vec<char>, lo: usize, hi: usize) -> (r: Vec<char>)
    requires
        lo <= hi <= v.len(),
    ensures
        r@ == ascii_lowercase(v@.subrange(lo as int, hi as int)),
{
    let mut r: Vec<char> = Vec::new();
    let mut i = lo;
    while i < hi
        invariant
            lo <= i <= hi <= v.len(),
            r@ == ascii_lowercase(v@.subrange(lo as int, i as int)),
        decreases hi - i,
    {
        let c = v[i];
        let l = if 'A' <= c && c <= 'Z' {
            ((c as u8) + 32) as char
        } else {
            c
        };
        proof {
            if 'A' <= c && c <= 'Z' {
                assert((c as u8) as int == c as int);
            }
        }
        r.push(l);
        proof {
            assert(r@ =~= ascii_lowercase(v@.subrange(lo as int, i + 1)));
        }
        i = i + 1;
    }
    r
}

/// Whether `v` spells exactly the text `t`.
pub fn spells(v: &Vec<char>, t: &str) -> (r: bool)
    ensures
        r == (v@ == t@),
{
    let w = chars_of(t);
    if v.len() != w.len() {
        return false;
    }
    let mut i: usize = 0;
    while i < v.len()
        invariant
            i <= v.len() == w.len(),
            w@ == t@,
            forall|k: int| 0 <= k < i ==> v@[k] == w@[k],
        decreases v.len() - i,
    {
        if v[i] != w[i] {
            return false;
        }
        i = i + 1;
    }
    proof {
        assert(v@ =~= w@);
    }
    true
}

} // verus!
