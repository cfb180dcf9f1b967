//! Reading tempo and loop length out of a filename.
//!
//! For an archive of loops the filename is the *primary* tempo source, not a
//! fallback, so this parser handles what is actually there rather than one
//! tidy convention:
//!
//! ```text
//! 103 29Jul26 1Punkt1 Cstc.wav        leading, space-separated
//! 102-MTRX-01.wav                     leading, hyphen — no word break
//! 105CSTC-APRL02-ATM01-4BRS.wav       leading, running straight into letters
//! 00005 136BPM E01 01 comp 01 cut.wav a marker, not leading at all
//! 58.5 DL_4BAR_Lumiko Imai 01.wav     decimal — 58 names a different file
//! WIN10-INSTALL-01.wav                no tempo; must yield nothing
//! ```
//!
//! Plausibility is what does the disambiguating: a number only counts if it
//! could be a tempo at all, and an explicit `BPM` marker outranks position.
//!
//! A name is read character by character. Digits, dots, separators and marker
//! letters are all ASCII, so no other character ever matches one of them.

use crate::rational::{canonical, lemma_canonical, Rational};
use crate::text::{
    all_digits, chars_of, digits_range, digits_value, digits_within, is_digit,
    lemma_digits_below_pow10, lemma_pow10_fits, lemma_pow10_grows, pow10, pow10_i128,
};
use crate::timing::signature::BpmUnit;
use crate::timing::tempo::Tempo;
use vstd::prelude::*;
use vstd::string::StrSliceExecFns;

verus! {

/// The lowest number read as a tempo.
///
/// Wide enough for half-time dubstep at the bottom and drum & bass at the top;
/// narrow enough that dates (`29Jul26`), take numbers (`01`), bar counts
/// (`4BRS`) and a counter such as `00005` cannot be mistaken for one.
pub const PLAUSIBLE_BPM_MIN: i128 = 40;

/// The highest number read as a tempo.
pub const PLAUSIBLE_BPM_MAX: i128 = 300;

/// The lowest number read as a bar count.
pub const PLAUSIBLE_BARS_MIN: u64 = 1;

/// The highest number read as a bar count.
pub const PLAUSIBLE_BARS_MAX: u64 = 64;

/// Extensions an output filename may drop.
pub const AUDIO_EXTENSIONS: [&'static str; 5] = ["wav", "wave", "aif", "aiff", "flac"];

/// The end of the run of digits that starts at `i`.
pub open spec fn run_end(s: Seq<char>, i: int) -> int
    decreases s.len() - i,
{
    if 0 <= i < s.len() && is_digit(s[i]) {
        run_end(s, i + 1)
    } else {
        i
    }
}

/// Where the number starting at `i` ends: a decimal point only continues it
/// if a digit follows, so `132-JAZZ.ORG` stops at 132 while `58.5` does not
/// stop at 58.
pub open spec fn number_end(s: Seq<char>, i: int) -> int {
    let e = run_end(s, i);
    if e + 1 < s.len() && s[e] == '.' && is_digit(s[e + 1]) {
        run_end(s, e + 1)
    } else {
        e
    }
}

/// The number that starts at `i`, as `(value, integer part)`, when it reads:
/// an integer part too long for `i128`, or more decimals than `10^k` holds,
/// is no number.
pub open spec fn number_at(s: Seq<char>, i: int) -> Option<((int, int), int)> {
    let e = run_end(s, i);
    let f = number_end(s, i);
    let integer = digits_value(s.subrange(i, e));
    if integer > i128::MAX {
        None
    } else if f > e {
        let k = f - e - 1;
        if k > 38 {
            None
        } else {
            Some(
                (
                    canonical(integer * pow10(k as nat) + digits_value(s.subrange(e + 1, f)), pow10(
                        k as nat,
                    )),
                    integer,
                ),
            )
        }
    } else {
        Some(((integer, 1), integer))
    }
}

/// A decimal number's `integer · 10^k + fraction` fits in an `i128`.
pub open spec fn number_fits(s: Seq<char>, i: int) -> bool {
    let e = run_end(s, i);
    let f = number_end(s, i);
    let integer = digits_value(s.subrange(i, e));
    integer > i128::MAX || f == e || f - e - 1 > 38 || integer * pow10((f - e - 1) as nat)
        + digits_value(s.subrange(e + 1, f)) <= i128::MAX
}

pub proof fn lemma_run_end(s: Seq<char>, i: int)
    requires
        0 <= i <= s.len(),
    ensures
        i <= run_end(s, i) <= s.len(),
        forall|k: int| i <= k < run_end(s, i) ==> is_digit(#[trigger] s[k]),
        run_end(s, i) < s.len() ==> !is_digit(s[run_end(s, i)]),
        i < s.len() && is_digit(s[i]) ==> run_end(s, i) > i,
    decreases s.len() - i,
{
    if i < s.len() && is_digit(s[i]) {
        lemma_run_end(s, i + 1);
    }
}

pub proof fn lemma_number_end(s: Seq<char>, i: int)
    requires
        0 <= i < s.len(),
        is_digit(s[i]),
    ensures
        i < run_end(s, i) <= number_end(s, i) <= s.len(),
        number_end(s, i) > run_end(s, i) ==> run_end(s, i) + 1 < number_end(s, i),
{
    lemma_run_end(s, i);
    let e = run_end(s, i);
    if e + 1 < s.len() && s[e] == '.' && is_digit(s[e + 1]) {
        lemma_run_end(s, e + 1);
    }
}

/// Every number in `s` from position `i` on, left to right, decimals included:
/// its value, its integer part, and where the text after it starts.
pub open spec fn numbers_from(s: Seq<char>, i: int) -> Seq<((int, int), int, int)>
    decreases s.len() - i,
{
    if i < 0 || i >= s.len() {
        seq![]
    } else if !is_digit(s[i]) {
        numbers_from(s, i + 1)
    } else {
        proof {
            lemma_number_end(s, i);
        }
        let f = number_end(s, i);
        match number_at(s, i) {
            Some((v, n)) => seq![(v, n, f)] + numbers_from(s, f),
            None => numbers_from(s, f),
        }
    }
}

/// Every decimal number in `s` from position `i` on fits in an `i128`.
pub open spec fn numbers_fit_from(s: Seq<char>, i: int) -> bool
    decreases s.len() - i,
{
    if i < 0 || i >= s.len() {
        true
    } else if !is_digit(s[i]) {
        numbers_fit_from(s, i + 1)
    } else {
        proof {
            lemma_number_end(s, i);
        }
        number_fits(s, i) && numbers_fit_from(s, number_end(s, i))
    }
}

/// The last position of `c` in `s`.
pub open spec fn last_index(s: Seq<char>, c: char) -> Option<int>
    decreases s.len(),
{
    if s.len() == 0 {
        None
    } else if s.last() == c {
        Some(s.len() - 1)
    } else {
        last_index(s.drop_last(), c)
    }
}

pub open spec fn is_ascii_alphanumeric(c: char) -> bool {
    ('0' <= c && c <= '9') || ('a' <= c && c <= 'z') || ('A' <= c && c <= 'Z')
}

/// How much of a name is left once one trailing extension is stripped — only
/// if what follows the last dot looks like an extension rather than a
/// decimal, so `.wav` cannot be read as a fraction.
pub open spec fn stem_len(s: Seq<char>) -> int {
    match last_index(s, '.') {
        Some(at) => if forall|k: int| at < k < s.len() ==> is_ascii_alphanumeric(#[trigger] s[k]) {
            at
        } else {
            s.len() as int
        },
        None => s.len() as int,
    }
}

/// A character's code, ASCII capitals folded to lower case.
pub open spec fn ascii_lower(c: char) -> int {
    if 'A' <= c && c <= 'Z' {
        c as int + 32
    } else {
        c as int
    }
}

/// Two runs of text are equal ignoring ASCII case.
pub open spec fn same_ignoring_case(a: Seq<char>, b: Seq<char>) -> bool {
    a.len() == b.len() && forall|k: int| 0 <= k < a.len() ==> ascii_lower(#[trigger] a[k])
        == ascii_lower(b[k])
}

/// Past any spaces, underscores or hyphens from `i`.
pub open spec fn skip_separators(s: Seq<char>, i: int) -> int
    decreases s.len() - i,
{
    if 0 <= i < s.len() && (s[i] == ' ' || s[i] == '_' || s[i] == '-') {
        skip_separators(s, i + 1)
    } else {
        i
    }
}

/// `marker`, ignoring case, at position `i` of `s` after any separators.
pub open spec fn marker_at(s: Seq<char>, i: int, marker: Seq<char>) -> bool {
    let j = skip_separators(s, i);
    0 <= j && j + marker.len() <= s.len() && same_ignoring_case(
        s.subrange(j, j + marker.len()),
        marker,
    )
}

/// The first position in `s` whose item satisfies `p`.
pub open spec fn first_where<T>(s: Seq<T>, p: spec_fn(T) -> bool) -> Option<int>
    decreases s.len(),
{
    if s.len() == 0 {
        None
    } else if p(s[0]) {
        Some(0)
    } else {
        match first_where(s.drop_first(), p) {
            Some(j) => Some(j + 1),
            None => None,
        }
    }
}

pub proof fn lemma_first_where_at<T>(s: Seq<T>, p: spec_fn(T) -> bool, j: int)
    requires
        0 <= j < s.len(),
        p(s[j]),
        forall|k: int| 0 <= k < j ==> !p(#[trigger] s[k]),
    ensures
        first_where(s, p) == Some(j),
    decreases j,
{
    if j > 0 {
        assert(!p(s[0]));
        assert forall|k: int| 0 <= k < j - 1 implies !p(#[trigger] s.drop_first()[k]) by {
            assert(s.drop_first()[k] == s[k + 1]);
        }
        lemma_first_where_at(s.drop_first(), p, j - 1);
    }
}

pub proof fn lemma_first_where_found<T>(s: Seq<T>, p: spec_fn(T) -> bool)
    ensures
        first_where(s, p) matches Some(j) ==> 0 <= j < s.len() && p(s[j]),
    decreases s.len(),
{
    if s.len() > 0 && !p(s[0]) {
        lemma_first_where_found(s.drop_first(), p);
        if let Some(j) = first_where(s.drop_first(), p) {
            assert(s.drop_first()[j] == s[j + 1]);
        }
    }
}

pub proof fn lemma_first_where_none<T>(s: Seq<T>, p: spec_fn(T) -> bool)
    requires
        forall|k: int| 0 <= k < s.len() ==> !p(#[trigger] s[k]),
    ensures
        first_where(s, p) is None,
    decreases s.len(),
{
    if s.len() > 0 {
        assert(!p(s[0]));
        assert forall|k: int| 0 <= k < s.len() - 1 implies !p(#[trigger] s.drop_first()[k]) by {
            assert(s.drop_first()[k] == s[k + 1]);
        }
        lemma_first_where_none(s.drop_first(), p);
    }
}

/// The numbers of a name's stem.
pub open spec fn name_numbers(name: Seq<char>) -> Seq<((int, int), int, int)> {
    numbers_from(name.take(stem_len(name)), 0)
}

/// A number in a name counts as a tempo.
pub open spec fn plausible_bpm(n: int) -> bool {
    PLAUSIBLE_BPM_MIN <= n <= PLAUSIBLE_BPM_MAX
}

/// A number followed by a `BPM` marker, which is a plausible tempo.
pub open spec fn marked_tempo(s: Seq<char>) -> spec_fn(((int, int), int, int)) -> bool {
    |t: ((int, int), int, int)| marker_at(s, t.2, "bpm"@) && plausible_bpm(t.1)
}

/// A plausible tempo that is not a bar count.
pub open spec fn plain_tempo(s: Seq<char>) -> spec_fn(((int, int), int, int)) -> bool {
    |t: ((int, int), int, int)|
        plausible_bpm(t.1) && !marker_at(s, t.2, "bar"@) && !marker_at(s, t.2, "brs"@)
}

/// A number followed by a bar marker, which is a plausible bar count.
pub open spec fn bar_count(s: Seq<char>) -> spec_fn(((int, int), int, int)) -> bool {
    |t: ((int, int), int, int)|
        (marker_at(s, t.2, "bars"@) || marker_at(s, t.2, "bar"@) || marker_at(s, t.2, "brs"@))
            && PLAUSIBLE_BARS_MIN <= t.1 <= PLAUSIBLE_BARS_MAX
}

/// The tempo a name declares: an explicit `BPM` marker wins wherever it sits;
/// otherwise the first number that could plausibly be a tempo and is not a
/// bar count.
pub open spec fn name_tempo(name: Seq<char>) -> Option<(int, int)> {
    let s = name.take(stem_len(name));
    let toks = name_numbers(name);
    match first_where(toks, marked_tempo(s)) {
        Some(j) => Some(toks[j].0),
        None => match first_where(toks, plain_tempo(s)) {
            Some(j) => Some(toks[j].0),
            None => None,
        },
    }
}

/// The loop length a name declares: the first plausible count marked
/// `BARS`, `BAR` or `BRS`.
pub open spec fn name_bars(name: Seq<char>) -> Option<u64> {
    let s = name.take(stem_len(name));
    let toks = name_numbers(name);
    match first_where(toks, bar_count(s)) {
        Some(j) => Some(toks[j].1 as u64),
        None => None,
    }
}

/// One of the [`AUDIO_EXTENSIONS`], in any case.
pub open spec fn is_audio_extension(e: Seq<char>) -> bool {
    exists|k: int| 0 <= k < 5 && #[trigger] same_ignoring_case(e, AUDIO_EXTENSIONS[k]@)
}

/// The text before the last dot, when what follows it is a known audio
/// extension; otherwise the whole name.
pub open spec fn output_stem_len(s: Seq<char>) -> int {
    match last_index(s, '.') {
        Some(at) => if is_audio_extension(s.skip(at + 1)) {
            at
        } else {
            s.len() as int
        },
        None => s.len() as int,
    }
}

/// Every number of a name's stem can be read without leaving `i128`.
pub open spec fn name_fits(name: Seq<char>) -> bool {
    numbers_fit_from(name.take(stem_len(name)), 0)
}

proof fn lemma_last_index(s: Seq<char>, c: char)
    ensures
        last_index(s, c) matches Some(at) ==> 0 <= at < s.len() && s[at] == c && forall|k: int|
            at < k < s.len() ==> #[trigger] s[k] != c,
        last_index(s, c) is None ==> forall|k: int| 0 <= k < s.len() ==> #[trigger] s[k] != c,
    decreases s.len(),
{
    if s.len() > 0 {
        lemma_last_index(s.drop_last(), c);
        assert forall|k: int| 0 <= k < s.len() - 1 implies s.drop_last()[k] == #[trigger] s[k] by {}
    }
}

/// The last position of `c` in `v[..hi]`.
fn find_last(v: &Vec<char>, hi: usize, c: char) -> (r: Option<usize>)
    requires
        hi <= v.len(),
    ensures
        r == (match last_index(v@.take(hi as int), c) {
            Some(at) => Some(at as usize),
            None => None::<usize>,
        }),
        r matches Some(at) ==> at < hi,
{
    let mut j = hi;
    while j > 0
        invariant
            j <= hi <= v.len(),
            last_index(v@.take(j as int), c) == last_index(v@.take(hi as int), c),
        decreases j,
    {
        if v[j - 1] == c {
            proof {
                assert(v@.take(j as int).last() == c);
            }
            return Some(j - 1);
        }
        proof {
            assert(v@.take(j as int).drop_last() =~= v@.take(j - 1));
        }
        j = j - 1;
    }
    None
}

/// A character's code, ASCII capitals folded to lower case.
fn lower(c: char) -> (r: u32)
    ensures
        r == ascii_lower(c),
{
    if 'A' <= c && c <= 'Z' {
        (c as u32) + 32
    } else {
        c as u32
    }
}

/// `v[j..j + m.len()]` equals `m` ignoring ASCII case.
fn same_at(v: &Vec<char>, hi: usize, j: usize, m: &Vec<char>) -> (r: bool)
    requires
        j <= hi <= v.len(),
    ensures
        r == (j + m.len() <= hi && same_ignoring_case(
            v@.subrange(j as int, j + m.len()),
            m@,
        )),
{
    if m.len() > hi - j {
        return false;
    }
    let mut k: usize = 0;
    while k < m.len()
        invariant
            j + m.len() <= hi <= v.len(),
            k <= m.len(),
            forall|q: int|
                0 <= q < k ==> ascii_lower(#[trigger] v@.subrange(j as int, j + m.len())[q])
                    == ascii_lower(m@[q]),
        decreases m.len() - k,
    {
        if lower(v[j + k]) != lower(m[k]) {
            proof {
                assert(v@.subrange(j as int, j + m.len())[k as int] == v@[j + k]);
            }
            return false;
        }
        proof {
            assert(v@.subrange(j as int, j + m.len())[k as int] == v@[j + k]);
        }
        k = k + 1;
    }
    true
}

/// Past any spaces, underscores or hyphens from `i`, within `v[..hi]`.
fn skip_separators_in(v: &Vec<char>, hi: usize, i: usize) -> (r: usize)
    requires
        i <= hi <= v.len(),
    ensures
        r == skip_separators(v@.take(hi as int), i as int),
        i <= r <= hi,
{
    let ghost s = v@.take(hi as int);
    let mut j = i;
    while j < hi && (v[j] == ' ' || v[j] == '_' || v[j] == '-')
        invariant
            i <= j <= hi <= v.len(),
            s == v@.take(hi as int),
            skip_separators(s, j as int) == skip_separators(s, i as int),
        decreases hi - j,
    {
        proof {
            assert(s[j as int] == v@[j as int]);
        }
        j = j + 1;
    }
    proof {
        if j < hi {
            assert(s[j as int] == v@[j as int]);
        }
    }
    j
}

/// `marker` at position `i` of `v[..hi]` after any separators.
fn marker_in(v: &Vec<char>, hi: usize, i: usize, marker: &str) -> (r: bool)
    requires
        i <= hi <= v.len(),
    ensures
        r == marker_at(v@.take(hi as int), i as int, marker@),
{
    let m = chars_of(marker);
    let j = skip_separators_in(v, hi, i);
    let r = same_at(v, hi, j, &m);
    proof {
        if j + m.len() <= hi {
            assert(v@.take(hi as int).subrange(j as int, j + m.len()) =~= v@.subrange(
                j as int,
                j + m.len(),
            ));
        }
    }
    r
}

/// One number found in a name.
struct Number {
    value: Rational,
    integer: i128,
    /// Where the text after the number starts, so a suffix like `BPM` or
    /// `BRS` can be recognised without scanning the name twice.
    rest: usize,
}

/// What a found number is, as a model.
spec fn number_model(n: Number) -> ((int, int), int, int) {
    (n.value@, n.integer as int, n.rest as int)
}

/// The models of found numbers.
spec fn models(v: Seq<Number>) -> Seq<((int, int), int, int)> {
    v.map_values(|n: Number| number_model(n))
}

/// Every number in `v[..hi]`, left to right, decimals included.
fn numbers(v: &Vec<char>, hi: usize) -> (out: Vec<Number>)
    requires
        hi <= v.len(),
        numbers_fit_from(v@.take(hi as int), 0),
    ensures
        models(out@) == numbers_from(v@.take(hi as int), 0),
        forall|j: int| 0 <= j < out.len() ==> (#[trigger] out[j]).rest <= hi,
{
    let ghost s = v@.take(hi as int);
    let mut out: Vec<Number> = Vec::new();
    let mut i: usize = 0;
    while i < hi
        invariant
            i <= hi <= v.len(),
            s == v@.take(hi as int),
            numbers_fit_from(s, i as int),
            models(out@) + numbers_from(s, i as int)
                == numbers_from(s, 0),
            forall|j: int| 0 <= j < out.len() ==> (#[trigger] out[j]).rest <= hi,
        decreases hi - i,
    {
        if !('0' <= v[i] && v[i] <= '9') {
            proof {
                assert(s[i as int] == v@[i as int]);
            }
            i = i + 1;
            continue;
        }
        proof {
            assert(s[i as int] == v@[i as int]);
            lemma_number_end(s, i as int);
            lemma_run_end(s, i as int);
        }
        let start = i;
        while i < hi && '0' <= v[i] && v[i] <= '9'
            invariant
                start < hi <= v.len(),
                start <= i <= hi,
                s == v@.take(hi as int),
                run_end(s, start as int) == run_end(s, i as int),
            decreases hi - i,
        {
            proof {
                assert(s[i as int] == v@[i as int]);
            }
            i = i + 1;
        }
        proof {
            if i < hi {
                assert(s[i as int] == v@[i as int]);
            }
        }
        let int_end = i;
        let ghost e = int_end as int;
        assert(e == run_end(s, start as int));
        let mut frac_end = int_end;
        if hi - i > 1 && v[i] == '.' && '0' <= v[i + 1] && v[i + 1] <= '9' {
            proof {
                assert(s[i as int] == v@[i as int]);
                assert(s[i + 1] == v@[i + 1]);
                lemma_run_end(s, i + 1);
            }
            i = i + 1;
            while i < hi && '0' <= v[i] && v[i] <= '9'
                invariant
                    e + 1 <= i <= hi <= v.len(),
                    s == v@.take(hi as int),
                    run_end(s, e + 1) == run_end(s, i as int),
                decreases hi - i,
            {
                proof {
                    assert(s[i as int] == v@[i as int]);
                }
                i = i + 1;
            }
            proof {
                if i < hi {
                    assert(s[i as int] == v@[i as int]);
                }
            }
            frac_end = i;
        } else {
            proof {
                if i + 1 < hi {
                    assert(s[i as int] == v@[i as int]);
                    assert(s[i + 1] == v@[i + 1]);
                }
            }
        }
        let ghost f = frac_end as int;
        assert(f == number_end(s, start as int));
        proof {
            lemma_run_end(s, start as int);
            assert(s.subrange(start as int, e) =~= v@.subrange(start as int, e));
            assert(all_digits(s.subrange(start as int, e))) by {
                assert forall|k: int| 0 <= k < e - start implies is_digit(
                    #[trigger] s.subrange(start as int, e)[k],
                ) by {
                    assert(s.subrange(start as int, e)[k] == s[start + k]);
                }
            }
            assert(numbers_fit_from(s, start as int) == (number_fits(s, start as int)
                && numbers_fit_from(s, f)));
            assert(numbers_from(s, start as int) == (match number_at(s, start as int) {
                Some((val, n)) => seq![(val, n, f)] + numbers_from(s, f),
                None => numbers_from(s, f),
            }));
        }
        let parsed = digits_range(v, start, int_end, 0x7FFF_FFFF_FFFF_FFFF_FFFF_FFFF_FFFF_FFFF);
        let integer: i128 = match parsed {
            Some(n) => n as i128,
            None => {
                // A digit run too long for `i128` is not a tempo.
                proof {
                    assert(number_at(s, start as int) is None);
                }
                continue;
            },
        };
        let value = if frac_end > int_end {
            let k = frac_end - int_end - 1;
            proof {
                lemma_pow10_fits(k as nat);
            }
            if k > 38 {
                proof {
                    assert(number_at(s, start as int) is None);
                }
                continue;
            }
            let scale = pow10_i128(k);
            let ghost digits = s.subrange(e + 1, f);
            proof {
                assert(digits =~= v@.subrange(e + 1, f));
                assert(all_digits(digits)) by {
                    assert forall|q: int| 0 <= q < digits.len() implies is_digit(
                        #[trigger] digits[q],
                    ) by {
                        assert(digits[q] == s[e + 1 + q]);
                    }
                }
                lemma_digits_below_pow10(digits);
                lemma_pow10_grows(k as nat, 38);
                lemma_pow10_fits(38);
                lemma_pow10_grows(0, k as nat);
                assert(integer * scale >= 0) by (nonlinear_arith)
                    requires
                        integer >= 0,
                        scale >= 1,
                ;
            }
            let frac = match digits_range(v, int_end + 1, frac_end, 0x7FFF_FFFF_FFFF_FFFF_FFFF_FFFF_FFFF_FFFF) {
                Some(x) => x as i128,
                None => {
                    continue;
                },
            };
            Rational::new(integer * scale + frac, scale)
        } else {
            proof {
                crate::rational::lemma_gcd_one(integer as nat);
                crate::rational::lemma_canonical_of_canonical((integer as int, 1));
            }
            Rational::from_int(integer)
        };
        let ghost before = out@;
        out.push(Number { value, integer, rest: frac_end });
        proof {
            assert(models(out@) =~= models(before).push(number_model(out@[out.len() - 1])));
            assert(seq![number_model(out@[out.len() - 1])] + numbers_from(s, f)
                == numbers_from(s, start as int));
            assert(models(out@) + numbers_from(s, f)
                =~= models(before) + (seq![
                number_model(out@[out.len() - 1])] + numbers_from(s, f)));
        }
    }
    proof {
        assert(numbers_from(s, i as int) =~= Seq::<((int, int), int, int)>::empty());
        assert(models(out@) + Seq::<((int, int), int, int)>::empty()
            =~= models(out@));
    }
    out
}

/// What every number read from a name is: a non-negative integer part, and a
/// value with a positive denominator that is positive when that part is.
proof fn lemma_numbers_signs(s: Seq<char>, i: int)
    ensures
        forall|j: int|
            0 <= j < numbers_from(s, i).len() ==> {
                let t = #[trigger] numbers_from(s, i)[j];
                &&& t.1 >= 0
                &&& t.0.1 > 0
                &&& t.0.0 >= 0
                &&& t.1 > 0 ==> t.0.0 > 0
            },
    decreases s.len() - i,
{
    if 0 <= i < s.len() {
        if !is_digit(s[i]) {
            lemma_numbers_signs(s, i + 1);
            assert(numbers_from(s, i) == numbers_from(s, i + 1));
        } else {
            lemma_number_end(s, i);
            lemma_run_end(s, i);
            let e = run_end(s, i);
            let f = number_end(s, i);
            lemma_numbers_signs(s, f);
            let rest = numbers_from(s, f);
            let whole = s.subrange(i, e);
            assert forall|q: int| 0 <= q < whole.len() implies is_digit(#[trigger] whole[q]) by {
                assert(whole[q] == s[i + q]);
            }
            lemma_digits_below_pow10(whole);
            let integer = digits_value(whole);
            match number_at(s, i) {
                Some((v, n)) => {
                    assert(n == integer);
                    if f > e {
                        let k = f - e - 1;
                        let digits = s.subrange(e + 1, f);
                        lemma_run_end(s, e + 1);
                        assert forall|q: int| 0 <= q < digits.len() implies is_digit(
                            #[trigger] digits[q],
                        ) by {
                            assert(digits[q] == s[e + 1 + q]);
                        }
                        lemma_digits_below_pow10(digits);
                        lemma_pow10_grows(0, k as nat);
                        let num = integer * pow10(k as nat) + digits_value(digits);
                        assert(num >= 0 && (integer > 0 ==> num > 0)) by (nonlinear_arith)
                            requires
                                num == integer * pow10(k as nat) + digits_value(digits),
                                integer >= 0,
                                pow10(k as nat) >= 1,
                                digits_value(digits) >= 0,
                        ;
                        crate::rational::lemma_positive_spelling(num, pow10(k as nat));
                        assert(v == canonical(num, pow10(k as nat)));
                    }
                    let all = seq![(v, n, f)] + rest;
                    assert(numbers_from(s, i) == all);
                    assert forall|j: int| 0 < j < all.len() implies #[trigger] all[j] == rest[j
                        - 1] by {}
                },
                None => {
                    assert(numbers_from(s, i) == rest);
                },
            }
        }
    }
}

/// The length of the stem of `v`: one trailing extension stripped.
fn stem(v: &Vec<char>) -> (n: usize)
    ensures
        n == stem_len(v@),
        n <= v.len(),
{
    proof {
        assert(v@.take(v.len() as int) =~= v@);
        lemma_last_index(v@, '.');
    }
    match find_last(v, v.len(), '.') {
        Some(at) => {
            let mut k = at + 1;
            while k < v.len()
                invariant
                    at < k <= v.len(),
                    last_index(v@, '.') == Some(at as int),
                    forall|q: int| at < q < k ==> is_ascii_alphanumeric(#[trigger] v@[q]),
                decreases v.len() - k,
            {
                let c = v[k];
                if !(('0' <= c && c <= '9') || ('a' <= c && c <= 'z') || ('A' <= c && c <= 'Z')) {
                    proof {
                        assert(!is_ascii_alphanumeric(v@[k as int]));
                    }
                    return v.len();
                }
                k = k + 1;
            }
            at
        },
        None => v.len(),
    }
}

/// The first number marked `BPM` that is a plausible tempo.
fn find_marked(v: &Vec<char>, n: usize, found: &Vec<Number>) -> (r: Option<usize>)
    requires
        n <= v.len(),
        forall|j: int| 0 <= j < found.len() ==> (#[trigger] found[j]).rest <= n,
    ensures
        r == (match first_where(models(found@), marked_tempo(v@.take(n as int))) {
            Some(j) => Some(j as usize),
            None => None::<usize>,
        }),
        r matches Some(j) ==> j < found.len(),
{
    let ghost toks = models(found@);
    let ghost p = marked_tempo(v@.take(n as int));
    let mut j: usize = 0;
    while j < found.len()
        invariant
            j <= found.len(),
            n <= v.len(),
            toks == models(found@),
            p == marked_tempo(v@.take(n as int)),
            forall|q: int| 0 <= q < found.len() ==> (#[trigger] found[q]).rest <= n,
            forall|q: int| 0 <= q < j ==> !p(#[trigger] toks[q]),
        decreases found.len() - j,
    {
        let t = &found[j];
        if marker_in(v, n, t.rest, "bpm") && PLAUSIBLE_BPM_MIN <= t.integer && t.integer
            <= PLAUSIBLE_BPM_MAX {
            proof {
                assert(p(toks[j as int]));
                lemma_first_where_at(toks, p, j as int);
            }
            return Some(j);
        }
        proof {
            assert(!p(toks[j as int]));
        }
        j = j + 1;
    }
    proof {
        lemma_first_where_none(toks, p);
    }
    None
}

/// The first plausible tempo that is not marked as a bar count.
fn find_plain(v: &Vec<char>, n: usize, found: &Vec<Number>) -> (r: Option<usize>)
    requires
        n <= v.len(),
        forall|j: int| 0 <= j < found.len() ==> (#[trigger] found[j]).rest <= n,
    ensures
        r == (match first_where(models(found@), plain_tempo(v@.take(n as int))) {
            Some(j) => Some(j as usize),
            None => None::<usize>,
        }),
        r matches Some(j) ==> j < found.len(),
{
    let ghost toks = models(found@);
    let ghost p = plain_tempo(v@.take(n as int));
    let mut j: usize = 0;
    while j < found.len()
        invariant
            j <= found.len(),
            n <= v.len(),
            toks == models(found@),
            p == plain_tempo(v@.take(n as int)),
            forall|q: int| 0 <= q < found.len() ==> (#[trigger] found[q]).rest <= n,
            forall|q: int| 0 <= q < j ==> !p(#[trigger] toks[q]),
        decreases found.len() - j,
    {
        let t = &found[j];
        if PLAUSIBLE_BPM_MIN <= t.integer && t.integer <= PLAUSIBLE_BPM_MAX && !marker_in(
            v,
            n,
            t.rest,
            "bar",
        ) && !marker_in(v, n, t.rest, "brs") {
            proof {
                assert(p(toks[j as int]));
                lemma_first_where_at(toks, p, j as int);
            }
            return Some(j);
        }
        proof {
            assert(!p(toks[j as int]));
        }
        j = j + 1;
    }
    proof {
        lemma_first_where_none(toks, p);
    }
    None
}

/// The first plausible bar count, marked `BARS`, `BAR` or `BRS`.
fn find_bars(v: &Vec<char>, n: usize, found: &Vec<Number>) -> (r: Option<usize>)
    requires
        n <= v.len(),
        forall|j: int| 0 <= j < found.len() ==> (#[trigger] found[j]).rest <= n,
    ensures
        r == (match first_where(models(found@), bar_count(v@.take(n as int))) {
            Some(j) => Some(j as usize),
            None => None::<usize>,
        }),
        r matches Some(j) ==> j < found.len(),
{
    let ghost toks = models(found@);
    let ghost p = bar_count(v@.take(n as int));
    let mut j: usize = 0;
    while j < found.len()
        invariant
            j <= found.len(),
            n <= v.len(),
            toks == models(found@),
            p == bar_count(v@.take(n as int)),
            forall|q: int| 0 <= q < found.len() ==> (#[trigger] found[q]).rest <= n,
            forall|q: int| 0 <= q < j ==> !p(#[trigger] toks[q]),
        decreases found.len() - j,
    {
        let t = &found[j];
        if (marker_in(v, n, t.rest, "bars") || marker_in(v, n, t.rest, "bar") || marker_in(
            v,
            n,
            t.rest,
            "brs",
        )) && PLAUSIBLE_BARS_MIN as i128 <= t.integer && t.integer <= PLAUSIBLE_BARS_MAX as i128 {
            proof {
                assert(p(toks[j as int]));
                lemma_first_where_at(toks, p, j as int);
            }
            return Some(j);
        }
        proof {
            assert(!p(toks[j as int]));
        }
        j = j + 1;
    }
    proof {
        lemma_first_where_none(toks, p);
    }
    None
}

/// The tempo a filename declares, if any, against the quarter-note unit.
///
/// An explicit `BPM` marker wins wherever it sits (`00005 136BPM …` means
/// 136, not 5). Otherwise the first number that could plausibly be a tempo
/// and is not a bar count, which in practice means the leading one.
pub fn tempo_from_name(name: &str) -> (r: Option<Tempo>)
    requires
        name_fits(name@),
    ensures
        match name_tempo(name@) {
            Some(v) => r matches Some(t) && t@ == (v, (1int, 4int)),
            None => r is None,
        },
{
    let v = chars_of(name);
    let n = stem(&v);
    let found = numbers(&v, n);
    let ghost toks = models(found@);
    proof {
        lemma_numbers_signs(v@.take(n as int), 0);
        assert(v@.take(n as int) == name@.take(stem_len(name@)));
        assert(toks == name_numbers(name@));
        lemma_first_where_found(toks, marked_tempo(v@.take(n as int)));
        lemma_first_where_found(toks, plain_tempo(v@.take(n as int)));
    }
    let pick = match find_marked(&v, n, &found) {
        Some(j) => j,
        None => match find_plain(&v, n, &found) {
            Some(j) => j,
            None => {
                return None;
            },
        },
    };
    proof {
        assert(toks[pick as int] == number_model(found@[pick as int]));
    }
    match Tempo::new(found[pick].value, BpmUnit::quarter()) {
        Ok(t) => Some(t),
        Err(_) => None,
    }
}

/// The loop length a filename declares, if any — `4BRS`, `2BARS`, `8 bars`.
pub fn bars_from_name(name: &str) -> (r: Option<u64>)
    requires
        name_fits(name@),
    ensures
        r == name_bars(name@),
{
    let v = chars_of(name);
    let n = stem(&v);
    let found = numbers(&v, n);
    let ghost toks = models(found@);
    proof {
        lemma_numbers_signs(v@.take(n as int), 0);
        assert(v@.take(n as int) == name@.take(stem_len(name@)));
        assert(toks == name_numbers(name@));
        lemma_first_where_found(toks, bar_count(v@.take(n as int)));
    }
    match find_bars(&v, n, &found) {
        Some(j) => {
            proof {
                assert(toks[j as int] == number_model(found@[j as int]));
            }
            Some(found[j].integer as u64)
        },
        None => None,
    }
}

/// Whether every number in a name's stem can be read without leaving
/// `i128`, which [`tempo_from_name`] and [`bars_from_name`] need.
pub fn name_is_readable(name: &str) -> (r: bool)
    ensures
        r == name_fits(name@),
{
    let v = chars_of(name);
    let n = stem(&v);
    fits_from(&v, n)
}

/// Whether every decimal number of `v[..hi]` fits in an `i128`.
fn fits_from(v: &Vec<char>, hi: usize) -> (r: bool)
    requires
        hi <= v.len(),
    ensures
        r == numbers_fit_from(v@.take(hi as int), 0),
{
    let ghost s = v@.take(hi as int);
    let mut i: usize = 0;
    while i < hi
        invariant
            i <= hi <= v.len(),
            s == v@.take(hi as int),
            numbers_fit_from(s, 0) == numbers_fit_from(s, i as int),
        decreases hi - i,
    {
        proof {
            assert(s[i as int] == v@[i as int]);
        }
        if !('0' <= v[i] && v[i] <= '9') {
            i = i + 1;
            continue;
        }
        proof {
            lemma_number_end(s, i as int);
            lemma_run_end(s, i as int);
        }
        let start = i;
        while i < hi && '0' <= v[i] && v[i] <= '9'
            invariant
                start < hi <= v.len(),
                start <= i <= hi,
                s == v@.take(hi as int),
                run_end(s, start as int) == run_end(s, i as int),
            decreases hi - i,
        {
            proof {
                assert(s[i as int] == v@[i as int]);
            }
            i = i + 1;
        }
        proof {
            if i < hi {
                assert(s[i as int] == v@[i as int]);
            }
        }
        let int_end = i;
        let ghost e = int_end as int;
        if hi - i > 1 && v[i] == '.' && '0' <= v[i + 1] && v[i + 1] <= '9' {
            proof {
                assert(s[i as int] == v@[i as int]);
                assert(s[i + 1] == v@[i + 1]);
            }
            i = i + 1;
            while i < hi && '0' <= v[i] && v[i] <= '9'
                invariant
                    e + 1 <= i <= hi <= v.len(),
                    s == v@.take(hi as int),
                    run_end(s, e + 1) == run_end(s, i as int),
                decreases hi - i,
            {
                proof {
                    assert(s[i as int] == v@[i as int]);
                }
                i = i + 1;
            }
            proof {
                if i < hi {
                    assert(s[i as int] == v@[i as int]);
                }
            }
            let frac_end = i;
            let ghost f = frac_end as int;
            proof {
                assert(s.subrange(start as int, e) =~= v@.subrange(start as int, e));
                assert(s.subrange(e + 1, f) =~= v@.subrange(e + 1, f));
            }
            let k = frac_end - int_end - 1;
            let whole = digits_range(v, start, int_end, 0x7FFF_FFFF_FFFF_FFFF_FFFF_FFFF_FFFF_FFFF);
            if k <= 38 {
                if let Some(w) = whole {
                    proof {
                        lemma_run_end(s, start as int);
                        lemma_run_end(s, e + 1);
                        let digits = s.subrange(e + 1, f);
                        assert forall|q: int| 0 <= q < digits.len() implies is_digit(
                            #[trigger] digits[q],
                        ) by {
                            assert(digits[q] == s[e + 1 + q]);
                        }
                        lemma_digits_below_pow10(digits);
                        lemma_pow10_grows(k as nat, 38);
                        lemma_pow10_fits(38);
                        let whole_digits = s.subrange(start as int, e);
                        assert forall|q: int| 0 <= q < whole_digits.len() implies is_digit(
                            #[trigger] whole_digits[q],
                        ) by {
                            assert(whole_digits[q] == s[start + q]);
                        }
                    }
                    let scale = pow10_i128(k);
                    let frac = digits_range(v, int_end + 1, frac_end, 0x7FFF_FFFF_FFFF_FFFF_FFFF_FFFF_FFFF_FFFF);
                    if let Some(x) = frac {
                        let big = (w as u128).checked_mul(scale as u128);
                        let ok = match big {
                            Some(m) => match m.checked_add(x) {
                                Some(total) => total <= 0x7FFF_FFFF_FFFF_FFFF_FFFF_FFFF_FFFF_FFFF,
                                None => false,
                            },
                            None => false,
                        };
                        if !ok {
                            return false;
                        }
                    }
                }
            }
        }
        proof {
            lemma_run_end(s, start as int);
        }
    }
    true
}

/// The part of `name` to build an output filename from.
///
/// **Not** everything before the last dot: `78-SMPL.BRN-21OCT23-01` and
/// `78-SMPL.BRN-21OCT23-02` are two files with no extension at all, and
/// cutting at the dot would name both outputs `78-SMPL`. So an extension is
/// only dropped when it is one of [`AUDIO_EXTENSIONS`], in any case; anything
/// else is part of the name, because it is.
pub fn output_stem(name: &str) -> (r: &str)
    ensures
        r@ == name@.take(output_stem_len(name@)),
{
    let v = chars_of(name);
    proof {
        assert(v@.take(v.len() as int) =~= v@);
        assert(name@.take(name@.len() as int) =~= name@);
        lemma_last_index(v@, '.');
    }
    match find_last(&v, v.len(), '.') {
        Some(at) => {
            let mut k: usize = 0;
            while k < 5
                invariant
                    k <= 5,
                    at < v.len(),
                    v@ == name@,
                    last_index(name@, '.') == Some(at as int),
                    forall|q: int|
                        0 <= q < k ==> !#[trigger] same_ignoring_case(
                            name@.skip(at + 1),
                            AUDIO_EXTENSIONS[q]@,
                        ),
                decreases 5 - k,
            {
                let ext = chars_of(AUDIO_EXTENSIONS[k]);
                if ext.len() == v.len() - (at + 1) && same_at(&v, v.len(), at + 1, &ext) {
                    proof {
                        assert(v@.subrange(at + 1, at + 1 + ext.len()) =~= name@.skip(at + 1));
                        assert(same_ignoring_case(name@.skip(at + 1), AUDIO_EXTENSIONS[k as int]@));
                        assert(is_audio_extension(name@.skip(at + 1)));
                        assert(output_stem_len(name@) == at as int);
                        assert(name@.subrange(0, at as int) =~= name@.take(at as int));
                    }
                    return name.substring_char(0, at);
                }
                proof {
                    if ext.len() == v.len() - (at + 1) {
                        assert(v@.subrange(at + 1, at + 1 + ext.len()) =~= name@.skip(at + 1));
                    }
                }
                k = k + 1;
            }
            name
        },
        None => name,
    }
}

} // verus!
