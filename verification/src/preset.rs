//! Per-directory presets: `loopslcr.args`, holding the flags you would type.
//!
//! A file of flags has one grammar — the command line's. Nothing to keep in
//! sync, no key that exists in one place and not the other, and a flag added
//! tomorrow works in a preset written today.
//!
//! One flag per line. Everything after the first run of whitespace is the
//! value, taken verbatim to the end of the line, so a path with spaces in it
//! needs no quoting. `#` at the start of a line is a comment; blank lines are
//! ignored.

use crate::naming::{first_where, lemma_first_where_at, lemma_first_where_found, lemma_first_where_none};
use crate::text::{
    chars_of, debug_quoted, debug_text, decimal, find_char, first_index, is_whitespace, is_whitespace_char, push_char,
    push_decimal, push_text, string_of, trim, trim_end, trim_range, trim_start,
};
use vstd::prelude::*;

verus! {

/// The name of the preset file in a directory.
pub const FILE_NAME: &'static str = "loopslcr.args";

/// `str::lines`: the text split at each `\n`, with no empty line after a
/// final one. A `\r` before the `\n` stays on the line; the line is trimmed
/// before it is read, which removes it.
pub open spec fn lines_of(text: Seq<char>) -> Seq<Seq<char>>
    decreases text.len(),
{
    match first_index(text, '\n') {
        None => if text.len() == 0 {
            Seq::empty()
        } else {
            seq![text]
        },
        Some(p) => if 0 <= p < text.len() {
            seq![text.take(p)] + lines_of(text.skip(p + 1))
        } else {
            Seq::empty()
        },
    }
}

/// Whitespace, as `char::is_whitespace` says.
pub open spec fn whitespace() -> spec_fn(char) -> bool {
    |c: char| is_whitespace(c)
}

/// The arguments one flag line stands for: the flag, then the rest of the
/// line trimmed, when there is whitespace in it; else the line alone.
pub open spec fn arguments(line: Seq<char>) -> Seq<Seq<char>> {
    match first_where(line, whitespace()) {
        None => seq![line],
        Some(p) => seq![line.take(p), trim(line.skip(p + 1))],
    }
}

/// The message for line `number` when it is not a flag.
pub open spec fn not_a_flag(number: nat, line: Seq<char>) -> Seq<char> {
    "line "@ + decimal(number) + ": "@ + debug_quoted(line)
        + " is not a flag — every line starts with - or --"@
}

/// The arguments of lines `n..` of `lines`, numbering them from one, or the
/// message for the first line that is not a flag.
pub open spec fn arguments_from(lines: Seq<Seq<char>>, n: int) -> Result<Seq<Seq<char>>, Seq<char>>
    decreases lines.len() - n,
{
    if n < 0 || n >= lines.len() {
        Ok(Seq::empty())
    } else {
        let line = trim(lines[n]);
        if line.len() == 0 || line[0] == '#' {
            arguments_from(lines, n + 1)
        } else if line[0] != '-' {
            Err(not_a_flag((n + 1) as nat, line))
        } else {
            match arguments_from(lines, n + 1) {
                Ok(rest) => Ok(arguments(line) + rest),
                Err(e) => Err(e),
            }
        }
    }
}

/// Text with something in it and no whitespace at either end.
pub open spec fn bare(a: Seq<char>) -> bool {
    a.len() > 0 && !is_whitespace(a[0]) && !is_whitespace(a.last())
}

/// Trimming leaves a suffix, starting at a non-space, that keeps a non-space
/// last character.
proof fn lemma_trim_start(u: Seq<char>)
    ensures
        trim_start(u).len() <= u.len(),
        trim_start(u) == u.skip(u.len() - trim_start(u).len()),
        trim_start(u).len() > 0 ==> !is_whitespace(trim_start(u)[0]),
        u.len() > 0 && !is_whitespace(u.last()) ==> trim_start(u).len() > 0,
    decreases u.len(),
{
    if u.len() > 0 && is_whitespace(u[0]) {
        lemma_trim_start(u.drop_first());
        assert(u.drop_first().skip(u.drop_first().len() - trim_start(u.drop_first()).len())
            =~= u.skip(u.len() - trim_start(u.drop_first()).len()));
        if u.len() > 1 {
            assert(u.drop_first().last() == u.last());
        }
    } else {
        assert(u.skip(0) =~= u);
    }
}

/// Trimming the end leaves a prefix, ending at a non-space, that keeps a
/// non-space first character.
proof fn lemma_trim_end(t: Seq<char>)
    ensures
        trim_end(t).len() <= t.len(),
        trim_end(t) == t.take(trim_end(t).len() as int),
        trim_end(t).len() > 0 ==> !is_whitespace(trim_end(t).last()),
        t.len() > 0 && !is_whitespace(t[0]) ==> trim_end(t).len() > 0,
    decreases t.len(),
{
    if t.len() > 0 && is_whitespace(t.last()) {
        lemma_trim_end(t.drop_last());
        assert(t.drop_last().take(trim_end(t.drop_last()).len() as int) =~= t.take(
            trim_end(t.drop_last()).len() as int,
        ));
        if t.len() > 1 {
            assert(t.drop_last()[0] == t[0]);
        }
    } else {
        assert(t.take(t.len() as int) =~= t);
    }
}

/// Trimmed text is empty or bare.
proof fn lemma_trim_bare(s: Seq<char>)
    ensures
        trim(s).len() > 0 ==> bare(trim(s)),
        s.len() > 0 && !is_whitespace(s.last()) ==> trim(s).len() > 0,
{
    let u = trim_start(s);
    lemma_trim_start(s);
    lemma_trim_end(u);
    if trim(s).len() > 0 {
        assert(trim(s)[0] == u[0]);
    }
    if s.len() > 0 && !is_whitespace(s.last()) {
        assert(u.last() == s.last());
    }
}

/// Nothing before the first place satisfies the test.
proof fn lemma_first_where_before<T>(s: Seq<T>, p: spec_fn(T) -> bool, j: int)
    requires
        first_where(s, p) == Some(j),
    ensures
        forall|k: int| 0 <= k < j ==> !p(#[trigger] s[k]),
    decreases s.len(),
{
    lemma_first_where_found(s, p);
    if s.len() > 0 && !p(s[0]) {
        let t = s.drop_first();
        lemma_first_where_before(t, p, j - 1);
        assert forall|k: int| 0 <= k < j implies !p(#[trigger] s[k]) by {
            if k > 0 {
                assert(s[k] == t[k - 1]);
            }
        }
    }
}

/// The arguments a flag line stands for are each bare.
proof fn lemma_arguments_bare(line: Seq<char>)
    requires
        bare(line),
        line[0] == '-',
    ensures
        forall|i: int| 0 <= i < arguments(line).len() ==> bare(#[trigger] arguments(line)[i]),
{
    lemma_first_where_found(line, whitespace());
    match first_where(line, whitespace()) {
        None => {},
        Some(p) => {
            assert(p > 0) by {
                if p == 0 {
                    assert((whitespace())(line[0]));
                }
            }
            assert(p < line.len() - 1) by {
                if p == line.len() - 1 {
                    assert((whitespace())(line[p]));
                }
            }
            lemma_first_where_before(line, whitespace(), p);
            let flag = line.take(p);
            assert(flag[0] == line[0]);
            assert(flag.last() == line[p - 1]);
            assert(!(whitespace())(line[p - 1]));
            let rest = line.skip(p + 1);
            assert(rest.last() == line.last());
            lemma_trim_bare(rest);
        },
    }
}

/// Every argument a preset yields is bare: a flag runs to the first
/// whitespace, and its value is the rest of the line with the whitespace
/// around it taken off, so `--bars  4` gives `--bars` and `4`.
pub proof fn law_arguments_are_bare(lines: Seq<Seq<char>>, n: int)
    ensures
        arguments_from(lines, n) matches Ok(a) ==> forall|i: int| 0 <= i < a.len() ==> bare(
            #[trigger] a[i],
        ),
    decreases lines.len() - n,
{
    if 0 <= n < lines.len() {
        let line = trim(lines[n]);
        law_arguments_are_bare(lines, n + 1);
        if !(line.len() == 0 || line[0] == '#') && line[0] == '-' {
            lemma_trim_bare(lines[n]);
            lemma_arguments_bare(line);
            if let Ok(rest) = arguments_from(lines, n + 1) {
                let a = arguments(line) + rest;
                assert forall|i: int| 0 <= i < a.len() implies bare(#[trigger] a[i]) by {
                    if i < arguments(line).len() {
                        assert(a[i] == arguments(line)[i]);
                    } else {
                        assert(a[i] == rest[i - arguments(line).len()]);
                    }
                }
            }
        }
    }
}

/// The views of a list of strings.
pub open spec fn texts(v: Seq<String>) -> Seq<Seq<char>> {
    v.map_values(|s: String| s@)
}

/// Where the first whitespace in `v[lo..hi]` is, as an absolute index.
fn find_whitespace(v: &Vec<char>, lo: usize, hi: usize) -> (r: Option<usize>)
    requires
        lo <= hi <= v.len(),
    ensures
        match first_where(v@.subrange(lo as int, hi as int), whitespace()) {
            Some(p) => 0 <= p < hi - lo && r == Some((lo + p) as usize),
            None => r is None,
        },
        r matches Some(i) ==> lo <= i < hi,
{
    let ghost s = v@.subrange(lo as int, hi as int);
    let mut i = lo;
    while i < hi
        invariant
            lo <= i <= hi <= v.len(),
            s == v@.subrange(lo as int, hi as int),
            forall|k: int| 0 <= k < i - lo ==> !(whitespace())(#[trigger] s[k]),
        decreases hi - i,
    {
        if is_whitespace_char(v[i]) {
            proof {
                assert(s[i - lo] == v@[i as int]);
                lemma_first_where_at(s, whitespace(), i - lo);
            }
            return Some(i);
        }
        proof {
            assert(s[i - lo] == v@[i as int]);
        }
        i = i + 1;
    }
    proof {
        lemma_first_where_none(s, whitespace());
    }
    None
}

/// Splits preset text into arguments.
///
/// A line that is not a flag is refused rather than passed on: as a
/// positional argument a stray word would become an input filename. The
/// line number in the message is the one in the file, comments included.
pub fn parse(text: &str) -> (r: Result<Vec<String>, String>)
    ensures
        match arguments_from(lines_of(text@), 0) {
            Ok(a) => r matches Ok(v) && texts(v@) == a,
            Err(e) => r matches Err(m) && m@ == e,
        },
{
    let v = chars_of(text);
    let mut args: Vec<String> = Vec::new();
    let mut lo: usize = 0;
    let mut number: usize = 0;
    let ghost lines = lines_of(text@);
    proof {
        assert(v@.skip(0) =~= v@);
    }
    loop
        invariant
            lo <= v.len(),
            v@ == text@,
            lines == lines_of(text@),
            number <= lo,
            lines_of(v@.skip(lo as int)) == lines.skip(number as int),
            number <= lines.len(),
            match arguments_from(lines, 0) {
                Ok(a) => match arguments_from(lines, number as int) {
                    Ok(rest) => a == texts(args@) + rest,
                    Err(_) => false,
                },
                Err(e) => match arguments_from(lines, number as int) {
                    Ok(_) => false,
                    Err(e2) => e == e2,
                },
            },
        decreases v.len() - lo,
    {
        let ghost rest = v@.skip(lo as int);
        if lo == v.len() {
            proof {
                assert(rest.len() == 0);
                assert(lines_of(rest).len() == 0);
                assert(lines.skip(number as int).len() == 0);
                assert(arguments_from(lines, number as int) == Ok::<Seq<Seq<char>>, Seq<char>>(
                    Seq::empty(),
                ));
                assert(texts(args@) + Seq::<Seq<char>>::empty() =~= texts(args@));
            }
            return Ok(args);
        }
        let end: usize = match find_char(&v, lo, v.len(), '\n') {
            Some(p) => p,
            None => v.len(),
        };
        proof {
            assert(v@.subrange(lo as int, v.len() as int) =~= rest);
            assert(rest.take(end - lo) =~= v@.subrange(lo as int, end as int));
            if end < v.len() {
                assert(rest.skip(end - lo + 1) =~= v@.skip(end + 1));
            }
            assert(lines.skip(number as int)[0] == v@.subrange(lo as int, end as int));
            assert(lines.skip(number as int).drop_first() =~= lines.skip(number + 1));
            assert(lines[number as int] == v@.subrange(lo as int, end as int));
        }
        let (a, b) = trim_range(&v, lo, end);
        let ghost line = v@.subrange(a as int, b as int);
        proof {
            assert(line == trim(lines[number as int]));
            if a < b {
                assert(line[0] == v@[a as int]);
            }
        }
        let next: usize = if end < v.len() {
            end + 1
        } else {
            end
        };
        proof {
            if end == v.len() {
                assert(v@.skip(next as int).len() == 0);
                assert(lines.skip(number + 1).len() == 0);
                assert(lines_of(v@.skip(next as int)) =~= lines.skip(number + 1));
            }
        }
        if a == b || v[a] == '#' {
            number = number + 1;
            lo = next;
        } else if v[a] != '-' {
            let mut m = String::new();
            push_text(&mut m, "line ");
            push_decimal(&mut m, (number + 1) as u128);
            push_text(&mut m, ": ");
            let shown = string_of(&v, a, b);
            let quoted = debug_text(shown.as_str());
            push_text(&mut m, quoted.as_str());
            push_text(&mut m, " is not a flag — every line starts with - or --");
            proof {
                assert(m@ =~= not_a_flag((number + 1) as nat, line));
                assert(arguments_from(lines, number as int) == Err::<Seq<Seq<char>>, Seq<char>>(
                    not_a_flag((number + 1) as nat, line),
                ));
            }
            return Err(m);
        } else {
            let ghost before = texts(args@);
            match find_whitespace(&v, a, b) {
                None => {
                    args.push(string_of(&v, a, b));
                    proof {
                        assert(texts(args@) =~= before + arguments(line));
                    }
                },
                Some(p) => {
                    args.push(string_of(&v, a, p));
                    let (c, d) = trim_range(&v, p + 1, b);
                    args.push(string_of(&v, c, d));
                    proof {
                        assert(first_where(line, whitespace()) == Some(p - a));
                        assert(line.take(p - a) =~= v@.subrange(a as int, p as int));
                        assert(line.skip(p - a + 1) =~= v@.subrange(p + 1, b as int));
                        assert(arguments(line) == seq![line.take(p - a), trim(line.skip(p - a + 1))]);
                        assert(texts(args@) =~= before + arguments(line));
                    }
                },
            }
            proof {
                assert(arguments(line) + arguments_from(lines, number + 1)->Ok_0 =~= arguments(
                    line,
                ) + arguments_from(lines, number + 1)->Ok_0);
                if let Ok(tail) = arguments_from(lines, number + 1) {
                    assert(before + (arguments(line) + tail) =~= texts(args@) + tail);
                }
            }
            number = number + 1;
            lo = next;
        }
    }
}

} // verus!
