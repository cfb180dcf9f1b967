//! A flat JSON object, written and read.
//!
//! Flat is the whole grammar: an object of numbers, booleans, strings and
//! `null`, with no nesting and no arrays. That is small enough to implement
//! completely, which is the only condition under which hand-rolling a
//! standard format is honest. String values are escaped properly all the
//! same, since a filename could reach one.
//!
//! Keys are kept in key order, so the same values always produce the same
//! bytes.
//!
//! A number is kept as the text it was written as, once that text is known to
//! be one `f64` reads: turning it into a float is the reader's business.

use super::table::{contents, key_precedes, ordered, Table};
use crate::text::{
    all_digits, all_digits_in, ascii_lowercase, chars_of, find_char, first_index, is_whitespace,
    is_whitespace_char, lowercase_of, push_char, push_signed, push_text, signed_decimal, spells,
    string_of, decimal, is_digit, debug_quoted, debug_text,
};
use vstd::prelude::*;

verus! {

// ---------------------------------------------------------------- writing

/// The lower-case hexadecimal digit for `d < 16`.
pub open spec fn hex_digit(d: int) -> char {
    if d < 10 {
        ((d + '0' as int) as u32) as char
    } else {
        ((d - 10 + 'a' as int) as u32) as char
    }
}

/// One character as it stands inside a JSON string.
pub open spec fn escaped(c: char) -> Seq<char> {
    if c == '"' {
        seq!['\\', '"']
    } else if c == '\\' {
        seq!['\\', '\\']
    } else if c == '\n' {
        seq!['\\', 'n']
    } else if c == '\r' {
        seq!['\\', 'r']
    } else if c == '\t' {
        seq!['\\', 't']
    } else if (c as u32) < 32 {
        seq!['\\', 'u', '0', '0', hex_digit((c as u32) as int / 16), hex_digit((c as u32) as int % 16)]
    } else {
        seq![c]
    }
}

/// The characters of `s`, each escaped.
pub open spec fn escaped_all(s: Seq<char>) -> Seq<char>
    decreases s.len(),
{
    if s.len() == 0 {
        Seq::empty()
    } else {
        escaped_all(s.drop_last()) + escaped(s.last())
    }
}

/// `s` as a JSON string: quoted, with quotes, backslashes and everything
/// below `0x20` escaped. JSON is UTF-8 above that, so the rest stands as is.
pub open spec fn quoted(s: Seq<char>) -> Seq<char> {
    seq!['"'] + escaped_all(s) + seq!['"']
}

/// One member as written: the quoted key, a colon, the value's text.
pub open spec fn member(e: (Seq<char>, Seq<char>)) -> Seq<char> {
    quoted(e.0) + seq![':'] + e.1
}

/// The members of a listing, separated by commas.
pub open spec fn members_text(s: Seq<(Seq<char>, Seq<char>)>) -> Seq<char>
    decreases s.len(),
{
    if s.len() == 0 {
        Seq::empty()
    } else if s.len() == 1 {
        member(s[0])
    } else {
        members_text(s.drop_last()) + seq![','] + member(s.last())
    }
}

/// A whole object as written.
pub open spec fn object_text(s: Seq<(Seq<char>, Seq<char>)>) -> Seq<char> {
    seq!['{'] + members_text(s) + seq!['}']
}

fn push_hex(out: &mut String, d: u32)
    requires
        d < 16,
    ensures
        final(out)@ == old(out)@.push(hex_digit(d as int)),
{
    let c: char = match d {
        0 => '0',
        1 => '1',
        2 => '2',
        3 => '3',
        4 => '4',
        5 => '5',
        6 => '6',
        7 => '7',
        8 => '8',
        9 => '9',
        10 => 'a',
        11 => 'b',
        12 => 'c',
        13 => 'd',
        14 => 'e',
        _ => 'f',
    };
    push_char(out, c);
}

/// Appends `s` as a JSON string.
pub fn push_quoted(out: &mut String, s: &Vec<char>)
    ensures
        final(out)@ == old(out)@ + quoted(s@),
{
    push_char(out, '"');
    let mut i: usize = 0;
    while i < s.len()
        invariant
            i <= s.len(),
            out@ == old(out)@ + seq!['"'] + escaped_all(s@.take(i as int)),
        decreases s.len() - i,
    {
        let c = s[i];
        if c == '"' {
            push_char(out, '\\');
            push_char(out, '"');
        } else if c == '\\' {
            push_char(out, '\\');
            push_char(out, '\\');
        } else if c == '\n' {
            push_char(out, '\\');
            push_char(out, 'n');
        } else if c == '\r' {
            push_char(out, '\\');
            push_char(out, 'r');
        } else if c == '\t' {
            push_char(out, '\\');
            push_char(out, 't');
        } else if (c as u32) < 32 {
            let code = c as u32;
            push_char(out, '\\');
            push_char(out, 'u');
            push_char(out, '0');
            push_char(out, '0');
            push_hex(out, code / 16);
            push_hex(out, code % 16);
        } else {
            push_char(out, c);
        }
        proof {
            assert(s@.take(i + 1).drop_last() =~= s@.take(i as int));
            assert(s@.take(i + 1).last() == c);
            assert(out@ =~= old(out)@ + seq!['"'] + escaped_all(s@.take(i + 1)));
        }
        i = i + 1;
    }
    push_char(out, '"');
    proof {
        assert(s@.take(s.len() as int) =~= s@);
        assert(out@ =~= old(out)@ + quoted(s@));
    }
}

/// `s` as a JSON string.
pub fn quote(s: &str) -> (r: String)
    ensures
        r@ == quoted(s@),
{
    let mut out = String::new();
    let v = chars_of(s);
    push_quoted(&mut out, &v);
    proof {
        assert(out@ =~= quoted(s@));
    }
    out
}

/// Builds a flat JSON object. Each key holds the value's text as it will be
/// written.
#[derive(Debug)]
pub struct Object(Table<String>);

impl Object {
    /// The members in key order: each key with the text of its value.
    pub closed spec fn members(self) -> Seq<(Seq<char>, Seq<char>)> {
        self.0.listing()
    }

    /// Each key to the text of its value.
    pub open spec fn fields(self) -> Map<Seq<char>, Seq<char>> {
        contents(self.members())
    }

    /// The members are in strictly increasing key order.
    pub open spec fn wf(self) -> bool {
        ordered(self.members())
    }

    /// The text [`Object::render`] writes.
    pub open spec fn text(self) -> Seq<char> {
        object_text(self.members())
    }

    pub fn new() -> (o: Object)
        ensures
            o.members() == Seq::<(Seq<char>, Seq<char>)>::empty(),
            o.wf(),
    {
        Object(Table::new())
    }

    /// Stores `text` under `key`: the value exactly as it will be written.
    ///
    /// For values whose spelling is worked out elsewhere, such as a float's
    /// shortest round-tripping decimal or `null`.
    pub fn spelled(&mut self, key: &str, text: String) -> (r: &mut Object)
        ensures
            r.fields() == old(self).fields().insert(key@, text@),
            r.wf(),
            *final(self) == *final(r),
    {
        self.0.insert(key, text);
        self
    }

    pub fn integer(&mut self, key: &str, value: i64) -> (r: &mut Object)
        ensures
            r.fields() == old(self).fields().insert(key@, signed_decimal(value as int)),
            r.wf(),
            *final(self) == *final(r),
    {
        let mut text = String::new();
        push_signed(&mut text, value as i128);
        proof {
            assert(text@ =~= signed_decimal(value as int));
        }
        self.0.insert(key, text);
        self
    }

    pub fn bool(&mut self, key: &str, value: bool) -> (r: &mut Object)
        ensures
            r.fields() == old(self).fields().insert(
                key@,
                if value {
                    "true"@
                } else {
                    "false"@
                },
            ),
            r.wf(),
            *final(self) == *final(r),
    {
        let mut text = String::new();
        if value {
            push_text(&mut text, "true");
        } else {
            push_text(&mut text, "false");
        }
        proof {
            assert(text@ =~= if value {
                "true"@
            } else {
                "false"@
            });
        }
        self.0.insert(key, text);
        self
    }

    pub fn string(&mut self, key: &str, value: &str) -> (r: &mut Object)
        ensures
            r.fields() == old(self).fields().insert(key@, quoted(value@)),
            r.wf(),
            *final(self) == *final(r),
    {
        self.0.insert(key, quote(value));
        self
    }

    /// A value that may be absent. `None` becomes `null`, not a zero.
    pub fn maybe_integer(&mut self, key: &str, value: Option<i64>) -> (r: &mut Object)
        ensures
            r.fields() == old(self).fields().insert(
                key@,
                match value {
                    Some(v) => signed_decimal(v as int),
                    None => "null"@,
                },
            ),
            r.wf(),
            *final(self) == *final(r),
    {
        match value {
            Some(v) => self.integer(key, v),
            None => {
                let mut text = String::new();
                push_text(&mut text, "null");
                proof {
                    assert(text@ =~= "null"@);
                }
                self.0.insert(key, text);
                self
            },
        }
    }

    /// The object as JSON text, members in key order.
    pub fn render(&self) -> (r: String)
        ensures
            r@ == self.text(),
    {
        let mut out = String::new();
        push_char(&mut out, '{');
        let n = self.0.len();
        let mut i: usize = 0;
        while i < n
            invariant
                i <= n == self.members().len(),
                out@ == seq!['{'] + members_text(self.members().take(i as int)),
            decreases n - i,
        {
            let (k, v) = self.0.entry(i);
            let ghost before = out@;
            if i > 0 {
                push_char(&mut out, ',');
            }
            push_quoted(&mut out, k);
            push_char(&mut out, ':');
            push_text(&mut out, v.as_str());
            proof {
                let m = self.members();
                assert(m.take(i + 1).drop_last() =~= m.take(i as int));
                assert(m.take(i + 1).last() == m[i as int]);
                if i == 0 {
                    assert(m.take(1) =~= seq![m[0]]);
                    assert(out@ =~= seq!['{'] + members_text(m.take(i + 1)));
                } else {
                    assert(out@ =~= seq!['{'] + members_text(m.take(i + 1)));
                }
            }
            i = i + 1;
        }
        push_char(&mut out, '}');
        proof {
            assert(self.members().take(n as int) =~= self.members());
        }
        out
    }
}

/// The same values always render the same bytes: two objects holding the same
/// fields write the same text, whatever order they were filled in.
pub proof fn law_the_same_values_render_the_same_bytes(a: Object, b: Object)
    requires
        a.wf(),
        b.wf(),
        a.fields() == b.fields(),
    ensures
        a.text() == b.text(),
{
    super::table::law_the_listing_is_a_function_of_the_contents(a.members(), b.members());
}

// ---------------------------------------------------------------- reading

/// What a value read out of a flat object is, as plain data.
pub ghost enum Parsed {
    /// A number, as the text it was written as.
    Number(Seq<char>),
    Bool(bool),
    String(Seq<char>),
    Null,
}

/// One value read out of a flat object.
#[derive(Clone, Debug, PartialEq)]
pub enum Value {
    /// The number's text, which `f64`'s parser accepts.
    Number(String),
    Bool(bool),
    String(String),
    Null,
}

impl View for Value {
    type V = Parsed;

    open spec fn view(&self) -> Parsed {
        match self {
            Value::Number(t) => Parsed::Number(t@),
            Value::Bool(b) => Parsed::Bool(*b),
            Value::String(s) => Parsed::String(s@),
            Value::Null => Parsed::Null,
        }
    }
}

impl Value {
    pub fn as_bool(&self) -> (r: Option<bool>)
        ensures
            r == (match self@ {
                Parsed::Bool(b) => Some(b),
                _ => None,
            }),
    {
        match self {
            Value::Bool(b) => Some(*b),
            _ => None,
        }
    }

    pub fn as_str(&self) -> (r: Option<&str>)
        ensures
            (self@ is String) ==> (r matches Some(s) && s@ == self@->String_0),
            !(self@ is String) ==> r is None,
    {
        match self {
            Value::String(s) => Some(s.as_str()),
            _ => None,
        }
    }

    /// The number's text, for a reader that wants it as a float.
    pub fn number_text(&self) -> (r: Option<&str>)
        ensures
            (self@ is Number) ==> (r matches Some(s) && s@ == self@->Number_0),
            !(self@ is Number) ==> r is None,
    {
        match self {
            Value::Number(t) => Some(t.as_str()),
            _ => None,
        }
    }
}

/// An optional `+` or `-` taken off the front.
pub open spec fn unsigned_part(s: Seq<char>) -> Seq<char> {
    if s.len() > 0 && (s[0] == '+' || s[0] == '-') {
        s.drop_first()
    } else {
        s
    }
}

/// Digits with at most one decimal point, and at least one digit.
pub open spec fn is_mantissa(m: Seq<char>) -> bool {
    match first_index(m, '.') {
        None => m.len() > 0 && all_digits(m),
        Some(p) => m.len() > 1 && all_digits(m.take(p)) && all_digits(m.skip(p + 1)),
    }
}

/// What `f64`'s parser accepts, as its documentation states the grammar, read
/// case-insensitively: an optional sign, then `inf`, `infinity`, `nan`, or
/// digits with at most one point and an optional exponent of signed digits.
pub open spec fn is_float_text(s: Seq<char>) -> bool {
    let u = unsigned_part(ascii_lowercase(s));
    ||| u == "inf"@
    ||| u == "infinity"@
    ||| u == "nan"@
    ||| match first_index(u, 'e') {
        None => is_mantissa(u),
        Some(p) => is_mantissa(u.take(p)) && {
            let x = unsigned_part(u.skip(p + 1));
            x.len() > 0 && all_digits(x)
        },
    }
}

/// The value of a run of hexadecimal digits, or `None` on anything else.
pub open spec fn hex_value(h: Seq<char>) -> Option<int>
    decreases h.len(),
{
    if h.len() == 0 {
        Some(0)
    } else {
        let c = h.last();
        let d: int = if '0' <= c && c <= '9' {
            c as int - '0' as int
        } else if 'a' <= c && c <= 'f' {
            c as int - 'a' as int + 10
        } else if 'A' <= c && c <= 'F' {
            c as int - 'A' as int + 10
        } else {
            -1
        };
        match hex_value(h.drop_last()) {
            Some(v) => if d >= 0 {
                Some(v * 16 + d)
            } else {
                None
            },
            None => None,
        }
    }
}

/// What `u32::from_str_radix(h, 16)` accepts: an optional `+`, then one or
/// more hexadecimal digits.
pub open spec fn hex_text(h: Seq<char>) -> Option<int> {
    let body = if h.len() > 0 && h[0] == '+' {
        h.drop_first()
    } else {
        h
    };
    if body.len() == 0 {
        None
    } else {
        hex_value(body)
    }
}

/// A code point that is a `char`: at most `0x10FFFF`, and not a surrogate.
pub open spec fn is_scalar(code: int) -> bool {
    (0 <= code < 0xD800) || (0xE000 <= code <= 0x10FFFF)
}

/// Whitespace skipped from `i`.
pub open spec fn ws_end(s: Seq<char>, i: int) -> int
    decreases s.len() - i,
{
    if 0 <= i < s.len() && is_whitespace(s[i]) {
        ws_end(s, i + 1)
    } else {
        i
    }
}

/// The end of a bare token starting at `i`: up to a comma, a closing brace or
/// whitespace.
pub open spec fn token_end(s: Seq<char>, i: int) -> int
    decreases s.len() - i,
{
    if 0 <= i < s.len() && s[i] != ',' && s[i] != '}' && !is_whitespace(s[i]) {
        token_end(s, i + 1)
    } else {
        i
    }
}

/// A string's body from `i`, after the opening quote, with `acc` read so far:
/// the text and the position after the closing quote, or what went wrong.
pub open spec fn string_body(s: Seq<char>, i: int, acc: Seq<char>) -> Result<(Seq<char>, int), Seq<char>>
    decreases s.len() - i,
{
    if i < 0 || i >= s.len() {
        Err("unterminated string"@)
    } else if s[i] == '"' {
        Ok((acc, i + 1))
    } else if s[i] != '\\' {
        string_body(s, i + 1, acc.push(s[i]))
    } else if i + 1 >= s.len() {
        Err("unterminated escape"@)
    } else {
        let c = s[i + 1];
        if c == 'n' {
            string_body(s, i + 2, acc.push('\n'))
        } else if c == 'r' {
            string_body(s, i + 2, acc.push('\r'))
        } else if c == 't' {
            string_body(s, i + 2, acc.push('\t'))
        } else if c == 'u' {
            let end = if i + 6 <= s.len() {
                i + 6
            } else {
                s.len() as int
            };
            let hex = s.subrange(i + 2, end);
            match hex_text(hex) {
                Some(code) => if is_scalar(code) {
                    string_body(s, end, acc.push((code as u32) as char))
                } else {
                    Err("bad escape \\u"@ + hex)
                },
                None => Err("bad escape \\u"@ + hex),
            }
        } else {
            string_body(s, i + 2, acc.push(c))
        }
    }
}

/// A quoted string at `i`.
pub open spec fn string_at(s: Seq<char>, i: int) -> Result<(Seq<char>, int), Seq<char>> {
    if 0 <= i < s.len() && s[i] == '"' {
        string_body(s, i + 1, Seq::empty())
    } else {
        Err("expected a quoted string"@)
    }
}

/// A key or a token as an error message shows it: as `{:?}` writes it.
pub open spec fn shown(key: Seq<char>) -> Seq<char> {
    debug_quoted(key)
}

/// The value at `i`, belonging to `key`, and the position after it.
pub open spec fn value_at(s: Seq<char>, i: int, key: Seq<char>) -> Result<(Parsed, int), Seq<char>> {
    if i < 0 || i >= s.len() {
        Err(shown(key) + ": value is missing"@)
    } else if s[i] == '"' {
        match string_at(s, i) {
            Ok((t, j)) => Ok((Parsed::String(t), j)),
            Err(e) => Err(e),
        }
    } else if s[i] == '{' || s[i] == '[' {
        Err(shown(key) + ": nested values are not supported"@)
    } else {
        let j = token_end(s, i);
        let t = s.subrange(i, j);
        if t == "true"@ {
            Ok((Parsed::Bool(true), j))
        } else if t == "false"@ {
            Ok((Parsed::Bool(false), j))
        } else if t == "null"@ {
            Ok((Parsed::Null, j))
        } else if is_float_text(t) {
            Ok((Parsed::Number(t), j))
        } else {
            Err(shown(key) + ": "@ + shown(t) + " is not a number"@)
        }
    }
}

/// The object closed by the brace at `q`: its members, when nothing but
/// whitespace follows the brace.
pub open spec fn closed_at(s: Seq<char>, q: int, acc: Map<Seq<char>, Parsed>) -> Result<
    Map<Seq<char>, Parsed>,
    Seq<char>,
> {
    if ws_end(s, q + 1) >= s.len() {
        Ok(acc)
    } else {
        Err("text after the object"@)
    }
}

/// The members from `i` on, added to `acc`; `after_comma` when a comma was
/// just read, where a closing brace is an error.
pub open spec fn members_from(
    s: Seq<char>,
    i: int,
    after_comma: bool,
    acc: Map<Seq<char>, Parsed>,
) -> Result<Map<Seq<char>, Parsed>, Seq<char>>
    decreases s.len() - i,
{
    let p = ws_end(s, i);
    if 0 <= p < s.len() && s[p] == '}' {
        if after_comma {
            Err("trailing comma"@)
        } else {
            closed_at(s, p, acc)
        }
    } else if p < 0 || p >= s.len() {
        Err("unterminated object"@)
    } else {
        match string_at(s, p) {
            Err(e) => Err(e),
            Ok((key, j)) => {
                let j = ws_end(s, j);
                if 0 <= j < s.len() && s[j] == ':' {
                    match value_at(s, ws_end(s, j + 1), key) {
                        Err(e) => Err(e),
                        Ok((v, m)) => {
                            let m = ws_end(s, m);
                            let acc = acc.insert(key, v);
                            if 0 <= m < s.len() && s[m] == ',' {
                                if m + 1 > i {
                                    members_from(s, m + 1, true, acc)
                                } else {
                                    Err("expected ',' or '}'"@)
                                }
                            } else if 0 <= m < s.len() && s[m] == '}' {
                                closed_at(s, m, acc)
                            } else {
                                Err("expected ',' or '}'"@)
                            }
                        },
                    }
                } else {
                    Err("expected ':' after "@ + shown(key))
                }
            },
        }
    }
}

/// A flat object: an opening brace after any whitespace, then its members,
/// then nothing but whitespace after the closing brace.
pub open spec fn object_at(s: Seq<char>) -> Result<Map<Seq<char>, Parsed>, Seq<char>> {
    let i = ws_end(s, 0);
    if 0 <= i < s.len() && s[i] == '{' {
        members_from(s, i + 1, false, Map::empty())
    } else {
        Err("expected an object"@)
    }
}

/// `char::from_u32`: the `char` with code point `code`, or `None` when
/// `code` is not one.
///
/// Trusted: std documents `from_u32` as returning `None` exactly when the
/// value is not a valid `char` (a surrogate, or past `0x10FFFF`).
#[verifier::external_body]
fn char_from_u32(code: u32) -> (r: Option<char>)
    ensures
        r == (if is_scalar(code as int) {
            Some(code as char)
        } else {
            None
        }),
{
    char::from_u32(code)
}

fn ws_skip(v: &Vec<char>, i: usize) -> (r: usize)
    requires
        i <= v.len(),
    ensures
        r == ws_end(v@, i as int),
        i <= r <= v.len(),
{
    let mut j = i;
    while j < v.len() && is_whitespace_char(v[j])
        invariant
            i <= j <= v.len(),
            ws_end(v@, i as int) == ws_end(v@, j as int),
        decreases v.len() - j,
    {
        j = j + 1;
    }
    j
}

fn token_scan(v: &Vec<char>, i: usize) -> (r: usize)
    requires
        i <= v.len(),
    ensures
        r == token_end(v@, i as int),
        i <= r <= v.len(),
{
    let mut j = i;
    while j < v.len() && v[j] != ',' && v[j] != '}' && !is_whitespace_char(v[j])
        invariant
            i <= j <= v.len(),
            token_end(v@, i as int) == token_end(v@, j as int),
        decreases v.len() - j,
    {
        j = j + 1;
    }
    j
}

fn hex_digit_value(c: char) -> (r: Option<u32>)
    ensures
        ('0' <= c && c <= '9') ==> r == Some((c as int - '0' as int) as u32),
        ('a' <= c && c <= 'f') ==> r == Some((c as int - 'a' as int + 10) as u32),
        ('A' <= c && c <= 'F') ==> r == Some((c as int - 'A' as int + 10) as u32),
        !(('0' <= c && c <= '9') || ('a' <= c && c <= 'f') || ('A' <= c && c <= 'F')) ==> r is None,
{
    if '0' <= c && c <= '9' {
        Some(c as u32 - '0' as u32)
    } else if 'a' <= c && c <= 'f' {
        Some(c as u32 - 'a' as u32 + 10)
    } else if 'A' <= c && c <= 'F' {
        Some(c as u32 - 'A' as u32 + 10)
    } else {
        None
    }
}

/// The value of the hex text `v[lo..hi]`, at most four characters.
fn hex_parse(v: &Vec<char>, lo: usize, hi: usize) -> (r: Option<u32>)
    requires
        lo <= hi <= v.len(),
        hi - lo <= 4,
    ensures
        r matches Some(x) ==> hex_text(v@.subrange(lo as int, hi as int)) == Some(x as int),
        r is None ==> hex_text(v@.subrange(lo as int, hi as int)) is None,
{
    let ghost h = v@.subrange(lo as int, hi as int);
    let mut start = lo;
    if start < hi && v[start] == '+' {
        start = start + 1;
    }
    let ghost body = v@.subrange(start as int, hi as int);
    proof {
        if lo < hi && v@[lo as int] == '+' {
            assert(body =~= h.drop_first());
        } else {
            assert(body =~= h);
        }
    }
    if start == hi {
        return None;
    }
    proof {
        assert(hex_text(h) == hex_value(body));
    }
    let mut value: u32 = 0;
    let mut j = start;
    while j < hi
        invariant
            start <= j <= hi <= v.len(),
            start < hi,
            hex_text(v@.subrange(lo as int, hi as int)) == hex_value(v@.subrange(start as int, hi as int)),
            hi - start <= 4,
            hex_value(v@.subrange(start as int, j as int)) == Some(value as int),
            value < pow16((j - start) as nat),
        decreases hi - j,
    {
        let d = hex_digit_value(v[j]);
        proof {
            assert(v@.subrange(start as int, j + 1).drop_last() =~= v@.subrange(
                start as int,
                j as int,
            ));
            assert(v@.subrange(start as int, j + 1).last() == v@[j as int]);
        }
        match d {
            Some(x) => {
                proof {
                    lemma_pow16_step((j - start) as nat);
                    assert(j - start < 4);
                    lemma_pow16_small((j - start) as nat);
                }
                value = value * 16 + x;
            },
            None => {
                proof {
                    assert(v@.subrange(start as int, hi as int).take(j - start + 1) =~= v@.subrange(
                        start as int,
                        j + 1,
                    ));
                    lemma_hex_value_fails(v@.subrange(start as int, hi as int), (j - start) as int);
                }
                return None;
            },
        }
        j = j + 1;
    }
    Some(value)
}

/// `16^k`.
pub open spec fn pow16(k: nat) -> int
    decreases k,
{
    if k == 0 {
        1
    } else {
        16 * pow16((k - 1) as nat)
    }
}

proof fn lemma_pow16_step(k: nat)
    ensures
        pow16(k + 1) == 16 * pow16(k),
{
}

proof fn lemma_pow16_small(k: nat)
    requires
        k < 4,
    ensures
        pow16(k) <= 4096,
{
    reveal_with_fuel(pow16, 4);
}

/// A prefix that fails to read as hex makes the whole run fail.
proof fn lemma_hex_value_fails(h: Seq<char>, n: int)
    requires
        0 <= n < h.len(),
        hex_value(h.take(n + 1)) is None,
    ensures
        hex_value(h) is None,
    decreases h.len(),
{
    if n + 1 < h.len() {
        assert(h.drop_last().take(n + 1) =~= h.take(n + 1));
        lemma_hex_value_fails(h.drop_last(), n);
    } else {
        assert(h.take(n + 1) =~= h);
    }
}


/// Whether `v[lo..hi]` is a mantissa: digits with at most one point, and at
/// least one digit.
fn mantissa_in(v: &Vec<char>, lo: usize, hi: usize) -> (r: bool)
    requires
        lo <= hi <= v.len(),
    ensures
        r == is_mantissa(v@.subrange(lo as int, hi as int)),
{
    let ghost m = v@.subrange(lo as int, hi as int);
    match find_char(v, lo, hi, '.') {
        None => hi > lo && all_digits_in(v, lo, hi),
        Some(p) => {
            proof {
                assert(m.take(p - lo) =~= v@.subrange(lo as int, p as int));
                assert(m.skip(p - lo + 1) =~= v@.subrange(p + 1, hi as int));
            }
            hi - lo > 1 && all_digits_in(v, lo, p) && all_digits_in(v, p + 1, hi)
        },
    }
}

/// Whether `v[lo..hi]` is text `f64`'s parser accepts.
pub fn is_float_in(v: &Vec<char>, lo: usize, hi: usize) -> (r: bool)
    requires
        lo <= hi <= v.len(),
    ensures
        r == is_float_text(v@.subrange(lo as int, hi as int)),
{
    let w = lowercase_of(v, lo, hi);
    let ghost l = ascii_lowercase(v@.subrange(lo as int, hi as int));
    let start: usize = if w.len() > 0 && (w[0] == '+' || w[0] == '-') {
        1
    } else {
        0
    };
    let u = string_of(&w, start, w.len());
    let uv = chars_of(u.as_str());
    proof {
        assert(uv@ == unsigned_part(l)) by {
            if start == 1 {
                assert(l.drop_first() =~= w@.subrange(1, w.len() as int));
            } else {
                assert(l =~= w@.subrange(0, w.len() as int));
            }
        }
    }
    if spells(&uv, "inf") || spells(&uv, "infinity") || spells(&uv, "nan") {
        return true;
    }
    let n = uv.len();
    match find_char(&uv, 0, n, 'e') {
        None => {
            proof {
                assert(uv@.subrange(0, n as int) =~= uv@);
            }
            let r = mantissa_in(&uv, 0, n);
            proof {
                assert(uv@.subrange(0, n as int) =~= uv@);
            }
            r
        },
        Some(p) => {
            proof {
                assert(uv@.subrange(0, n as int) =~= uv@);
                assert(uv@.take(p as int) =~= uv@.subrange(0, p as int));
            }
            if !mantissa_in(&uv, 0, p) {
                return false;
            }
            let mut q = p + 1;
            if q < n && (uv[q] == '+' || uv[q] == '-') {
                q = q + 1;
            }
            proof {
                let x = uv@.skip(p + 1);
                if p + 1 < n && (uv@[p + 1] == '+' || uv@[p + 1] == '-') {
                    assert(unsigned_part(x) =~= uv@.subrange(q as int, n as int));
                } else {
                    assert(unsigned_part(x) =~= uv@.subrange(q as int, n as int));
                }
            }
            q < n && all_digits_in(&uv, q, n)
        },
    }
}

/// `key` appended as `{:?}` writes it, as an error message shows a key.
fn push_shown(out: &mut String, key: &Vec<char>)
    ensures
        final(out)@ == old(out)@ + shown(key@),
{
    let k = string_of(key, 0, key.len());
    proof {
        assert(key@.subrange(0, key.len() as int) =~= key@);
    }
    let quoted = debug_text(k.as_str());
    push_text(out, quoted.as_str());
}

/// A message made of one literal.
fn message(text: &str) -> (m: String)
    ensures
        m@ == text@,
{
    let mut m = String::new();
    push_text(&mut m, text);
    proof {
        assert(m@ =~= text@);
    }
    m
}

/// The quoted string at `i`, and the position after it.
fn string_from(v: &Vec<char>, i: usize) -> (r: Result<(String, usize), String>)
    requires
        i <= v.len(),
    ensures
        match string_at(v@, i as int) {
            Ok((t, j)) => r matches Ok((st, rj)) && st@ == t && rj == j && i < j <= v.len(),
            Err(e) => r matches Err(m) && m@ == e,
        },
{
    if i >= v.len() || v[i] != '"' {
        return Err(message("expected a quoted string"));
    }
    let mut out = String::new();
    let mut j = i + 1;
    loop
        invariant
            i < j <= v.len(),
            v[i as int] == '"',
            string_at(v@, i as int) == string_body(v@, j as int, out@),
        decreases v.len() - j,
    {
        if j >= v.len() {
            return Err(message("unterminated string"));
        }
        let c = v[j];
        if c == '"' {
            return Ok((out, j + 1));
        }
        if c != '\\' {
            push_char(&mut out, c);
            j = j + 1;
        } else if j + 1 >= v.len() {
            return Err(message("unterminated escape"));
        } else {
            let e = v[j + 1];
            if e == 'n' {
                push_char(&mut out, '\n');
                j = j + 2;
            } else if e == 'r' {
                push_char(&mut out, '\r');
                j = j + 2;
            } else if e == 't' {
                push_char(&mut out, '\t');
                j = j + 2;
            } else if e == 'u' {
                let end: usize = if v.len() - j >= 6 {
                    j + 6
                } else {
                    v.len()
                };
                let code = hex_parse(v, j + 2, end);
                let ch = match code {
                    Some(x) => char_from_u32(x),
                    None => None,
                };
                match ch {
                    Some(c) => {
                        push_char(&mut out, c);
                        j = end;
                    },
                    None => {
                        let mut m = message("bad escape \\u");
                        let hex = string_of(v, j + 2, end);
                        push_text(&mut m, hex.as_str());
                        return Err(m);
                    },
                }
            } else {
                push_char(&mut out, e);
                j = j + 2;
            }
        }
    }
}

/// The value at `i`, belonging to `key`, and the position after it.
fn value_from(v: &Vec<char>, i: usize, key: &Vec<char>) -> (r: Result<(Value, usize), String>)
    requires
        i <= v.len(),
    ensures
        match value_at(v@, i as int, key@) {
            Ok((p, j)) => r matches Ok((x, rj)) && x@ == p && rj == j && i <= j <= v.len(),
            Err(e) => r matches Err(m) && m@ == e,
        },
{
    if i >= v.len() {
        let mut m = String::new();
        push_shown(&mut m, key);
        push_text(&mut m, ": value is missing");
        return Err(m);
    }
    let c = v[i];
    if c == '"' {
        return match string_from(v, i) {
            Ok((t, j)) => Ok((Value::String(t), j)),
            Err(e) => Err(e),
        };
    }
    if c == '{' || c == '[' {
        let mut m = String::new();
        push_shown(&mut m, key);
        push_text(&mut m, ": nested values are not supported");
        return Err(m);
    }
    let j = token_scan(v, i);
    let t = string_of(v, i, j);
    let tv = chars_of(t.as_str());
    if spells(&tv, "true") {
        Ok((Value::Bool(true), j))
    } else if spells(&tv, "false") {
        Ok((Value::Bool(false), j))
    } else if spells(&tv, "null") {
        Ok((Value::Null, j))
    } else if is_float_in(v, i, j) {
        Ok((Value::Number(t), j))
    } else {
        let mut m = String::new();
        push_shown(&mut m, key);
        push_text(&mut m, ": ");
        push_shown(&mut m, &tv);
        push_text(&mut m, " is not a number");
        Err(m)
    }
}

/// Parses a flat JSON object.
///
/// Flat is the whole contract: a nested object or an array is an error rather
/// than something quietly skipped, because silently ignoring a parameter the
/// caller meant is exactly the failure this format exists to avoid. A
/// trailing comma is an error too: accepting what JSON forbids would make
/// this "JSON plus"; so is anything but whitespace after the closing brace.
/// A key given twice keeps its last value.
pub fn parse(text: &str) -> (r: Result<Table<Value>, String>)
    ensures
        match object_at(text@) {
            Ok(m) => r matches Ok(t) && contents(t.listing()) == m && t.wf(),
            Err(e) => r matches Err(msg) && msg@ == e,
        },
{
    let v = chars_of(text);
    let i = ws_skip(&v, 0);
    if i >= v.len() || v[i] != '{' {
        return Err(message("expected an object"));
    }
    let mut out: Table<Value> = Table::new();
    let mut after_comma = false;
    let mut at = i + 1;
    proof {
        assert(contents(out.listing()) =~= Map::<Seq<char>, Parsed>::empty());
    }
    loop
        invariant
            at <= v.len(),
            v@ == text@,
            out.wf(),
            object_at(text@) == members_from(v@, at as int, after_comma, contents(out.listing())),
        decreases v.len() - at,
    {
        let p = ws_skip(&v, at);
        if p < v.len() && v[p] == '}' {
            if after_comma {
                return Err(message("trailing comma"));
            }
            if ws_skip(&v, p + 1) < v.len() {
                return Err(message("text after the object"));
            }
            return Ok(out);
        }
        if p >= v.len() {
            return Err(message("unterminated object"));
        }
        let (key, j) = match string_from(&v, p) {
            Ok(kj) => kj,
            Err(e) => {
                return Err(e);
            },
        };
        let kv = chars_of(key.as_str());
        let j = ws_skip(&v, j);
        if !(j < v.len() && v[j] == ':') {
            let mut m = message("expected ':' after ");
            push_shown(&mut m, &kv);
            return Err(m);
        }
        let k = ws_skip(&v, j + 1);
        let (value, m) = match value_from(&v, k, &kv) {
            Ok(vm) => vm,
            Err(e) => {
                return Err(e);
            },
        };
        let m = ws_skip(&v, m);
        out.insert(key.as_str(), value);
        if m < v.len() && v[m] == ',' {
            after_comma = true;
            at = m + 1;
        } else if m < v.len() && v[m] == '}' {
            if ws_skip(&v, m + 1) < v.len() {
                return Err(message("text after the object"));
            }
            return Ok(out);
        } else {
            return Err(message("expected ',' or '}'"));
        }
    }
}


/// One escaped character reads back as the character.
proof fn lemma_escaped_reads_back(s: Seq<char>, i: int, acc: Seq<char>, c: char)
    requires
        0 <= i,
        i + escaped(c).len() <= s.len(),
        s.subrange(i, i + escaped(c).len()) == escaped(c),
    ensures
        string_body(s, i, acc) == string_body(s, i + escaped(c).len(), acc.push(c)),
{
    let e = escaped(c);
    assert forall|k: int| 0 <= k < e.len() implies s[i + k] == e[k] by {
        assert(s.subrange(i, i + e.len())[k] == s[i + k]);
    }
    if c == '"' || c == '\\' || c == '\n' || c == '\r' || c == '\t' {
        assert(s[i] == '\\');
        assert(s[i + 1] == e[1]);
    } else if (c as u32) < 32 {
        let v = (c as u32) as int;
        let hex = s.subrange(i + 2, i + 6);
        assert(hex =~= seq!['0', '0', hex_digit(v / 16), hex_digit(v % 16)]);
        assert(s[i] == '\\');
        assert(s[i + 1] == 'u');
        let h0 = hex_digit(v % 16);
        let h1 = hex_digit(v / 16);
        assert(h1 as int == v / 16 + '0' as int);
        if v % 16 < 10 {
            assert(h0 as int == v % 16 + '0' as int);
        } else {
            assert(h0 as int == v % 16 - 10 + 'a' as int);
        }
        assert(hex.drop_last() =~= seq!['0', '0', h1]);
        assert(hex.drop_last().drop_last() =~= seq!['0', '0']);
        assert(hex.drop_last().drop_last().drop_last() =~= seq!['0']);
        assert(hex.drop_last().drop_last().drop_last().drop_last() =~= Seq::<char>::empty());
        reveal_with_fuel(hex_value, 5);
        assert(hex_value(hex) == Some(v));
        assert(hex_text(hex) == Some(v));
        assert(((v as u32) as char) == c);
    } else {
        assert(e =~= seq![c]);
        assert(s.subrange(i, i + 1)[0] == s[i]);
        assert(s[i] == c);
    }
}

/// A run of escaped characters reads back as the run.
proof fn lemma_escaped_all_reads_back(s: Seq<char>, i: int, acc: Seq<char>, t: Seq<char>)
    requires
        0 <= i,
        i + escaped_all(t).len() <= s.len(),
        s.subrange(i, i + escaped_all(t).len()) == escaped_all(t),
    ensures
        string_body(s, i, acc) == string_body(s, i + escaped_all(t).len(), acc + t),
    decreases t.len(),
{
    if t.len() == 0 {
        assert(acc + t =~= acc);
    } else {
        let u = t.drop_last();
        let c = t.last();
        let n = escaped_all(u).len() as int;
        assert(escaped_all(t) == escaped_all(u) + escaped(c));
        assert(s.subrange(i, i + n) =~= escaped_all(t).subrange(0, n));
        assert(escaped_all(t).subrange(0, n) =~= escaped_all(u));
        lemma_escaped_all_reads_back(s, i, acc, u);
        let m = n + escaped(c).len();
        assert(s.subrange(i + n, i + m) =~= escaped_all(t).subrange(n, m));
        assert(escaped_all(t).subrange(n, m) =~= escaped(c));
        lemma_escaped_reads_back(s, i + n, acc + u, c);
        assert((acc + u).push(c) =~= acc + t);
    }
}

/// A string written by [`quote`] reads back as itself: every character that
/// had to be escaped is unescaped to what it was.
pub proof fn law_a_quoted_string_reads_back(t: Seq<char>)
    ensures
        string_at(quoted(t), 0) == Ok::<(Seq<char>, int), Seq<char>>((t, quoted(t).len() as int)),
{
    let s = quoted(t);
    let n = escaped_all(t).len() as int;
    assert(s[0] == '"');
    assert(s.subrange(1, 1 + n) =~= escaped_all(t));
    lemma_escaped_all_reads_back(s, 1, Seq::empty(), t);
    assert(Seq::<char>::empty() + t =~= t);
    assert(s[1 + n] == '"');
}

/// The digits of a number are digits, and there is at least one.
proof fn lemma_decimal_is_digits(n: nat)
    ensures
        decimal(n).len() > 0,
        all_digits(decimal(n)),
    decreases n,
{
    if n >= 10 {
        lemma_decimal_is_digits(n / 10);
        let d = decimal(n / 10);
        let e = d.push(crate::text::digit_char(n % 10));
        assert forall|k: int| 0 <= k < e.len() implies is_digit(#[trigger] e[k]) by {
            if k < d.len() {
                assert(e[k] == d[k]);
            }
        }
    }
}

/// A run of digits holds no character other than digits.
proof fn lemma_digits_hold_no(s: Seq<char>, c: char)
    requires
        all_digits(s),
        !is_digit(c),
    ensures
        first_index(s, c) is None,
    decreases s.len(),
{
    if s.len() > 0 {
        assert(is_digit(s[0]));
        assert forall|k: int| 0 <= k < s.drop_first().len() implies is_digit(
            #[trigger] s.drop_first()[k],
        ) by {
            assert(s.drop_first()[k] == s[k + 1]);
        }
        lemma_digits_hold_no(s.drop_first(), c);
    }
}

/// An integer as [`Object::integer`] writes it is a number the reader
/// accepts: what is written as a number reads back as one.
pub proof fn law_an_integer_reads_back_as_a_number(v: int)
    ensures
        is_float_text(signed_decimal(v)),
{
    let n: nat = if v < 0 {
        (-v) as nat
    } else {
        v as nat
    };
    lemma_decimal_is_digits(n);
    let d = decimal(n);
    let t = signed_decimal(v);
    let l = ascii_lowercase(t);
    assert(l =~= t) by {
        assert forall|k: int| 0 <= k < t.len() implies l[k] == t[k] by {
            if v < 0 && k == 0 {
            } else {
                let j = if v < 0 {
                    k - 1
                } else {
                    k
                };
                assert(t[k] == d[j]);
                assert(is_digit(d[j]));
            }
        }
    }
    assert(unsigned_part(l) =~= d) by {
        if v >= 0 {
            assert(is_digit(d[0]));
        }
    }
    lemma_digits_hold_no(d, 'e');
    lemma_digits_hold_no(d, '.');
}
} // verus!
