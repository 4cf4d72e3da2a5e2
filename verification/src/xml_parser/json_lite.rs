//! Just enough JSON to read Kdenlive's marker and guide properties.
//!
//! Kdenlive stores markers and guides as a JSON array inside an XML property.
//! Both are flat arrays of objects with scalar fields, so a small scanner is
//! enough. It is not a general JSON parser: nested arrays and objects inside
//! an element are rejected rather than silently mis-scanned.
//!
//! A number is kept as the text it was written as; it is accepted when
//! `str::parse::<f64>` would accept it.

use vstd::prelude::*;

use crate::text::{chars_of, is_digit, is_white, is_whitespace, str_same, string_from_chars};

verus! {

/// One `{...}` object, as key/value pairs with quotes and escapes resolved.
pub struct Object {
    fields: Vec<(String, Value)>,
}

pub enum Value {
    Str(String),
    /// The text of a number.
    Num(String),
    Other,
}

pub enum ValueView {
    Str(Seq<char>),
    Num(Seq<char>),
    Other,
}

impl View for Value {
    type V = ValueView;

    open spec fn view(&self) -> ValueView {
        match self {
            Value::Str(s) => ValueView::Str(s@),
            Value::Num(s) => ValueView::Num(s@),
            Value::Other => ValueView::Other,
        }
    }
}

pub open spec fn field_views(fields: Seq<(String, Value)>) -> Seq<(Seq<char>, ValueView)> {
    fields.map_values(|f: (String, Value)| (f.0@, f.1@))
}

impl View for Object {
    type V = Seq<(Seq<char>, ValueView)>;

    closed spec fn view(&self) -> Seq<(Seq<char>, ValueView)> {
        field_views(self.fields@)
    }
}

/// The value of the first field named `key`.
pub open spec fn first_field(fields: Seq<(Seq<char>, ValueView)>, key: Seq<char>) -> Option<ValueView>
    decreases fields.len(),
{
    if fields.len() == 0 {
        None
    } else if fields[0].0 == key {
        Some(fields[0].1)
    } else {
        first_field(fields.drop_first(), key)
    }
}

/// The string in the first field named `key`, if it holds a string.
pub open spec fn str_field(fields: Seq<(Seq<char>, ValueView)>, key: Seq<char>) -> Option<Seq<char>> {
    match first_field(fields, key) {
        Some(ValueView::Str(s)) => Some(s),
        _ => None,
    }
}

/// The number text in the first field named `key`, if it holds a number.
pub open spec fn num_field(fields: Seq<(Seq<char>, ValueView)>, key: Seq<char>) -> Option<Seq<char>> {
    match first_field(fields, key) {
        Some(ValueView::Num(s)) => Some(s),
        _ => None,
    }
}

impl Object {
    fn first_index(&self, key: &str) -> (r: Option<usize>)
        ensures
            r matches Some(i) ==> i < self.fields@.len() && first_field(self@, key@) == Some(self.fields@[i as int].1@),
            r is None ==> first_field(self@, key@) is None,
    {
        let ghost fv = self@;
        let mut i: usize = 0;
        assert(fv.skip(0) =~= fv);
        while i < self.fields.len()
            invariant
                fv == field_views(self.fields@),
                i <= self.fields.len(),
                first_field(fv, key@) == first_field(fv.skip(i as int), key@),
            decreases self.fields.len() - i,
        {
            assert(fv.skip(i as int)[0] == (self.fields@[i as int].0@, self.fields@[i as int].1@));
            assert(fv.skip(i as int).drop_first() =~= fv.skip(i + 1));
            if str_same(self.fields[i].0.as_str(), key) {
                return Some(i);
            }
            i = i + 1;
        }
        None
    }

    pub fn str(&self, key: &str) -> (r: Option<&str>)
        ensures
            r matches Some(s) ==> str_field(self@, key@) == Some(s@),
            r is None ==> str_field(self@, key@) is None,
    {
        match self.first_index(key) {
            Some(i) => match &self.fields[i].1 {
                Value::Str(s) => Some(s.as_str()),
                _ => None,
            },
            None => None,
        }
    }

    /// The text of the number in field `key`.
    pub fn num(&self, key: &str) -> (r: Option<&str>)
        ensures
            r matches Some(s) ==> num_field(self@, key@) == Some(s@),
            r is None ==> num_field(self@, key@) is None,
    {
        match self.first_index(key) {
            Some(i) => match &self.fields[i].1 {
                Value::Num(s) => Some(s.as_str()),
                _ => None,
            },
            None => None,
        }
    }
}

// ---------------------------------------------------------------------------
// Character classes.

/// Unicode `Alphabetic`, which `char::is_alphabetic` tests; a property too
/// large to restate here.
pub uninterp spec fn alphabetic(c: char) -> bool;

/// `char::is_alphabetic`. Claimed: the answer is `alphabetic(c)`, a function
/// of `c` alone.
#[verifier::external_body]
fn is_alphabetic(c: char) -> (r: bool)
    ensures
        r == alphabetic(c),
{
    c.is_alphabetic()
}

/// The value of a hexadecimal digit, as `char::to_digit(16)` gives it.
pub open spec fn hex_value(c: char) -> Option<nat> {
    if '0' <= c && c <= '9' {
        Some(((c as u32) - ('0' as u32)) as nat)
    } else if 'a' <= c && c <= 'f' {
        Some(((c as u32) - ('a' as u32) + 10) as nat)
    } else if 'A' <= c && c <= 'F' {
        Some(((c as u32) - ('A' as u32) + 10) as nat)
    } else {
        None
    }
}

fn hex_digit(c: char) -> (r: Option<u32>)
    ensures
        r matches Some(v) ==> hex_value(c) == Some(v as nat),
        r is None ==> hex_value(c) is None,
{
    if '0' <= c && c <= '9' {
        Some(c as u32 - '0' as u32)
    } else if 'a' <= c && c <= 'f' {
        Some(c as u32 - 'a' as u32 + 10)
    } else if 'A' <= c && c <= 'F' {
        Some(c as u32 - 'A' as u32 + 10)
    } else {
        None
    }
}

/// Whether `code` is a Unicode scalar value, which is when
/// `char::from_u32` gives a character.
pub open spec fn is_scalar(code: nat) -> bool {
    code < 0xD800 || (0xE000 <= code && code <= 0x10FFFF)
}

/// `char::from_u32`: the character with code point `code`, when `code` is a
/// Unicode scalar value. Claimed: `Some` exactly for scalar values, holding
/// the character whose code is `code`.
#[verifier::external_body]
fn char_from_code(code: u32) -> (r: Option<char>)
    ensures
        r matches Some(c) ==> is_scalar(code as nat) && c as u32 == code && c == (code as nat) as char,
        r is None ==> !is_scalar(code as nat),
{
    char::from_u32(code)
}

/// Whether `raw` is text `str::parse::<f64>` accepts, for text made of
/// digits, signs, points and exponent marks: an optional sign, digits with at
/// most one point and at least one digit, then optionally `e` or `E`, an
/// optional sign and at least one digit.
pub open spec fn float_syntax(raw: Seq<char>) -> bool {
    let a = if raw.len() > 0 && (raw[0] == '+' || raw[0] == '-') { 1int } else { 0int };
    let b = a + digit_run(raw.skip(a));
    let c = if b < raw.len() && raw[b] == '.' { b + 1 } else { b };
    let d = c + digit_run(raw.skip(c));
    let mantissa_digits = (b - a) + (d - c);
    if mantissa_digits == 0 {
        false
    } else if d == raw.len() {
        true
    } else if raw[d] == 'e' || raw[d] == 'E' {
        let e = if d + 1 < raw.len() && (raw[d + 1] == '+' || raw[d + 1] == '-') { d + 2 } else { d + 1 };
        let f = e + digit_run(raw.skip(e));
        f > e && f == raw.len()
    } else {
        false
    }
}

/// How many leading characters are decimal digits.
pub open spec fn digit_run(s: Seq<char>) -> nat
    decreases s.len(),
{
    if s.len() == 0 || !is_digit(s[0]) {
        0
    } else {
        1 + digit_run(s.drop_first())
    }
}

proof fn lemma_digit_run_le(s: Seq<char>)
    ensures
        digit_run(s) <= s.len(),
    decreases s.len(),
{
    if s.len() > 0 && is_digit(s[0]) {
        lemma_digit_run_le(s.drop_first());
    }
}

fn digits_at(v: &Vec<char>, from: usize) -> (n: usize)
    requires
        from <= v.len(),
    ensures
        n == digit_run(v@.skip(from as int)),
        from + n <= v.len(),
{
    let ghost t = v@.skip(from as int);
    let mut n: usize = 0;
    assert(t.skip(0) =~= t);
    while from + n < v.len() && '0' <= v[from + n] && v[from + n] <= '9'
        invariant
            from + n <= v.len(),
            t == v@.skip(from as int),
            digit_run(t) == n + digit_run(t.skip(n as int)),
        decreases v.len() - from - n,
    {
        assert(t.skip(n as int)[0] == v@[from + n]);
        assert(t.skip(n as int).drop_first() =~= t.skip(n + 1));
        n = n + 1;
    }
    if from + n < v.len() {
        assert(t.skip(n as int)[0] == v@[from + n]);
    }
    n
}

fn is_float_text(v: &Vec<char>) -> (r: bool)
    ensures
        r == float_syntax(v@),
{
    let len = v.len();
    let a: usize = if len > 0 && (v[0] == '+' || v[0] == '-') { 1 } else { 0 };
    let b = a + digits_at(v, a);
    let c: usize = if b < len && v[b] == '.' { b + 1 } else { b };
    let d = c + digits_at(v, c);
    if (b - a) + (d - c) == 0 {
        false
    } else if d == len {
        true
    } else if v[d] == 'e' || v[d] == 'E' {
        let e: usize = if d + 1 < len && (v[d + 1] == '+' || v[d + 1] == '-') { d + 2 } else { d + 1 };
        let f = e + digits_at(v, e);
        f > e && f == len
    } else {
        false
    }
}

// ---------------------------------------------------------------------------
// The scanner, stated over positions in the text.

/// The first position at or after `i` that is not whitespace.
pub open spec fn skip_white(s: Seq<char>, i: int) -> int
    decreases s.len() - i,
{
    if i < 0 || i >= s.len() || !is_white(s[i]) {
        i
    } else {
        skip_white(s, i + 1)
    }
}

/// The value of four hexadecimal digits at `j`.
pub open spec fn hex4(s: Seq<char>, j: int) -> Option<nat> {
    if 0 <= j && j + 4 <= s.len() && hex_value(s[j]) is Some && hex_value(s[j + 1]) is Some && hex_value(
        s[j + 2],
    ) is Some && hex_value(s[j + 3]) is Some {
        Some(
            ((hex_value(s[j])->0 * 16 + hex_value(s[j + 1])->0) * 16 + hex_value(s[j + 2])->0) * 16
                + hex_value(s[j + 3])->0,
        )
    } else {
        None
    }
}

/// The rest of a string whose opening quote is before `i`: its text, with
/// escapes resolved and appended to `out`, and the position after its
/// closing quote.
pub open spec fn string_from(s: Seq<char>, i: int, out: Seq<char>) -> Option<(Seq<char>, int)>
    decreases s.len() - i,
{
    if i < 0 || i >= s.len() {
        None
    } else if s[i] == '"' {
        Some((out, i + 1))
    } else if s[i] == '\\' {
        if i + 1 >= s.len() {
            None
        } else {
            let e = s[i + 1];
            if e == 'n' {
                string_from(s, i + 2, out.push('\n'))
            } else if e == 't' {
                string_from(s, i + 2, out.push('\t'))
            } else if e == 'r' {
                string_from(s, i + 2, out.push('\r'))
            } else if e == 'u' {
                match hex4(s, i + 2) {
                    Some(code) => if is_scalar(code) {
                        string_from(s, i + 6, out.push(code as char))
                    } else {
                        None
                    },
                    None => None,
                }
            } else {
                string_from(s, i + 2, out.push(e))
            }
        }
    } else {
        string_from(s, i + 1, out.push(s[i]))
    }
}

pub open spec fn is_number_char(c: char) -> bool {
    is_digit(c) || c == '-' || c == '+' || c == '.' || c == 'e' || c == 'E'
}

/// The first position at or after `i` that does not continue a number.
pub open spec fn number_end(s: Seq<char>, i: int) -> int
    decreases s.len() - i,
{
    if i < 0 || i >= s.len() || !is_number_char(s[i]) {
        i
    } else {
        number_end(s, i + 1)
    }
}

/// The first position at or after `i` that is not a letter.
pub open spec fn letters_end(s: Seq<char>, i: int) -> int
    decreases s.len() - i,
{
    if i < 0 || i >= s.len() || !alphabetic(s[i]) {
        i
    } else {
        letters_end(s, i + 1)
    }
}

/// A value starting at `i`, and the position after it. A bare literal such
/// as `true` is skipped as letters.
pub open spec fn value_at(s: Seq<char>, i: int) -> Option<(ValueView, int)> {
    if i < 0 || i >= s.len() {
        None
    } else if s[i] == '"' {
        match string_from(s, i + 1, Seq::empty()) {
            Some((t, j)) => Some((ValueView::Str(t), j)),
            None => None,
        }
    } else if is_digit(s[i]) || s[i] == '-' {
        let j = number_end(s, i);
        if float_syntax(s.subrange(i, j)) {
            Some((ValueView::Num(s.subrange(i, j)), j))
        } else {
            None
        }
    } else {
        Some((ValueView::Other, letters_end(s, i)))
    }
}

pub proof fn lemma_skip_white_ge(s: Seq<char>, i: int)
    ensures
        skip_white(s, i) >= i,
        0 <= i <= s.len() ==> skip_white(s, i) <= s.len(),
    decreases s.len() - i,
{
    if 0 <= i < s.len() && is_white(s[i]) {
        lemma_skip_white_ge(s, i + 1);
    }
}

pub proof fn lemma_string_from_advances(s: Seq<char>, i: int, out: Seq<char>)
    ensures
        string_from(s, i, out) matches Some((_, j)) ==> i < j <= s.len(),
    decreases s.len() - i,
{
    if 0 <= i < s.len() && s[i] != '"' {
        if s[i] == '\\' {
            if i + 1 < s.len() {
                let e = s[i + 1];
                if e == 'n' {
                    lemma_string_from_advances(s, i + 2, out.push('\n'));
                } else if e == 't' {
                    lemma_string_from_advances(s, i + 2, out.push('\t'));
                } else if e == 'r' {
                    lemma_string_from_advances(s, i + 2, out.push('\r'));
                } else if e == 'u' {
                    if let Some(code) = hex4(s, i + 2) {
                        lemma_string_from_advances(s, i + 6, out.push(code as char));
                    }
                } else {
                    lemma_string_from_advances(s, i + 2, out.push(e));
                }
            }
        } else {
            lemma_string_from_advances(s, i + 1, out.push(s[i]));
        }
    }
}

pub proof fn lemma_number_end(s: Seq<char>, i: int)
    ensures
        0 <= i <= s.len() ==> i <= number_end(s, i) <= s.len(),
    decreases s.len() - i,
{
    if 0 <= i < s.len() && is_number_char(s[i]) {
        lemma_number_end(s, i + 1);
    }
}

pub proof fn lemma_letters_end(s: Seq<char>, i: int)
    ensures
        0 <= i <= s.len() ==> i <= letters_end(s, i) <= s.len(),
    decreases s.len() - i,
{
    if 0 <= i < s.len() && alphabetic(s[i]) {
        lemma_letters_end(s, i + 1);
    }
}

pub proof fn lemma_value_at_advances(s: Seq<char>, i: int)
    ensures
        value_at(s, i) matches Some((_, j)) ==> i <= j <= s.len(),
{
    lemma_string_from_advances(s, i + 1, Seq::empty());
    lemma_number_end(s, i);
    lemma_letters_end(s, i);
}

/// The rest of an object whose `{` is before `i`: its fields, appended to
/// `fields`, and the position after its `}`.
pub open spec fn object_from(s: Seq<char>, i: int, fields: Seq<(Seq<char>, ValueView)>) -> Option<
    (Seq<(Seq<char>, ValueView)>, int),
>
    decreases s.len() - i,
{
    let j = skip_white(s, i);
    if i < 0 || j >= s.len() {
        None
    } else if s[j] == '}' {
        Some((fields, j + 1))
    } else if s[j] == ',' {
        proof {
            lemma_skip_white_ge(s, i);
        }
        object_from(s, j + 1, fields)
    } else if s[j] == '"' {
        match string_from(s, j + 1, Seq::empty()) {
            None => None,
            Some((key, k)) => {
                let k2 = skip_white(s, k);
                if k2 < s.len() && s[k2] == ':' {
                    let k3 = skip_white(s, k2 + 1);
                    match value_at(s, k3) {
                        Some((v, k4)) => {
                            proof {
                                lemma_skip_white_ge(s, i);
                                lemma_string_from_advances(s, j + 1, Seq::empty());
                                lemma_skip_white_ge(s, k);
                                lemma_skip_white_ge(s, k2 + 1);
                                lemma_value_at_advances(s, k3);
                            }
                            object_from(s, k4, fields.push((key, v)))
                        },
                        None => None,
                    }
                } else {
                    None
                }
            },
        }
    } else {
        None
    }
}

/// The rest of an array whose `[` is before `i`: its objects, appended to
/// `objects`.
pub open spec fn array_from(s: Seq<char>, i: int, objects: Seq<Seq<(Seq<char>, ValueView)>>) -> Option<
    Seq<Seq<(Seq<char>, ValueView)>>,
>
    decreases s.len() - i,
{
    let j = skip_white(s, i);
    if i < 0 || j >= s.len() {
        None
    } else if s[j] == ']' {
        Some(objects)
    } else if s[j] == ',' {
        proof {
            lemma_skip_white_ge(s, i);
        }
        array_from(s, j + 1, objects)
    } else if s[j] == '{' {
        match object_from(s, j + 1, Seq::empty()) {
            Some((fields, k)) => {
                proof {
                    lemma_skip_white_ge(s, i);
                    lemma_object_from_advances(s, j + 1, Seq::empty());
                }
                array_from(s, k, objects.push(fields))
            },
            None => None,
        }
    } else {
        None
    }
}

pub proof fn lemma_object_from_advances(s: Seq<char>, i: int, fields: Seq<(Seq<char>, ValueView)>)
    ensures
        object_from(s, i, fields) matches Some((_, j)) ==> i < j <= s.len(),
    decreases s.len() - i,
{
    let j = skip_white(s, i);
    lemma_skip_white_ge(s, i);
    if 0 <= i && j < s.len() {
        if s[j] == ',' {
            lemma_object_from_advances(s, j + 1, fields);
        } else if s[j] == '"' {
            lemma_string_from_advances(s, j + 1, Seq::empty());
            if let Some((key, k)) = string_from(s, j + 1, Seq::empty()) {
                let k2 = skip_white(s, k);
                lemma_skip_white_ge(s, k);
                if k2 < s.len() && s[k2] == ':' {
                    let k3 = skip_white(s, k2 + 1);
                    lemma_skip_white_ge(s, k2 + 1);
                    lemma_value_at_advances(s, k3);
                    if let Some((v, k4)) = value_at(s, k3) {
                        lemma_object_from_advances(s, k4, fields.push((key, v)));
                    }
                }
            }
        }
    }
}

/// What the scanner makes of `text`: the objects of a flat array, or `None`
/// when the text is not shaped the way Kdenlive writes these properties.
pub open spec fn object_array(text: Seq<char>) -> Option<Seq<Seq<(Seq<char>, ValueView)>>> {
    let j = skip_white(text, 0);
    if j < text.len() && text[j] == '[' {
        array_from(text, j + 1, Seq::empty())
    } else {
        None
    }
}

// ---------------------------------------------------------------------------
// The scanner.

fn skip_ws(v: &Vec<char>, i: usize) -> (r: usize)
    requires
        i <= v.len(),
    ensures
        r as int == skip_white(v@, i as int),
        i <= r <= v.len(),
{
    let mut j = i;
    while j < v.len() && is_whitespace(v[j])
        invariant
            i <= j <= v.len(),
            skip_white(v@, i as int) == skip_white(v@, j as int),
        decreases v.len() - j,
    {
        j = j + 1;
    }
    j
}

fn hex4_exec(v: &Vec<char>, j: usize) -> (r: Option<u32>)
    ensures
        r matches Some(code) ==> hex4(v@, j as int) == Some(code as nat),
        r is None ==> hex4(v@, j as int) is None,
{
    if j > v.len() || v.len() - j < 4 {
        return None;
    }
    let a = hex_digit(v[j]);
    let b = hex_digit(v[j + 1]);
    let c = hex_digit(v[j + 2]);
    let d = hex_digit(v[j + 3]);
    match (a, b, c, d) {
        (Some(a), Some(b), Some(c), Some(d)) => Some(((a * 16 + b) * 16 + c) * 16 + d),
        _ => None,
    }
}

fn parse_string(v: &Vec<char>, start: usize) -> (r: Option<(String, usize)>)
    requires
        start <= v.len(),
    ensures
        r matches Some((t, j)) ==> string_from(v@, start as int, Seq::empty()) == Some((t@, j as int)),
        r is None ==> string_from(v@, start as int, Seq::empty()) is None,
{
    let mut out: Vec<char> = Vec::new();
    let mut i = start;
    while i < v.len()
        invariant
            start <= i <= v.len() + 1,
            string_from(v@, start as int, Seq::empty()) == string_from(v@, i as int, out@),
        decreases v.len() + 1 - i,
    {
        let c = v[i];
        let ghost before = out@;
        if c == '"' {
            return Some((string_from_chars(out.as_slice()), i + 1));
        } else if c == '\\' {
            if i + 1 >= v.len() {
                return None;
            }
            let e = v[i + 1];
            if e == 'n' {
                out.push('\n');
                i = i + 2;
            } else if e == 't' {
                out.push('\t');
                i = i + 2;
            } else if e == 'r' {
                out.push('\r');
                i = i + 2;
            } else if e == 'u' {
                match hex4_exec(v, i + 2) {
                    Some(code) => match char_from_code(code) {
                        Some(ch) => {
                            out.push(ch);
                            assert(out@ == before.push((code as nat) as char));
                            i = i + 6;
                        },
                        None => {
                            return None;
                        },
                    },
                    None => {
                        return None;
                    },
                }
            } else {
                out.push(e);
                i = i + 2;
            }
        } else {
            out.push(c);
            i = i + 1;
        }
    }
    None
}

fn parse_value(v: &Vec<char>, i: usize) -> (r: Option<(Value, usize)>)
    requires
        i <= v.len(),
    ensures
        r matches Some((val, j)) ==> value_at(v@, i as int) == Some((val@, j as int)),
        r is None ==> value_at(v@, i as int) is None,
{
    if i >= v.len() {
        return None;
    }
    let c = v[i];
    if c == '"' {
        match parse_string(v, i + 1) {
            Some((t, j)) => Some((Value::Str(t), j)),
            None => None,
        }
    } else if ('0' <= c && c <= '9') || c == '-' {
        let mut j = i;
        while j < v.len() && (('0' <= v[j] && v[j] <= '9') || v[j] == '-' || v[j] == '+' || v[j] == '.'
            || v[j] == 'e' || v[j] == 'E')
            invariant
                i <= j <= v.len(),
                number_end(v@, i as int) == number_end(v@, j as int),
            decreases v.len() - j,
        {
            j = j + 1;
        }
        let mut raw: Vec<char> = Vec::new();
        let mut k = i;
        while k < j
            invariant
                i <= k <= j <= v.len(),
                raw@ == v@.subrange(i as int, k as int),
            decreases j - k,
        {
            raw.push(v[k]);
            assert(raw@ =~= v@.subrange(i as int, k + 1));
            k = k + 1;
        }
        if is_float_text(&raw) {
            Some((Value::Num(string_from_chars(raw.as_slice())), j))
        } else {
            None
        }
    } else {
        let mut j = i;
        while j < v.len() && is_alphabetic(v[j])
            invariant
                i <= j <= v.len(),
                letters_end(v@, i as int) == letters_end(v@, j as int),
            decreases v.len() - j,
        {
            j = j + 1;
        }
        Some((Value::Other, j))
    }
}

fn parse_object(v: &Vec<char>, start: usize) -> (r: Option<(Object, usize)>)
    requires
        start <= v.len(),
    ensures
        r matches Some((o, j)) ==> object_from(v@, start as int, Seq::empty()) == Some((o@, j as int)),
        r is None ==> object_from(v@, start as int, Seq::empty()) is None,
{
    let mut fields: Vec<(String, Value)> = Vec::new();
    let mut i = start;
    assert(field_views(fields@) =~= Seq::empty());
    loop
        invariant
            start <= i <= v.len(),
            object_from(v@, start as int, Seq::empty()) == object_from(v@, i as int, field_views(fields@)),
        decreases v.len() - i,
    {
        let j = skip_ws(v, i);
        if j >= v.len() {
            return None;
        }
        let c = v[j];
        if c == '}' {
            let o = Object { fields };
            assert(o@ == field_views(o.fields@));
            return Some((o, j + 1));
        } else if c == ',' {
            i = j + 1;
        } else if c == '"' {
            let (key, k) = match parse_string(v, j + 1) {
                Some(p) => p,
                None => {
                    return None;
                },
            };
            proof {
                lemma_string_from_advances(v@, j + 1, Seq::empty());
            }
            let k2 = skip_ws(v, k);
            if !(k2 < v.len() && v[k2] == ':') {
                return None;
            }
            let k3 = skip_ws(v, k2 + 1);
            match parse_value(v, k3) {
                Some((val, k4)) => {
                    proof {
                        lemma_value_at_advances(v@, k3 as int);
                    }
                    let ghost prev = field_views(fields@);
                    let ghost entry = (key@, val@);
                    fields.push((key, val));
                    assert(field_views(fields@) =~= prev.push(entry));
                    i = k4;
                },
                None => {
                    return None;
                },
            }
        } else {
            return None;
        }
    }
}

pub open spec fn object_views(objs: Seq<Object>) -> Seq<Seq<(Seq<char>, ValueView)>> {
    objs.map_values(|o: Object| o@)
}

/// Parses a flat array of objects. Returns `None` if the text is not shaped
/// the way Kdenlive writes these properties, so the caller can fail loudly
/// rather than report an empty marker list for a project that has markers.
pub fn parse_object_array(text: &str) -> (r: Option<Vec<Object>>)
    ensures
        r matches Some(objs) ==> object_array(text@) == Some(object_views(objs@)),
        r is None ==> object_array(text@) is None,
{
    let v = chars_of(text);
    let j = skip_ws(&v, 0);
    if !(j < v.len() && v[j] == '[') {
        return None;
    }
    let mut objects: Vec<Object> = Vec::new();
    let mut i = j + 1;
    assert(object_views(objects@) =~= Seq::empty());
    loop
        invariant
            i <= v.len(),
            v@ == text@,
            object_array(text@) == array_from(v@, i as int, object_views(objects@)),
        decreases v.len() - i,
    {
        let k = skip_ws(&v, i);
        if k >= v.len() {
            return None;
        }
        let c = v[k];
        if c == ']' {
            return Some(objects);
        } else if c == ',' {
            i = k + 1;
        } else if c == '{' {
            match parse_object(&v, k + 1) {
                Some((o, next)) => {
                    proof {
                        lemma_object_from_advances(v@, k + 1, Seq::empty());
                    }
                    let ghost prev = object_views(objects@);
                    let ghost ov = o@;
                    objects.push(o);
                    assert(object_views(objects@) =~= prev.push(ov));
                    i = next;
                },
                None => {
                    return None;
                },
            }
        } else {
            return None;
        }
    }
}

} // verus!
