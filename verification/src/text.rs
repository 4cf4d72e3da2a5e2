//! Character-level string helpers shared by the parser, the differ and the
//! renderer. Every string is reasoned about through its `Seq<char>` view.

use vstd::prelude::*;

verus! {

/// Lexicographic order on characters by code point, which is also the order
/// `str` comparison gives, since UTF-8 preserves code point order bytewise.
pub open spec fn text_lt(a: Seq<char>, b: Seq<char>) -> bool
    decreases a.len(),
{
    if a.len() == 0 {
        b.len() > 0
    } else if b.len() == 0 {
        false
    } else if a[0] != b[0] {
        a[0] < b[0]
    } else {
        text_lt(a.drop_first(), b.drop_first())
    }
}

pub proof fn lemma_text_lt_irreflexive(a: Seq<char>)
    ensures
        !text_lt(a, a),
    decreases a.len(),
{
    if a.len() > 0 {
        lemma_text_lt_irreflexive(a.drop_first());
    }
}

pub proof fn lemma_text_lt_transitive(a: Seq<char>, b: Seq<char>, c: Seq<char>)
    requires
        text_lt(a, b),
        text_lt(b, c),
    ensures
        text_lt(a, c),
    decreases a.len(),
{
    if a.len() > 0 && b.len() > 0 && c.len() > 0 {
        if a[0] == b[0] && b[0] == c[0] {
            lemma_text_lt_transitive(a.drop_first(), b.drop_first(), c.drop_first());
        }
    }
}

pub proof fn lemma_text_lt_total(a: Seq<char>, b: Seq<char>)
    ensures
        a =~= b || text_lt(a, b) || text_lt(b, a),
    decreases a.len(),
{
    if a.len() > 0 && b.len() > 0 && a[0] == b[0] {
        lemma_text_lt_total(a.drop_first(), b.drop_first());
        if a.drop_first() =~= b.drop_first() {
            assert(a =~= seq![a[0]] + a.drop_first());
            assert(b =~= seq![b[0]] + b.drop_first());
        }
    }
}

pub proof fn lemma_text_lt_asymmetric(a: Seq<char>, b: Seq<char>)
    requires
        text_lt(a, b),
    ensures
        !text_lt(b, a),
{
    if text_lt(b, a) {
        lemma_text_lt_transitive(a, b, a);
        lemma_text_lt_irreflexive(a);
    }
}

/// The view of an optional string.
pub open spec fn opt_view(o: Option<String>) -> Option<Seq<char>> {
    match o {
        Some(s) => Some(s@),
        None => None,
    }
}

/// The views of a sequence of string pairs.
pub open spec fn pair_views(ps: Seq<(String, String)>) -> Seq<(Seq<char>, Seq<char>)> {
    ps.map_values(|p: (String, String)| (p.0@, p.1@))
}

/// How `format!("{:?}", s)` writes a string slice: in double quotes, with
/// the characters `char::escape_debug` escapes escaped. Those are decided by
/// Unicode tables too large to restate here.
pub uninterp spec fn debug_text(s: Seq<char>) -> Seq<char>;

/// `format!("{:?}", s)` for a `str`. Claimed: the text is `debug_text(s)`,
/// a function of the characters of `s` alone.
#[verifier::external_body]
pub(crate) fn debug_quoted(s: &str) -> (r: String)
    ensures
        r@ == debug_text(s@),
{
    format!("{:?}", s)
}

/// The characters of `s`, one per element.
pub fn chars_of(s: &str) -> (v: Vec<char>)
    ensures
        v@ == s@,
{
    let mut v: Vec<char> = Vec::new();
    for c in it: s.chars()
        invariant
            it.seq() == s@,
            v@ == it.seq().take(it.index() as int),
    {
        v.push(c);
        assert(v@ =~= it.seq().take(it.index() + 1));
    }
    assert(v@ =~= s@);
    v
}

/// `Iterator::collect` of a slice of characters into a `String`. Claimed:
/// the string holds exactly those characters, in order.
#[verifier::external_body]
pub(crate) fn string_from_chars(v: &[char]) -> (s: String)
    ensures
        s@ == v@,
{
    v.iter().collect()
}

/// The characters `v[lo..hi]` as a `String`.
pub fn string_from_range(v: &Vec<char>, lo: usize, hi: usize) -> (s: String)
    requires
        lo <= hi <= v.len(),
    ensures
        s@ == v@.subrange(lo as int, hi as int),
{
    let mut out: Vec<char> = Vec::new();
    let mut i: usize = lo;
    while i < hi
        invariant
            lo <= i <= hi <= v.len(),
            out@ == v@.subrange(lo as int, i as int),
        decreases hi - i,
    {
        out.push(v[i]);
        assert(out@ =~= v@.subrange(lo as int, i + 1));
        i = i + 1;
    }
    string_from_chars(out.as_slice())
}

/// `String::push`. Claimed: the string afterwards is the one before with
/// `c` appended.
#[verifier::external_body]
pub(crate) fn push_char(s: &mut String, c: char)
    ensures
        final(s)@ == old(s)@.push(c),
{
    s.push(c)
}

/// A `String` copy of a string slice.
pub fn owned(s: &str) -> (r: String)
    ensures
        r@ == s@,
{
    let mut r = String::new();
    r.append(s);
    r
}

/// `a` strictly before `b` in `str` order.
pub fn str_less(a: &str, b: &str) -> (r: bool)
    ensures
        r == text_lt(a@, b@),
{
    let x = chars_of(a);
    let y = chars_of(b);
    let mut i: usize = 0;
    assert(a@.skip(0) =~= a@);
    assert(b@.skip(0) =~= b@);
    while i < x.len() && i < y.len() && x[i] == y[i]
        invariant
            x@ == a@,
            y@ == b@,
            i <= x.len(),
            i <= y.len(),
            text_lt(a@, b@) == text_lt(a@.skip(i as int), b@.skip(i as int)),
        decreases x.len() - i,
    {
        assert(a@.skip(i as int).drop_first() =~= a@.skip(i + 1));
        assert(b@.skip(i as int).drop_first() =~= b@.skip(i + 1));
        i = i + 1;
    }
    if i == x.len() {
        i < y.len()
    } else if i == y.len() {
        false
    } else {
        x[i] < y[i]
    }
}

/// Equality of two string slices by content.
pub fn str_same(a: &str, b: &str) -> (r: bool)
    ensures
        r == (a@ == b@),
{
    let x = chars_of(a);
    let y = chars_of(b);
    if x.len() != y.len() {
        return false;
    }
    let mut i: usize = 0;
    while i < x.len()
        invariant
            x@ == a@,
            y@ == b@,
            x.len() == y.len(),
            i <= x.len(),
            forall|k: int| 0 <= k < i ==> x@[k] == y@[k],
        decreases x.len() - i,
    {
        if x[i] != y[i] {
            return false;
        }
        i = i + 1;
    }
    assert(x@ =~= y@);
    true
}

/// The decimal digits of a natural number, most significant first.
pub open spec fn decimal(n: nat) -> Seq<char>
    decreases n,
{
    if n < 10 {
        seq![digit_char(n)]
    } else {
        decimal(n / 10).push(digit_char(n % 10))
    }
}

pub open spec fn digit_char(d: nat) -> char {
    if d == 0 { '0' }
    else if d == 1 { '1' }
    else if d == 2 { '2' }
    else if d == 3 { '3' }
    else if d == 4 { '4' }
    else if d == 5 { '5' }
    else if d == 6 { '6' }
    else if d == 7 { '7' }
    else if d == 8 { '8' }
    else { '9' }
}

fn digit(d: u64) -> (c: char)
    requires
        d < 10,
    ensures
        c == digit_char(d as nat),
{
    if d == 0 { '0' }
    else if d == 1 { '1' }
    else if d == 2 { '2' }
    else if d == 3 { '3' }
    else if d == 4 { '4' }
    else if d == 5 { '5' }
    else if d == 6 { '6' }
    else if d == 7 { '7' }
    else if d == 8 { '8' }
    else { '9' }
}

/// The decimal rendering of an unsigned number, as `to_string` gives it.
pub fn decimal_string(n: u64) -> (s: String)
    ensures
        s@ == decimal(n as nat),
    decreases n,
{
    if n < 10 {
        let mut s = String::new();
        push_char(&mut s, digit(n));
        assert(s@ =~= seq![digit_char(n as nat)]);
        s
    } else {
        let mut s = decimal_string(n / 10);
        push_char(&mut s, digit(n % 10));
        s
    }
}

/// Whether `c` occurs in `s`.
pub open spec fn has_char(s: Seq<char>, c: char) -> bool {
    exists|i: int| 0 <= i < s.len() && s[i] == c
}

pub fn contains_char(s: &str, c: char) -> (r: bool)
    ensures
        r == has_char(s@, c),
{
    let v = chars_of(s);
    let mut i: usize = 0;
    while i < v.len()
        invariant
            v@ == s@,
            i <= v.len(),
            forall|k: int| 0 <= k < i ==> v@[k] != c,
        decreases v.len() - i,
    {
        if v[i] == c {
            return true;
        }
        i = i + 1;
    }
    false
}

/// Every `from` replaced by `to`, as `str::replace` does for single characters.
pub open spec fn replace_char(s: Seq<char>, from: char, to: char) -> Seq<char> {
    s.map_values(|c: char| if c == from { to } else { c })
}

pub fn replaced(s: &str, from: char, to: char) -> (r: String)
    ensures
        r@ == replace_char(s@, from, to),
{
    let v = chars_of(s);
    let mut out: Vec<char> = Vec::new();
    let mut i: usize = 0;
    while i < v.len()
        invariant
            v@ == s@,
            i <= v.len(),
            out@ == replace_char(s@.take(i as int), from, to),
        decreases v.len() - i,
    {
        let c = v[i];
        out.push(if c == from { to } else { c });
        assert(out@ =~= replace_char(s@.take(i + 1), from, to));
        i = i + 1;
    }
    assert(s@.take(v.len() as int) =~= s@);
    string_from_chars(out.as_slice())
}

/// The characters `char::to_uppercase` maps `c` to, as Unicode's case
/// mapping gives them; one character or more.
pub uninterp spec fn uppercase_of(c: char) -> Seq<char>;

/// `char::to_uppercase`, collected into a `String`. Claimed: the result is
/// `uppercase_of(c)`, a function of `c` alone, and an ASCII letter `a` to
/// `z` becomes its capital `A` to `Z`: the one-to-one mapping the Unicode
/// Character Database gives it, which the documentation says the iterator
/// then yields. Of other characters nothing more is claimed.
#[verifier::external_body]
pub(crate) fn char_uppercase(c: char) -> (s: String)
    ensures
        s@ == uppercase_of(c),
        'a' <= c <= 'z' ==> s@ == seq![((c as u32) - 32) as char],
{
    c.to_uppercase().collect()
}

/// `line` with its first character upper-cased.
pub open spec fn capitalized(line: Seq<char>) -> Seq<char> {
    if line.len() == 0 {
        Seq::empty()
    } else {
        uppercase_of(line[0]) + line.drop_first()
    }
}

pub fn capitalize(line: &str) -> (r: String)
    ensures
        r@ == capitalized(line@),
        line@.len() > 0 && 'a' <= line@[0] <= 'z' ==> r@ == seq![((line@[0] as u32) - 32) as char]
            + line@.drop_first(),
{
    let v = chars_of(line);
    if v.len() == 0 {
        return String::new();
    }
    let mut r = char_uppercase(v[0]);
    let rest = string_from_range(&v, 1, v.len());
    r.append(rest.as_str());
    assert(v@.subrange(1, v.len() as int) =~= line@.drop_first());
    r
}

/// The value of a digit character.
pub open spec fn digit_value(c: char) -> nat {
    ((c as u32) - ('0' as u32)) as nat
}

pub open spec fn is_digit(c: char) -> bool {
    '0' <= c && c <= '9'
}

pub open spec fn all_digits(s: Seq<char>) -> bool {
    forall|i: int| 0 <= i < s.len() ==> is_digit(#[trigger] s[i])
}

/// The number a string of decimal digits spells.
pub open spec fn digits_value(s: Seq<char>) -> nat
    decreases s.len(),
{
    if s.len() == 0 {
        0
    } else {
        digits_value(s.drop_last()) * 10 + digit_value(s.last())
    }
}

/// What `str::parse` gives for an unsigned integer type whose largest value
/// is `max`: an optional `+`, then one digit or more, the value at most `max`.
pub open spec fn unsigned_value(s: Seq<char>, max: nat) -> Option<nat> {
    let d = if s.len() > 0 && s[0] == '+' { s.drop_first() } else { s };
    if d.len() > 0 && all_digits(d) && digits_value(d) <= max {
        Some(digits_value(d))
    } else {
        None
    }
}

proof fn lemma_digits_value_monotone(s: Seq<char>, i: int)
    requires
        0 <= i <= s.len(),
        all_digits(s),
    ensures
        digits_value(s.take(i)) <= digits_value(s),
    decreases s.len() - i,
{
    if i < s.len() {
        lemma_digits_value_monotone(s, i + 1);
        assert(s.take(i + 1).drop_last() =~= s.take(i));
        assert(is_digit(s[i]));
    } else {
        assert(s.take(i) =~= s);
    }
}

/// Parses an unsigned decimal no larger than `max`, as `str::parse` does.
pub fn parse_unsigned(s: &str, max: u64) -> (r: Option<u64>)
    ensures
        r matches Some(v) ==> unsigned_value(s@, max as nat) == Some(v as nat),
        r is None ==> unsigned_value(s@, max as nat) is None,
{
    let v = chars_of(s);
    let start: usize = if v.len() > 0 && v[0] == '+' { 1 } else { 0 };
    let ghost d = if s@.len() > 0 && s@[0] == '+' { s@.drop_first() } else { s@ };
    assert(d =~= s@.skip(start as int));
    if start == v.len() {
        return None;
    }
    let mut value: u64 = 0;
    let mut i: usize = start;
    while i < v.len()
        invariant
            start <= i <= v.len(),
            v@ == s@,
            d == s@.skip(start as int),
            d == (if s@.len() > 0 && s@[0] == '+' { s@.drop_first() } else { s@ }),
            all_digits(d.take(i - start)),
            value == digits_value(d.take(i - start)),
            value <= max,
        decreases v.len() - i,
    {
        let c = v[i];
        assert(d.take(i + 1 - start).drop_last() =~= d.take(i - start));
        assert(d[i - start] == c);
        if !('0' <= c && c <= '9') {
            assert(!is_digit(d[i - start]));
            assert(!all_digits(d));
            return None;
        }
        let digit = (c as u32 - '0' as u32) as u64;
        if digit > max || value > (max - digit) / 10 {
            proof {
                assert(all_digits(d.take(i + 1 - start))) by {
                    assert forall|k: int| 0 <= k < d.take(i + 1 - start).len() implies is_digit(
                        #[trigger] d.take(i + 1 - start)[k],
                    ) by {
                        if k < i - start {
                            assert(d.take(i + 1 - start)[k] == d.take(i - start)[k]);
                        }
                    }
                }
                assert(digits_value(d.take(i + 1 - start)) == value * 10 + digit);
                if digit <= max {
                    assert(value * 10 + digit > max) by (nonlinear_arith)
                        requires
                            value > (max - digit) / 10,
                            digit <= max,
                    ;
                }
                if all_digits(d) {
                    lemma_digits_value_monotone(d, i + 1 - start);
                }
            }
            return None;
        }
        assert(value * 10 + digit <= max) by (nonlinear_arith)
            requires
                value <= (max - digit) / 10,
                digit <= 9,
        ;
        value = value * 10 + digit;
        assert(all_digits(d.take(i + 1 - start))) by {
            assert forall|k: int| 0 <= k < d.take(i + 1 - start).len() implies is_digit(
                #[trigger] d.take(i + 1 - start)[k],
            ) by {
                if k < i - start {
                    assert(d.take(i + 1 - start)[k] == d.take(i - start)[k]);
                }
            }
        }
        i = i + 1;
    }
    assert(d.take(i - start) =~= d);
    Some(value)
}

/// Unicode `White_Space`, which is what `char::is_whitespace` tests.
pub open spec fn is_white(c: char) -> bool {
    let u = c as u32;
    (0x09 <= u <= 0x0D) || u == 0x20 || u == 0x85 || u == 0xA0 || u == 0x1680 || (0x2000 <= u <= 0x200A)
        || u == 0x2028 || u == 0x2029 || u == 0x202F || u == 0x205F || u == 0x3000
}

pub fn is_whitespace(c: char) -> (r: bool)
    ensures
        r == is_white(c),
{
    let u = c as u32;
    (0x09 <= u && u <= 0x0D) || u == 0x20 || u == 0x85 || u == 0xA0 || u == 0x1680 || (0x2000 <= u && u
        <= 0x200A) || u == 0x2028 || u == 0x2029 || u == 0x202F || u == 0x205F || u == 0x3000
}

/// How many leading characters are whitespace.
pub open spec fn leading_white(s: Seq<char>) -> nat
    decreases s.len(),
{
    if s.len() == 0 || !is_white(s[0]) {
        0
    } else {
        1 + leading_white(s.drop_first())
    }
}

/// `s` without leading and trailing whitespace, as `str::trim` gives it.
pub open spec fn trimmed(s: Seq<char>) -> Seq<char> {
    let front = s.skip(leading_white(s) as int);
    front.take(front.len() - leading_white(front.reverse()))
}

pub proof fn lemma_leading_white_le(s: Seq<char>)
    ensures
        leading_white(s) <= s.len(),
    decreases s.len(),
{
    if s.len() > 0 && is_white(s[0]) {
        lemma_leading_white_le(s.drop_first());
    }
}

fn count_leading_white(v: &Vec<char>, from: usize) -> (n: usize)
    requires
        from <= v.len(),
    ensures
        n == leading_white(v@.skip(from as int)),
        from + n <= v.len(),
{
    let mut n: usize = 0;
    let ghost t = v@.skip(from as int);
    assert(t.skip(0) =~= t);
    while from + n < v.len() && is_whitespace(v[from + n])
        invariant
            from <= v.len(),
            from + n <= v.len(),
            t == v@.skip(from as int),
            leading_white(t) == n + leading_white(t.skip(n as int)),
        decreases v.len() - from - n,
    {
        assert(t.skip(n as int)[0] == v@[from + n]);
        assert(t.skip(n as int).drop_first() =~= t.skip(n + 1));
        n = n + 1;
    }
    if from + n < v.len() {
        assert(t.skip(n as int)[0] == v@[from + n]);
    } else {
        assert(t.skip(n as int).len() == 0);
    }
    n
}

pub fn trim(s: &str) -> (r: String)
    ensures
        r@ == trimmed(s@),
{
    let v = chars_of(s);
    let front = count_leading_white(&v, 0);
    assert(v@.skip(0) =~= s@);
    let mut back: usize = 0;
    let ghost f = s@.skip(front as int);
    let ghost rf = f.reverse();
    assert(rf.skip(0) =~= rf);
    while front + back < v.len() && is_whitespace(v[v.len() - 1 - back])
        invariant
            front <= v.len(),
            front + back <= v.len(),
            v@ == s@,
            f == s@.skip(front as int),
            rf == f.reverse(),
            leading_white(rf) == back + leading_white(rf.skip(back as int)),
        decreases v.len() - front - back,
    {
        assert(rf.skip(back as int)[0] == v@[v.len() - 1 - back]);
        assert(rf.skip(back as int).drop_first() =~= rf.skip(back + 1));
        back = back + 1;
    }
    if front + back < v.len() {
        assert(rf.skip(back as int)[0] == v@[v.len() - 1 - back]);
    } else {
        assert(rf.skip(back as int).len() == 0);
    }
    let r = string_from_range(&v, front, v.len() - back);
    assert(v@.subrange(front as int, v.len() - back) =~= f.take(f.len() - back));
    r
}

} // verus!
