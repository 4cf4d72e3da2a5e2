//! Terminal text: visible widths, ellipsizing, padding and colour codes.
//!
//! Whether colour is on is decided from the environment and the terminal,
//! which the caller reads; `color_enabled` makes the decision from what it
//! read. Colour goes to a terminal and never to a pipe, NO_COLOR and a dumb
//! TERM turn it off, and CLICOLOR_FORCE turns it back on.

use vstd::prelude::*;

use crate::text::{chars_of, owned, parse_unsigned, push_char, str_same, string_from_range, unsigned_value};

verus! {

// ---------------------------------------------------------------------------
// Colour.

/// Whether to style output, from what the environment says: NO_COLOR set,
/// the value of CLICOLOR_FORCE, the value of TERM, and whether standard
/// output is a terminal.
pub open spec fn color_decision(
    no_color: bool,
    clicolor_force: Option<Seq<char>>,
    term: Option<Seq<char>>,
    stdout_is_terminal: bool,
) -> bool {
    if no_color {
        false
    } else if clicolor_force is Some && clicolor_force->0 != "0"@ {
        true
    } else if term == Some("dumb"@) {
        false
    } else {
        stdout_is_terminal
    }
}

pub fn color_enabled(
    no_color: bool,
    clicolor_force: Option<&str>,
    term: Option<&str>,
    stdout_is_terminal: bool,
) -> (r: bool)
    ensures
        r == color_decision(
            no_color,
            match clicolor_force {
                Some(v) => Some(v@),
                None => None,
            },
            match term {
                Some(t) => Some(t@),
                None => None,
            },
            stdout_is_terminal,
        ),
{
    if no_color {
        return false;
    }
    if let Some(v) = clicolor_force {
        if !str_same(v, "0") {
            return true;
        }
    }
    if let Some(t) = term {
        if str_same(t, "dumb") {
            return false;
        }
    }
    stdout_is_terminal
}

/// `text` wrapped in the SGR escape `code` when colour is on.
pub open spec fn styled(text: Seq<char>, code: Seq<char>, enabled: bool) -> Seq<char> {
    if enabled {
        "\x1b["@ + code + "m"@ + text + "\x1b[0m"@
    } else {
        text
    }
}

pub fn style(text: &str, code: &str, enabled: bool) -> (r: String)
    ensures
        r@ == styled(text@, code@, enabled),
{
    if enabled {
        let mut r = owned("\x1b[");
        r.append(code);
        r.append("m");
        r.append(text);
        r.append("\x1b[0m");
        r
    } else {
        owned(text)
    }
}

/// Commit ids, in yellow as git shows them.
pub fn commit_id(text: &str, enabled: bool) -> (r: String)
    ensures
        r@ == styled(text@, "33"@, enabled),
        visible_width(r@) == visible_width(text@),
{
    proof {
        reveal_strlit("33");
        styling_keeps_width(text@, "33"@, enabled);
    }
    style(text, "33", enabled)
}

/// Names of things the user made: clips, tracks, effects, branches; in cyan.
pub fn subject(text: &str, enabled: bool) -> (r: String)
    ensures
        r@ == styled(text@, "36"@, enabled),
        visible_width(r@) == visible_width(text@),
{
    proof {
        reveal_strlit("36");
        styling_keeps_width(text@, "36"@, enabled);
    }
    style(text, "36", enabled)
}

/// Timecodes and durations, in green.
pub fn time(text: &str, enabled: bool) -> (r: String)
    ensures
        r@ == styled(text@, "32"@, enabled),
        visible_width(r@) == visible_width(text@),
{
    proof {
        reveal_strlit("32");
        styling_keeps_width(text@, "32"@, enabled);
    }
    style(text, "32", enabled)
}

// ---------------------------------------------------------------------------
// Widths.

/// Columns a character takes: none for combining marks, two for the wide
/// ranges that turn up in file names, one otherwise.
pub open spec fn char_columns(c: char) -> nat {
    let u = c as u32;
    if 0x0300 <= u <= 0x036F {
        0
    } else if (0x1100 <= u <= 0x115F) || (0x2E80 <= u <= 0x303E) || (0x3041 <= u <= 0x33FF) || (0x3400
        <= u <= 0x4DBF) || (0x4E00 <= u <= 0x9FFF) || (0xA000 <= u <= 0xA4CF) || (0xAC00 <= u <= 0xD7A3)
        || (0xF900 <= u <= 0xFAFF) || (0xFE30 <= u <= 0xFE6F) || (0xFF00 <= u <= 0xFF60) || (0xFFE0 <= u
        <= 0xFFE6) || (0x1F300 <= u <= 0x1F64F) || (0x1F900 <= u <= 0x1F9FF) || (0x20000 <= u
        <= 0x3FFFD) {
        2
    } else {
        1
    }
}

fn char_width(c: char) -> (w: usize)
    ensures
        w == char_columns(c),
{
    let u = c as u32;
    if 0x0300 <= u && u <= 0x036F {
        0
    } else if (0x1100 <= u && u <= 0x115F) || (0x2E80 <= u && u <= 0x303E) || (0x3041 <= u && u
        <= 0x33FF) || (0x3400 <= u && u <= 0x4DBF) || (0x4E00 <= u && u <= 0x9FFF) || (0xA000 <= u && u
        <= 0xA4CF) || (0xAC00 <= u && u <= 0xD7A3) || (0xF900 <= u && u <= 0xFAFF) || (0xFE30 <= u && u
        <= 0xFE6F) || (0xFF00 <= u && u <= 0xFF60) || (0xFFE0 <= u && u <= 0xFFE6) || (0x1F300 <= u && u
        <= 0x1F64F) || (0x1F900 <= u && u <= 0x1F9FF) || (0x20000 <= u && u <= 0x3FFFD) {
        2
    } else {
        1
    }
}

/// Visible columns of `s` read from a state inside or outside an escape
/// sequence: an ESC starts one, an `m` ends it, and what it holds takes no
/// room.
pub open spec fn columns_from(s: Seq<char>, in_escape: bool) -> nat
    decreases s.len(),
{
    if s.len() == 0 {
        0
    } else if in_escape {
        columns_from(s.drop_first(), s[0] != 'm')
    } else if s[0] == '\x1b' {
        columns_from(s.drop_first(), true)
    } else {
        char_columns(s[0]) + columns_from(s.drop_first(), false)
    }
}

/// Whether reading `s` from the given state leaves one inside an escape.
pub open spec fn escape_after(s: Seq<char>, in_escape: bool) -> bool
    decreases s.len(),
{
    if s.len() == 0 {
        in_escape
    } else if in_escape {
        escape_after(s.drop_first(), s[0] != 'm')
    } else {
        escape_after(s.drop_first(), s[0] == '\x1b')
    }
}

/// Visible width of a string, ignoring escape sequences.
pub open spec fn visible_width(s: Seq<char>) -> nat {
    columns_from(s, false)
}

proof fn lemma_columns_concat(a: Seq<char>, b: Seq<char>, in_escape: bool)
    ensures
        columns_from(a + b, in_escape) == columns_from(a, in_escape) + columns_from(b, escape_after(a, in_escape)),
        escape_after(a + b, in_escape) == escape_after(b, escape_after(a, in_escape)),
    decreases a.len(),
{
    if a.len() == 0 {
        assert(a + b =~= b);
    } else {
        assert((a + b).drop_first() =~= a.drop_first() + b);
        assert((a + b)[0] == a[0]);
        let next = if in_escape { a[0] != 'm' } else { a[0] == '\x1b' };
        lemma_columns_concat(a.drop_first(), b, next);
    }
}

proof fn lemma_inside_escape(s: Seq<char>)
    requires
        forall|i: int| 0 <= i < s.len() ==> s[i] != 'm',
    ensures
        columns_from(s, true) == 0,
        escape_after(s, true),
    decreases s.len(),
{
    if s.len() > 0 {
        assert(s[0] != 'm');
        assert forall|i: int| 0 <= i < s.drop_first().len() implies s.drop_first()[i] != 'm' by {
            assert(s.drop_first()[i] == s[i + 1]);
        }
        lemma_inside_escape(s.drop_first());
    }
}

/// Styling takes no room: text wrapped in a colour code is as wide on the
/// terminal as the text itself, for a code that does not end the escape
/// early.
pub proof fn styling_keeps_width(text: Seq<char>, code: Seq<char>, enabled: bool)
    requires
        forall|i: int| 0 <= i < code.len() ==> code[i] != 'm',
    ensures
        visible_width(styled(text, code, enabled)) == visible_width(text),
{
    if enabled {
        reveal_strlit("\x1b[");
        reveal_strlit("m");
        reveal_strlit("\x1b[0m");
        let open = "\x1b["@;
        let close = "\x1b[0m"@;
        lemma_inside_escape(code);
        assert(columns_from(open, false) == 0 && escape_after(open, false)) by {
            reveal_with_fuel(columns_from, 3);
            reveal_with_fuel(escape_after, 3);
            assert(open[0] == '\x1b' && open[1] == '[');
            assert(open.drop_first()[0] == '[');
            assert(open.drop_first().drop_first() =~= Seq::<char>::empty());
        }
        assert(columns_from("m"@, true) == 0 && !escape_after("m"@, true)) by {
            reveal_with_fuel(columns_from, 2);
            reveal_with_fuel(escape_after, 2);
            assert("m"@[0] == 'm');
            assert("m"@.drop_first() =~= Seq::<char>::empty());
        }
        let after = escape_after(text, false);
        assert(columns_from(close, after) == 0 && !escape_after(close, after)) by {
            reveal_with_fuel(columns_from, 5);
            reveal_with_fuel(escape_after, 5);
            let c1 = close.drop_first();
            let c2 = c1.drop_first();
            let c3 = c2.drop_first();
            assert(close[0] == '\x1b' && c1[0] == '[' && c2[0] == '0' && c3[0] == 'm');
            assert(c3.drop_first() =~= Seq::<char>::empty());
        }
        lemma_columns_concat(open, code, false);
        lemma_columns_concat(open + code, "m"@, false);
        lemma_columns_concat(open + code + "m"@, text, false);
        lemma_columns_concat(open + code + "m"@ + text, close, false);
    }
}

/// The columns of every character, escapes included.
pub open spec fn raw_columns(s: Seq<char>) -> nat
    decreases s.len(),
{
    if s.len() == 0 {
        0
    } else {
        char_columns(s[0]) + raw_columns(s.drop_first())
    }
}

/// Visible width of a string, ignoring escape sequences and counting a wide
/// character as two columns.
pub fn width(text: &str) -> (w: usize)
    requires
        visible_width(text@) <= usize::MAX,
    ensures
        w == visible_width(text@),
{
    let v = chars_of(text);
    let mut w: usize = 0;
    let mut in_escape = false;
    let mut i: usize = 0;
    assert(text@.skip(0) =~= text@);
    while i < v.len()
        invariant
            v@ == text@,
            i <= v.len(),
            w + columns_from(text@.skip(i as int), in_escape) == visible_width(text@),
            visible_width(text@) <= usize::MAX,
        decreases v.len() - i,
    {
        let c = v[i];
        assert(text@.skip(i as int)[0] == c);
        assert(text@.skip(i as int).drop_first() =~= text@.skip(i + 1));
        if in_escape {
            if c == 'm' {
                in_escape = false;
            }
        } else if c == '\x1b' {
            in_escape = true;
        } else {
            w = w + char_width(c);
        }
        i = i + 1;
    }
    w
}

// ---------------------------------------------------------------------------
// Ellipsizing and padding.

/// How many leading characters fit in `cols` columns, stopping at the first
/// that does not.
pub open spec fn fitting(s: Seq<char>, cols: int) -> nat
    decreases s.len(),
{
    if s.len() == 0 || char_columns(s[0]) > cols {
        0
    } else {
        1 + fitting(s.drop_first(), cols - char_columns(s[0]))
    }
}

pub open spec fn head_columns(max: nat) -> nat {
    ((max - 1) as nat + 1) / 2
}

pub open spec fn tail_columns(max: nat) -> nat {
    ((max - 1) as nat - head_columns(max)) as nat
}

/// `text` shortened to `max` columns with an ellipsis in the middle, so that
/// both the start of a name and its extension stay readable; left alone when
/// it fits. Under 6 columns there is no room for both ends and an ellipsis,
/// so the text is cut to the characters that fit from its start.
pub open spec fn ellipsized(text: Seq<char>, max: nat) -> Seq<char> {
    if visible_width(text) <= max {
        text
    } else if max < 6 {
        text.take(fitting(text, max as int) as int)
    } else {
        let head = text.take(fitting(text, head_columns(max) as int) as int);
        let tail_len = fitting(text.reverse(), tail_columns(max) as int);
        head + seq!['\u{2026}'] + text.skip(text.len() - tail_len)
    }
}

proof fn lemma_fitting_le(s: Seq<char>, cols: int)
    ensures
        fitting(s, cols) <= s.len(),
    decreases s.len(),
{
    if s.len() > 0 && char_columns(s[0]) <= cols {
        lemma_fitting_le(s.drop_first(), cols - char_columns(s[0]));
    }
}

/// Counts the leading characters of `v[from..]` (or, backwards, of
/// `v[..from]` reversed) that fit in `cols` columns.
fn fit_forward(v: &Vec<char>, cols: usize) -> (n: usize)
    ensures
        n == fitting(v@, cols as int),
{
    let mut used: usize = 0;
    let mut n: usize = 0;
    assert(v@.skip(0) =~= v@);
    while n < v.len()
        invariant
            n <= v.len(),
            used <= cols,
            fitting(v@, cols as int) == n + fitting(v@.skip(n as int), cols - used),
        decreases v.len() - n,
    {
        let cw = char_width(v[n]);
        assert(v@.skip(n as int)[0] == v@[n as int]);
        assert(v@.skip(n as int).drop_first() =~= v@.skip(n + 1));
        if cw > cols - used {
            return n;
        }
        used = used + cw;
        n = n + 1;
    }
    n
}

fn reversed(v: &Vec<char>) -> (r: Vec<char>)
    ensures
        r@ == v@.reverse(),
{
    let mut r: Vec<char> = Vec::new();
    let mut i: usize = v.len();
    while i > 0
        invariant
            i <= v.len(),
            r@ == v@.skip(i as int).reverse(),
        decreases i,
    {
        i = i - 1;
        r.push(v[i]);
        assert(r@ =~= v@.skip(i as int).reverse());
    }
    assert(v@.skip(0) =~= v@);
    r
}

/// Shortens to `max` columns, putting an ellipsis in the middle.
pub fn ellipsize(text: &str, max: usize) -> (r: String)
    requires
        visible_width(text@) <= usize::MAX,
    ensures
        r@ == ellipsized(text@, max as nat),
{
    if width(text) <= max {
        return owned(text);
    }
    if max < 6 {
        let v = chars_of(text);
        let n = fit_forward(&v, max);
        proof {
            lemma_fitting_le(text@, max as int);
        }
        assert(v@.subrange(0, n as int) =~= text@.take(n as int));
        return string_from_range(&v, 0, n);
    }
    let keep = max - 1;
    let head_cols = (keep + 1) / 2;
    let tail_cols = keep - head_cols;
    let v = chars_of(text);
    let head_len = fit_forward(&v, head_cols);
    let rv = reversed(&v);
    let tail_len = fit_forward(&rv, tail_cols);
    proof {
        lemma_fitting_le(text@, head_cols as int);
        lemma_fitting_le(text@.reverse(), tail_cols as int);
    }
    let mut r = string_from_range(&v, 0, head_len);
    push_char(&mut r, '\u{2026}');
    let tail = string_from_range(&v, v.len() - tail_len, v.len());
    r.append(tail.as_str());
    assert(v@.subrange(0, head_len as int) =~= text@.take(head_len as int));
    assert(v@.subrange(v.len() - tail_len, v.len() as int) =~= text@.skip(text@.len() - tail_len));
    r
}

/// `text` followed by spaces up to `cols` visible columns.
pub open spec fn padded(text: Seq<char>, cols: nat) -> Seq<char> {
    let w = visible_width(text);
    if w >= cols {
        text
    } else {
        text + Seq::new((cols - w) as nat, |i: int| ' ')
    }
}

/// Pads to `cols` visible columns.
pub fn pad(text: &str, cols: usize) -> (r: String)
    requires
        visible_width(text@) <= usize::MAX,
    ensures
        r@ == padded(text@, cols as nat),
{
    let w = width(text);
    if w >= cols {
        return owned(text);
    }
    let mut r = owned(text);
    let mut k: usize = 0;
    while k < cols - w
        invariant
            w < cols,
            k <= cols - w,
            r@ == text@ + Seq::new(k as nat, |i: int| ' '),
        decreases cols - w - k,
    {
        push_char(&mut r, ' ');
        assert(r@ =~= text@ + Seq::new((k + 1) as nat, |i: int| ' '));
        k = k + 1;
    }
    r
}

// ---------------------------------------------------------------------------
// Terminal width.

/// The width to lay lines out in, from the COLUMNS value: used when it is a
/// number of at least 40, otherwise the classic 80.
pub open spec fn layout_width(columns: Option<Seq<char>>) -> nat {
    match columns {
        Some(c) => match unsigned_value(c, usize::MAX as nat) {
            Some(w) => if w >= 40 { w } else { 80 },
            None => 80,
        },
        None => 80,
    }
}

pub fn terminal_width(columns: Option<&str>) -> (w: usize)
    ensures
        w == layout_width(match columns {
            Some(c) => Some(c@),
            None => None,
        }),
{
    match columns {
        Some(c) => match parse_unsigned(c, usize::MAX as u64) {
            Some(w) => if w >= 40 { w as usize } else { 80 },
            None => 80,
        },
        None => 80,
    }
}

// ---------------------------------------------------------------------------
// What ellipsizing and padding guarantee.

proof fn lemma_columns_le_raw(s: Seq<char>, in_escape: bool)
    ensures
        columns_from(s, in_escape) <= raw_columns(s),
    decreases s.len(),
{
    if s.len() > 0 {
        if in_escape {
            lemma_columns_le_raw(s.drop_first(), s[0] != 'm');
        } else if s[0] == '\x1b' {
            lemma_columns_le_raw(s.drop_first(), true);
        } else {
            lemma_columns_le_raw(s.drop_first(), false);
        }
    }
}

proof fn lemma_raw_concat(a: Seq<char>, b: Seq<char>)
    ensures
        raw_columns(a + b) == raw_columns(a) + raw_columns(b),
    decreases a.len(),
{
    if a.len() > 0 {
        assert((a + b).drop_first() =~= a.drop_first() + b);
        lemma_raw_concat(a.drop_first(), b);
    } else {
        assert(a + b =~= b);
    }
}

proof fn lemma_raw_reverse(s: Seq<char>)
    ensures
        raw_columns(s.reverse()) == raw_columns(s),
    decreases s.len(),
{
    if s.len() > 0 {
        lemma_raw_reverse(s.drop_first());
        assert(s.reverse() =~= s.drop_first().reverse() + seq![s[0]]);
        lemma_raw_concat(s.drop_first().reverse(), seq![s[0]]);
        assert(seq![s[0]].drop_first() =~= Seq::<char>::empty());
        assert(raw_columns(seq![s[0]]) == char_columns(s[0]) + raw_columns(seq![s[0]].drop_first()));
    }
}

proof fn lemma_fitting_raw(s: Seq<char>, cols: int)
    requires
        cols >= 0,
    ensures
        raw_columns(s.take(fitting(s, cols) as int)) <= cols,
    decreases s.len(),
{
    let n = fitting(s, cols);
    lemma_fitting_le(s, cols);
    if n > 0 {
        lemma_fitting_le(s.drop_first(), cols - char_columns(s[0]));
        lemma_fitting_raw(s.drop_first(), cols - char_columns(s[0]));
        assert(s.take(n as int).drop_first() =~= s.drop_first().take((n - 1) as int));
    } else {
        assert(s.take(0) =~= Seq::<char>::empty());
    }
}

/// An ellipsized name fits its room.
pub proof fn ellipsized_fits(text: Seq<char>, max: nat)
    ensures
        visible_width(ellipsized(text, max)) <= max,
{
    if visible_width(text) > max && max < 6 {
        let head = text.take(fitting(text, max as int) as int);
        lemma_fitting_raw(text, max as int);
        lemma_columns_le_raw(head, false);
    } else if visible_width(text) > max {
        let hc = head_columns(max) as int;
        let tc = tail_columns(max) as int;
        let head = text.take(fitting(text, hc) as int);
        let tail_len = fitting(text.reverse(), tc);
        lemma_fitting_le(text.reverse(), tc);
        let tail = text.skip(text.len() - tail_len);
        lemma_fitting_raw(text, hc);
        lemma_fitting_raw(text.reverse(), tc);
        assert(tail.reverse() =~= text.reverse().take(tail_len as int));
        lemma_raw_reverse(tail);
        let e = seq!['\u{2026}'];
        assert(raw_columns(e) == 1) by {
            assert(e.drop_first() =~= Seq::<char>::empty());
            assert(e[0] == '\u{2026}');
            assert(('\u{2026}' as u32) == 0x2026);
            assert(char_columns(e[0]) == 1);
            assert(raw_columns(e) == char_columns(e[0]) + raw_columns(e.drop_first()));
        }
        lemma_raw_concat(head, e);
        lemma_raw_concat(head + e, tail);
        lemma_columns_le_raw(head + e + tail, false);
    }
}

proof fn lemma_spaces(n: nat)
    ensures
        columns_from(Seq::new(n, |i: int| ' '), false) == n,
    decreases n,
{
    if n > 0 {
        assert(Seq::new(n, |i: int| ' ').drop_first() =~= Seq::new((n - 1) as nat, |i: int| ' '));
        lemma_spaces((n - 1) as nat);
    }
}

/// Padding reaches the asked width, or leaves a wider text as it is, unless
/// the text ends inside an unfinished escape sequence, which then swallows
/// the padding.
pub proof fn padded_width(text: Seq<char>, cols: nat)
    requires
        !escape_after(text, false),
    ensures
        visible_width(padded(text, cols)) == if visible_width(text) >= cols {
            visible_width(text)
        } else {
            cols
        },
{
    let w = visible_width(text);
    if w < cols {
        let sp = Seq::new((cols - w) as nat, |i: int| ' ');
        lemma_columns_concat(text, sp, false);
        lemma_spaces((cols - w) as nat);
    }
}

} // verus!
