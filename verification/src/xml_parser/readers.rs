//! The three readings of numeric text that the parser leaves to its caller.
//!
//! Time values, the document version and marker positions are decimal
//! numbers that the format reads as floating point. The parser hands their
//! text to functions it is given, and asks of those only that they answer
//! every text, and answer texts with the same characters alike.

use vstd::prelude::*;

verus! {

pub open spec fn time_view(r: Result<i64, &'static str>) -> Result<i64, Seq<char>> {
    match r {
        Ok(v) => Ok(v),
        Err(e) => Err(e@),
    }
}

/// `t` turns a time value and the frame rate `num / den` into frames, or a
/// reason it cannot.
pub open spec fn time_reader<T: Fn(&str, u32, u32) -> Result<i64, &'static str>>(t: T) -> bool {
    &&& forall|s: &str, n: u32, d: u32| #[trigger] t.requires((s, n, d))
    &&& forall|s1: &str, s2: &str, n: u32, d: u32, a: Result<i64, &'static str>, b: Result<i64, &'static str>|
        #![trigger t.ensures((s1, n, d), a), t.ensures((s2, n, d), b)]
        s1@ == s2@ && t.ensures((s1, n, d), a) && t.ensures((s2, n, d), b) ==> time_view(a) == time_view(b)
}

/// `r` is an answer of `t` for a text with the characters `s`.
pub open spec fn time_answers<T: Fn(&str, u32, u32) -> Result<i64, &'static str>>(
    t: T,
    s: Seq<char>,
    n: u32,
    d: u32,
    r: Result<i64, &'static str>,
) -> bool {
    exists|x: &str| x@ == s && #[trigger] t.ensures((x, n, d), r)
}

/// What `t` makes of the time value `s` at rate `n / d`.
pub open spec fn time_of<T: Fn(&str, u32, u32) -> Result<i64, &'static str>>(t: T, s: Seq<char>, n: u32, d: u32) -> Result<
    i64,
    Seq<char>,
> {
    time_view(choose|r: Result<i64, &'static str>| #[trigger] time_answers(t, s, n, d, r))
}

pub fn read_time<T: Fn(&str, u32, u32) -> Result<i64, &'static str>>(t: &T, s: &str, n: u32, d: u32) -> (r: Result<
    i64,
    &'static str,
>)
    requires
        time_reader(*t),
    ensures
        time_view(r) == time_of(*t, s@, n, d),
{
    let r = t(s, n, d);
    proof {
        assert(t.ensures((s, n, d), r));
        assert(time_answers(*t, s@, n, d, r));
        let c = choose|c: Result<i64, &'static str>| #[trigger] time_answers(*t, s@, n, d, c);
        let x = choose|x: &str| x@ == s@ && #[trigger] t.ensures((x, n, d), c);
        assert(t.ensures((x, n, d), c) && t.ensures((s, n, d), r));
    }
    r
}

/// `v` decides whether a document version is one this parser reads.
pub open spec fn version_reader<V: Fn(&str) -> bool>(v: V) -> bool {
    &&& forall|s: &str| #[trigger] v.requires((s,))
    &&& forall|s1: &str, s2: &str, a: bool, b: bool|
        #![trigger v.ensures((s1,), a), v.ensures((s2,), b)]
        s1@ == s2@ && v.ensures((s1,), a) && v.ensures((s2,), b) ==> a == b
}

pub open spec fn version_answers<V: Fn(&str) -> bool>(v: V, s: Seq<char>, r: bool) -> bool {
    exists|x: &str| x@ == s && #[trigger] v.ensures((x,), r)
}

/// What `v` decides of the version text `s`.
pub open spec fn version_of<V: Fn(&str) -> bool>(v: V, s: Seq<char>) -> bool {
    choose|r: bool| #[trigger] version_answers(v, s, r)
}

pub fn read_version<V: Fn(&str) -> bool>(v: &V, s: &str) -> (r: bool)
    requires
        version_reader(*v),
    ensures
        r == version_of(*v, s@),
{
    let r = v(s);
    proof {
        assert(v.ensures((s,), r));
        assert(version_answers(*v, s@, r));
        let c = choose|c: bool| #[trigger] version_answers(*v, s@, c);
        let x = choose|x: &str| x@ == s@ && #[trigger] v.ensures((x,), c);
        assert(v.ensures((x,), c) && v.ensures((s,), r));
    }
    r
}

/// `m` reads the text of a JSON number as a frame position (rounded half
/// away from zero) and as a category (truncated).
pub open spec fn number_reader<M: Fn(&str) -> (i64, i32)>(m: M) -> bool {
    &&& forall|s: &str| #[trigger] m.requires((s,))
    &&& forall|s1: &str, s2: &str, a: (i64, i32), b: (i64, i32)|
        #![trigger m.ensures((s1,), a), m.ensures((s2,), b)]
        s1@ == s2@ && m.ensures((s1,), a) && m.ensures((s2,), b) ==> a == b
}

pub open spec fn number_answers<M: Fn(&str) -> (i64, i32)>(m: M, s: Seq<char>, r: (i64, i32)) -> bool {
    exists|x: &str| x@ == s && #[trigger] m.ensures((x,), r)
}

/// What `m` reads from the number text `s`.
pub open spec fn number_of<M: Fn(&str) -> (i64, i32)>(m: M, s: Seq<char>) -> (i64, i32) {
    choose|r: (i64, i32)| #[trigger] number_answers(m, s, r)
}

pub fn read_number<M: Fn(&str) -> (i64, i32)>(m: &M, s: &str) -> (r: (i64, i32))
    requires
        number_reader(*m),
    ensures
        r == number_of(*m, s@),
{
    let r = m(s);
    proof {
        assert(m.ensures((s,), r));
        assert(number_answers(*m, s@, r));
        let c = choose|c: (i64, i32)| #[trigger] number_answers(*m, s@, c);
        let x = choose|x: &str| x@ == s@ && #[trigger] m.ensures((x,), c);
        assert(m.ensures((x,), c) && m.ensures((s,), r));
    }
    r
}

} // verus!
