//! Timeline markers and project guides.
//!
//! Markers live on the sequence tractor as a `kdenlive:markers` JSON array,
//! guides on the bin as `kdenlive:docproperties.guides` in the same shape.
//! Positions there are already frame numbers, so they need no conversion
//! through the profile.

use vstd::prelude::*;

use crate::model::{Guide, GuideView, Marker, MarkerView, guide_views, marker_views};
use crate::seqs::{fold_ok, lemma_fold_ok_step, lemma_fold_ok_stops, lemma_fold_ok_whole};
use crate::text::{chars_of, is_white, is_whitespace, owned, string_from_chars};
use crate::xml::{node_views, property, property_of, XmlNode, XmlNodeView};
use super::json_lite::{num_field, object_array, object_views, parse_object_array, str_field, Object, ValueView};
use super::readers::{number_of, number_reader, read_number};
use super::ParseErrorView;
use super::ParseError;

verus! {

// ---------------------------------------------------------------------------
// Keeping a malformed property short in an error.

/// One character of `split_whitespace().join(" ")`: the text so far, and
/// whether a space is owed before the next word.
pub open spec fn flat_step(st: (Seq<char>, bool), c: char) -> (Seq<char>, bool) {
    if is_white(c) {
        (st.0, st.0.len() > 0)
    } else if st.1 {
        (st.0.push(' ').push(c), false)
    } else {
        (st.0.push(c), false)
    }
}

pub open spec fn flat_scan(s: Seq<char>) -> (Seq<char>, bool)
    decreases s.len(),
{
    if s.len() == 0 {
        (Seq::empty(), false)
    } else {
        flat_step(flat_scan(s.drop_last()), s.last())
    }
}

/// The words of `s` joined by single spaces.
pub open spec fn flattened(s: Seq<char>) -> Seq<char> {
    flat_scan(s).0
}

/// What an error quotes of a malformed property: its words joined by single
/// spaces, cut to 80 characters and `...` when longer.
pub open spec fn shortened(raw: Seq<char>) -> Seq<char> {
    let f = flattened(raw);
    if f.len() > 80 {
        f.take(80) + "..."@
    } else {
        f
    }
}

/// Keeps a malformed property from dumping a whole JSON blob into an error.
pub fn truncate(raw: &str) -> (r: String)
    ensures
        r@ == shortened(raw@),
{
    let v = chars_of(raw);
    let mut out: Vec<char> = Vec::new();
    let mut owed = false;
    let mut i: usize = 0;
    assert(raw@.take(0) =~= Seq::<char>::empty());
    while i < v.len()
        invariant
            v@ == raw@,
            i <= v.len(),
            flat_scan(raw@.take(i as int)) == (out@, owed),
        decreases v.len() - i,
    {
        let c = v[i];
        assert(raw@.take(i + 1).drop_last() =~= raw@.take(i as int));
        assert(raw@.take(i + 1).last() == c);
        if is_whitespace(c) {
            owed = out.len() > 0;
        } else {
            if owed {
                out.push(' ');
            }
            out.push(c);
            owed = false;
        }
        i = i + 1;
    }
    assert(raw@.take(v.len() as int) =~= raw@);
    if out.len() > 80 {
        let mut cut: Vec<char> = Vec::new();
        let mut k: usize = 0;
        while k < 80
            invariant
                k <= 80 < out.len(),
                cut@ == out@.take(k as int),
            decreases 80 - k,
        {
            cut.push(out[k]);
            assert(cut@ =~= out@.take(k + 1));
            k = k + 1;
        }
        let mut r = string_from_chars(cut.as_slice());
        r.append("...");
        r
    } else {
        string_from_chars(out.as_slice())
    }
}

// ---------------------------------------------------------------------------
// Sorting by position, keeping equal positions in file order.

/// Where a marker at `pos` goes in `sorted`: after every marker not later
/// than it.
pub open spec fn marker_slot(sorted: Seq<MarkerView>, pos: i64) -> nat
    decreases sorted.len(),
{
    if sorted.len() == 0 || pos < sorted[0].position {
        0
    } else {
        1 + marker_slot(sorted.drop_first(), pos)
    }
}

/// `ms` sorted by position, stably: the order `sort_by_key` gives.
pub open spec fn sort_markers(ms: Seq<MarkerView>) -> Seq<MarkerView>
    decreases ms.len(),
{
    if ms.len() == 0 {
        Seq::empty()
    } else {
        let s = sort_markers(ms.drop_last());
        s.insert(marker_slot(s, ms.last().position) as int, ms.last())
    }
}

pub open spec fn guide_slot(sorted: Seq<GuideView>, pos: i64) -> nat
    decreases sorted.len(),
{
    if sorted.len() == 0 || pos < sorted[0].position {
        0
    } else {
        1 + guide_slot(sorted.drop_first(), pos)
    }
}

pub open spec fn sort_guides(gs: Seq<GuideView>) -> Seq<GuideView>
    decreases gs.len(),
{
    if gs.len() == 0 {
        Seq::empty()
    } else {
        let s = sort_guides(gs.drop_last());
        s.insert(guide_slot(s, gs.last().position) as int, gs.last())
    }
}

proof fn lemma_marker_slot_le(s: Seq<MarkerView>, pos: i64)
    ensures
        marker_slot(s, pos) <= s.len(),
    decreases s.len(),
{
    if s.len() > 0 && !(pos < s[0].position) {
        lemma_marker_slot_le(s.drop_first(), pos);
    }
}

proof fn lemma_guide_slot_le(s: Seq<GuideView>, pos: i64)
    ensures
        guide_slot(s, pos) <= s.len(),
    decreases s.len(),
{
    if s.len() > 0 && !(pos < s[0].position) {
        lemma_guide_slot_le(s.drop_first(), pos);
    }
}

fn sort_marker_vec(ms: Vec<Marker>) -> (r: Vec<Marker>)
    ensures
        marker_views(r@) == sort_markers(marker_views(ms@)),
{
    let ghost mv = marker_views(ms@);
    assert(mv.len() == ms.len());
    let mut out: Vec<Marker> = Vec::new();
    let mut rest = ms;
    let mut taken: usize = 0;
    assert(mv.skip(0) =~= mv);
    assert(mv.take(0) =~= Seq::<MarkerView>::empty());
    while rest.len() > 0
        invariant
            marker_views(rest@) == mv.skip(taken as int),
            taken <= mv.len() <= usize::MAX,
            marker_views(out@) == sort_markers(mv.take(taken as int)),
        decreases rest.len(),
    {
        let ghost before = rest@;
        assert(marker_views(rest@).len() == rest@.len());
        assert(mv.skip(taken as int).len() == mv.len() - taken);
        assert(taken < mv.len());
        let m = rest.remove(0);
        assert(mv.skip(taken as int)[0] == m@);
        assert(rest@ =~= before.drop_first());
        assert(marker_views(rest@) =~= marker_views(before).drop_first());
        assert(marker_views(rest@) =~= mv.skip(taken + 1));
        let ghost s = marker_views(out@);
        proof {
            lemma_marker_slot_le(s, m.position);
        }
        let mut i: usize = 0;
        assert(s.skip(0) =~= s);
        while i < out.len() && !(m.position < out[i].position)
            invariant
                s == marker_views(out@),
                i <= out.len(),
                marker_slot(s, m.position) == i + marker_slot(s.skip(i as int), m.position),
            decreases out.len() - i,
        {
            assert(s.skip(i as int)[0] == out@[i as int]@);
            assert(s.skip(i as int).drop_first() =~= s.skip(i + 1));
            i = i + 1;
        }
        assert(marker_slot(s, m.position) == i) by {
            if i < out.len() {
                assert(s.skip(i as int)[0] == out@[i as int]@);
            }
        }
        let ghost mview = m@;
        out.insert(i, m);
        assert(marker_views(out@) =~= s.insert(i as int, mview));
        assert(mv.take(taken + 1).drop_last() =~= mv.take(taken as int));
        assert(mv.take(taken + 1).last() == mview);
        taken = taken + 1;
    }
    assert(mv.take(taken as int) =~= mv);
    out
}

fn sort_guide_vec(gs: Vec<Guide>) -> (r: Vec<Guide>)
    ensures
        guide_views(r@) == sort_guides(guide_views(gs@)),
{
    let ghost gv = guide_views(gs@);
    assert(gv.len() == gs.len());
    let mut out: Vec<Guide> = Vec::new();
    let mut rest = gs;
    let mut taken: usize = 0;
    assert(gv.skip(0) =~= gv);
    assert(gv.take(0) =~= Seq::<GuideView>::empty());
    while rest.len() > 0
        invariant
            guide_views(rest@) == gv.skip(taken as int),
            taken <= gv.len() <= usize::MAX,
            guide_views(out@) == sort_guides(gv.take(taken as int)),
        decreases rest.len(),
    {
        let ghost before = rest@;
        assert(guide_views(rest@).len() == rest@.len());
        assert(gv.skip(taken as int).len() == gv.len() - taken);
        assert(taken < gv.len());
        let g = rest.remove(0);
        assert(gv.skip(taken as int)[0] == g@);
        assert(rest@ =~= before.drop_first());
        assert(guide_views(rest@) =~= guide_views(before).drop_first());
        assert(guide_views(rest@) =~= gv.skip(taken + 1));
        let ghost s = guide_views(out@);
        proof {
            lemma_guide_slot_le(s, g.position);
        }
        let mut i: usize = 0;
        assert(s.skip(0) =~= s);
        while i < out.len() && !(g.position < out[i].position)
            invariant
                s == guide_views(out@),
                i <= out.len(),
                guide_slot(s, g.position) == i + guide_slot(s.skip(i as int), g.position),
            decreases out.len() - i,
        {
            assert(s.skip(i as int)[0] == out@[i as int]@);
            assert(s.skip(i as int).drop_first() =~= s.skip(i + 1));
            i = i + 1;
        }
        assert(guide_slot(s, g.position) == i) by {
            if i < out.len() {
                assert(s.skip(i as int)[0] == out@[i as int]@);
            }
        }
        let ghost gview = g@;
        out.insert(i, g);
        assert(guide_views(out@) =~= s.insert(i as int, gview));
        assert(gv.take(taken + 1).drop_last() =~= gv.take(taken as int));
        assert(gv.take(taken + 1).last() == gview);
        taken = taken + 1;
    }
    assert(gv.take(taken as int) =~= gv);
    out
}

// ---------------------------------------------------------------------------
// Reading the JSON arrays.

pub open spec fn text_or_empty(o: Option<Seq<char>>) -> Seq<char> {
    match o {
        Some(t) => t,
        None => Seq::empty(),
    }
}

/// One marker object: its `pos` (required), `comment` and `type`.
pub open spec fn marker_step<M: Fn(&str) -> (i64, i32)>(m: M, raw: Seq<char>) -> spec_fn(
    Seq<MarkerView>,
    Seq<(Seq<char>, ValueView)>,
) -> Result<Seq<MarkerView>, ParseErrorView> {
    |acc: Seq<MarkerView>, o: Seq<(Seq<char>, ValueView)>|
        match num_field(o, "pos"@) {
            None => Err(
                ParseErrorView::BadMarker {
                    kind: "timeline"@,
                    value: shortened(raw),
                    reason: "marker has no numeric pos"@,
                },
            ),
            Some(p) => Ok(
                acc.push(
                    MarkerView {
                        position: number_of(m, p).0,
                        comment: text_or_empty(str_field(o, "comment"@)),
                        category: match num_field(o, "type"@) {
                            Some(t) => number_of(m, t).1,
                            None => 0,
                        },
                    },
                ),
            ),
        }
}

/// The markers of sequence tractor `s`, by position.
pub open spec fn markers_of<M: Fn(&str) -> (i64, i32)>(ns: Seq<XmlNodeView>, s: usize, m: M) -> Result<
    Seq<MarkerView>,
    ParseErrorView,
> {
    match property_of(ns, s, "kdenlive:markers"@) {
        None => Ok(Seq::empty()),
        Some(raw) => match object_array(raw) {
            None => Err(
                ParseErrorView::BadMarker {
                    kind: "timeline"@,
                    value: shortened(raw),
                    reason: "expected a JSON array of marker objects"@,
                },
            ),
            Some(objs) => match fold_ok(objs, Seq::empty(), marker_step(m, raw)) {
                Ok(ms) => Ok(sort_markers(ms)),
                Err(e) => Err(e),
            },
        },
    }
}

/// One guide object: its `pos` (required) and `comment`.
pub open spec fn guide_step<M: Fn(&str) -> (i64, i32)>(m: M, raw: Seq<char>) -> spec_fn(
    Seq<GuideView>,
    Seq<(Seq<char>, ValueView)>,
) -> Result<Seq<GuideView>, ParseErrorView> {
    |acc: Seq<GuideView>, o: Seq<(Seq<char>, ValueView)>|
        match num_field(o, "pos"@) {
            None => Err(
                ParseErrorView::BadMarker {
                    kind: "guide"@,
                    value: shortened(raw),
                    reason: "guide has no numeric pos"@,
                },
            ),
            Some(p) => Ok(
                acc.push(GuideView { position: number_of(m, p).0, comment: text_or_empty(str_field(o, "comment"@)) }),
            ),
        }
}

/// The guides stored on the bin, by position; none when there is no bin.
pub open spec fn guides_of<M: Fn(&str) -> (i64, i32)>(ns: Seq<XmlNodeView>, bin: Option<usize>, m: M) -> Result<
    Seq<GuideView>,
    ParseErrorView,
> {
    match bin {
        None => Ok(Seq::empty()),
        Some(b) => match property_of(ns, b, "kdenlive:docproperties.guides"@) {
            None => Ok(Seq::empty()),
            Some(raw) => match object_array(raw) {
                None => Err(
                    ParseErrorView::BadMarker {
                        kind: "guide"@,
                        value: shortened(raw),
                        reason: "expected a JSON array of guide objects"@,
                    },
                ),
                Some(objs) => match fold_ok(objs, Seq::empty(), guide_step(m, raw)) {
                    Ok(gs) => Ok(sort_guides(gs)),
                    Err(e) => Err(e),
                },
            },
        },
    }
}

fn comment_of(o: &Object) -> (r: String)
    ensures
        r@ == text_or_empty(str_field(o@, "comment"@)),
{
    match o.str("comment") {
        Some(c) => owned(c),
        None => String::new(),
    }
}

/// Reads the markers of sequence tractor `s`.
pub fn read_markers<M: Fn(&str) -> (i64, i32)>(nodes: &Vec<XmlNode>, s: usize, m: &M) -> (r: Result<
    Vec<Marker>,
    ParseError,
>)
    requires
        s < nodes.len(),
        number_reader(*m),
    ensures
        r matches Ok(v) ==> markers_of(node_views(nodes@), s, *m) == Ok::<Seq<MarkerView>, ParseErrorView>(
            marker_views(v@),
        ),
        r matches Err(e) ==> markers_of(node_views(nodes@), s, *m) == Err::<Seq<MarkerView>, ParseErrorView>(e@),
{
    let raw = match property(nodes, s, "kdenlive:markers") {
        None => {
            let v: Vec<Marker> = Vec::new();
            assert(marker_views(v@) =~= Seq::<MarkerView>::empty());
            return Ok(v);
        },
        Some(raw) => raw,
    };
    let objs = match parse_object_array(raw.as_str()) {
        None => {
            return Err(
                ParseError::BadMarker {
                    kind: "timeline",
                    value: truncate(raw.as_str()),
                    reason: "expected a JSON array of marker objects",
                },
            );
        },
        Some(o) => o,
    };
    let ghost ov = object_views(objs@);
    let ghost step = marker_step(*m, raw@);
    let mut out: Vec<Marker> = Vec::new();
    let mut k: usize = 0;
    assert(ov.take(0) =~= Seq::<Seq<(Seq<char>, ValueView)>>::empty());
    assert(marker_views(out@) =~= Seq::<MarkerView>::empty());
    while k < objs.len()
        invariant
            ov == object_views(objs@),
            step == marker_step(*m, raw@),
            s < nodes.len(),
            property_of(node_views(nodes@), s, "kdenlive:markers"@) == Some(raw@),
            object_array(raw@) == Some(ov),
            number_reader(*m),
            k <= objs.len(),
            fold_ok(ov.take(k as int), Seq::<MarkerView>::empty(), step) == Ok::<
                Seq<MarkerView>,
                ParseErrorView,
            >(marker_views(out@)),
        decreases objs.len() - k,
    {
        proof {
            lemma_fold_ok_step(ov, Seq::<MarkerView>::empty(), step, k as int);
        }
        let o = &objs[k];
        assert(ov[k as int] == o@);
        match o.num("pos") {
            None => {
                proof {
                    lemma_fold_ok_stops(ov, Seq::<MarkerView>::empty(), step, k + 1);
                }
                return Err(
                    ParseError::BadMarker {
                        kind: "timeline",
                        value: truncate(raw.as_str()),
                        reason: "marker has no numeric pos",
                    },
                );
            },
            Some(p) => {
                let position = read_number(m, p).0;
                let category = match o.num("type") {
                    Some(t) => read_number(m, t).1,
                    None => 0,
                };
                let marker = Marker { position, comment: comment_of(o), category };
                let ghost prev = marker_views(out@);
                out.push(marker);
                assert(marker_views(out@) =~= prev.push(marker@));
            },
        }
        k = k + 1;
    }
    proof {
        lemma_fold_ok_whole(ov, Seq::<MarkerView>::empty(), step);
    }
    Ok(sort_marker_vec(out))
}

/// Reads the guides stored on the bin.
pub fn read_guides<M: Fn(&str) -> (i64, i32)>(nodes: &Vec<XmlNode>, bin: Option<usize>, m: &M) -> (r: Result<
    Vec<Guide>,
    ParseError,
>)
    requires
        bin matches Some(b) ==> b < nodes.len(),
        number_reader(*m),
    ensures
        r matches Ok(v) ==> guides_of(node_views(nodes@), bin, *m) == Ok::<Seq<GuideView>, ParseErrorView>(
            guide_views(v@),
        ),
        r matches Err(e) ==> guides_of(node_views(nodes@), bin, *m) == Err::<Seq<GuideView>, ParseErrorView>(e@),
{
    let none: Vec<Guide> = Vec::new();
    assert(guide_views(none@) =~= Seq::<GuideView>::empty());
    let b = match bin {
        None => {
            return Ok(none);
        },
        Some(b) => b,
    };
    let raw = match property(nodes, b, "kdenlive:docproperties.guides") {
        None => {
            return Ok(none);
        },
        Some(raw) => raw,
    };
    let objs = match parse_object_array(raw.as_str()) {
        None => {
            return Err(
                ParseError::BadMarker {
                    kind: "guide",
                    value: truncate(raw.as_str()),
                    reason: "expected a JSON array of guide objects",
                },
            );
        },
        Some(o) => o,
    };
    let ghost ov = object_views(objs@);
    let ghost step = guide_step(*m, raw@);
    let mut out: Vec<Guide> = Vec::new();
    let mut k: usize = 0;
    assert(ov.take(0) =~= Seq::<Seq<(Seq<char>, ValueView)>>::empty());
    while k < objs.len()
        invariant
            ov == object_views(objs@),
            step == guide_step(*m, raw@),
            bin == Some(b),
            b < nodes.len(),
            property_of(node_views(nodes@), b, "kdenlive:docproperties.guides"@) == Some(raw@),
            object_array(raw@) == Some(ov),
            number_reader(*m),
            k <= objs.len(),
            fold_ok(ov.take(k as int), Seq::<GuideView>::empty(), step) == Ok::<Seq<GuideView>, ParseErrorView>(
                guide_views(out@),
            ),
        decreases objs.len() - k,
    {
        proof {
            lemma_fold_ok_step(ov, Seq::<GuideView>::empty(), step, k as int);
        }
        let o = &objs[k];
        assert(ov[k as int] == o@);
        match o.num("pos") {
            None => {
                proof {
                    lemma_fold_ok_stops(ov, Seq::<GuideView>::empty(), step, k + 1);
                }
                return Err(
                    ParseError::BadMarker {
                        kind: "guide",
                        value: truncate(raw.as_str()),
                        reason: "guide has no numeric pos",
                    },
                );
            },
            Some(p) => {
                let position = read_number(m, p).0;
                let guide = Guide { position, comment: comment_of(o) };
                let ghost prev = guide_views(out@);
                out.push(guide);
                assert(guide_views(out@) =~= prev.push(guide@));
            },
        }
        k = k + 1;
    }
    proof {
        lemma_fold_ok_whole(ov, Seq::<GuideView>::empty(), step);
    }
    Ok(sort_guide_vec(out))
}

// ---------------------------------------------------------------------------
// Sorted output is in order.

pub open spec fn markers_in_order(ms: Seq<MarkerView>) -> bool {
    forall|i: int, j: int| 0 <= i < j < ms.len() ==> (#[trigger] ms[i]).position <= (#[trigger] ms[j]).position
}

pub open spec fn guides_in_order(gs: Seq<GuideView>) -> bool {
    forall|i: int, j: int| 0 <= i < j < gs.len() ==> (#[trigger] gs[i]).position <= (#[trigger] gs[j]).position
}

proof fn lemma_marker_slot_splits(s: Seq<MarkerView>, pos: i64)
    ensures
        marker_slot(s, pos) <= s.len(),
        forall|i: int| 0 <= i < marker_slot(s, pos) ==> (#[trigger] s[i]).position <= pos,
        marker_slot(s, pos) < s.len() ==> pos < s[marker_slot(s, pos) as int].position,
    decreases s.len(),
{
    if s.len() > 0 && !(pos < s[0].position) {
        lemma_marker_slot_splits(s.drop_first(), pos);
        assert forall|i: int| 0 <= i < marker_slot(s, pos) implies (#[trigger] s[i]).position <= pos by {
            if i > 0 {
                assert(s[i] == s.drop_first()[i - 1]);
            }
        }
    }
}

/// Markers come out sorted by position, as many as went in.
pub proof fn sorted_markers_are_in_order(ms: Seq<MarkerView>)
    ensures
        markers_in_order(sort_markers(ms)),
        sort_markers(ms).len() == ms.len(),
    decreases ms.len(),
{
    if ms.len() > 0 {
        let s = sort_markers(ms.drop_last());
        sorted_markers_are_in_order(ms.drop_last());
        let m = ms.last();
        lemma_marker_slot_splits(s, m.position);
        let p = marker_slot(s, m.position) as int;
        let r = s.insert(p, m);
        assert forall|i: int, j: int| 0 <= i < j < r.len() implies (#[trigger] r[i]).position <= (
        #[trigger] r[j]).position by {
            if j < p {
                assert(r[i] == s[i] && r[j] == s[j]);
            } else if j == p {
                assert(r[i] == s[i]);
            } else if i < p {
                assert(r[i] == s[i] && r[j] == s[j - 1]);
                assert(s[i].position <= s[j - 1].position);
            } else if i == p {
                assert(r[j] == s[j - 1]);
                assert(s[p].position <= s[j - 1].position);
            } else {
                assert(r[i] == s[i - 1] && r[j] == s[j - 1]);
            }
        }
    }
}

proof fn lemma_guide_slot_splits(s: Seq<GuideView>, pos: i64)
    ensures
        guide_slot(s, pos) <= s.len(),
        forall|i: int| 0 <= i < guide_slot(s, pos) ==> (#[trigger] s[i]).position <= pos,
        guide_slot(s, pos) < s.len() ==> pos < s[guide_slot(s, pos) as int].position,
    decreases s.len(),
{
    if s.len() > 0 && !(pos < s[0].position) {
        lemma_guide_slot_splits(s.drop_first(), pos);
        assert forall|i: int| 0 <= i < guide_slot(s, pos) implies (#[trigger] s[i]).position <= pos by {
            if i > 0 {
                assert(s[i] == s.drop_first()[i - 1]);
            }
        }
    }
}

/// Guides come out sorted by position, as many as went in.
pub proof fn sorted_guides_are_in_order(gs: Seq<GuideView>)
    ensures
        guides_in_order(sort_guides(gs)),
        sort_guides(gs).len() == gs.len(),
    decreases gs.len(),
{
    if gs.len() > 0 {
        let s = sort_guides(gs.drop_last());
        sorted_guides_are_in_order(gs.drop_last());
        let g = gs.last();
        lemma_guide_slot_splits(s, g.position);
        let p = guide_slot(s, g.position) as int;
        let r = s.insert(p, g);
        assert forall|i: int, j: int| 0 <= i < j < r.len() implies (#[trigger] r[i]).position <= (
        #[trigger] r[j]).position by {
            if j < p {
                assert(r[i] == s[i] && r[j] == s[j]);
            } else if j == p {
                assert(r[i] == s[i]);
            } else if i < p {
                assert(r[i] == s[i] && r[j] == s[j - 1]);
                assert(s[i].position <= s[j - 1].position);
            } else if i == p {
                assert(r[j] == s[j - 1]);
                assert(s[p].position <= s[j - 1].position);
            } else {
                assert(r[i] == s[i - 1] && r[j] == s[j - 1]);
            }
        }
    }
}

} // verus!
