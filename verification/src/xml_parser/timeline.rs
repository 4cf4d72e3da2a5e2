//! Sequences, tracks and the clips on them.
//!
//! A sequence is a `<tractor>` carrying a `kdenlive:uuid`. Its `<track>`
//! children name the per-track tractors, and each of those wraps two
//! `<playlist>` lanes so that same-track mixes have somewhere to live. A
//! clip's position is implicit: entries and blanks lay end to end, so the
//! running total of what came before is where the next clip starts.

use vstd::prelude::*;

use crate::keys::{insert_key, key_set, lemma_key_set_members, lemma_key_set_sorted, strictly_sorted, strs};
use crate::model::{
    Effect, EffectView, Frames, Sequence, SequenceView, TimelineClip, TimelineClipView, Track, TrackKind,
    TrackView, clip_params_in_order, clip_views, effect_views, params_in_order, sequence_params_in_order,
    sequence_views, track_params_in_order, track_views,
};
use crate::seqs::{fold_ok, lemma_fold_ok_keeps, lemma_fold_ok_step, lemma_fold_ok_stops, lemma_fold_ok_whole};
use crate::text::{
    debug_quoted, debug_text, decimal, decimal_string, owned, pair_views, str_less, str_same, text_lt,
};
use crate::xml::{
    attr_of, has_tag, lemma_tagged_in_range, node_views, outline_ok, property, property_of, tagged,
    tagged_children, XmlNode, XmlNodeView,
};
use super::index::{find_playlist, find_producer, id_attr, last_playlist, last_producer};
use super::markers::{markers_of, read_markers, text_or_empty};
use super::readers::{number_reader, read_time, time_of, time_reader};
use super::{ParseError, ParseErrorView};

verus! {

// ---------------------------------------------------------------------------
// Effects.

/// MLT and Kdenlive bookkeeping that changes without the project changing.
/// Dropping these keeps a save with no real edits from producing a diff.
pub open spec fn ignored_param(k: Seq<char>) -> bool {
    k == "kdenlive:collapsed"@ || k == "kdenlive_id"@ || k == "mlt_service"@ || k == "shotcut:filter"@ || k
        == "_loaded"@ || k == "internal_added"@
}

/// The parameters the `<property>` elements `ps` of a filter set, in order.
pub open spec fn param_entries(ns: Seq<XmlNodeView>, ps: Seq<usize>) -> Seq<(Seq<char>, Seq<char>)>
    decreases ps.len(),
{
    if ps.len() == 0 {
        Seq::empty()
    } else {
        let rest = param_entries(ns, ps.drop_last());
        let p = ps.last();
        match attr_of(ns[p as int].attrs, "name"@) {
            None => rest,
            Some(k) => if ignored_param(k) {
                rest
            } else {
                rest.push((k, text_or_empty(ns[p as int].text)))
            },
        }
    }
}

/// The value of the last entry for `key`.
pub open spec fn last_value(es: Seq<(Seq<char>, Seq<char>)>, key: Seq<char>) -> Option<Seq<char>>
    decreases es.len(),
{
    if es.len() == 0 {
        None
    } else if es.last().0 == key {
        Some(es.last().1)
    } else {
        last_value(es.drop_last(), key)
    }
}

pub open spec fn entry_keys(es: Seq<(Seq<char>, Seq<char>)>) -> Seq<Seq<char>> {
    es.map_values(|e: (Seq<char>, Seq<char>)| e.0)
}

/// The entries as a map: one per key in key order, the last value winning,
/// and without the `disable` key, which is not a parameter but a switch.
pub open spec fn params_of(es: Seq<(Seq<char>, Seq<char>)>) -> Seq<(Seq<char>, Seq<char>)> {
    param_keys(key_set(entry_keys(es))).map_values(|k: Seq<char>| (k, last_value(es, k)->0))
}

/// `ks` without `disable`.
pub open spec fn param_keys(ks: Seq<Seq<char>>) -> Seq<Seq<char>>
    decreases ks.len(),
{
    if ks.len() == 0 {
        Seq::empty()
    } else if ks.last() == "disable"@ {
        param_keys(ks.drop_last())
    } else {
        param_keys(ks.drop_last()).push(ks.last())
    }
}

/// The effect a `<filter>` element describes, if it is one: filters without
/// an `mlt_service` are not effects, and filters Kdenlive adds on its own
/// behalf (`internal_added`) are not user edits.
pub open spec fn effect_at(ns: Seq<XmlNodeView>, f: usize) -> Option<EffectView> {
    match property_of(ns, f, "mlt_service"@) {
        None => None,
        Some(service) => if property_of(ns, f, "internal_added"@) is Some {
            None
        } else {
            let es = param_entries(ns, tagged(ns, ns[f as int].children, "property"@));
            Some(
                EffectView {
                    name: match property_of(ns, f, "kdenlive_id"@) {
                        Some(n) => n,
                        None => service,
                    },
                    service,
                    disabled: last_value(es, "disable"@) == Some("1"@),
                    params: params_of(es),
                },
            )
        },
    }
}

pub open spec fn effects_in(ns: Seq<XmlNodeView>, fs: Seq<usize>) -> Seq<EffectView>
    decreases fs.len(),
{
    if fs.len() == 0 {
        Seq::empty()
    } else {
        match effect_at(ns, fs.last()) {
            Some(e) => effects_in(ns, fs.drop_last()).push(e),
            None => effects_in(ns, fs.drop_last()),
        }
    }
}

/// The effects of timeline entry `e`: its `<filter>` children.
pub open spec fn effects_of(ns: Seq<XmlNodeView>, e: usize) -> Seq<EffectView> {
    effects_in(ns, tagged(ns, ns[e as int].children, "filter"@))
}

fn ignored(k: &str) -> (r: bool)
    ensures
        r == ignored_param(k@),
{
    str_same(k, "kdenlive:collapsed") || str_same(k, "kdenlive_id") || str_same(k, "mlt_service") || str_same(
        k,
        "shotcut:filter",
    ) || str_same(k, "_loaded") || str_same(k, "internal_added")
}

fn last_value_of(es: &Vec<(String, String)>, key: &str) -> (r: Option<usize>)
    ensures
        r matches Some(i) ==> i < es.len() && last_value(pair_views(es@), key@) == Some(es@[i as int].1@),
        r is None ==> last_value(pair_views(es@), key@) is None,
{
    let ghost v = pair_views(es@);
    let mut k: usize = es.len();
    assert(v.take(k as int) =~= v);
    while k > 0
        invariant
            v == pair_views(es@),
            k <= es.len(),
            last_value(v, key@) == last_value(v.take(k as int), key@),
        decreases k,
    {
        assert(v.take(k as int).last() == (es@[k - 1].0@, es@[k - 1].1@));
        assert(v.take(k as int).drop_last() =~= v.take(k - 1));
        if str_same(es[k - 1].0.as_str(), key) {
            return Some(k - 1);
        }
        k = k - 1;
    }
    None
}

proof fn lemma_last_value_found(es: Seq<(Seq<char>, Seq<char>)>, key: Seq<char>, w: int)
    requires
        0 <= w < es.len(),
        es[w].0 == key,
    ensures
        last_value(es, key) is Some,
    decreases es.len(),
{
    if es.last().0 != key {
        lemma_last_value_found(es.drop_last(), key, w);
    }
}

fn read_effect(nodes: &Vec<XmlNode>, f: usize) -> (r: Option<Effect>)
    requires
        f < nodes.len(),
        outline_ok(node_views(nodes@)),
    ensures
        r matches Some(e) ==> effect_at(node_views(nodes@), f) == Some(e@),
        r is None ==> effect_at(node_views(nodes@), f) is None,
{
    let ghost ns = node_views(nodes@);
    let service = match property(nodes, f, "mlt_service") {
        None => {
            return None;
        },
        Some(s) => s,
    };
    if property(nodes, f, "internal_added").is_some() {
        return None;
    }
    let name = match property(nodes, f, "kdenlive_id") {
        Some(n) => n,
        None => service.clone(),
    };
    let ps = tagged_children(nodes, f, "property");
    proof {
        lemma_tagged_in_range(ns, ns[f as int].children, "property"@);
    }
    let ghost psv = ps@;
    let mut es: Vec<(String, String)> = Vec::new();
    let mut k: usize = 0;
    assert(psv.take(0) =~= Seq::<usize>::empty());
    assert(pair_views(es@) =~= Seq::<(Seq<char>, Seq<char>)>::empty());
    while k < ps.len()
        invariant
            ns == node_views(nodes@),
            psv == ps@,
            forall|j: int| 0 <= j < psv.len() ==> (#[trigger] psv[j]) < ns.len(),
            k <= ps.len(),
            pair_views(es@) == param_entries(ns, psv.take(k as int)),
        decreases ps.len() - k,
    {
        let p = ps[k];
        assert(psv.take(k + 1).drop_last() =~= psv.take(k as int));
        assert(psv.take(k + 1).last() == p);
        assert(ns[p as int] == nodes@[p as int]@);
        match nodes[p].attribute("name") {
            None => {},
            Some(key) => {
                if !ignored(key) {
                    let value = match &nodes[p].text {
                        Some(t) => t.clone(),
                        None => String::new(),
                    };
                    let ghost prev = pair_views(es@);
                    let entry = (owned(key), value);
                    let ghost ev = (entry.0@, entry.1@);
                    es.push(entry);
                    assert(pair_views(es@) =~= prev.push(ev));
                }
            },
        }
        k = k + 1;
    }
    assert(psv.take(ps.len() as int) =~= psv);
    let ghost ev = pair_views(es@);
    assert(ev == param_entries(ns, tagged(ns, ns[f as int].children, "property"@)));
    // Key the entries.
    let mut keys: Vec<String> = Vec::new();
    let mut i: usize = 0;
    assert(entry_keys(ev).take(0) =~= Seq::<Seq<char>>::empty());
    assert(strs(keys@) =~= Seq::<Seq<char>>::empty());
    while i < es.len()
        invariant
            ev == pair_views(es@),
            i <= es.len(),
            strs(keys@) == key_set(entry_keys(ev).take(i as int)),
        decreases es.len() - i,
    {
        let ghost b = entry_keys(ev);
        assert(b.take(i + 1).drop_last() =~= b.take(i as int));
        assert(b.take(i + 1).last() == es@[i as int].0@);
        insert_key(&mut keys, es[i].0.as_str());
        i = i + 1;
    }
    assert(entry_keys(ev).take(es.len() as int) =~= entry_keys(ev));
    proof {
        lemma_key_set_members(entry_keys(ev));
    }
    let ghost kv = strs(keys@);
    let mut params: Vec<(String, String)> = Vec::new();
    let mut j: usize = 0;
    assert(kv.take(0) =~= Seq::<Seq<char>>::empty());
    while j < keys.len()
        invariant
            ev == pair_views(es@),
            kv == strs(keys@),
            kv == key_set(entry_keys(ev)),
            forall|x: Seq<char>| #[trigger] key_set(entry_keys(ev)).contains(x) <==> entry_keys(ev).contains(x),
            j <= keys.len(),
            pair_views(params@) == param_keys(kv.take(j as int)).map_values(
                |k: Seq<char>| (k, last_value(ev, k)->0),
            ),
        decreases keys.len() - j,
    {
        let key = keys[j].as_str();
        assert(kv.take(j + 1).drop_last() =~= kv.take(j as int));
        assert(kv.take(j + 1).last() == key@);
        let ghost fj = param_keys(kv.take(j as int));
        if !str_same(key, "disable") {
            assert(kv.contains(kv[j as int]));
            let w = last_value_of(&es, key);
            proof {
                if w is None {
                    let x = choose|x: int| 0 <= x < entry_keys(ev).len() && entry_keys(ev)[x] == key@;
                    lemma_last_value_found(ev, key@, x);
                }
            }
            let pos = w.unwrap();
            let ghost prev = pair_views(params@);
            let entry = (keys[j].clone(), es[pos].1.clone());
            let ghost pv = (entry.0@, entry.1@);
            params.push(entry);
            assert(pair_views(params@) =~= prev.push(pv));
            assert(pv == (key@, last_value(ev, key@)->0));
            assert(prev.push(pv) =~= fj.push(key@).map_values(|k: Seq<char>| (k, last_value(ev, k)->0)));
        }
        j = j + 1;
    }
    assert(kv.take(keys.len() as int) =~= kv);
    let disabled = match last_value_of(&es, "disable") {
        Some(pos) => str_same(es[pos].1.as_str(), "1"),
        None => false,
    };
    Some(Effect { name, service, disabled, params })
}

fn read_effects(nodes: &Vec<XmlNode>, e: usize) -> (r: Vec<Effect>)
    requires
        e < nodes.len(),
        outline_ok(node_views(nodes@)),
    ensures
        effect_views(r@) == effects_of(node_views(nodes@), e),
{
    let ghost ns = node_views(nodes@);
    let fs = tagged_children(nodes, e, "filter");
    proof {
        lemma_tagged_in_range(ns, ns[e as int].children, "filter"@);
    }
    let ghost fv = fs@;
    let mut out: Vec<Effect> = Vec::new();
    let mut k: usize = 0;
    assert(fv.take(0) =~= Seq::<usize>::empty());
    assert(effect_views(out@) =~= Seq::<EffectView>::empty());
    while k < fs.len()
        invariant
            ns == node_views(nodes@),
            outline_ok(ns),
            fv == fs@,
            forall|j: int| 0 <= j < fv.len() ==> (#[trigger] fv[j]) < ns.len(),
            k <= fs.len(),
            effect_views(out@) == effects_in(ns, fv.take(k as int)),
        decreases fs.len() - k,
    {
        let f = fs[k];
        assert(fv.take(k + 1).drop_last() =~= fv.take(k as int));
        assert(fv.take(k + 1).last() == f);
        match read_effect(nodes, f) {
            Some(x) => {
                let ghost prev = effect_views(out@);
                let ghost xv = x@;
                out.push(x);
                assert(effect_views(out@) =~= prev.push(xv));
            },
            None => {},
        }
        k = k + 1;
    }
    assert(fv.take(fs.len() as int) =~= fv);
    out
}

// ---------------------------------------------------------------------------
// Entries and lanes.

/// The time attribute `name` of entry `e`, in frames.
pub open spec fn point_of<T: Fn(&str, u32, u32) -> Result<i64, &'static str>>(
    ns: Seq<XmlNodeView>,
    e: usize,
    name: Seq<char>,
    ctx: Seq<char>,
    t: T,
    num: u32,
    den: u32,
) -> Result<i64, ParseErrorView> {
    match attr_of(ns[e as int].attrs, name) {
        None => Err(
            ParseErrorView::BadTimecode { context: ctx, value: Seq::empty(), reason: "missing in/out attribute"@ },
        ),
        Some(raw) => match time_of(t, raw, num, den) {
            Ok(v) => Ok(v),
            Err(reason) => Err(ParseErrorView::BadTimecode { context: ctx, value: raw, reason }),
        },
    }
}

/// How an error names an entry: `<entry producer="...">` and its playlist.
pub open spec fn entry_context(prod: Seq<char>, pid: Seq<char>) -> Seq<char> {
    "<entry producer="@ + debug_text(prod) + "> in "@ + pid
}

/// The bin clip an entry plays: its own `kdenlive:id`, else that of the
/// producer it names.
pub open spec fn entry_bin(ns: Seq<XmlNodeView>, kids: Seq<usize>, e: usize, prod: Seq<char>) -> Option<Seq<char>> {
    match property_of(ns, e, "kdenlive:id"@) {
        Some(k) => Some(k),
        None => match last_producer(ns, kids, prod) {
            Some(p) => property_of(ns, p, "kdenlive:id"@),
            None => None,
        },
    }
}

/// The clip entry `e` of playlist `pid` places at `position`.
pub open spec fn entry_at<T: Fn(&str, u32, u32) -> Result<i64, &'static str>>(
    ns: Seq<XmlNodeView>,
    kids: Seq<usize>,
    e: usize,
    pid: Seq<char>,
    position: i64,
    t: T,
    num: u32,
    den: u32,
) -> Result<TimelineClipView, ParseErrorView> {
    match attr_of(ns[e as int].attrs, "producer"@) {
        None => Err(ParseErrorView::DanglingProducer("<entry> in "@ + pid)),
        Some(prod) => match entry_bin(ns, kids, e, prod) {
            None => Err(ParseErrorView::DanglingProducer(prod)),
            Some(bin_id) => {
                let ctx = entry_context(prod, pid);
                match point_of(ns, e, "in"@, ctx, t, num, den) {
                    Err(x) => Err(x),
                    Ok(i) => match point_of(ns, e, "out"@, ctx, t, num, den) {
                        Err(x) => Err(x),
                        Ok(o) => Ok(
                            TimelineClipView {
                                bin_id,
                                position,
                                source_in: i,
                                source_out: o,
                                effects: effects_of(ns, e),
                            },
                        ),
                    },
                }
            },
        },
    }
}

/// Where a clip ends: its position plus its length `out - in + 1`, in the
/// wrapping arithmetic of an optimised build.
pub open spec fn clip_end(c: TimelineClipView) -> i64 {
    c.position.wrapping_add(c.source_out.wrapping_sub(c.source_in).wrapping_add(1))
}

/// One child of a playlist: a blank moves the playhead by its length, an
/// entry is a clip at the playhead and moves it to the clip's end.
pub open spec fn lane_step<T: Fn(&str, u32, u32) -> Result<i64, &'static str>>(
    ns: Seq<XmlNodeView>,
    kids: Seq<usize>,
    pid: Seq<char>,
    t: T,
    num: u32,
    den: u32,
) -> spec_fn((Seq<TimelineClipView>, i64), usize) -> Result<(Seq<TimelineClipView>, i64), ParseErrorView> {
    |st: (Seq<TimelineClipView>, i64), c: usize|
        if has_tag(ns, c, "blank"@) {
            match attr_of(ns[c as int].attrs, "length"@) {
                None => Err(
                    ParseErrorView::BadTimecode {
                        context: "blank in "@ + pid,
                        value: Seq::empty(),
                        reason: "missing length attribute"@,
                    },
                ),
                Some(len) => match time_of(t, len, num, den) {
                    Err(reason) => Err(
                        ParseErrorView::BadTimecode { context: "blank in "@ + pid, value: len, reason },
                    ),
                    Ok(n) => Ok((st.0, st.1.wrapping_add(n))),
                },
            }
        } else if has_tag(ns, c, "entry"@) {
            match entry_at(ns, kids, c, pid, st.1, t, num, den) {
                Err(x) => Err(x),
                Ok(clip) => Ok((st.0.push(clip), clip_end(clip))),
            }
        } else {
            Ok(st)
        }
}

/// The clips of playlist `pl`, in the order they lie.
pub open spec fn lane_clips<T: Fn(&str, u32, u32) -> Result<i64, &'static str>>(
    ns: Seq<XmlNodeView>,
    kids: Seq<usize>,
    pl: usize,
    pid: Seq<char>,
    t: T,
    num: u32,
    den: u32,
) -> Result<Seq<TimelineClipView>, ParseErrorView> {
    match fold_ok(ns[pl as int].children, (Seq::<TimelineClipView>::empty(), 0i64), lane_step(ns, kids, pid, t, num, den)) {
        Ok(st) => Ok(st.0),
        Err(e) => Err(e),
    }
}

fn entry_context_text(prod: &str, pid: &str) -> (r: String)
    ensures
        r@ == entry_context(prod@, pid@),
{
    let mut r = owned("<entry producer=");
    r.append(debug_quoted(prod).as_str());
    r.append("> in ");
    r.append(pid);
    r
}

fn read_point<T: Fn(&str, u32, u32) -> Result<i64, &'static str>>(
    nodes: &Vec<XmlNode>,
    e: usize,
    name: &str,
    prod: &str,
    pid: &str,
    t: &T,
    num: u32,
    den: u32,
) -> (r: Result<i64, ParseError>)
    requires
        e < nodes.len(),
        time_reader(*t),
    ensures
        r matches Ok(v) ==> point_of(node_views(nodes@), e, name@, entry_context(prod@, pid@), *t, num, den)
            == Ok::<i64, ParseErrorView>(v),
        r matches Err(x) ==> point_of(node_views(nodes@), e, name@, entry_context(prod@, pid@), *t, num, den)
            == Err::<i64, ParseErrorView>(x@),
{
    let ghost ns = node_views(nodes@);
    assert(ns[e as int] == nodes@[e as int]@);
    match nodes[e].attribute(name) {
        None => Err(
            ParseError::BadTimecode {
                context: entry_context_text(prod, pid),
                value: String::new(),
                reason: "missing in/out attribute",
            },
        ),
        Some(raw) => match read_time(t, raw, num, den) {
            Ok(v) => Ok(v),
            Err(reason) => Err(
                ParseError::BadTimecode { context: entry_context_text(prod, pid), value: owned(raw), reason },
            ),
        },
    }
}

fn read_entry<T: Fn(&str, u32, u32) -> Result<i64, &'static str>>(
    nodes: &Vec<XmlNode>,
    root: usize,
    e: usize,
    pid: &str,
    position: i64,
    t: &T,
    num: u32,
    den: u32,
) -> (r: Result<TimelineClip, ParseError>)
    requires
        root < nodes.len(),
        e < nodes.len(),
        outline_ok(node_views(nodes@)),
        time_reader(*t),
    ensures
        r matches Ok(c) ==> entry_at(
            node_views(nodes@),
            node_views(nodes@)[root as int].children,
            e,
            pid@,
            position,
            *t,
            num,
            den,
        ) == Ok::<TimelineClipView, ParseErrorView>(c@),
        r matches Err(x) ==> entry_at(
            node_views(nodes@),
            node_views(nodes@)[root as int].children,
            e,
            pid@,
            position,
            *t,
            num,
            den,
        ) == Err::<TimelineClipView, ParseErrorView>(x@),
{
    let ghost ns = node_views(nodes@);
    assert(ns[e as int] == nodes@[e as int]@);
    let prod = match nodes[e].attribute("producer") {
        None => {
            let mut m = owned("<entry> in ");
            m.append(pid);
            return Err(ParseError::DanglingProducer(m));
        },
        Some(p) => p,
    };
    let bin_id = match property(nodes, e, "kdenlive:id") {
        Some(k) => k,
        None => {
            let found = match find_producer(nodes, root, prod) {
                Some(p) => property(nodes, p, "kdenlive:id"),
                None => None,
            };
            match found {
                Some(k) => k,
                None => {
                    return Err(ParseError::DanglingProducer(owned(prod)));
                },
            }
        },
    };
    let source_in = match read_point(nodes, e, "in", prod, pid, t, num, den) {
        Ok(v) => v,
        Err(x) => {
            return Err(x);
        },
    };
    let source_out = match read_point(nodes, e, "out", prod, pid, t, num, den) {
        Ok(v) => v,
        Err(x) => {
            return Err(x);
        },
    };
    let effects = read_effects(nodes, e);
    Ok(TimelineClip { bin_id, position, source_in, source_out, effects })
}

fn read_lane<T: Fn(&str, u32, u32) -> Result<i64, &'static str>>(
    nodes: &Vec<XmlNode>,
    root: usize,
    pl: usize,
    pid: &str,
    t: &T,
    num: u32,
    den: u32,
) -> (r: Result<Vec<TimelineClip>, ParseError>)
    requires
        root < nodes.len(),
        pl < nodes.len(),
        outline_ok(node_views(nodes@)),
        time_reader(*t),
    ensures
        r matches Ok(cs) ==> lane_clips(
            node_views(nodes@),
            node_views(nodes@)[root as int].children,
            pl,
            pid@,
            *t,
            num,
            den,
        ) == Ok::<Seq<TimelineClipView>, ParseErrorView>(clip_views(cs@)),
        r matches Err(x) ==> lane_clips(
            node_views(nodes@),
            node_views(nodes@)[root as int].children,
            pl,
            pid@,
            *t,
            num,
            den,
        ) == Err::<Seq<TimelineClipView>, ParseErrorView>(x@),
{
    let ghost ns = node_views(nodes@);
    let ghost kids = ns[root as int].children;
    let ghost step = lane_step(ns, kids, pid@, *t, num, den);
    let ghost init = (Seq::<TimelineClipView>::empty(), 0i64);
    let items = &nodes[pl].children;
    let ghost iv = items@;
    assert(iv == ns[pl as int].children);
    let mut out: Vec<TimelineClip> = Vec::new();
    let mut playhead: i64 = 0;
    let mut k: usize = 0;
    assert(iv.take(0) =~= Seq::<usize>::empty());
    assert(clip_views(out@) =~= Seq::<TimelineClipView>::empty());
    while k < items.len()
        invariant
            ns == node_views(nodes@),
            kids == ns[root as int].children,
            root < nodes.len(),
            pl < nodes.len(),
            outline_ok(ns),
            time_reader(*t),
            iv == items@,
            iv == ns[pl as int].children,
            step == lane_step(ns, kids, pid@, *t, num, den),
            init == (Seq::<TimelineClipView>::empty(), 0i64),
            k <= items.len(),
            fold_ok(iv.take(k as int), init, step) == Ok::<(Seq<TimelineClipView>, i64), ParseErrorView>(
                (clip_views(out@), playhead),
            ),
        decreases items.len() - k,
    {
        proof {
            lemma_fold_ok_step(iv, init, step, k as int);
        }
        let c = items[k];
        assert(c < ns.len());
        assert(ns[c as int] == nodes@[c as int]@);
        if nodes[c].element && str_same(nodes[c].name.as_str(), "blank") {
            match nodes[c].attribute("length") {
                None => {
                    proof {
                        lemma_fold_ok_stops(iv, init, step, k + 1);
                    }
                    let mut ctx = owned("blank in ");
                    ctx.append(pid);
                    return Err(
                        ParseError::BadTimecode { context: ctx, value: String::new(), reason: "missing length attribute" },
                    );
                },
                Some(len) => match read_time(t, len, num, den) {
                    Err(reason) => {
                        proof {
                            lemma_fold_ok_stops(iv, init, step, k + 1);
                        }
                        let mut ctx = owned("blank in ");
                        ctx.append(pid);
                        return Err(ParseError::BadTimecode { context: ctx, value: owned(len), reason });
                    },
                    Ok(n) => {
                        playhead = playhead.wrapping_add(n);
                    },
                },
            }
        } else if nodes[c].element && str_same(nodes[c].name.as_str(), "entry") {
            match read_entry(nodes, root, c, pid, playhead, t, num, den) {
                Err(x) => {
                    proof {
                        lemma_fold_ok_stops(iv, init, step, k + 1);
                    }
                    return Err(x);
                },
                Ok(clip) => {
                    let end = clip.position.wrapping_add(
                        clip.source_out.wrapping_sub(clip.source_in).wrapping_add(1),
                    );
                    let ghost prev = clip_views(out@);
                    let ghost cv = clip@;
                    out.push(clip);
                    assert(clip_views(out@) =~= prev.push(cv));
                    playhead = end;
                },
            }
        }
        k = k + 1;
    }
    proof {
        lemma_fold_ok_whole(iv, init, step);
    }
    Ok(out)
}

// ---------------------------------------------------------------------------
// The clips of a track.

/// How an error names a track tractor: its id, or `?`.
pub open spec fn track_id(ns: Seq<XmlNodeView>, tt: usize) -> Seq<char> {
    match id_attr(ns, tt) {
        Some(i) => i,
        None => "?"@,
    }
}

/// One `<track>` child of a track tractor: the clips of the playlist it
/// names, after those of the lanes before it.
pub open spec fn lanes_step<T: Fn(&str, u32, u32) -> Result<i64, &'static str>>(
    ns: Seq<XmlNodeView>,
    kids: Seq<usize>,
    tid: Seq<char>,
    t: T,
    num: u32,
    den: u32,
) -> spec_fn(Seq<TimelineClipView>, usize) -> Result<Seq<TimelineClipView>, ParseErrorView> {
    |acc: Seq<TimelineClipView>, r: usize|
        match attr_of(ns[r as int].attrs, "producer"@) {
            None => Ok(acc),
            Some(pid) => match last_playlist(ns, kids, pid) {
                None => Err(ParseErrorView::DanglingPlaylist(tid, pid)),
                Some(pl) => match lane_clips(ns, kids, pl, pid, t, num, den) {
                    Err(e) => Err(e),
                    Ok(cs) => Ok(acc + cs),
                },
            },
        }
}

/// Clip order on a track: by position, then by bin id.
pub open spec fn clip_before(a: TimelineClipView, b: TimelineClipView) -> bool {
    a.position < b.position || (a.position == b.position && text_lt(a.bin_id, b.bin_id))
}

/// Where clip `c` goes in `sorted`: after every clip not after it.
pub open spec fn clip_slot(sorted: Seq<TimelineClipView>, c: TimelineClipView) -> nat
    decreases sorted.len(),
{
    if sorted.len() == 0 || clip_before(c, sorted[0]) {
        0
    } else {
        1 + clip_slot(sorted.drop_first(), c)
    }
}

/// `cs` in clip order, stably: what `sort_by_key` gives.
pub open spec fn sort_clips(cs: Seq<TimelineClipView>) -> Seq<TimelineClipView>
    decreases cs.len(),
{
    if cs.len() == 0 {
        Seq::empty()
    } else {
        let s = sort_clips(cs.drop_last());
        s.insert(clip_slot(s, cs.last()) as int, cs.last())
    }
}

/// The clips of track tractor `tt`: both lanes merged, in clip order.
pub open spec fn track_clips<T: Fn(&str, u32, u32) -> Result<i64, &'static str>>(
    ns: Seq<XmlNodeView>,
    kids: Seq<usize>,
    tt: usize,
    t: T,
    num: u32,
    den: u32,
) -> Result<Seq<TimelineClipView>, ParseErrorView> {
    match fold_ok(
        tagged(ns, ns[tt as int].children, "track"@),
        Seq::<TimelineClipView>::empty(),
        lanes_step(ns, kids, track_id(ns, tt), t, num, den),
    ) {
        Ok(cs) => Ok(sort_clips(cs)),
        Err(e) => Err(e),
    }
}

proof fn lemma_clip_slot_le(s: Seq<TimelineClipView>, c: TimelineClipView)
    ensures
        clip_slot(s, c) <= s.len(),
    decreases s.len(),
{
    if s.len() > 0 && !clip_before(c, s[0]) {
        lemma_clip_slot_le(s.drop_first(), c);
    }
}

fn clip_less(a: &TimelineClip, b: &TimelineClip) -> (r: bool)
    ensures
        r == clip_before(a@, b@),
{
    a.position < b.position || (a.position == b.position && str_less(a.bin_id.as_str(), b.bin_id.as_str()))
}

fn sort_clip_vec(cs: Vec<TimelineClip>) -> (r: Vec<TimelineClip>)
    ensures
        clip_views(r@) == sort_clips(clip_views(cs@)),
{
    let ghost cv = clip_views(cs@);
    assert(cv.len() == cs.len());
    let mut out: Vec<TimelineClip> = Vec::new();
    let mut rest = cs;
    let mut taken: usize = 0;
    assert(cv.skip(0) =~= cv);
    assert(cv.take(0) =~= Seq::<TimelineClipView>::empty());
    while rest.len() > 0
        invariant
            clip_views(rest@) == cv.skip(taken as int),
            taken <= cv.len() <= usize::MAX,
            clip_views(out@) == sort_clips(cv.take(taken as int)),
        decreases rest.len(),
    {
        let ghost before = rest@;
        assert(clip_views(rest@).len() == rest@.len());
        assert(cv.skip(taken as int).len() == cv.len() - taken);
        assert(taken < cv.len());
        let c = rest.remove(0);
        assert(cv.skip(taken as int)[0] == c@);
        assert(rest@ =~= before.drop_first());
        assert(clip_views(rest@) =~= clip_views(before).drop_first());
        assert(clip_views(rest@) =~= cv.skip(taken + 1));
        let ghost s = clip_views(out@);
        proof {
            lemma_clip_slot_le(s, c@);
        }
        let mut i: usize = 0;
        assert(s.skip(0) =~= s);
        while i < out.len() && !clip_less(&c, &out[i])
            invariant
                s == clip_views(out@),
                i <= out.len(),
                clip_slot(s, c@) == i + clip_slot(s.skip(i as int), c@),
            decreases out.len() - i,
        {
            assert(s.skip(i as int)[0] == out@[i as int]@);
            assert(s.skip(i as int).drop_first() =~= s.skip(i + 1));
            i = i + 1;
        }
        assert(clip_slot(s, c@) == i) by {
            if i < out.len() {
                assert(s.skip(i as int)[0] == out@[i as int]@);
            }
        }
        let ghost view = c@;
        out.insert(i, c);
        assert(clip_views(out@) =~= s.insert(i as int, view));
        assert(cv.take(taken + 1).drop_last() =~= cv.take(taken as int));
        assert(cv.take(taken + 1).last() == view);
        taken = taken + 1;
    }
    assert(cv.take(taken as int) =~= cv);
    out
}

fn read_track_clips<T: Fn(&str, u32, u32) -> Result<i64, &'static str>>(
    nodes: &Vec<XmlNode>,
    root: usize,
    tt: usize,
    t: &T,
    num: u32,
    den: u32,
) -> (r: Result<Vec<TimelineClip>, ParseError>)
    requires
        root < nodes.len(),
        tt < nodes.len(),
        outline_ok(node_views(nodes@)),
        time_reader(*t),
    ensures
        r matches Ok(cs) ==> track_clips(node_views(nodes@), node_views(nodes@)[root as int].children, tt, *t, num, den)
            == Ok::<Seq<TimelineClipView>, ParseErrorView>(clip_views(cs@)),
        r matches Err(x) ==> track_clips(node_views(nodes@), node_views(nodes@)[root as int].children, tt, *t, num, den)
            == Err::<Seq<TimelineClipView>, ParseErrorView>(x@),
{
    let ghost ns = node_views(nodes@);
    let ghost kids = ns[root as int].children;
    assert(ns[tt as int] == nodes@[tt as int]@);
    let tid = match nodes[tt].attribute("id") {
        Some(i) => owned(i),
        None => owned("?"),
    };
    let ghost step = lanes_step(ns, kids, tid@, *t, num, den);
    let items = tagged_children(nodes, tt, "track");
    proof {
        lemma_tagged_in_range(ns, ns[tt as int].children, "track"@);
    }
    let ghost iv = items@;
    let mut acc: Vec<TimelineClip> = Vec::new();
    let mut k: usize = 0;
    assert(iv.take(0) =~= Seq::<usize>::empty());
    assert(clip_views(acc@) =~= Seq::<TimelineClipView>::empty());
    while k < items.len()
        invariant
            ns == node_views(nodes@),
            kids == ns[root as int].children,
            root < nodes.len(),
            outline_ok(ns),
            time_reader(*t),
            iv == items@,
            tt < nodes.len(),
            iv == tagged(ns, ns[tt as int].children, "track"@),
            tid@ == track_id(ns, tt),
            forall|j: int| 0 <= j < iv.len() ==> (#[trigger] iv[j]) < ns.len(),
            step == lanes_step(ns, kids, tid@, *t, num, den),
            k <= items.len(),
            fold_ok(iv.take(k as int), Seq::<TimelineClipView>::empty(), step) == Ok::<
                Seq<TimelineClipView>,
                ParseErrorView,
            >(clip_views(acc@)),
        decreases items.len() - k,
    {
        proof {
            lemma_fold_ok_step(iv, Seq::<TimelineClipView>::empty(), step, k as int);
        }
        let r = items[k];
        assert(ns[r as int] == nodes@[r as int]@);
        match nodes[r].attribute("producer") {
            None => {},
            Some(pid) => match find_playlist(nodes, root, pid) {
                None => {
                    proof {
                        lemma_fold_ok_stops(iv, Seq::<TimelineClipView>::empty(), step, k + 1);
                    }
                    return Err(ParseError::DanglingPlaylist(tid.clone(), owned(pid)));
                },
                Some(pl) => match read_lane(nodes, root, pl, pid, t, num, den) {
                    Err(x) => {
                        proof {
                            lemma_fold_ok_stops(iv, Seq::<TimelineClipView>::empty(), step, k + 1);
                        }
                        return Err(x);
                    },
                    Ok(lane) => {
                        let ghost prev = clip_views(acc@);
                        let ghost lv = clip_views(lane@);
                        let mut lane = lane;
                        acc.append(&mut lane);
                        assert(clip_views(acc@) =~= prev + lv);
                    },
                },
            },
        }
        k = k + 1;
    }
    proof {
        lemma_fold_ok_whole(iv, Seq::<TimelineClipView>::empty(), step);
    }
    Ok(sort_clip_vec(acc))
}

// ---------------------------------------------------------------------------
// Tracks and sequences.

/// The first of the tractors `trs` with id `id`.
pub open spec fn first_tractor(ns: Seq<XmlNodeView>, trs: Seq<usize>, id: Seq<char>) -> Option<usize>
    decreases trs.len(),
{
    if trs.len() == 0 {
        None
    } else if id_attr(ns, trs[0]) == Some(id) {
        Some(trs[0])
    } else {
        first_tractor(ns, trs.drop_first(), id)
    }
}

/// How many of `ts` are of kind `k`.
pub open spec fn count_kind(ts: Seq<TrackView>, k: TrackKind) -> nat
    decreases ts.len(),
{
    if ts.len() == 0 {
        0
    } else if ts.last().kind == k {
        count_kind(ts.drop_last(), k) + 1
    } else {
        count_kind(ts.drop_last(), k)
    }
}

/// The name of the next track of kind `k` after `ts`: video tracks are V1,
/// V2 and so on in file order, audio tracks A1, A2.
pub open spec fn track_name(ts: Seq<TrackView>, k: TrackKind) -> Seq<char> {
    match k {
        TrackKind::Video => "V"@ + decimal(count_kind(ts, TrackKind::Video) + 1),
        TrackKind::Audio => "A"@ + decimal(count_kind(ts, TrackKind::Audio) + 1),
    }
}

pub open spec fn track_kind(ns: Seq<XmlNodeView>, tt: usize) -> TrackKind {
    if property_of(ns, tt, "kdenlive:audio_track"@) == Some("1"@) {
        TrackKind::Audio
    } else {
        TrackKind::Video
    }
}

/// One `<track>` child of a sequence: the track tractor it names, unless it
/// names none (the black track is such a reference).
pub open spec fn tracks_step<T: Fn(&str, u32, u32) -> Result<i64, &'static str>>(
    ns: Seq<XmlNodeView>,
    kids: Seq<usize>,
    trs: Seq<usize>,
    t: T,
    num: u32,
    den: u32,
) -> spec_fn(Seq<TrackView>, usize) -> Result<Seq<TrackView>, ParseErrorView> {
    |acc: Seq<TrackView>, r: usize|
        match attr_of(ns[r as int].attrs, "producer"@) {
            None => Ok(acc),
            Some(pid) => match first_tractor(ns, trs, pid) {
                None => Ok(acc),
                Some(tt) => match track_clips(ns, kids, tt, t, num, den) {
                    Err(e) => Err(e),
                    Ok(clips) => Ok(
                        acc.push(
                            TrackView {
                                name: track_name(acc, track_kind(ns, tt)),
                                kind: track_kind(ns, tt),
                                locked: property_of(ns, tt, "kdenlive:locked_track"@) == Some("1"@),
                                clips,
                            },
                        ),
                    ),
                },
            },
        }
}

/// The tracks of kind `k` among `ts`, in order.
pub open spec fn of_kind(ts: Seq<TrackView>, k: TrackKind) -> Seq<TrackView>
    decreases ts.len(),
{
    if ts.len() == 0 {
        Seq::empty()
    } else if ts.last().kind == k {
        of_kind(ts.drop_last(), k).push(ts.last())
    } else {
        of_kind(ts.drop_last(), k)
    }
}

/// Kdenlive's timeline shows video tracks above audio tracks, V1 nearest
/// the middle and audio counting downward. The file lists tracks bottom-up,
/// so video tracks are shown in reverse and audio in file order.
pub open spec fn display_order(ts: Seq<TrackView>) -> Seq<TrackView> {
    of_kind(ts, TrackKind::Video).reverse() + of_kind(ts, TrackKind::Audio)
}

/// One tractor of the root: a sequence when it carries a `kdenlive:uuid`.
/// The final playback tractor and the per-track tractors carry none.
pub open spec fn sequence_step<T: Fn(&str, u32, u32) -> Result<i64, &'static str>, M: Fn(&str) -> (i64, i32)>(
    ns: Seq<XmlNodeView>,
    kids: Seq<usize>,
    trs: Seq<usize>,
    t: T,
    num: u32,
    den: u32,
    m: M,
) -> spec_fn(Seq<SequenceView>, usize) -> Result<Seq<SequenceView>, ParseErrorView> {
    |acc: Seq<SequenceView>, s: usize|
        match property_of(ns, s, "kdenlive:uuid"@) {
            None => Ok(acc),
            Some(uuid) => match fold_ok(
                tagged(ns, ns[s as int].children, "track"@),
                Seq::<TrackView>::empty(),
                tracks_step(ns, kids, trs, t, num, den),
            ) {
                Err(e) => Err(e),
                Ok(tracks) => match markers_of(ns, s, m) {
                    Err(e) => Err(e),
                    Ok(markers) => Ok(
                        acc.push(
                            SequenceView {
                                uuid,
                                name: property_of(ns, s, "kdenlive:clipname"@),
                                tracks: display_order(tracks),
                                markers,
                            },
                        ),
                    ),
                },
            },
        }
}

/// The sequences of a document whose root lists `kids`: the tractors among
/// them that carry a uuid, in order.
pub open spec fn sequences_in<T: Fn(&str, u32, u32) -> Result<i64, &'static str>, M: Fn(&str) -> (i64, i32)>(
    ns: Seq<XmlNodeView>,
    kids: Seq<usize>,
    t: T,
    num: u32,
    den: u32,
    m: M,
) -> Result<Seq<SequenceView>, ParseErrorView> {
    let trs = tagged(ns, kids, "tractor"@);
    fold_ok(trs, Seq::<SequenceView>::empty(), sequence_step(ns, kids, trs, t, num, den, m))
}

/// The sequences of the document whose root element is `root`.
pub open spec fn sequences_of<T: Fn(&str, u32, u32) -> Result<i64, &'static str>, M: Fn(&str) -> (i64, i32)>(
    ns: Seq<XmlNodeView>,
    root: usize,
    t: T,
    num: u32,
    den: u32,
    m: M,
) -> Result<Seq<SequenceView>, ParseErrorView> {
    sequences_in(ns, ns[root as int].children, t, num, den, m)
}

fn find_tractor(nodes: &Vec<XmlNode>, trs: &Vec<usize>, id: &str) -> (r: Option<usize>)
    requires
        forall|j: int| 0 <= j < trs@.len() ==> (#[trigger] trs@[j]) < nodes.len(),
    ensures
        r == first_tractor(node_views(nodes@), trs@, id@),
        r matches Some(c) ==> c < nodes.len(),
{
    let ghost ns = node_views(nodes@);
    let ghost tv = trs@;
    let mut k: usize = 0;
    assert(tv.skip(0) =~= tv);
    while k < trs.len()
        invariant
            ns == node_views(nodes@),
            tv == trs@,
            forall|j: int| 0 <= j < tv.len() ==> (#[trigger] tv[j]) < nodes.len(),
            k <= trs.len(),
            first_tractor(ns, tv, id@) == first_tractor(ns, tv.skip(k as int), id@),
        decreases trs.len() - k,
    {
        let c = trs[k];
        assert(tv.skip(k as int)[0] == c);
        assert(tv.skip(k as int).drop_first() =~= tv.skip(k + 1));
        assert(ns[c as int] == nodes@[c as int]@);
        let hit = match nodes[c].attribute("id") {
            Some(v) => str_same(v, id),
            None => false,
        };
        if hit {
            return Some(c);
        }
        k = k + 1;
    }
    None
}

proof fn lemma_count_kind_le(ts: Seq<TrackView>, k: TrackKind)
    ensures
        count_kind(ts, k) <= ts.len(),
    decreases ts.len(),
{
    if ts.len() > 0 {
        lemma_count_kind_le(ts.drop_last(), k);
    }
}

fn track_label(kind: TrackKind, n: usize) -> (r: String)
    ensures
        kind == TrackKind::Video ==> r@ == "V"@ + decimal(n as nat),
        kind == TrackKind::Audio ==> r@ == "A"@ + decimal(n as nat),
{
    let mut r = match kind {
        TrackKind::Video => owned("V"),
        TrackKind::Audio => owned("A"),
    };
    r.append(decimal_string(n as u64).as_str());
    r
}

fn read_tracks<T: Fn(&str, u32, u32) -> Result<i64, &'static str>>(
    nodes: &Vec<XmlNode>,
    root: usize,
    trs: &Vec<usize>,
    s: usize,
    t: &T,
    num: u32,
    den: u32,
) -> (r: Result<Vec<Track>, ParseError>)
    requires
        root < nodes.len(),
        s < nodes.len(),
        outline_ok(node_views(nodes@)),
        forall|j: int| 0 <= j < trs@.len() ==> (#[trigger] trs@[j]) < nodes.len(),
        time_reader(*t),
    ensures
        r matches Ok(ts) ==> fold_ok(
            tagged(node_views(nodes@), node_views(nodes@)[s as int].children, "track"@),
            Seq::<TrackView>::empty(),
            tracks_step(node_views(nodes@), node_views(nodes@)[root as int].children, trs@, *t, num, den),
        ) == Ok::<Seq<TrackView>, ParseErrorView>(track_views(ts@)),
        r matches Err(x) ==> fold_ok(
            tagged(node_views(nodes@), node_views(nodes@)[s as int].children, "track"@),
            Seq::<TrackView>::empty(),
            tracks_step(node_views(nodes@), node_views(nodes@)[root as int].children, trs@, *t, num, den),
        ) == Err::<Seq<TrackView>, ParseErrorView>(x@),
{
    let ghost ns = node_views(nodes@);
    let ghost kids = ns[root as int].children;
    let ghost step = tracks_step(ns, kids, trs@, *t, num, den);
    let items = tagged_children(nodes, s, "track");
    proof {
        lemma_tagged_in_range(ns, ns[s as int].children, "track"@);
    }
    let ghost iv = items@;
    let mut acc: Vec<Track> = Vec::new();
    let mut videos: usize = 0;
    let mut audios: usize = 0;
    let mut k: usize = 0;
    assert(iv.take(0) =~= Seq::<usize>::empty());
    assert(track_views(acc@) =~= Seq::<TrackView>::empty());
    while k < items.len()
        invariant
            ns == node_views(nodes@),
            kids == ns[root as int].children,
            root < nodes.len(),
            s < nodes.len(),
            outline_ok(ns),
            time_reader(*t),
            forall|j: int| 0 <= j < trs@.len() ==> (#[trigger] trs@[j]) < nodes.len(),
            iv == items@,
            iv == tagged(ns, ns[s as int].children, "track"@),
            forall|j: int| 0 <= j < iv.len() ==> (#[trigger] iv[j]) < ns.len(),
            step == tracks_step(ns, kids, trs@, *t, num, den),
            k <= items.len(),
            acc.len() <= k,
            videos == count_kind(track_views(acc@), TrackKind::Video),
            audios == count_kind(track_views(acc@), TrackKind::Audio),
            fold_ok(iv.take(k as int), Seq::<TrackView>::empty(), step) == Ok::<Seq<TrackView>, ParseErrorView>(
                track_views(acc@),
            ),
        decreases items.len() - k,
    {
        proof {
            lemma_fold_ok_step(iv, Seq::<TrackView>::empty(), step, k as int);
            lemma_count_kind_le(track_views(acc@), TrackKind::Video);
            lemma_count_kind_le(track_views(acc@), TrackKind::Audio);
        }
        let r = items[k];
        assert(ns[r as int] == nodes@[r as int]@);
        match nodes[r].attribute("producer") {
            None => {},
            Some(pid) => match find_tractor(nodes, trs, pid) {
                None => {},
                Some(tt) => match read_track_clips(nodes, root, tt, t, num, den) {
                    Err(x) => {
                        proof {
                            lemma_fold_ok_stops(iv, Seq::<TrackView>::empty(), step, k + 1);
                        }
                        return Err(x);
                    },
                    Ok(clips) => {
                        let audio = match property(nodes, tt, "kdenlive:audio_track") {
                            Some(v) => str_same(v.as_str(), "1"),
                            None => false,
                        };
                        let kind = if audio { TrackKind::Audio } else { TrackKind::Video };
                        assert(kind == track_kind(ns, tt));
                        let name = if audio {
                            audios = audios + 1;
                            track_label(kind, audios)
                        } else {
                            videos = videos + 1;
                            track_label(kind, videos)
                        };
                        let locked = match property(nodes, tt, "kdenlive:locked_track") {
                            Some(v) => str_same(v.as_str(), "1"),
                            None => false,
                        };
                        let track = Track { name, kind, locked, clips };
                        let ghost prev = track_views(acc@);
                        let ghost tv = track@;
                        assert(tv.name == track_name(prev, kind));
                        acc.push(track);
                        assert(track_views(acc@) =~= prev.push(tv));
                        assert(track_views(acc@).drop_last() =~= prev);
                    },
                },
            },
        }
        k = k + 1;
    }
    proof {
        lemma_fold_ok_whole(iv, Seq::<TrackView>::empty(), step);
    }
    Ok(acc)
}

fn display_tracks(tracks: Vec<Track>) -> (r: Vec<Track>)
    ensures
        track_views(r@) == display_order(track_views(tracks@)),
{
    let ghost tv = track_views(tracks@);
    assert(tv.len() == tracks.len());
    let mut videos: Vec<Track> = Vec::new();
    let mut audios: Vec<Track> = Vec::new();
    let mut rest = tracks;
    let mut taken: usize = 0;
    assert(tv.skip(0) =~= tv);
    assert(tv.take(0) =~= Seq::<TrackView>::empty());
    while rest.len() > 0
        invariant
            track_views(rest@) == tv.skip(taken as int),
            taken <= tv.len() <= usize::MAX,
            track_views(videos@) == of_kind(tv.take(taken as int), TrackKind::Video),
            track_views(audios@) == of_kind(tv.take(taken as int), TrackKind::Audio),
        decreases rest.len(),
    {
        let ghost before = rest@;
        assert(track_views(rest@).len() == rest@.len());
        assert(tv.skip(taken as int).len() == tv.len() - taken);
        let t = rest.remove(0);
        assert(tv.skip(taken as int)[0] == t@);
        assert(rest@ =~= before.drop_first());
        assert(track_views(rest@) =~= track_views(before).drop_first());
        assert(track_views(rest@) =~= tv.skip(taken + 1));
        assert(tv.take(taken + 1).drop_last() =~= tv.take(taken as int));
        assert(tv.take(taken + 1).last() == t@);
        let ghost view = t@;
        if t.kind == TrackKind::Video {
            let ghost prev = track_views(videos@);
            videos.push(t);
            assert(track_views(videos@) =~= prev.push(view));
        } else {
            let ghost prev = track_views(audios@);
            audios.push(t);
            assert(track_views(audios@) =~= prev.push(view));
        }
        taken = taken + 1;
    }
    assert(tv.take(taken as int) =~= tv);
    let ghost vv = track_views(videos@);
    let ghost av = track_views(audios@);
    let mut out: Vec<Track> = Vec::new();
    let mut n: usize = videos.len();
    assert(track_views(out@) =~= vv.reverse().take(0));
    while n > 0
        invariant
            n == videos.len(),
            track_views(videos@) == vv.take(n as int),
            n <= vv.len(),
            track_views(out@) == vv.reverse().take(vv.len() - n),
        decreases n,
    {
        let ghost before = videos@;
        let t = videos.pop().unwrap();
        assert(videos@ =~= before.drop_last());
        assert(track_views(before)[n - 1] == before[n - 1]@);
        assert(vv.take(n as int)[n - 1] == vv[n - 1]);
        assert(t@ == vv[n - 1]);
        assert(track_views(videos@) =~= track_views(before).drop_last());
        let ghost prev = track_views(out@);
        let ghost view = t@;
        out.push(t);
        assert(track_views(out@) =~= prev.push(view));
        assert(track_views(videos@) =~= vv.take(n - 1));
        assert(vv.reverse().take(vv.len() - n + 1) =~= vv.reverse().take(vv.len() - n).push(vv[n - 1]));
        n = n - 1;
    }
    assert(vv.reverse().take(vv.len() as int) =~= vv.reverse());
    let ghost before_out = track_views(out@);
    out.append(&mut audios);
    assert(track_views(out@) =~= before_out + av);
    out
}

/// Reads the sequences of the document.
pub fn read_sequences<T: Fn(&str, u32, u32) -> Result<i64, &'static str>, M: Fn(&str) -> (i64, i32)>(
    nodes: &Vec<XmlNode>,
    root: usize,
    t: &T,
    num: u32,
    den: u32,
    m: &M,
) -> (r: Result<Vec<Sequence>, ParseError>)
    requires
        root < nodes.len(),
        outline_ok(node_views(nodes@)),
        time_reader(*t),
        number_reader(*m),
    ensures
        r matches Ok(ss) ==> sequences_of(node_views(nodes@), root, *t, num, den, *m) == Ok::<
            Seq<SequenceView>,
            ParseErrorView,
        >(sequence_views(ss@)),
        r matches Err(x) ==> sequences_of(node_views(nodes@), root, *t, num, den, *m) == Err::<
            Seq<SequenceView>,
            ParseErrorView,
        >(x@),
{
    let ghost ns = node_views(nodes@);
    let ghost kids = ns[root as int].children;
    let trs = tagged_children(nodes, root, "tractor");
    proof {
        lemma_tagged_in_range(ns, kids, "tractor"@);
    }
    let ghost tv = trs@;
    let ghost step = sequence_step(ns, kids, tv, *t, num, den, *m);
    let mut acc: Vec<Sequence> = Vec::new();
    let mut k: usize = 0;
    assert(tv.take(0) =~= Seq::<usize>::empty());
    assert(sequence_views(acc@) =~= Seq::<SequenceView>::empty());
    while k < trs.len()
        invariant
            ns == node_views(nodes@),
            kids == ns[root as int].children,
            root < nodes.len(),
            outline_ok(ns),
            time_reader(*t),
            number_reader(*m),
            tv == trs@,
            tv == tagged(ns, kids, "tractor"@),
            forall|j: int| 0 <= j < tv.len() ==> (#[trigger] tv[j]) < nodes.len(),
            step == sequence_step(ns, kids, tv, *t, num, den, *m),
            k <= trs.len(),
            fold_ok(tv.take(k as int), Seq::<SequenceView>::empty(), step) == Ok::<
                Seq<SequenceView>,
                ParseErrorView,
            >(sequence_views(acc@)),
        decreases trs.len() - k,
    {
        proof {
            lemma_fold_ok_step(tv, Seq::<SequenceView>::empty(), step, k as int);
        }
        let s = trs[k];
        assert(s < ns.len());
        match property(nodes, s, "kdenlive:uuid") {
            None => {},
            Some(uuid) => {
                let tracks = match read_tracks(nodes, root, &trs, s, t, num, den) {
                    Err(x) => {
                        proof {
                            lemma_fold_ok_stops(tv, Seq::<SequenceView>::empty(), step, k + 1);
                        }
                        return Err(x);
                    },
                    Ok(ts) => ts,
                };
                let markers = match read_markers(nodes, s, m) {
                    Err(x) => {
                        proof {
                            lemma_fold_ok_stops(tv, Seq::<SequenceView>::empty(), step, k + 1);
                        }
                        return Err(x);
                    },
                    Ok(ms) => ms,
                };
                let seq = Sequence {
                    uuid,
                    name: property(nodes, s, "kdenlive:clipname"),
                    tracks: display_tracks(tracks),
                    markers,
                };
                let ghost prev = sequence_views(acc@);
                let ghost sv = seq@;
                acc.push(seq);
                assert(sequence_views(acc@) =~= prev.push(sv));
            },
        }
        k = k + 1;
    }
    proof {
        lemma_fold_ok_whole(tv, Seq::<SequenceView>::empty(), step);
    }
    Ok(acc)
}

// ---------------------------------------------------------------------------
// Clips come out in clip order.

/// No clip is before an earlier one in clip order.
pub open spec fn clips_in_order(cs: Seq<TimelineClipView>) -> bool {
    forall|i: int, j: int| 0 <= i < j < cs.len() ==> !clip_before(#[trigger] cs[j], #[trigger] cs[i])
}

proof fn lemma_clip_before_transitive(a: TimelineClipView, b: TimelineClipView, c: TimelineClipView)
    requires
        clip_before(a, b),
        clip_before(b, c),
    ensures
        clip_before(a, c),
{
    if a.position == b.position && b.position == c.position {
        crate::text::lemma_text_lt_transitive(a.bin_id, b.bin_id, c.bin_id);
    }
}

proof fn lemma_clip_before_asymmetric(a: TimelineClipView, b: TimelineClipView)
    requires
        clip_before(a, b),
    ensures
        !clip_before(b, a),
{
    if a.position == b.position {
        crate::text::lemma_text_lt_asymmetric(a.bin_id, b.bin_id);
    }
}

proof fn lemma_clip_slot_splits(s: Seq<TimelineClipView>, c: TimelineClipView)
    ensures
        clip_slot(s, c) <= s.len(),
        forall|i: int| 0 <= i < clip_slot(s, c) ==> !clip_before(c, #[trigger] s[i]),
        clip_slot(s, c) < s.len() ==> clip_before(c, s[clip_slot(s, c) as int]),
    decreases s.len(),
{
    if s.len() > 0 && !clip_before(c, s[0]) {
        lemma_clip_slot_splits(s.drop_first(), c);
        assert forall|i: int| 0 <= i < clip_slot(s, c) implies !clip_before(c, #[trigger] s[i]) by {
            if i > 0 {
                assert(s[i] == s.drop_first()[i - 1]);
            }
        }
    }
}

/// A track's clips come out in clip order, as many as went in.
pub proof fn sorted_clips_are_in_order(cs: Seq<TimelineClipView>)
    ensures
        clips_in_order(sort_clips(cs)),
        sort_clips(cs).len() == cs.len(),
    decreases cs.len(),
{
    if cs.len() > 0 {
        let s = sort_clips(cs.drop_last());
        sorted_clips_are_in_order(cs.drop_last());
        let c = cs.last();
        lemma_clip_slot_splits(s, c);
        let p = clip_slot(s, c) as int;
        let r = s.insert(p, c);
        assert forall|i: int, j: int| 0 <= i < j < r.len() implies !clip_before(#[trigger] r[j], #[trigger] r[i]) by {
            if j < p {
                assert(r[i] == s[i] && r[j] == s[j]);
            } else if j == p {
                assert(r[i] == s[i]);
            } else if i < p {
                assert(r[i] == s[i] && r[j] == s[j - 1]);
            } else if i == p {
                assert(r[j] == s[j - 1]);
                if clip_before(s[j - 1], c) {
                    if j - 1 == p {
                        lemma_clip_before_asymmetric(c, s[p]);
                    } else {
                        lemma_clip_before_transitive(s[j - 1], c, s[p]);
                    }
                }
            } else {
                assert(r[i] == s[i - 1] && r[j] == s[j - 1]);
            }
        }
    }
}

// ---------------------------------------------------------------------------
// An effect's parameters are in key order, one per key.

proof fn lemma_param_keys_sorted(ks: Seq<Seq<char>>)
    requires
        strictly_sorted(ks),
    ensures
        strictly_sorted(param_keys(ks)),
        forall|k: Seq<char>| #[trigger] param_keys(ks).contains(k) ==> ks.contains(k),
    decreases ks.len(),
{
    if ks.len() > 0 {
        let rest = ks.drop_last();
        assert forall|i: int, j: int| 0 <= i < j < rest.len() implies text_lt(#[trigger] rest[i], #[trigger] rest[j]) by {
            assert(rest[i] == ks[i] && rest[j] == ks[j]);
        }
        lemma_param_keys_sorted(rest);
        let pk = param_keys(rest);
        assert forall|k: Seq<char>| #[trigger] pk.contains(k) implies ks.contains(k) by {
            let m = choose|m: int| 0 <= m < rest.len() && rest[m] == k;
            assert(ks[m] == k);
        }
        if ks.last() != "disable"@ {
            let r = pk.push(ks.last());
            assert forall|i: int, j: int| 0 <= i < j < r.len() implies text_lt(#[trigger] r[i], #[trigger] r[j]) by {
                if j == pk.len() {
                    assert(pk.contains(r[i]));
                    assert(rest.contains(r[i]));
                    let m = choose|m: int| 0 <= m < rest.len() && rest[m] == r[i];
                    assert(text_lt(ks[m], ks[ks.len() - 1]));
                }
            }
            assert forall|k: Seq<char>| #[trigger] r.contains(k) implies ks.contains(k) by {
                let m = choose|m: int| 0 <= m < r.len() && r[m] == k;
                if m < pk.len() {
                    assert(pk[m] == k);
                    assert(pk.contains(k));
                } else {
                    assert(ks[ks.len() - 1] == k);
                }
            }
        }
    }
}

/// The parameters an effect is read with are in strictly increasing key
/// order, so no key occurs twice.
pub proof fn params_are_in_key_order(es: Seq<(Seq<char>, Seq<char>)>)
    ensures
        forall|i: int, j: int|
            0 <= i < j < params_of(es).len() ==> text_lt(#[trigger] params_of(es)[i].0, #[trigger] params_of(es)[j].0),
{
    lemma_key_set_sorted(entry_keys(es));
    lemma_param_keys_sorted(key_set(entry_keys(es)));
    let pk = param_keys(key_set(entry_keys(es)));
    assert forall|i: int, j: int| 0 <= i < j < params_of(es).len() implies text_lt(
        #[trigger] params_of(es)[i].0,
        #[trigger] params_of(es)[j].0,
    ) by {
        assert(params_of(es)[i].0 == pk[i]);
        assert(params_of(es)[j].0 == pk[j]);
    }
}

// ---------------------------------------------------------------------------
// The timeline reads nodes by id only.

/// Two lists of the root's children that resolve every producer id and
/// every playlist id to the same node.
pub open spec fn same_lookups(ns: Seq<XmlNodeView>, kids1: Seq<usize>, kids2: Seq<usize>) -> bool {
    &&& forall|id: Seq<char>| #[trigger] last_producer(ns, kids1, id) == last_producer(ns, kids2, id)
    &&& forall|id: Seq<char>| #[trigger] last_playlist(ns, kids1, id) == last_playlist(ns, kids2, id)
}

proof fn lemma_lane_clips_same<T: Fn(&str, u32, u32) -> Result<i64, &'static str>>(
    ns: Seq<XmlNodeView>,
    kids1: Seq<usize>,
    kids2: Seq<usize>,
    pl: usize,
    pid: Seq<char>,
    t: T,
    num: u32,
    den: u32,
)
    requires
        same_lookups(ns, kids1, kids2),
    ensures
        lane_clips(ns, kids1, pl, pid, t, num, den) == lane_clips(ns, kids2, pl, pid, t, num, den),
{
    let f1 = lane_step(ns, kids1, pid, t, num, den);
    let f2 = lane_step(ns, kids2, pid, t, num, den);
    assert forall|st: (Seq<TimelineClipView>, i64), c: usize| #[trigger] f1(st, c) == f2(st, c) by {
        if let Some(prod) = attr_of(ns[c as int].attrs, "producer"@) {
            assert(last_producer(ns, kids1, prod) == last_producer(ns, kids2, prod));
            assert(entry_bin(ns, kids1, c, prod) == entry_bin(ns, kids2, c, prod));
        }
        assert(entry_at(ns, kids1, c, pid, st.1, t, num, den) == entry_at(ns, kids2, c, pid, st.1, t, num, den));
    }
    assert(f1 =~= f2);
}

proof fn lemma_track_clips_same<T: Fn(&str, u32, u32) -> Result<i64, &'static str>>(
    ns: Seq<XmlNodeView>,
    kids1: Seq<usize>,
    kids2: Seq<usize>,
    tt: usize,
    t: T,
    num: u32,
    den: u32,
)
    requires
        same_lookups(ns, kids1, kids2),
    ensures
        track_clips(ns, kids1, tt, t, num, den) == track_clips(ns, kids2, tt, t, num, den),
{
    let tid = track_id(ns, tt);
    let f1 = lanes_step(ns, kids1, tid, t, num, den);
    let f2 = lanes_step(ns, kids2, tid, t, num, den);
    assert forall|acc: Seq<TimelineClipView>, r: usize| #[trigger] f1(acc, r) == f2(acc, r) by {
        if let Some(pid) = attr_of(ns[r as int].attrs, "producer"@) {
            assert(last_playlist(ns, kids1, pid) == last_playlist(ns, kids2, pid));
            if let Some(pl) = last_playlist(ns, kids1, pid) {
                lemma_lane_clips_same(ns, kids1, kids2, pl, pid, t, num, den);
            }
        }
    }
    assert(f1 =~= f2);
}

/// The sequences read from two lists of the root's children are the same
/// when the lists hold the same tractors in the same order and resolve every
/// id alike.
pub(crate) proof fn lemma_sequences_same<T: Fn(&str, u32, u32) -> Result<i64, &'static str>, M: Fn(&str) -> (i64, i32)>(
    ns: Seq<XmlNodeView>,
    kids1: Seq<usize>,
    kids2: Seq<usize>,
    t: T,
    num: u32,
    den: u32,
    m: M,
)
    requires
        same_lookups(ns, kids1, kids2),
        tagged(ns, kids1, "tractor"@) == tagged(ns, kids2, "tractor"@),
    ensures
        sequences_in(ns, kids1, t, num, den, m) == sequences_in(ns, kids2, t, num, den, m),
{
    let trs = tagged(ns, kids1, "tractor"@);
    let g1 = tracks_step(ns, kids1, trs, t, num, den);
    let g2 = tracks_step(ns, kids2, trs, t, num, den);
    assert forall|acc: Seq<TrackView>, r: usize| #[trigger] g1(acc, r) == g2(acc, r) by {
        if let Some(pid) = attr_of(ns[r as int].attrs, "producer"@) {
            if let Some(tt) = first_tractor(ns, trs, pid) {
                lemma_track_clips_same(ns, kids1, kids2, tt, t, num, den);
            }
        }
    }
    assert(g1 =~= g2);
    let f1 = sequence_step(ns, kids1, trs, t, num, den, m);
    let f2 = sequence_step(ns, kids2, trs, t, num, den, m);
    assert forall|acc: Seq<SequenceView>, s: usize| #[trigger] f1(acc, s) == f2(acc, s) by {}
    assert(f1 =~= f2);
}

// ---------------------------------------------------------------------------
// Every effect read has its parameters in key order.

/// Every clip of `cs` has its effects' parameters in key order.
pub open spec fn clips_params_in_order(cs: Seq<TimelineClipView>) -> bool {
    forall|k: int| 0 <= k < cs.len() ==> clip_params_in_order(#[trigger] cs[k])
}

/// Every track of `ts` has its effects' parameters in key order.
pub open spec fn tracks_params_in_order(ts: Seq<TrackView>) -> bool {
    forall|k: int| 0 <= k < ts.len() ==> track_params_in_order(#[trigger] ts[k])
}

proof fn lemma_effects_in_order(ns: Seq<XmlNodeView>, fs: Seq<usize>)
    ensures
        forall|k: int| 0 <= k < effects_in(ns, fs).len() ==> params_in_order(#[trigger] effects_in(ns, fs)[k]),
    decreases fs.len(),
{
    if fs.len() > 0 {
        lemma_effects_in_order(ns, fs.drop_last());
        let prev = effects_in(ns, fs.drop_last());
        if let Some(e) = effect_at(ns, fs.last()) {
            let es = param_entries(ns, tagged(ns, ns[fs.last() as int].children, "property"@));
            params_are_in_key_order(es);
            assert(e.params == params_of(es));
            assert forall|k: int| 0 <= k < prev.push(e).len() implies params_in_order(#[trigger] prev.push(e)[k]) by {
                if k < prev.len() {
                    assert(prev.push(e)[k] == prev[k]);
                }
            }
        }
    }
}

proof fn lemma_lane_clips_in_order<T: Fn(&str, u32, u32) -> Result<i64, &'static str>>(
    ns: Seq<XmlNodeView>,
    kids: Seq<usize>,
    pl: usize,
    pid: Seq<char>,
    t: T,
    num: u32,
    den: u32,
)
    ensures
        match lane_clips(ns, kids, pl, pid, t, num, den) {
            Ok(cs) => clips_params_in_order(cs),
            Err(_) => true,
        },
{
    let step = lane_step(ns, kids, pid, t, num, den);
    let inv = |st: (Seq<TimelineClipView>, i64)| clips_params_in_order(st.0);
    assert forall|st: (Seq<TimelineClipView>, i64), c: usize| inv(st) implies match #[trigger] step(st, c) {
        Ok(x) => inv(x),
        Err(_) => true,
    } by {
        if !has_tag(ns, c, "blank"@) && has_tag(ns, c, "entry"@) {
            if let Ok(clip) = entry_at(ns, kids, c, pid, st.1, t, num, den) {
                lemma_effects_in_order(ns, tagged(ns, ns[c as int].children, "filter"@));
                assert(clip.effects == effects_of(ns, c));
                assert forall|k: int| 0 <= k < st.0.push(clip).len() implies clip_params_in_order(
                    #[trigger] st.0.push(clip)[k],
                ) by {
                    if k < st.0.len() {
                        assert(st.0.push(clip)[k] == st.0[k]);
                    }
                }
            }
        }
    }
    lemma_fold_ok_keeps(ns[pl as int].children, (Seq::<TimelineClipView>::empty(), 0i64), step, inv);
}

proof fn lemma_sort_clips_members(cs: Seq<TimelineClipView>)
    ensures
        forall|k: int| 0 <= k < sort_clips(cs).len() ==> cs.contains(#[trigger] sort_clips(cs)[k]),
    decreases cs.len(),
{
    if cs.len() > 0 {
        let rest = cs.drop_last();
        lemma_sort_clips_members(rest);
        let s = sort_clips(rest);
        let last = cs.last();
        lemma_clip_slot_le(s, last);
        let slot = clip_slot(s, last) as int;
        let r = s.insert(slot, last);
        assert forall|k: int| 0 <= k < r.len() implies cs.contains(#[trigger] r[k]) by {
            if k == slot {
                assert(cs[cs.len() - 1] == last);
            } else {
                let x = if k < slot { s[k] } else { s[k - 1] };
                assert(r[k] == x);
                assert(rest.contains(x));
                let m = choose|m: int| 0 <= m < rest.len() && rest[m] == x;
                assert(cs[m] == x);
            }
        }
    }
}

proof fn lemma_track_clips_in_order<T: Fn(&str, u32, u32) -> Result<i64, &'static str>>(
    ns: Seq<XmlNodeView>,
    kids: Seq<usize>,
    tt: usize,
    t: T,
    num: u32,
    den: u32,
)
    ensures
        match track_clips(ns, kids, tt, t, num, den) {
            Ok(cs) => clips_params_in_order(cs),
            Err(_) => true,
        },
{
    let step = lanes_step(ns, kids, track_id(ns, tt), t, num, den);
    let inv = |acc: Seq<TimelineClipView>| clips_params_in_order(acc);
    assert forall|acc: Seq<TimelineClipView>, r: usize| inv(acc) implies match #[trigger] step(acc, r) {
        Ok(x) => inv(x),
        Err(_) => true,
    } by {
        if let Some(pid) = attr_of(ns[r as int].attrs, "producer"@) {
            if let Some(pl) = last_playlist(ns, kids, pid) {
                lemma_lane_clips_in_order(ns, kids, pl, pid, t, num, den);
                if let Ok(cs) = lane_clips(ns, kids, pl, pid, t, num, den) {
                    assert forall|k: int| 0 <= k < (acc + cs).len() implies clip_params_in_order(
                        #[trigger] (acc + cs)[k],
                    ) by {
                        if k < acc.len() {
                            assert((acc + cs)[k] == acc[k]);
                        } else {
                            assert((acc + cs)[k] == cs[k - acc.len()]);
                        }
                    }
                }
            }
        }
    }
    let lanes = tagged(ns, ns[tt as int].children, "track"@);
    lemma_fold_ok_keeps(lanes, Seq::<TimelineClipView>::empty(), step, inv);
    if let Ok(acc) = fold_ok(lanes, Seq::<TimelineClipView>::empty(), step) {
        lemma_sort_clips_members(acc);
        assert forall|k: int| 0 <= k < sort_clips(acc).len() implies clip_params_in_order(
            #[trigger] sort_clips(acc)[k],
        ) by {
            assert(acc.contains(sort_clips(acc)[k]));
            let m = choose|m: int| 0 <= m < acc.len() && acc[m] == sort_clips(acc)[k];
            assert(clip_params_in_order(acc[m]));
        }
    }
}

proof fn lemma_of_kind_members(ts: Seq<TrackView>, kind: TrackKind)
    ensures
        forall|i: int| 0 <= i < of_kind(ts, kind).len() ==> ts.contains(#[trigger] of_kind(ts, kind)[i]),
    decreases ts.len(),
{
    if ts.len() > 0 {
        let rest = ts.drop_last();
        lemma_of_kind_members(rest, kind);
        let prev = of_kind(rest, kind);
        assert forall|i: int| 0 <= i < of_kind(ts, kind).len() implies ts.contains(#[trigger] of_kind(ts, kind)[i]) by {
            if i < prev.len() {
                if ts.last().kind == kind {
                    assert(prev.push(ts.last())[i] == prev[i]);
                }
                assert(of_kind(ts, kind)[i] == prev[i]);
                let m = choose|m: int| 0 <= m < rest.len() && rest[m] == prev[i];
                assert(ts[m] == prev[i]);
            } else {
                assert(of_kind(ts, kind)[i] == ts.last());
                assert(ts[ts.len() - 1] == ts.last());
            }
        }
    }
}

proof fn lemma_display_order_in_order(ts: Seq<TrackView>)
    requires
        tracks_params_in_order(ts),
    ensures
        tracks_params_in_order(display_order(ts)),
{
    lemma_of_kind_members(ts, TrackKind::Video);
    lemma_of_kind_members(ts, TrackKind::Audio);
    let v = of_kind(ts, TrackKind::Video);
    let a = of_kind(ts, TrackKind::Audio);
    assert forall|k: int| 0 <= k < display_order(ts).len() implies track_params_in_order(
        #[trigger] display_order(ts)[k],
    ) by {
        let x = display_order(ts)[k];
        if k < v.len() {
            assert(x == v[v.len() - 1 - k]);
            assert(ts.contains(v[v.len() - 1 - k]));
        } else {
            assert(x == a[k - v.len()]);
            assert(ts.contains(a[k - v.len()]));
        }
        let m = choose|m: int| 0 <= m < ts.len() && ts[m] == x;
        assert(track_params_in_order(ts[m]));
    }
}

/// Every effect of the sequences read has its parameters in key order.
pub(crate) proof fn lemma_sequences_in_order<
    T: Fn(&str, u32, u32) -> Result<i64, &'static str>,
    M: Fn(&str) -> (i64, i32),
>(ns: Seq<XmlNodeView>, kids: Seq<usize>, t: T, num: u32, den: u32, m: M)
    ensures
        match sequences_in(ns, kids, t, num, den, m) {
            Ok(ss) => forall|k: int| 0 <= k < ss.len() ==> sequence_params_in_order(#[trigger] ss[k]),
            Err(_) => true,
        },
{
    let trs = tagged(ns, kids, "tractor"@);
    let tstep = tracks_step(ns, kids, trs, t, num, den);
    let tinv = |acc: Seq<TrackView>| tracks_params_in_order(acc);
    assert forall|acc: Seq<TrackView>, r: usize| tinv(acc) implies match #[trigger] tstep(acc, r) {
        Ok(x) => tinv(x),
        Err(_) => true,
    } by {
        if let Some(pid) = attr_of(ns[r as int].attrs, "producer"@) {
            if let Some(tt) = first_tractor(ns, trs, pid) {
                lemma_track_clips_in_order(ns, kids, tt, t, num, den);
                if let Ok(clips) = track_clips(ns, kids, tt, t, num, den) {
                    let tv = TrackView {
                        name: track_name(acc, track_kind(ns, tt)),
                        kind: track_kind(ns, tt),
                        locked: property_of(ns, tt, "kdenlive:locked_track"@) == Some("1"@),
                        clips,
                    };
                    assert(track_params_in_order(tv));
                    assert forall|k: int| 0 <= k < acc.push(tv).len() implies track_params_in_order(
                        #[trigger] acc.push(tv)[k],
                    ) by {
                        if k < acc.len() {
                            assert(acc.push(tv)[k] == acc[k]);
                        }
                    }
                }
            }
        }
    }
    let sstep = sequence_step(ns, kids, trs, t, num, den, m);
    let sinv = |acc: Seq<SequenceView>| forall|k: int| 0 <= k < acc.len() ==> sequence_params_in_order(#[trigger] acc[k]);
    assert forall|acc: Seq<SequenceView>, s: usize| sinv(acc) implies match #[trigger] sstep(acc, s) {
        Ok(x) => sinv(x),
        Err(_) => true,
    } by {
        let lanes = tagged(ns, ns[s as int].children, "track"@);
        lemma_fold_ok_keeps(lanes, Seq::<TrackView>::empty(), tstep, tinv);
        if let Ok(tracks) = fold_ok(lanes, Seq::<TrackView>::empty(), tstep) {
            lemma_display_order_in_order(tracks);
            if let Some(uuid) = property_of(ns, s, "kdenlive:uuid"@) {
                if let Ok(markers) = markers_of(ns, s, m) {
                    let sv = SequenceView {
                        uuid,
                        name: property_of(ns, s, "kdenlive:clipname"@),
                        tracks: display_order(tracks),
                        markers,
                    };
                    assert(sequence_params_in_order(sv));
                    assert forall|k: int| 0 <= k < acc.push(sv).len() implies sequence_params_in_order(
                        #[trigger] acc.push(sv)[k],
                    ) by {
                        if k < acc.len() {
                            assert(acc.push(sv)[k] == acc[k]);
                        }
                    }
                }
            }
        }
    }
    lemma_fold_ok_keeps(trs, Seq::<SequenceView>::empty(), sstep, sinv);
}

} // verus!
