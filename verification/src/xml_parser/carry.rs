//! Two documents that hold the same nodes under other indices.
//!
//! Two saves of one project are parsed into two node arenas, so the same
//! element sits at different indices in each. A renaming `f` that takes
//! every node of a set `d` of the first arena to a node of the second that
//! reads the same, its children renamed along, makes every reading of the
//! parser come out the same on both.

use vstd::prelude::*;

use crate::model::{SequenceView, TimelineClipView, TrackView};
use crate::seqs::lemma_fold_ok_renamed;
use crate::xml::{attr_of, has_tag, is_element, property_in, property_of, tagged, XmlNodeView};
use super::index::{
    bin_clip_at, bin_clips_of, bin_entries, entry_producers, id_attr, is_producer, last_playlist, last_producer,
    listed_of, producer_ids, producer_ids_unique,
};
use super::markers::markers_of;
use super::timeline::{
    effect_at, effects_in, effects_of, entry_at, entry_bin, first_tractor, lane_clips, lane_step, lanes_step,
    param_entries, sequence_step, sequences_in, track_clips, track_id, track_kind, tracks_step,
};

verus! {

/// Node `n` with its children renamed by `f`.
pub open spec fn renamed(n: XmlNodeView, f: spec_fn(usize) -> usize) -> XmlNodeView {
    XmlNodeView { element: n.element, name: n.name, attrs: n.attrs, text: n.text, children: n.children.map_values(f) }
}

/// `f` takes each node of `d` in `ns1` to a node of `ns2` that reads the
/// same: the same kind, name, attributes and text, and its children renamed
/// by `f`. The children of a node of `d` are in `d` too.
pub open spec fn carries(ns1: Seq<XmlNodeView>, ns2: Seq<XmlNodeView>, d: Set<usize>, f: spec_fn(usize) -> usize) -> bool {
    forall|n: usize|
        #[trigger] d.contains(n) ==> {
            &&& n < ns1.len()
            &&& f(n) < ns2.len()
            &&& ns2[f(n) as int] == renamed(ns1[n as int], f)
            &&& forall|k: int| 0 <= k < ns1[n as int].children.len() ==> d.contains(#[trigger] ns1[n as int].children[k])
        }
}

/// Every node `ks` lists is in `d`.
pub open spec fn within(ks: Seq<usize>, d: Set<usize>) -> bool {
    forall|k: int| 0 <= k < ks.len() ==> d.contains(#[trigger] ks[k])
}

/// A found node, renamed by `f`.
pub open spec fn carried(o: Option<usize>, f: spec_fn(usize) -> usize) -> Option<usize> {
    match o {
        Some(c) => Some(f(c)),
        None => None,
    }
}

pub(crate) proof fn lemma_node(ns1: Seq<XmlNodeView>, ns2: Seq<XmlNodeView>, d: Set<usize>, f: spec_fn(usize) -> usize, c: usize)
    requires
        carries(ns1, ns2, d, f),
        d.contains(c),
    ensures
        c < ns1.len(),
        f(c) < ns2.len(),
        ns2[f(c) as int].element == ns1[c as int].element,
        ns2[f(c) as int].name == ns1[c as int].name,
        ns2[f(c) as int].attrs == ns1[c as int].attrs,
        ns2[f(c) as int].text == ns1[c as int].text,
        ns2[f(c) as int].children == ns1[c as int].children.map_values(f),
        within(ns1[c as int].children, d),
        is_element(ns2, f(c)) == is_element(ns1, c),
        is_producer(ns2, f(c)) == is_producer(ns1, c),
        id_attr(ns2, f(c)) == id_attr(ns1, c),
{
}

pub(crate) proof fn lemma_within_rest(ks: Seq<usize>, d: Set<usize>)
    requires
        within(ks, d),
    ensures
        ks.len() > 0 ==> within(ks.drop_last(), d) && within(ks.drop_first(), d) && d.contains(ks.last()) && d.contains(
            ks[0],
        ),
{
    if ks.len() > 0 {
        assert(d.contains(ks[ks.len() - 1]));
        assert(d.contains(ks[0]));
        assert forall|k: int| 0 <= k < ks.drop_first().len() implies d.contains(#[trigger] ks.drop_first()[k]) by {
            assert(ks.drop_first()[k] == ks[k + 1]);
        }
        assert forall|k: int| 0 <= k < ks.drop_last().len() implies d.contains(#[trigger] ks.drop_last()[k]) by {
            assert(ks.drop_last()[k] == ks[k]);
        }
    }
}

pub(crate) proof fn lemma_renamed_ends(ks: Seq<usize>, f: spec_fn(usize) -> usize)
    ensures
        ks.map_values(f).len() == ks.len(),
        ks.len() > 0 ==> ks.map_values(f).drop_last() == ks.drop_last().map_values(f) && ks.map_values(f).last() == f(
            ks.last(),
        ) && ks.map_values(f).drop_first() == ks.drop_first().map_values(f) && ks.map_values(f)[0] == f(ks[0]),
{
    if ks.len() > 0 {
        assert(ks.map_values(f).drop_last() =~= ks.drop_last().map_values(f));
        assert(ks.map_values(f).drop_first() =~= ks.drop_first().map_values(f));
    }
}

pub proof fn lemma_tagged_carried(
    ns1: Seq<XmlNodeView>,
    ns2: Seq<XmlNodeView>,
    d: Set<usize>,
    f: spec_fn(usize) -> usize,
    ks: Seq<usize>,
    tag: Seq<char>,
)
    requires
        carries(ns1, ns2, d, f),
        within(ks, d),
    ensures
        tagged(ns2, ks.map_values(f), tag) == tagged(ns1, ks, tag).map_values(f),
        within(tagged(ns1, ks, tag), d),
    decreases ks.len(),
{
    lemma_renamed_ends(ks, f);
    if ks.len() > 0 {
        lemma_within_rest(ks, d);
        let rest = ks.drop_last();
        lemma_tagged_carried(ns1, ns2, d, f, rest, tag);
        lemma_node(ns1, ns2, d, f, ks.last());
        let t = tagged(ns1, rest, tag);
        if has_tag(ns1, ks.last(), tag) {
            assert(t.push(ks.last()).map_values(f) =~= t.map_values(f).push(f(ks.last())));
            assert forall|k: int| 0 <= k < t.push(ks.last()).len() implies d.contains(#[trigger] t.push(ks.last())[k]) by {
                if k < t.len() {
                    assert(t.push(ks.last())[k] == t[k]);
                }
            }
        }
    } else {
        assert(tagged(ns1, ks, tag).map_values(f) =~= Seq::<usize>::empty());
    }
}

proof fn lemma_property_in_carried(
    ns1: Seq<XmlNodeView>,
    ns2: Seq<XmlNodeView>,
    d: Set<usize>,
    f: spec_fn(usize) -> usize,
    ks: Seq<usize>,
    name: Seq<char>,
)
    requires
        carries(ns1, ns2, d, f),
        within(ks, d),
    ensures
        property_in(ns2, ks.map_values(f), name) == property_in(ns1, ks, name),
    decreases ks.len(),
{
    lemma_renamed_ends(ks, f);
    if ks.len() > 0 {
        lemma_within_rest(ks, d);
        lemma_node(ns1, ns2, d, f, ks[0]);
        lemma_property_in_carried(ns1, ns2, d, f, ks.drop_first(), name);
    }
}

pub proof fn lemma_property_carried(
    ns1: Seq<XmlNodeView>,
    ns2: Seq<XmlNodeView>,
    d: Set<usize>,
    f: spec_fn(usize) -> usize,
    i: usize,
    name: Seq<char>,
)
    requires
        carries(ns1, ns2, d, f),
        d.contains(i),
    ensures
        property_of(ns2, f(i), name) == property_of(ns1, i, name),
{
    lemma_node(ns1, ns2, d, f, i);
    lemma_property_in_carried(ns1, ns2, d, f, ns1[i as int].children, name);
}

pub proof fn lemma_producer_ids_carried(
    ns1: Seq<XmlNodeView>,
    ns2: Seq<XmlNodeView>,
    d: Set<usize>,
    f: spec_fn(usize) -> usize,
    ks: Seq<usize>,
)
    requires
        carries(ns1, ns2, d, f),
        within(ks, d),
    ensures
        producer_ids(ns2, ks.map_values(f)) == producer_ids(ns1, ks),
    decreases ks.len(),
{
    lemma_renamed_ends(ks, f);
    if ks.len() > 0 {
        lemma_within_rest(ks, d);
        lemma_node(ns1, ns2, d, f, ks.last());
        lemma_producer_ids_carried(ns1, ns2, d, f, ks.drop_last());
    }
}

pub proof fn lemma_last_producer_carried(
    ns1: Seq<XmlNodeView>,
    ns2: Seq<XmlNodeView>,
    d: Set<usize>,
    f: spec_fn(usize) -> usize,
    ks: Seq<usize>,
    id: Seq<char>,
)
    requires
        carries(ns1, ns2, d, f),
        within(ks, d),
    ensures
        last_producer(ns2, ks.map_values(f), id) == carried(last_producer(ns1, ks, id), f),
        last_producer(ns1, ks, id) matches Some(p) ==> d.contains(p),
        last_playlist(ns2, ks.map_values(f), id) == carried(last_playlist(ns1, ks, id), f),
        last_playlist(ns1, ks, id) matches Some(p) ==> d.contains(p),
    decreases ks.len(),
{
    lemma_renamed_ends(ks, f);
    if ks.len() > 0 {
        lemma_within_rest(ks, d);
        lemma_node(ns1, ns2, d, f, ks.last());
        lemma_last_producer_carried(ns1, ns2, d, f, ks.drop_last(), id);
    }
}

proof fn lemma_entry_producers_carried(
    ns1: Seq<XmlNodeView>,
    ns2: Seq<XmlNodeView>,
    d: Set<usize>,
    f: spec_fn(usize) -> usize,
    es: Seq<usize>,
)
    requires
        carries(ns1, ns2, d, f),
        within(es, d),
    ensures
        entry_producers(ns2, es.map_values(f)) == entry_producers(ns1, es),
    decreases es.len(),
{
    lemma_renamed_ends(es, f);
    if es.len() > 0 {
        lemma_within_rest(es, d);
        lemma_node(ns1, ns2, d, f, es.last());
        lemma_entry_producers_carried(ns1, ns2, d, f, es.drop_last());
    }
}

proof fn lemma_bin_entries_carried(
    ns1: Seq<XmlNodeView>,
    ns2: Seq<XmlNodeView>,
    d: Set<usize>,
    f: spec_fn(usize) -> usize,
    ks: Seq<usize>,
    keys: Seq<Seq<char>>,
    listed: Option<Seq<Seq<char>>>,
)
    requires
        carries(ns1, ns2, d, f),
        within(ks, d),
    ensures
        bin_entries(ns2, ks.map_values(f), keys, listed) == bin_entries(ns1, ks, keys, listed),
    decreases keys.len(),
{
    if keys.len() > 0 {
        lemma_bin_entries_carried(ns1, ns2, d, f, ks, keys.drop_last(), listed);
        let k = keys.last();
        lemma_last_producer_carried(ns1, ns2, d, f, ks, k);
        if let Some(p) = last_producer(ns1, ks, k) {
            lemma_property_carried(ns1, ns2, d, f, p, "kdenlive:id"@);
            lemma_property_carried(ns1, ns2, d, f, p, "kdenlive:clipname"@);
            lemma_property_carried(ns1, ns2, d, f, p, "resource"@);
            lemma_property_carried(ns1, ns2, d, f, p, "mlt_service"@);
            assert(forall|kid: Seq<char>| bin_clip_at(ns2, f(p), kid) == bin_clip_at(ns1, p, kid));
        }
    }
}

/// The bin reads the same in both documents.
pub proof fn lemma_bin_clips_carried(
    ns1: Seq<XmlNodeView>,
    ns2: Seq<XmlNodeView>,
    d: Set<usize>,
    f: spec_fn(usize) -> usize,
    ks: Seq<usize>,
    bin: Option<usize>,
)
    requires
        carries(ns1, ns2, d, f),
        within(ks, d),
        bin matches Some(b) ==> d.contains(b),
    ensures
        bin_clips_of(ns2, ks.map_values(f), carried(bin, f)) == bin_clips_of(ns1, ks, bin),
{
    lemma_producer_ids_carried(ns1, ns2, d, f, ks);
    if let Some(b) = bin {
        lemma_node(ns1, ns2, d, f, b);
        lemma_tagged_carried(ns1, ns2, d, f, ns1[b as int].children, "entry"@);
        lemma_entry_producers_carried(ns1, ns2, d, f, tagged(ns1, ns1[b as int].children, "entry"@));
    }
    assert(listed_of(ns2, carried(bin, f)) == listed_of(ns1, bin));
    lemma_bin_entries_carried(ns1, ns2, d, f, ks, crate::keys::key_set(producer_ids(ns1, ks)), listed_of(ns1, bin));
}

/// Unique producer ids stay unique under the renaming.
pub proof fn lemma_unique_ids_carried(
    ns1: Seq<XmlNodeView>,
    ns2: Seq<XmlNodeView>,
    d: Set<usize>,
    f: spec_fn(usize) -> usize,
    ks: Seq<usize>,
)
    requires
        carries(ns1, ns2, d, f),
        within(ks, d),
        producer_ids_unique(ns1, ks),
    ensures
        producer_ids_unique(ns2, ks.map_values(f)),
{
    let ks2 = ks.map_values(f);
    assert forall|a: int, b: int|
        0 <= a < b < ks2.len() && is_producer(ns2, #[trigger] ks2[a]) && is_producer(ns2, #[trigger] ks2[b])
            && id_attr(ns2, ks2[a]) is Some implies id_attr(ns2, ks2[a]) != id_attr(ns2, ks2[b]) by {
        lemma_node(ns1, ns2, d, f, ks[a]);
        lemma_node(ns1, ns2, d, f, ks[b]);
        assert(is_producer(ns1, ks[a]) && is_producer(ns1, ks[b]));
    }
}

proof fn lemma_param_entries_carried(
    ns1: Seq<XmlNodeView>,
    ns2: Seq<XmlNodeView>,
    d: Set<usize>,
    f: spec_fn(usize) -> usize,
    ps: Seq<usize>,
)
    requires
        carries(ns1, ns2, d, f),
        within(ps, d),
    ensures
        param_entries(ns2, ps.map_values(f)) == param_entries(ns1, ps),
    decreases ps.len(),
{
    lemma_renamed_ends(ps, f);
    if ps.len() > 0 {
        lemma_within_rest(ps, d);
        lemma_node(ns1, ns2, d, f, ps.last());
        lemma_param_entries_carried(ns1, ns2, d, f, ps.drop_last());
    }
}

proof fn lemma_effect_carried(ns1: Seq<XmlNodeView>, ns2: Seq<XmlNodeView>, d: Set<usize>, f: spec_fn(usize) -> usize, c: usize)
    requires
        carries(ns1, ns2, d, f),
        d.contains(c),
    ensures
        effect_at(ns2, f(c)) == effect_at(ns1, c),
{
    lemma_node(ns1, ns2, d, f, c);
    lemma_property_carried(ns1, ns2, d, f, c, "mlt_service"@);
    lemma_property_carried(ns1, ns2, d, f, c, "internal_added"@);
    lemma_property_carried(ns1, ns2, d, f, c, "kdenlive_id"@);
    lemma_tagged_carried(ns1, ns2, d, f, ns1[c as int].children, "property"@);
    lemma_param_entries_carried(ns1, ns2, d, f, tagged(ns1, ns1[c as int].children, "property"@));
}

proof fn lemma_effects_in_carried(
    ns1: Seq<XmlNodeView>,
    ns2: Seq<XmlNodeView>,
    d: Set<usize>,
    f: spec_fn(usize) -> usize,
    fs: Seq<usize>,
)
    requires
        carries(ns1, ns2, d, f),
        within(fs, d),
    ensures
        effects_in(ns2, fs.map_values(f)) == effects_in(ns1, fs),
    decreases fs.len(),
{
    lemma_renamed_ends(fs, f);
    if fs.len() > 0 {
        lemma_within_rest(fs, d);
        lemma_effect_carried(ns1, ns2, d, f, fs.last());
        lemma_effects_in_carried(ns1, ns2, d, f, fs.drop_last());
    }
}

proof fn lemma_entry_carried<T: Fn(&str, u32, u32) -> Result<i64, &'static str>>(
    ns1: Seq<XmlNodeView>,
    ns2: Seq<XmlNodeView>,
    d: Set<usize>,
    f: spec_fn(usize) -> usize,
    ks: Seq<usize>,
    e: usize,
    pid: Seq<char>,
    position: i64,
    t: T,
    num: u32,
    den: u32,
)
    requires
        carries(ns1, ns2, d, f),
        within(ks, d),
        d.contains(e),
    ensures
        entry_at(ns2, ks.map_values(f), f(e), pid, position, t, num, den) == entry_at(ns1, ks, e, pid, position, t, num, den),
{
    lemma_node(ns1, ns2, d, f, e);
    lemma_property_carried(ns1, ns2, d, f, e, "kdenlive:id"@);
    lemma_tagged_carried(ns1, ns2, d, f, ns1[e as int].children, "filter"@);
    lemma_effects_in_carried(ns1, ns2, d, f, tagged(ns1, ns1[e as int].children, "filter"@));
    assert(effects_of(ns2, f(e)) == effects_of(ns1, e));
    if let Some(prod) = attr_of(ns1[e as int].attrs, "producer"@) {
        lemma_last_producer_carried(ns1, ns2, d, f, ks, prod);
        if let Some(p) = last_producer(ns1, ks, prod) {
            lemma_property_carried(ns1, ns2, d, f, p, "kdenlive:id"@);
        }
        assert(entry_bin(ns2, ks.map_values(f), f(e), prod) == entry_bin(ns1, ks, e, prod));
    }
}

proof fn lemma_lane_clips_carried<T: Fn(&str, u32, u32) -> Result<i64, &'static str>>(
    ns1: Seq<XmlNodeView>,
    ns2: Seq<XmlNodeView>,
    d: Set<usize>,
    f: spec_fn(usize) -> usize,
    ks: Seq<usize>,
    pl: usize,
    pid: Seq<char>,
    t: T,
    num: u32,
    den: u32,
)
    requires
        carries(ns1, ns2, d, f),
        within(ks, d),
        d.contains(pl),
    ensures
        lane_clips(ns2, ks.map_values(f), f(pl), pid, t, num, den) == lane_clips(ns1, ks, pl, pid, t, num, den),
{
    lemma_node(ns1, ns2, d, f, pl);
    let items = ns1[pl as int].children;
    let step1 = lane_step(ns1, ks, pid, t, num, den);
    let step2 = lane_step(ns2, ks.map_values(f), pid, t, num, den);
    assert forall|k: int, st: (Seq<TimelineClipView>, i64)| 0 <= k < items.len() implies #[trigger] step2(st, f(items[k]))
        == step1(st, items[k]) by {
        let c = items[k];
        lemma_node(ns1, ns2, d, f, c);
        lemma_entry_carried(ns1, ns2, d, f, ks, c, pid, st.1, t, num, den);
    }
    lemma_fold_ok_renamed(items, f, (Seq::<TimelineClipView>::empty(), 0i64), step1, step2);
}

proof fn lemma_track_clips_carried<T: Fn(&str, u32, u32) -> Result<i64, &'static str>>(
    ns1: Seq<XmlNodeView>,
    ns2: Seq<XmlNodeView>,
    d: Set<usize>,
    f: spec_fn(usize) -> usize,
    ks: Seq<usize>,
    tt: usize,
    t: T,
    num: u32,
    den: u32,
)
    requires
        carries(ns1, ns2, d, f),
        within(ks, d),
        d.contains(tt),
    ensures
        track_clips(ns2, ks.map_values(f), f(tt), t, num, den) == track_clips(ns1, ks, tt, t, num, den),
{
    lemma_node(ns1, ns2, d, f, tt);
    assert(track_id(ns2, f(tt)) == track_id(ns1, tt));
    let tid = track_id(ns1, tt);
    lemma_tagged_carried(ns1, ns2, d, f, ns1[tt as int].children, "track"@);
    let items = tagged(ns1, ns1[tt as int].children, "track"@);
    let step1 = lanes_step(ns1, ks, tid, t, num, den);
    let step2 = lanes_step(ns2, ks.map_values(f), tid, t, num, den);
    assert forall|k: int, acc: Seq<TimelineClipView>| 0 <= k < items.len() implies #[trigger] step2(acc, f(items[k]))
        == step1(acc, items[k]) by {
        let r = items[k];
        lemma_node(ns1, ns2, d, f, r);
        if let Some(pid) = attr_of(ns1[r as int].attrs, "producer"@) {
            lemma_last_producer_carried(ns1, ns2, d, f, ks, pid);
            if let Some(pl) = last_playlist(ns1, ks, pid) {
                lemma_lane_clips_carried(ns1, ns2, d, f, ks, pl, pid, t, num, den);
            }
        }
    }
    lemma_fold_ok_renamed(items, f, Seq::<TimelineClipView>::empty(), step1, step2);
}

proof fn lemma_first_tractor_carried(
    ns1: Seq<XmlNodeView>,
    ns2: Seq<XmlNodeView>,
    d: Set<usize>,
    f: spec_fn(usize) -> usize,
    trs: Seq<usize>,
    id: Seq<char>,
)
    requires
        carries(ns1, ns2, d, f),
        within(trs, d),
    ensures
        first_tractor(ns2, trs.map_values(f), id) == carried(first_tractor(ns1, trs, id), f),
        first_tractor(ns1, trs, id) matches Some(c) ==> d.contains(c),
    decreases trs.len(),
{
    lemma_renamed_ends(trs, f);
    if trs.len() > 0 {
        lemma_within_rest(trs, d);
        lemma_node(ns1, ns2, d, f, trs[0]);
        lemma_first_tractor_carried(ns1, ns2, d, f, trs.drop_first(), id);
    }
}

/// The sequences read the same in both documents.
pub proof fn lemma_sequences_carried<T: Fn(&str, u32, u32) -> Result<i64, &'static str>, M: Fn(&str) -> (i64, i32)>(
    ns1: Seq<XmlNodeView>,
    ns2: Seq<XmlNodeView>,
    d: Set<usize>,
    f: spec_fn(usize) -> usize,
    ks: Seq<usize>,
    t: T,
    num: u32,
    den: u32,
    m: M,
)
    requires
        carries(ns1, ns2, d, f),
        within(ks, d),
    ensures
        sequences_in(ns2, ks.map_values(f), t, num, den, m) == sequences_in(ns1, ks, t, num, den, m),
{
    let ks2 = ks.map_values(f);
    lemma_tagged_carried(ns1, ns2, d, f, ks, "tractor"@);
    let trs = tagged(ns1, ks, "tractor"@);
    let trs2 = trs.map_values(f);
    let tstep1 = tracks_step(ns1, ks, trs, t, num, den);
    let tstep2 = tracks_step(ns2, ks2, trs2, t, num, den);
    let sstep1 = sequence_step(ns1, ks, trs, t, num, den, m);
    let sstep2 = sequence_step(ns2, ks2, trs2, t, num, den, m);
    assert forall|k: int, acc: Seq<SequenceView>| 0 <= k < trs.len() implies #[trigger] sstep2(acc, f(trs[k]))
        == sstep1(acc, trs[k]) by {
        let s = trs[k];
        lemma_node(ns1, ns2, d, f, s);
        lemma_property_carried(ns1, ns2, d, f, s, "kdenlive:uuid"@);
        lemma_property_carried(ns1, ns2, d, f, s, "kdenlive:clipname"@);
        lemma_property_carried(ns1, ns2, d, f, s, "kdenlive:markers"@);
        assert(markers_of(ns2, f(s), m) == markers_of(ns1, s, m));
        lemma_tagged_carried(ns1, ns2, d, f, ns1[s as int].children, "track"@);
        let items = tagged(ns1, ns1[s as int].children, "track"@);
        assert forall|j: int, tacc: Seq<TrackView>| 0 <= j < items.len() implies #[trigger] tstep2(tacc, f(items[j]))
            == tstep1(tacc, items[j]) by {
            let r = items[j];
            lemma_node(ns1, ns2, d, f, r);
            if let Some(pid) = attr_of(ns1[r as int].attrs, "producer"@) {
                lemma_first_tractor_carried(ns1, ns2, d, f, trs, pid);
                if let Some(tt) = first_tractor(ns1, trs, pid) {
                    lemma_track_clips_carried(ns1, ns2, d, f, ks, tt, t, num, den);
                    lemma_property_carried(ns1, ns2, d, f, tt, "kdenlive:audio_track"@);
                    lemma_property_carried(ns1, ns2, d, f, tt, "kdenlive:locked_track"@);
                    assert(track_kind(ns2, f(tt)) == track_kind(ns1, tt));
                }
            }
        }
        lemma_fold_ok_renamed(items, f, Seq::<TrackView>::empty(), tstep1, tstep2);
    }
    lemma_fold_ok_renamed(trs, f, Seq::<SequenceView>::empty(), sstep1, sstep2);
}

} // verus!
