//! Finding elements by id, and the project bin.
//!
//! MLT references point both forward and backward in a document, so
//! producers and playlists are looked up among all children of the root.
//! An id that occurs twice resolves to the later element, as a map keyed by
//! id that is filled in document order would have it.

use vstd::prelude::*;

use crate::keys::{insert_key, key_set, lemma_key_set_members, lemma_key_set_sorted, strs};
use crate::model::{BinClip, BinClipView, bin_views, bins_in_order};
use crate::text::{owned, str_same, text_lt};
use crate::xml::{
    attr_of, has_tag, is_element, node_views, property, property_of, tagged, tagged_children, XmlNode,
    XmlNodeView, lemma_tagged_in_range,
};

verus! {

/// Whether node `c` is a source of frames: a `<chain>` or a `<producer>`.
/// Modern Kdenlive writes `<chain>` for media and `<producer>` for the rest.
pub open spec fn is_producer(ns: Seq<XmlNodeView>, c: usize) -> bool {
    is_element(ns, c) && (ns[c as int].name == "chain"@ || ns[c as int].name == "producer"@)
}

pub open spec fn id_attr(ns: Seq<XmlNodeView>, c: usize) -> Option<Seq<char>> {
    attr_of(ns[c as int].attrs, "id"@)
}

/// The ids of the producers among `kids`, in document order.
pub open spec fn producer_ids(ns: Seq<XmlNodeView>, kids: Seq<usize>) -> Seq<Seq<char>>
    decreases kids.len(),
{
    if kids.len() == 0 {
        Seq::empty()
    } else if is_producer(ns, kids.last()) && id_attr(ns, kids.last()) is Some {
        producer_ids(ns, kids.drop_last()).push(id_attr(ns, kids.last())->0)
    } else {
        producer_ids(ns, kids.drop_last())
    }
}

/// The last producer among `kids` with id `id`.
pub open spec fn last_producer(ns: Seq<XmlNodeView>, kids: Seq<usize>, id: Seq<char>) -> Option<usize>
    decreases kids.len(),
{
    if kids.len() == 0 {
        None
    } else if is_producer(ns, kids.last()) && id_attr(ns, kids.last()) == Some(id) {
        Some(kids.last())
    } else {
        last_producer(ns, kids.drop_last(), id)
    }
}

/// The last `<playlist>` among `kids` with id `id`.
pub open spec fn last_playlist(ns: Seq<XmlNodeView>, kids: Seq<usize>, id: Seq<char>) -> Option<usize>
    decreases kids.len(),
{
    if kids.len() == 0 {
        None
    } else if has_tag(ns, kids.last(), "playlist"@) && id_attr(ns, kids.last()) == Some(id) {
        Some(kids.last())
    } else {
        last_playlist(ns, kids.drop_last(), id)
    }
}

/// Finds the last producer among the children of `root` whose id is `id`.
pub fn find_producer(nodes: &Vec<XmlNode>, root: usize, id: &str) -> (r: Option<usize>)
    requires
        root < nodes.len(),
    ensures
        r == last_producer(node_views(nodes@), node_views(nodes@)[root as int].children, id@),
        r matches Some(c) ==> c < nodes.len(),
{
    let ghost ns = node_views(nodes@);
    let kids = &nodes[root].children;
    let ghost ks = kids@;
    assert(ks == ns[root as int].children);
    let mut k: usize = kids.len();
    assert(ks.take(k as int) =~= ks);
    while k > 0
        invariant
            ns == node_views(nodes@),
            ks == kids@,
            ks == ns[root as int].children,
            k <= kids.len(),
            last_producer(ns, ks, id@) == last_producer(ns, ks.take(k as int), id@),
        decreases k,
    {
        let c = kids[k - 1];
        assert(ks.take(k as int).last() == c);
        assert(ks.take(k as int).drop_last() =~= ks.take(k - 1));
        if c < nodes.len() && nodes[c].element && (str_same(nodes[c].name.as_str(), "chain") || str_same(
            nodes[c].name.as_str(),
            "producer",
        )) {
            assert(ns[c as int] == nodes@[c as int]@);
            let id_ok = match nodes[c].attribute("id") {
                Some(v) => str_same(v, id),
                None => false,
            };
            if id_ok {
                assert(last_producer(ns, ks.take(k as int), id@) == Some(c));
                return Some(c);
            }
        }
        k = k - 1;
    }
    None
}

/// Finds the last playlist among the children of `root` whose id is `id`.
pub fn find_playlist(nodes: &Vec<XmlNode>, root: usize, id: &str) -> (r: Option<usize>)
    requires
        root < nodes.len(),
    ensures
        r == last_playlist(node_views(nodes@), node_views(nodes@)[root as int].children, id@),
        r matches Some(c) ==> c < nodes.len(),
{
    let ghost ns = node_views(nodes@);
    let kids = &nodes[root].children;
    let ghost ks = kids@;
    assert(ks == ns[root as int].children);
    let mut k: usize = kids.len();
    assert(ks.take(k as int) =~= ks);
    while k > 0
        invariant
            ns == node_views(nodes@),
            ks == kids@,
            ks == ns[root as int].children,
            k <= kids.len(),
            last_playlist(ns, ks, id@) == last_playlist(ns, ks.take(k as int), id@),
        decreases k,
    {
        let c = kids[k - 1];
        assert(ks.take(k as int).last() == c);
        assert(ks.take(k as int).drop_last() =~= ks.take(k - 1));
        if c < nodes.len() && nodes[c].element && str_same(nodes[c].name.as_str(), "playlist") {
            assert(ns[c as int] == nodes@[c as int]@);
            let id_ok = match nodes[c].attribute("id") {
                Some(v) => str_same(v, id),
                None => false,
            };
            if id_ok {
                assert(last_playlist(ns, ks.take(k as int), id@) == Some(c));
                return Some(c);
            }
        }
        k = k - 1;
    }
    None
}

// ---------------------------------------------------------------------------
// The bin.

/// What the `<entry>` elements of the bin list: their `producer` attributes.
pub open spec fn entry_producers(ns: Seq<XmlNodeView>, es: Seq<usize>) -> Seq<Seq<char>>
    decreases es.len(),
{
    if es.len() == 0 {
        Seq::empty()
    } else {
        match attr_of(ns[es.last() as int].attrs, "producer"@) {
            Some(p) => entry_producers(ns, es.drop_last()).push(p),
            None => entry_producers(ns, es.drop_last()),
        }
    }
}

/// The producers the bin lists, when there is a bin.
pub open spec fn listed_of(ns: Seq<XmlNodeView>, bin: Option<usize>) -> Option<Seq<Seq<char>>> {
    match bin {
        Some(b) => Some(entry_producers(ns, tagged(ns, ns[b as int].children, "entry"@))),
        None => None,
    }
}

/// The bin clip that producer `p` describes under the bin id `kid`.
pub open spec fn bin_clip_at(ns: Seq<XmlNodeView>, p: usize, kid: Seq<char>) -> BinClipView {
    BinClipView {
        id: kid,
        name: property_of(ns, p, "kdenlive:clipname"@),
        resource: property_of(ns, p, "resource"@),
        service: property_of(ns, p, "mlt_service"@),
    }
}

/// The bin clips of the producers `keys` names, in that order: a producer
/// the bin does not list is internal (a sequence wrapper, the black track),
/// and one without `kdenlive:id` is an MLT internal.
pub open spec fn bin_entries(
    ns: Seq<XmlNodeView>,
    kids: Seq<usize>,
    keys: Seq<Seq<char>>,
    listed: Option<Seq<Seq<char>>>,
) -> Seq<BinClipView>
    decreases keys.len(),
{
    if keys.len() == 0 {
        Seq::empty()
    } else {
        let rest = bin_entries(ns, kids, keys.drop_last(), listed);
        let k = keys.last();
        if listed matches Some(l) && !l.contains(k) {
            rest
        } else {
            match last_producer(ns, kids, k) {
                None => rest,
                Some(p) => match property_of(ns, p, "kdenlive:id"@) {
                    None => rest,
                    Some(kid) => rest.push(bin_clip_at(ns, p, kid)),
                },
            }
        }
    }
}

pub open spec fn bin_ids(bs: Seq<BinClipView>) -> Seq<Seq<char>> {
    bs.map_values(|b: BinClipView| b.id)
}

/// The last of `bs` with id `id`.
pub open spec fn last_bin(bs: Seq<BinClipView>, id: Seq<char>) -> Option<BinClipView>
    decreases bs.len(),
{
    if bs.len() == 0 {
        None
    } else if bs.last().id == id {
        Some(bs.last())
    } else {
        last_bin(bs.drop_last(), id)
    }
}

/// `bs` keyed by id: one clip per id in id order, the later of two clips
/// with one id winning.
pub open spec fn keyed_bins(bs: Seq<BinClipView>) -> Seq<BinClipView> {
    key_set(bin_ids(bs)).map_values(|k: Seq<char>| last_bin(bs, k)->0)
}

/// The project bin: the clips of the producers among `kids`, taken in id
/// order, keyed by their `kdenlive:id`.
pub open spec fn bin_clips_of(ns: Seq<XmlNodeView>, kids: Seq<usize>, bin: Option<usize>) -> Seq<BinClipView> {
    keyed_bins(bin_entries(ns, kids, key_set(producer_ids(ns, kids)), listed_of(ns, bin)))
}

fn copy_text(o: &Option<String>) -> (r: Option<String>)
    ensures
        crate::text::opt_view(r) == crate::text::opt_view(*o),
{
    match o {
        Some(s) => Some(s.clone()),
        None => None,
    }
}

fn copy_bin(b: &BinClip) -> (r: BinClip)
    ensures
        r@ == b@,
{
    BinClip {
        id: b.id.clone(),
        name: copy_text(&b.name),
        resource: copy_text(&b.resource),
        service: copy_text(&b.service),
    }
}

fn producer_keys(nodes: &Vec<XmlNode>, root: usize) -> (r: Vec<String>)
    requires
        root < nodes.len(),
    ensures
        strs(r@) == key_set(producer_ids(node_views(nodes@), node_views(nodes@)[root as int].children)),
{
    let ghost ns = node_views(nodes@);
    let kids = &nodes[root].children;
    let ghost ks = kids@;
    assert(ks == ns[root as int].children);
    let mut keys: Vec<String> = Vec::new();
    let mut k: usize = 0;
    assert(ks.take(0) =~= Seq::<usize>::empty());
    assert(strs(keys@) =~= Seq::<Seq<char>>::empty());
    while k < kids.len()
        invariant
            ns == node_views(nodes@),
            ks == kids@,
            k <= kids.len(),
            strs(keys@) == key_set(producer_ids(ns, ks.take(k as int))),
        decreases kids.len() - k,
    {
        let c = kids[k];
        assert(ks.take(k + 1).drop_last() =~= ks.take(k as int));
        assert(ks.take(k + 1).last() == c);
        if c < nodes.len() && nodes[c].element && (str_same(nodes[c].name.as_str(), "chain") || str_same(
            nodes[c].name.as_str(),
            "producer",
        )) {
            assert(ns[c as int] == nodes@[c as int]@);
            match nodes[c].attribute("id") {
                Some(id) => {
                    let ghost ids = producer_ids(ns, ks.take(k as int));
                    assert(producer_ids(ns, ks.take(k + 1)) == ids.push(id@));
                    assert(ids.push(id@).drop_last() =~= ids);
                    insert_key(&mut keys, id);
                },
                None => {},
            }
        }
        k = k + 1;
    }
    assert(ks.take(kids.len() as int) =~= ks);
    keys
}

fn listed_producers(nodes: &Vec<XmlNode>, b: usize) -> (r: Vec<String>)
    requires
        b < nodes.len(),
    ensures
        strs(r@) == entry_producers(node_views(nodes@), tagged(node_views(nodes@), node_views(nodes@)[b as int].children, "entry"@)),
{
    let ghost ns = node_views(nodes@);
    let es = tagged_children(nodes, b, "entry");
    let ghost esv = es@;
    proof {
        lemma_tagged_in_range(ns, ns[b as int].children, "entry"@);
    }
    let mut out: Vec<String> = Vec::new();
    let mut k: usize = 0;
    assert(esv.take(0) =~= Seq::<usize>::empty());
    assert(strs(out@) =~= Seq::<Seq<char>>::empty());
    while k < es.len()
        invariant
            ns == node_views(nodes@),
            esv == es@,
            esv == tagged(ns, ns[b as int].children, "entry"@),
            forall|j: int| 0 <= j < esv.len() ==> (#[trigger] esv[j]) < ns.len(),
            k <= es.len(),
            strs(out@) == entry_producers(ns, esv.take(k as int)),
        decreases es.len() - k,
    {
        let c = es[k];
        assert(esv.take(k + 1).drop_last() =~= esv.take(k as int));
        assert(esv.take(k + 1).last() == c);
        assert(ns[c as int] == nodes@[c as int]@);
        match nodes[c].attribute("producer") {
            Some(p) => {
                let ghost prev = strs(out@);
                out.push(owned(p));
                assert(strs(out@) =~= prev.push(p@));
            },
            None => {},
        }
        k = k + 1;
    }
    assert(esv.take(es.len() as int) =~= esv);
    out
}

fn lists(listed: &Vec<String>, k: &str) -> (r: bool)
    ensures
        r == strs(listed@).contains(k@),
{
    let mut i: usize = 0;
    while i < listed.len()
        invariant
            i <= listed.len(),
            forall|j: int| 0 <= j < i ==> strs(listed@)[j] != k@,
        decreases listed.len() - i,
    {
        if str_same(listed[i].as_str(), k) {
            assert(strs(listed@)[i as int] == k@);
            return true;
        }
        i = i + 1;
    }
    false
}

fn last_entry(bs: &Vec<BinClip>, id: &str) -> (r: Option<usize>)
    ensures
        r matches Some(i) ==> i < bs.len() && last_bin(bin_views(bs@), id@) == Some(bs@[i as int]@),
        r is None ==> last_bin(bin_views(bs@), id@) is None,
{
    let ghost v = bin_views(bs@);
    let mut k: usize = bs.len();
    assert(v.take(k as int) =~= v);
    while k > 0
        invariant
            v == bin_views(bs@),
            k <= bs.len(),
            last_bin(v, id@) == last_bin(v.take(k as int), id@),
        decreases k,
    {
        assert(v.take(k as int).last() == bs@[k - 1]@);
        assert(v.take(k as int).drop_last() =~= v.take(k - 1));
        if str_same(bs[k - 1].id.as_str(), id) {
            return Some(k - 1);
        }
        k = k - 1;
    }
    None
}

/// Reads the project bin.
pub fn read_bin_clips(nodes: &Vec<XmlNode>, root: usize, bin: Option<usize>) -> (r: Vec<BinClip>)
    requires
        root < nodes.len(),
        bin matches Some(b) ==> b < nodes.len(),
    ensures
        bin_views(r@) == bin_clips_of(node_views(nodes@), node_views(nodes@)[root as int].children, bin),
        bins_in_order(r@),
{
    let ghost ns = node_views(nodes@);
    let ghost kids = ns[root as int].children;
    let keys = producer_keys(nodes, root);
    let ghost kv = strs(keys@);
    let listed: Option<Vec<String>> = match bin {
        Some(b) => Some(listed_producers(nodes, b)),
        None => None,
    };
    let ghost lv: Option<Seq<Seq<char>>> = match &listed {
        Some(l) => Some(strs(l@)),
        None => None,
    };
    assert(lv == listed_of(ns, bin));
    let mut entries: Vec<BinClip> = Vec::new();
    let mut k: usize = 0;
    assert(kv.take(0) =~= Seq::<Seq<char>>::empty());
    assert(bin_views(entries@) =~= Seq::<BinClipView>::empty());
    while k < keys.len()
        invariant
            ns == node_views(nodes@),
            kids == ns[root as int].children,
            root < nodes.len(),
            kv == strs(keys@),
            lv == listed_of(ns, bin),
            lv == (match &listed {
                Some(l) => Some(strs(l@)),
                None => None::<Seq<Seq<char>>>,
            }),
            k <= keys.len(),
            bin_views(entries@) == bin_entries(ns, kids, kv.take(k as int), lv),
        decreases keys.len() - k,
    {
        let key = keys[k].as_str();
        assert(kv.take(k + 1).drop_last() =~= kv.take(k as int));
        assert(kv.take(k + 1).last() == key@);
        let wanted = match &listed {
            Some(l) => lists(l, key),
            None => true,
        };
        if wanted {
            match find_producer(nodes, root, key) {
                Some(p) => match property(nodes, p, "kdenlive:id") {
                    Some(kid) => {
                        let clip = BinClip {
                            id: kid,
                            name: property(nodes, p, "kdenlive:clipname"),
                            resource: property(nodes, p, "resource"),
                            service: property(nodes, p, "mlt_service"),
                        };
                        let ghost prev = bin_views(entries@);
                        entries.push(clip);
                        assert(bin_views(entries@) =~= prev.push(clip@));
                    },
                    None => {},
                },
                None => {},
            }
        }
        k = k + 1;
    }
    assert(kv.take(keys.len() as int) =~= kv);
    let ghost ev = bin_views(entries@);
    // Key the entries by bin id.
    let mut ids: Vec<String> = Vec::new();
    let mut i: usize = 0;
    assert(bin_ids(ev).take(0) =~= Seq::<Seq<char>>::empty());
    assert(strs(ids@) =~= Seq::<Seq<char>>::empty());
    while i < entries.len()
        invariant
            ev == bin_views(entries@),
            i <= entries.len(),
            strs(ids@) == key_set(bin_ids(ev).take(i as int)),
        decreases entries.len() - i,
    {
        let ghost b = bin_ids(ev);
        assert(b.take(i + 1).drop_last() =~= b.take(i as int));
        assert(b.take(i + 1).last() == entries@[i as int].id@);
        insert_key(&mut ids, entries[i].id.as_str());
        i = i + 1;
    }
    assert(bin_ids(ev).take(entries.len() as int) =~= bin_ids(ev));
    proof {
        lemma_key_set_members(bin_ids(ev));
    }
    let ghost iv = strs(ids@);
    let mut out: Vec<BinClip> = Vec::new();
    let mut j: usize = 0;
    while j < ids.len()
        invariant
            ev == bin_views(entries@),
            iv == strs(ids@),
            iv == key_set(bin_ids(ev)),
            forall|x: Seq<char>| #[trigger] key_set(bin_ids(ev)).contains(x) <==> bin_ids(ev).contains(x),
            j <= ids.len(),
            bin_views(out@) == iv.take(j as int).map_values(|k: Seq<char>| last_bin(ev, k)->0),
        decreases ids.len() - j,
    {
        assert(iv.contains(iv[j as int]));
        let e = last_entry(&entries, ids[j].as_str());
        proof {
            if e is None {
                let w = choose|w: int| 0 <= w < bin_ids(ev).len() && bin_ids(ev)[w] == iv[j as int];
                lemma_last_bin_found(ev, iv[j as int], w);
            }
        }
        let pos = e.unwrap();
        let ghost prev = bin_views(out@);
        let c = copy_bin(&entries[pos]);
        let ghost cv = c@;
        out.push(c);
        assert(bin_views(out@) =~= prev.push(cv));
        assert(cv == last_bin(ev, iv[j as int])->0);
        assert(prev.push(cv) =~= iv.take(j + 1).map_values(|k: Seq<char>| last_bin(ev, k)->0));
        j = j + 1;
    }
    assert(iv.take(ids.len() as int) =~= iv);
    proof {
        lemma_keyed_bins_in_order(ev);
        assert forall|a: int, b: int| 0 <= a < b < out@.len() implies text_lt(
            #[trigger] out@[a].id@,
            #[trigger] out@[b].id@,
        ) by {
            assert(bin_views(out@)[a].id == out@[a].id@);
            assert(bin_views(out@)[b].id == out@[b].id@);
        }
    }
    out
}

proof fn lemma_last_bin_id(bs: Seq<BinClipView>, id: Seq<char>)
    ensures
        last_bin(bs, id) matches Some(b) ==> b.id == id,
    decreases bs.len(),
{
    if bs.len() > 0 && bs.last().id != id {
        lemma_last_bin_id(bs.drop_last(), id);
    }
}

/// Keyed bin clips are in strictly increasing id order, so no id occurs
/// twice.
pub proof fn lemma_keyed_bins_in_order(bs: Seq<BinClipView>)
    ensures
        forall|a: int, b: int|
            0 <= a < b < keyed_bins(bs).len() ==> text_lt(#[trigger] keyed_bins(bs)[a].id, #[trigger] keyed_bins(bs)[b].id),
{
    let ks = key_set(bin_ids(bs));
    lemma_key_set_sorted(bin_ids(bs));
    lemma_key_set_members(bin_ids(bs));
    assert forall|a: int| 0 <= a < ks.len() implies (#[trigger] keyed_bins(bs)[a]).id == ks[a] by {
        assert(ks.contains(ks[a]));
        let w = choose|w: int| 0 <= w < bin_ids(bs).len() && bin_ids(bs)[w] == ks[a];
        lemma_last_bin_found(bs, ks[a], w);
        lemma_last_bin_id(bs, ks[a]);
    }
    assert forall|a: int, b: int| 0 <= a < b < keyed_bins(bs).len() implies text_lt(
        #[trigger] keyed_bins(bs)[a].id,
        #[trigger] keyed_bins(bs)[b].id,
    ) by {
        assert(keyed_bins(bs)[a].id == ks[a]);
        assert(keyed_bins(bs)[b].id == ks[b]);
    }
}

proof fn lemma_last_bin_found(bs: Seq<BinClipView>, id: Seq<char>, w: int)
    requires
        0 <= w < bs.len(),
        bs[w].id == id,
    ensures
        last_bin(bs, id) is Some,
    decreases bs.len(),
{
    if bs.last().id != id {
        lemma_last_bin_found(bs.drop_last(), id, w);
    }
}

// ---------------------------------------------------------------------------
// The bin does not depend on the order the document lists producers in.

/// No two producers among `kids` share an id.
pub open spec fn producer_ids_unique(ns: Seq<XmlNodeView>, kids: Seq<usize>) -> bool {
    forall|a: int, b: int|
        0 <= a < b < kids.len() && is_producer(ns, #[trigger] kids[a]) && is_producer(ns, #[trigger] kids[b])
            && id_attr(ns, kids[a]) is Some ==> id_attr(ns, kids[a]) != id_attr(ns, kids[b])
}

/// Whether some producer among `kids` has id `id`.
pub open spec fn has_producer(ns: Seq<XmlNodeView>, kids: Seq<usize>, id: Seq<char>) -> bool {
    exists|j: int| 0 <= j < kids.len() && is_producer(ns, #[trigger] kids[j]) && id_attr(ns, kids[j]) == Some(id)
}

proof fn lemma_producer_ids_members(ns: Seq<XmlNodeView>, kids: Seq<usize>)
    ensures
        forall|id: Seq<char>| #[trigger] producer_ids(ns, kids).contains(id) <==> has_producer(ns, kids, id),
    decreases kids.len(),
{
    if kids.len() > 0 {
        let rest = kids.drop_last();
        lemma_producer_ids_members(ns, rest);
        let prev = producer_ids(ns, rest);
        let last = kids.last();
        let n = kids.len() - 1;
        assert(kids[n] == last);
        assert forall|id: Seq<char>| has_producer(ns, rest, id) implies has_producer(ns, kids, id) by {
            let j = choose|j: int|
                0 <= j < rest.len() && is_producer(ns, #[trigger] rest[j]) && id_attr(ns, rest[j]) == Some(id);
            assert(kids[j] == rest[j]);
            assert(is_producer(ns, kids[j]) && id_attr(ns, kids[j]) == Some(id));
        }
        assert forall|id: Seq<char>|
            has_producer(ns, kids, id) && !(is_producer(ns, last) && id_attr(ns, last) == Some(id)) implies has_producer(
            ns,
            rest,
            id,
        ) by {
            let j = choose|j: int|
                0 <= j < kids.len() && is_producer(ns, #[trigger] kids[j]) && id_attr(ns, kids[j]) == Some(id);
            assert(j < n);
            assert(rest[j] == kids[j]);
            assert(is_producer(ns, rest[j]) && id_attr(ns, rest[j]) == Some(id));
        }
        if is_producer(ns, last) && id_attr(ns, last) is Some {
            let x = id_attr(ns, last)->0;
            assert(producer_ids(ns, kids) == prev.push(x));
            assert(has_producer(ns, kids, x)) by {
                assert(is_producer(ns, kids[n]) && id_attr(ns, kids[n]) == Some(x));
            }
            assert forall|id: Seq<char>| #[trigger] producer_ids(ns, kids).contains(id) <==> has_producer(ns, kids, id) by {
                if producer_ids(ns, kids).contains(id) {
                    let m = choose|m: int| 0 <= m < prev.push(x).len() && prev.push(x)[m] == id;
                    if m < prev.len() {
                        assert(prev[m] == id);
                        assert(prev.contains(id));
                    }
                }
                if has_producer(ns, kids, id) && id != x {
                    assert(prev.contains(id));
                    let m = choose|m: int| 0 <= m < prev.len() && prev[m] == id;
                    assert(prev.push(x)[m] == id);
                }
                if id == x {
                    assert(prev.push(x)[prev.len() as int] == id);
                }
            }
        } else {
            assert(producer_ids(ns, kids) == prev);
        }
    }
}

proof fn lemma_last_producer_none(ns: Seq<XmlNodeView>, kids: Seq<usize>, id: Seq<char>)
    requires
        !has_producer(ns, kids, id),
    ensures
        last_producer(ns, kids, id) is None,
    decreases kids.len(),
{
    if kids.len() > 0 {
        assert(kids[kids.len() - 1] == kids.last());
        let rest = kids.drop_last();
        assert(!has_producer(ns, rest, id)) by {
            if has_producer(ns, rest, id) {
                let j = choose|j: int|
                    0 <= j < rest.len() && is_producer(ns, #[trigger] rest[j]) && id_attr(ns, rest[j]) == Some(id);
                assert(kids[j] == rest[j]);
            }
        }
        lemma_last_producer_none(ns, rest, id);
    }
}

proof fn lemma_last_producer_only(ns: Seq<XmlNodeView>, kids: Seq<usize>, id: Seq<char>, c: usize)
    requires
        kids.contains(c),
        is_producer(ns, c),
        id_attr(ns, c) == Some(id),
        forall|j: int|
            0 <= j < kids.len() && is_producer(ns, #[trigger] kids[j]) && id_attr(ns, kids[j]) == Some(id) ==> kids[j] == c,
    ensures
        last_producer(ns, kids, id) == Some(c),
    decreases kids.len(),
{
    assert(kids[kids.len() - 1] == kids.last());
    if !(is_producer(ns, kids.last()) && id_attr(ns, kids.last()) == Some(id)) {
        let rest = kids.drop_last();
        let w = choose|w: int| 0 <= w < kids.len() && kids[w] == c;
        assert(w < rest.len());
        assert(rest[w] == c);
        assert forall|j: int|
            0 <= j < rest.len() && is_producer(ns, #[trigger] rest[j]) && id_attr(ns, rest[j]) == Some(id) implies rest[j]
                == c by {
            assert(kids[j] == rest[j]);
        }
        lemma_last_producer_only(ns, rest, id, c);
    }
}

pub(crate) proof fn lemma_last_producer_same(ns: Seq<XmlNodeView>, kids1: Seq<usize>, kids2: Seq<usize>, id: Seq<char>)
    requires
        producer_ids_unique(ns, kids1),
        forall|c: usize| kids1.contains(c) <==> kids2.contains(c),
    ensures
        last_producer(ns, kids1, id) == last_producer(ns, kids2, id),
        has_producer(ns, kids1, id) <==> has_producer(ns, kids2, id),
{
    if has_producer(ns, kids1, id) {
        let a = choose|a: int|
            0 <= a < kids1.len() && is_producer(ns, #[trigger] kids1[a]) && id_attr(ns, kids1[a]) == Some(id);
        let c = kids1[a];
        assert(kids1.contains(c));
        assert forall|j: int|
            0 <= j < kids1.len() && is_producer(ns, #[trigger] kids1[j]) && id_attr(ns, kids1[j]) == Some(id) implies kids1[j]
                == c by {
            if j < a {
                assert(id_attr(ns, kids1[j]) != id_attr(ns, kids1[a]));
            } else if j > a {
                assert(id_attr(ns, kids1[a]) != id_attr(ns, kids1[j]));
            }
        }
        lemma_last_producer_only(ns, kids1, id, c);
        assert(kids2.contains(c));
        let w = choose|w: int| 0 <= w < kids2.len() && kids2[w] == c;
        assert(has_producer(ns, kids2, id)) by {
            assert(is_producer(ns, kids2[w]) && id_attr(ns, kids2[w]) == Some(id));
        }
        assert forall|j: int|
            0 <= j < kids2.len() && is_producer(ns, #[trigger] kids2[j]) && id_attr(ns, kids2[j]) == Some(id) implies kids2[j]
                == c by {
            assert(kids2.contains(kids2[j]));
            assert(kids1.contains(kids2[j]));
            let m = choose|m: int| 0 <= m < kids1.len() && kids1[m] == kids2[j];
            assert(kids1[m] == c);
        }
        lemma_last_producer_only(ns, kids2, id, c);
    } else {
        lemma_last_producer_none(ns, kids1, id);
        assert(!has_producer(ns, kids2, id)) by {
            if has_producer(ns, kids2, id) {
                let j = choose|j: int|
                    0 <= j < kids2.len() && is_producer(ns, #[trigger] kids2[j]) && id_attr(ns, kids2[j]) == Some(id);
                assert(kids2.contains(kids2[j]));
                let m = choose|m: int| 0 <= m < kids1.len() && kids1[m] == kids2[j];
                assert(is_producer(ns, kids1[m]) && id_attr(ns, kids1[m]) == Some(id));
            }
        }
        lemma_last_producer_none(ns, kids2, id);
    }
}

proof fn lemma_bin_entries_same(
    ns: Seq<XmlNodeView>,
    kids1: Seq<usize>,
    kids2: Seq<usize>,
    keys: Seq<Seq<char>>,
    listed: Option<Seq<Seq<char>>>,
)
    requires
        producer_ids_unique(ns, kids1),
        forall|c: usize| kids1.contains(c) <==> kids2.contains(c),
    ensures
        bin_entries(ns, kids1, keys, listed) == bin_entries(ns, kids2, keys, listed),
    decreases keys.len(),
{
    if keys.len() > 0 {
        lemma_bin_entries_same(ns, kids1, kids2, keys.drop_last(), listed);
        lemma_last_producer_same(ns, kids1, kids2, keys.last());
    }
}

/// The bin does not depend on the order the root lists its children in, as
/// long as no two producers share an id: the same nodes listed in another
/// order give the same bin clips.
pub proof fn bin_ignores_document_order(
    ns: Seq<XmlNodeView>,
    kids1: Seq<usize>,
    kids2: Seq<usize>,
    bin: Option<usize>,
)
    requires
        producer_ids_unique(ns, kids1),
        forall|c: usize| kids1.contains(c) <==> kids2.contains(c),
    ensures
        bin_clips_of(ns, kids1, bin) == bin_clips_of(ns, kids2, bin),
{
    lemma_producer_ids_members(ns, kids1);
    lemma_producer_ids_members(ns, kids2);
    assert forall|id: Seq<char>| producer_ids(ns, kids1).contains(id) <==> producer_ids(ns, kids2).contains(id) by {
        lemma_last_producer_same(ns, kids1, kids2, id);
    }
    crate::keys::key_set_ignores_order(producer_ids(ns, kids1), producer_ids(ns, kids2));
    lemma_bin_entries_same(ns, kids1, kids2, key_set(producer_ids(ns, kids1)), listed_of(ns, bin));
}

// ---------------------------------------------------------------------------
// Lists of the root's children that differ only in where producers stand.

/// `kids` without its producers, in order.
pub open spec fn non_producers(ns: Seq<XmlNodeView>, kids: Seq<usize>) -> Seq<usize>
    decreases kids.len(),
{
    if kids.len() == 0 {
        Seq::empty()
    } else if is_producer(ns, kids.last()) {
        non_producers(ns, kids.drop_last())
    } else {
        non_producers(ns, kids.drop_last()).push(kids.last())
    }
}

/// `kids1` and `kids2` list the same nodes, and the nodes other than
/// producers in the same order: they differ at most in where the producers
/// stand.
pub open spec fn moves_only_producers(ns: Seq<XmlNodeView>, kids1: Seq<usize>, kids2: Seq<usize>) -> bool {
    &&& forall|c: usize| kids1.contains(c) <==> kids2.contains(c)
    &&& non_producers(ns, kids1) == non_producers(ns, kids2)
}

/// A node with a tag other than `chain` and `producer` is no producer.
pub(crate) proof fn lemma_tag_not_producer(ns: Seq<XmlNodeView>, c: usize, tag: Seq<char>)
    requires
        has_tag(ns, c, tag),
        tag != "chain"@,
        tag != "producer"@,
    ensures
        !is_producer(ns, c),
{
}

/// The `tag` elements of `kids`, for a tag no producer has, are those of
/// `kids` without its producers.
pub(crate) proof fn lemma_tagged_skips_producers(ns: Seq<XmlNodeView>, kids: Seq<usize>, tag: Seq<char>)
    requires
        tag != "chain"@,
        tag != "producer"@,
    ensures
        tagged(ns, kids, tag) == tagged(ns, non_producers(ns, kids), tag),
    decreases kids.len(),
{
    if kids.len() > 0 {
        lemma_tagged_skips_producers(ns, kids.drop_last(), tag);
        let rest = non_producers(ns, kids.drop_last());
        if is_producer(ns, kids.last()) {
            if has_tag(ns, kids.last(), tag) {
                lemma_tag_not_producer(ns, kids.last(), tag);
            }
        } else {
            assert(rest.push(kids.last()).drop_last() =~= rest);
        }
    }
}

/// The playlist an id names is found as well among `kids` without its
/// producers.
pub(crate) proof fn lemma_last_playlist_skips_producers(ns: Seq<XmlNodeView>, kids: Seq<usize>, id: Seq<char>)
    ensures
        last_playlist(ns, kids, id) == last_playlist(ns, non_producers(ns, kids), id),
    decreases kids.len(),
{
    if kids.len() > 0 {
        lemma_last_playlist_skips_producers(ns, kids.drop_last(), id);
        let rest = non_producers(ns, kids.drop_last());
        if is_producer(ns, kids.last()) {
            if has_tag(ns, kids.last(), "playlist"@) {
                reveal_strlit("playlist");
                reveal_strlit("producer");
                reveal_strlit("chain");
                assert("playlist"@[1] != "producer"@[1]);
                lemma_tag_not_producer(ns, kids.last(), "playlist"@);
            }
        } else {
            assert(rest.push(kids.last()).drop_last() =~= rest);
        }
    }
}

} // verus!
