//! Parses a `.kdenlive` file into a project.
//!
//! Kdenlive writes MLT XML in the gen-5 layout: bin clips are `<chain>` or
//! `<producer>` elements, each timeline track is a `<tractor>` wrapping two
//! `<playlist>` elements, and the sequence itself is a `<tractor>` carrying a
//! `kdenlive:uuid`.
//!
//! The parser refuses to guess. If a document is a generation it does not
//! handle, or a reference does not resolve, it returns an error instead of a
//! project with holes in it, because a diff computed from a partial parse
//! would quietly misreport what the editor changed.

pub mod json_lite;
pub mod readers;
pub mod index;
pub mod markers;
pub mod timeline;
pub mod carry;

use vstd::prelude::*;

use crate::differ::{alike_projects_have_no_changes, diff_of};
use crate::model::{Profile, ProfileView, Project, ProjectView};
use crate::text::{debug_quoted, debug_text, owned, parse_unsigned, str_same, trim, trimmed, unsigned_value};
use crate::xml::{
    attr_of, has_tag, lemma_tagged_append, node_views, outline_ok, outline_root, property, property_of,
    read_outline, tagged, xml_error_of, xml_outline, Outline, XmlNode, XmlNodeView,
};
use self::index::{
    bin_clips_of, bin_ignores_document_order, find_playlist, last_playlist, last_producer,
    lemma_last_playlist_skips_producers,
    lemma_last_producer_same, lemma_tagged_skips_producers, moves_only_producers, producer_ids_unique,
    read_bin_clips,
};
use self::carry::{
    carried, carries, lemma_bin_clips_carried, lemma_last_producer_carried, lemma_node, lemma_property_carried,
    lemma_renamed_ends, lemma_sequences_carried, lemma_unique_ids_carried, lemma_within_rest, within,
};
use self::markers::{guides_of, read_guides};
use self::readers::{number_reader, read_version, time_reader, version_of, version_reader};
use self::timeline::{lemma_sequences_in_order, lemma_sequences_same, read_sequences, same_lookups, sequences_in};

verus! {

/// Why a document could not be read as a project.
#[derive(Debug)]
pub enum ParseError {
    /// The text is not XML; the XML parser's message.
    Xml(String),
    NotKdenlive(String),
    UnsupportedVersion(String),
    MissingProfile,
    BadProfile(&'static str),
    NotAnInteger { context: String, value: String },
    DanglingProducer(String),
    DanglingPlaylist(String, String),
    BadTimecode { context: String, value: String, reason: &'static str },
    NoSequence,
    BadMarker { kind: &'static str, value: String, reason: &'static str },
}

pub enum ParseErrorView {
    Xml(Seq<char>),
    NotKdenlive(Seq<char>),
    UnsupportedVersion(Seq<char>),
    MissingProfile,
    BadProfile(Seq<char>),
    NotAnInteger { context: Seq<char>, value: Seq<char> },
    DanglingProducer(Seq<char>),
    DanglingPlaylist(Seq<char>, Seq<char>),
    BadTimecode { context: Seq<char>, value: Seq<char>, reason: Seq<char> },
    NoSequence,
    BadMarker { kind: Seq<char>, value: Seq<char>, reason: Seq<char> },
}

impl View for ParseError {
    type V = ParseErrorView;

    open spec fn view(&self) -> ParseErrorView {
        match self {
            ParseError::Xml(m) => ParseErrorView::Xml(m@),
            ParseError::NotKdenlive(n) => ParseErrorView::NotKdenlive(n@),
            ParseError::UnsupportedVersion(v) => ParseErrorView::UnsupportedVersion(v@),
            ParseError::MissingProfile => ParseErrorView::MissingProfile,
            ParseError::BadProfile(n) => ParseErrorView::BadProfile(n@),
            ParseError::NotAnInteger { context, value } => ParseErrorView::NotAnInteger {
                context: context@,
                value: value@,
            },
            ParseError::DanglingProducer(p) => ParseErrorView::DanglingProducer(p@),
            ParseError::DanglingPlaylist(t, p) => ParseErrorView::DanglingPlaylist(t@, p@),
            ParseError::BadTimecode { context, value, reason } => ParseErrorView::BadTimecode {
                context: context@,
                value: value@,
                reason: reason@,
            },
            ParseError::NoSequence => ParseErrorView::NoSequence,
            ParseError::BadMarker { kind, value, reason } => ParseErrorView::BadMarker {
                kind: kind@,
                value: value@,
                reason: reason@,
            },
        }
    }
}

// ---------------------------------------------------------------------------
// The profile.

/// An attribute of the profile read as a `u32`, the way `str::parse` reads one.
pub open spec fn profile_number(n: XmlNodeView, name: Seq<char>) -> Option<u32> {
    match attr_of(n.attrs, name) {
        Some(v) => match unsigned_value(v, u32::MAX as nat) {
            Some(x) => Some(x as u32),
            None => None,
        },
        None => None,
    }
}

/// The first `<profile>` child of the root and its four numbers, read in
/// the order width, height, frame rate numerator, frame rate denominator;
/// the first that is missing or not a number is the error.
pub open spec fn profile_of(ns: Seq<XmlNodeView>, root: usize) -> Result<ProfileView, ParseErrorView> {
    profile_in(ns, ns[root as int].children)
}

/// The profile of a document whose root lists `kids`.
pub open spec fn profile_in(ns: Seq<XmlNodeView>, kids: Seq<usize>) -> Result<ProfileView, ParseErrorView> {
    match first_tagged(ns, kids, "profile"@) {
        None => Err(ParseErrorView::MissingProfile),
        Some(p) => {
            let n = ns[p as int];
            if profile_number(n, "width"@) is None {
                Err(ParseErrorView::BadProfile("width"@))
            } else if profile_number(n, "height"@) is None {
                Err(ParseErrorView::BadProfile("height"@))
            } else if profile_number(n, "frame_rate_num"@) is None {
                Err(ParseErrorView::BadProfile("frame_rate_num"@))
            } else if profile_number(n, "frame_rate_den"@) is None {
                Err(ParseErrorView::BadProfile("frame_rate_den"@))
            } else {
                Ok(
                    ProfileView {
                        width: profile_number(n, "width"@)->0,
                        height: profile_number(n, "height"@)->0,
                        frame_rate_num: profile_number(n, "frame_rate_num"@)->0,
                        frame_rate_den: profile_number(n, "frame_rate_den"@)->0,
                        description: attr_of(n.attrs, "description"@),
                    },
                )
            }
        },
    }
}

/// The first of `kids` that is a `tag` element.
pub open spec fn first_tagged(ns: Seq<XmlNodeView>, kids: Seq<usize>, tag: Seq<char>) -> Option<usize>
    decreases kids.len(),
{
    if kids.len() == 0 {
        None
    } else if has_tag(ns, kids[0], tag) {
        Some(kids[0])
    } else {
        first_tagged(ns, kids.drop_first(), tag)
    }
}

fn find_tagged(nodes: &Vec<XmlNode>, i: usize, tag: &str) -> (r: Option<usize>)
    requires
        i < nodes.len(),
    ensures
        r == first_tagged(node_views(nodes@), node_views(nodes@)[i as int].children, tag@),
        r matches Some(c) ==> c < nodes.len(),
{
    let ghost ns = node_views(nodes@);
    let kids = &nodes[i].children;
    let ghost ks = kids@;
    assert(ks == ns[i as int].children);
    let mut k: usize = 0;
    assert(ks.skip(0) =~= ks);
    while k < kids.len()
        invariant
            ns == node_views(nodes@),
            ks == kids@,
            ks == ns[i as int].children,
            k <= kids.len(),
            first_tagged(ns, ks, tag@) == first_tagged(ns, ks.skip(k as int), tag@),
        decreases kids.len() - k,
    {
        let c = kids[k];
        assert(ks.skip(k as int)[0] == c);
        assert(ks.skip(k as int).drop_first() =~= ks.skip(k + 1));
        if c < nodes.len() && nodes[c].element && crate::text::str_same(nodes[c].name.as_str(), tag) {
            return Some(c);
        }
        k = k + 1;
    }
    None
}

fn profile_attr(node: &XmlNode, name: &'static str) -> (r: Result<u32, ParseError>)
    ensures
        r matches Ok(v) ==> profile_number(node@, name@) == Some(v),
        r matches Err(e) ==> profile_number(node@, name@) is None && e@ == ParseErrorView::BadProfile(name@),
{
    match node.attribute(name) {
        Some(v) => match parse_unsigned(v, 0xffff_ffff) {
            Some(x) => Ok(x as u32),
            None => Err(ParseError::BadProfile(name)),
        },
        None => Err(ParseError::BadProfile(name)),
    }
}

fn read_profile(nodes: &Vec<XmlNode>, root: usize) -> (r: Result<Profile, ParseError>)
    requires
        root < nodes.len(),
    ensures
        r matches Ok(p) ==> profile_of(node_views(nodes@), root) == Ok::<ProfileView, ParseErrorView>(p@),
        r matches Err(e) ==> profile_of(node_views(nodes@), root) == Err::<ProfileView, ParseErrorView>(e@),
{
    let ghost ns = node_views(nodes@);
    let p = match find_tagged(nodes, root, "profile") {
        Some(p) => p,
        None => {
            return Err(ParseError::MissingProfile);
        },
    };
    let node = &nodes[p];
    assert(ns[p as int] == node@);
    let width = match profile_attr(node, "width") {
        Ok(v) => v,
        Err(e) => {
            return Err(e);
        },
    };
    let height = match profile_attr(node, "height") {
        Ok(v) => v,
        Err(e) => {
            return Err(e);
        },
    };
    let frame_rate_num = match profile_attr(node, "frame_rate_num") {
        Ok(v) => v,
        Err(e) => {
            return Err(e);
        },
    };
    let frame_rate_den = match profile_attr(node, "frame_rate_den") {
        Ok(v) => v,
        Err(e) => {
            return Err(e);
        },
    };
    let description = match node.attribute("description") {
        Some(d) => Some(owned(d)),
        None => None,
    };
    Ok(Profile { width, height, frame_rate_num, frame_rate_den, description })
}

// ---------------------------------------------------------------------------
// The document version.

/// Version 1.1 is gen-5, introduced in Kdenlive 23.04 along with multiple
/// sequences, and still Kdenlive's current document version. The bin's
/// `kdenlive:docproperties.version`, trimmed, is handed to `v`, which
/// decides whether it is a version this parser reads; a document without
/// one is read as it is.
pub open spec fn version_check<V: Fn(&str) -> bool>(ns: Seq<XmlNodeView>, bin: Option<usize>, v: V) -> Result<
    (),
    ParseErrorView,
> {
    match bin {
        None => Ok(()),
        Some(b) => match property_of(ns, b, "kdenlive:docproperties.version"@) {
            None => Ok(()),
            Some(raw) => if version_of(v, trimmed(raw)) {
                Ok(())
            } else {
                Err(ParseErrorView::UnsupportedVersion(trimmed(raw)))
            },
        },
    }
}

fn check_version<V: Fn(&str) -> bool>(nodes: &Vec<XmlNode>, bin: Option<usize>, v: &V) -> (r: Result<
    (),
    ParseError,
>)
    requires
        bin matches Some(b) ==> b < nodes.len(),
        version_reader(*v),
    ensures
        r is Ok ==> version_check(node_views(nodes@), bin, *v) == Ok::<(), ParseErrorView>(()),
        r matches Err(e) ==> version_check(node_views(nodes@), bin, *v) == Err::<(), ParseErrorView>(e@),
{
    let b = match bin {
        None => {
            return Ok(());
        },
        Some(b) => b,
    };
    match property(nodes, b, "kdenlive:docproperties.version") {
        None => Ok(()),
        Some(raw) => {
            let version = trim(raw.as_str());
            if read_version(v, version.as_str()) {
                Ok(())
            } else {
                Err(ParseError::UnsupportedVersion(version))
            }
        },
    }
}

// ---------------------------------------------------------------------------
// The whole document.

/// What a document whose nodes are `ns` and whose root element is `root`
/// reads as: see [`project_in`].
pub open spec fn project_of<
    T: Fn(&str, u32, u32) -> Result<i64, &'static str>,
    V: Fn(&str) -> bool,
    M: Fn(&str) -> (i64, i32),
>(ns: Seq<XmlNodeView>, root: usize, t: T, v: V, m: M) -> Result<ProjectView, ParseErrorView> {
    project_in(ns, ns[root as int].name, ns[root as int].children, t, v, m)
}

/// What a document reads as whose root element is named `name` and lists
/// `kids`: refused unless the root is `<mlt>`, then the profile, the
/// version check, the bin, the guides and the sequences, the first error
/// in that order winning, and refused when there is no sequence.
pub open spec fn project_in<
    T: Fn(&str, u32, u32) -> Result<i64, &'static str>,
    V: Fn(&str) -> bool,
    M: Fn(&str) -> (i64, i32),
>(ns: Seq<XmlNodeView>, name: Seq<char>, kids: Seq<usize>, t: T, v: V, m: M) -> Result<
    ProjectView,
    ParseErrorView,
> {
    if name != "mlt"@ {
        Err(ParseErrorView::NotKdenlive(name))
    } else {
        match profile_in(ns, kids) {
            Err(e) => Err(e),
            Ok(profile) => {
                let bin = last_playlist(ns, kids, "main_bin"@);
                match version_check(ns, bin, v) {
                    Err(e) => Err(e),
                    Ok(_) => match guides_of(ns, bin, m) {
                        Err(e) => Err(e),
                        Ok(guides) => match sequences_in(
                            ns,
                            kids,
                            t,
                            profile.frame_rate_num,
                            profile.frame_rate_den,
                            m,
                        ) {
                            Err(e) => Err(e),
                            Ok(sequences) => if sequences.len() == 0 {
                                Err(ParseErrorView::NoSequence)
                            } else {
                                Ok(
                                    ProjectView {
                                        profile,
                                        bin_clips: bin_clips_of(ns, kids, bin),
                                        sequences,
                                        guides,
                                    },
                                )
                            },
                        },
                    },
                }
            },
        }
    }
}

/// Reads a project from a parsed document.
///
/// `time` turns an MLT time value into frames at the profile's frame rate,
/// `version` decides whether a document version is supported, and `number`
/// reads a marker's JSON number as a position and as a category; see
/// `readers`.
pub fn project_from_outline<
    T: Fn(&str, u32, u32) -> Result<i64, &'static str>,
    V: Fn(&str) -> bool,
    M: Fn(&str) -> (i64, i32),
>(outline: &Outline, time: &T, version: &V, number: &M) -> (r: Result<Project, ParseError>)
    requires
        outline.root < outline.nodes.len(),
        outline_ok(node_views(outline.nodes@)),
        time_reader(*time),
        version_reader(*version),
        number_reader(*number),
    ensures
        r matches Ok(p) ==> project_of(node_views(outline.nodes@), outline.root, *time, *version, *number)
            == Ok::<ProjectView, ParseErrorView>(p@),
        r matches Err(e) ==> project_of(node_views(outline.nodes@), outline.root, *time, *version, *number)
            == Err::<ProjectView, ParseErrorView>(e@),
        r matches Ok(p) ==> p.well_formed(),
{
    let nodes = &outline.nodes;
    let root = outline.root;
    let ghost ns = node_views(nodes@);
    assert(ns[root as int] == nodes@[root as int]@);
    if !str_same(nodes[root].name.as_str(), "mlt") {
        return Err(ParseError::NotKdenlive(nodes[root].name.clone()));
    }
    let profile = match read_profile(nodes, root) {
        Ok(p) => p,
        Err(e) => {
            return Err(e);
        },
    };
    let bin = find_playlist(nodes, root, "main_bin");
    match check_version(nodes, bin, version) {
        Ok(()) => {},
        Err(e) => {
            return Err(e);
        },
    }
    let bin_clips = read_bin_clips(nodes, root, bin);
    let guides = match read_guides(nodes, bin, number) {
        Ok(g) => g,
        Err(e) => {
            return Err(e);
        },
    };
    let sequences = match read_sequences(
        nodes,
        root,
        time,
        profile.frame_rate_num,
        profile.frame_rate_den,
        number,
    ) {
        Ok(s) => s,
        Err(e) => {
            return Err(e);
        },
    };
    if sequences.len() == 0 {
        return Err(ParseError::NoSequence);
    }
    proof {
        lemma_sequences_in_order(ns, ns[root as int].children, *time, profile.frame_rate_num, profile.frame_rate_den, *number);
    }
    Ok(Project { profile, bin_clips, sequences, guides })
}

/// Parses the text of a `.kdenlive` file.
///
/// Text that is not XML gives `ParseError::Xml` with the XML parser's
/// message; otherwise the result is what [`project_of`] says of the
/// document `roxmltree` reads from the text.
pub fn parse_str<
    T: Fn(&str, u32, u32) -> Result<i64, &'static str>,
    V: Fn(&str) -> bool,
    M: Fn(&str) -> (i64, i32),
>(text: &str, time: &T, version: &V, number: &M) -> (r: Result<Project, ParseError>)
    requires
        time_reader(*time),
        version_reader(*version),
        number_reader(*number),
    ensures
        xml_outline(text@) is None ==> (r matches Err(ParseError::Xml(m)) && m@ == xml_error_of(text@)),
        xml_outline(text@) matches Some(ns) ==> (r matches Ok(p) ==> project_of(
            ns,
            outline_root(ns)->0,
            *time,
            *version,
            *number,
        ) == Ok::<ProjectView, ParseErrorView>(p@)),
        xml_outline(text@) matches Some(ns) ==> (r matches Err(e) ==> project_of(
            ns,
            outline_root(ns)->0,
            *time,
            *version,
            *number,
        ) == Err::<ProjectView, ParseErrorView>(e@)),
        r matches Ok(p) ==> p.well_formed(),
{
    let outline = match read_outline(text) {
        Ok(o) => o,
        Err(m) => {
            return Err(ParseError::Xml(m));
        },
    };
    proof {
        crate::xml::lemma_first_element_in_range(
            node_views(outline.nodes@),
            node_views(outline.nodes@)[0].children,
        );
    }
    project_from_outline(&outline, time, version, number)
}

// ---------------------------------------------------------------------------
// Where the producers stand does not matter.

/// The first `tag` element of `kids` is the first of its `tag` elements.
proof fn lemma_first_tagged_is_first(ns: Seq<XmlNodeView>, kids: Seq<usize>, tag: Seq<char>)
    ensures
        first_tagged(ns, kids, tag) == (if tagged(ns, kids, tag).len() > 0 {
            Some(tagged(ns, kids, tag)[0])
        } else {
            None
        }),
    decreases kids.len(),
{
    if kids.len() > 0 {
        let head = seq![kids[0]];
        let tail = kids.drop_first();
        assert(head + tail =~= kids);
        lemma_tagged_append(ns, head, tail, tag);
        assert(head.drop_last() =~= Seq::<usize>::empty());
        assert(head.last() == kids[0]);
        assert(tagged(ns, head.drop_last(), tag) =~= Seq::<usize>::empty());
        lemma_first_tagged_is_first(ns, tail, tag);
        if has_tag(ns, kids[0], tag) {
            assert(tagged(ns, head, tag) =~= seq![kids[0]]);
        } else {
            assert(tagged(ns, head, tag) =~= Seq::<usize>::empty());
            assert(tagged(ns, kids, tag) =~= tagged(ns, tail, tag));
        }
    }
}

/// Two lists of the root's children that differ only in where producers
/// stand resolve every id alike and hold the same tractors and profiles in
/// the same order.
proof fn lemma_moved_producers_lookups(ns: Seq<XmlNodeView>, kids1: Seq<usize>, kids2: Seq<usize>)
    requires
        producer_ids_unique(ns, kids1),
        moves_only_producers(ns, kids1, kids2),
    ensures
        same_lookups(ns, kids1, kids2),
        tagged(ns, kids1, "tractor"@) == tagged(ns, kids2, "tractor"@),
        first_tagged(ns, kids1, "profile"@) == first_tagged(ns, kids2, "profile"@),
{
    assert forall|id: Seq<char>| #[trigger] last_producer(ns, kids1, id) == last_producer(ns, kids2, id) by {
        lemma_last_producer_same(ns, kids1, kids2, id);
    }
    assert forall|id: Seq<char>| #[trigger] last_playlist(ns, kids1, id) == last_playlist(ns, kids2, id) by {
        lemma_last_playlist_skips_producers(ns, kids1, id);
        lemma_last_playlist_skips_producers(ns, kids2, id);
    }
    reveal_strlit("tractor");
    reveal_strlit("profile");
    reveal_strlit("producer");
    reveal_strlit("chain");
    assert("tractor"@.len() != "chain"@.len() && "tractor"@.len() != "producer"@.len());
    assert("profile"@.len() != "chain"@.len() && "profile"@.len() != "producer"@.len());
    lemma_tagged_skips_producers(ns, kids1, "tractor"@);
    lemma_tagged_skips_producers(ns, kids2, "tractor"@);
    lemma_tagged_skips_producers(ns, kids1, "profile"@);
    lemma_tagged_skips_producers(ns, kids2, "profile"@);
    lemma_first_tagged_is_first(ns, kids1, "profile"@);
    lemma_first_tagged_is_first(ns, kids2, "profile"@);
}

/// Moving producers among the root's children of one document changes
/// nothing it reads as.
proof fn lemma_moved_producers_same_project<
    T: Fn(&str, u32, u32) -> Result<i64, &'static str>,
    V: Fn(&str) -> bool,
    M: Fn(&str) -> (i64, i32),
>(ns: Seq<XmlNodeView>, name: Seq<char>, kids1: Seq<usize>, kids2: Seq<usize>, t: T, v: V, m: M)
    requires
        producer_ids_unique(ns, kids1),
        moves_only_producers(ns, kids1, kids2),
    ensures
        project_in(ns, name, kids1, t, v, m) == project_in(ns, name, kids2, t, v, m),
{
    lemma_moved_producers_lookups(ns, kids1, kids2);
    let bin = last_playlist(ns, kids1, "main_bin"@);
    assert(last_playlist(ns, kids1, "main_bin"@) == last_playlist(ns, kids2, "main_bin"@));
    bin_ignores_document_order(ns, kids1, kids2, bin);
    assert(profile_in(ns, kids1) == profile_in(ns, kids2));
    if let Ok(profile) = profile_in(ns, kids1) {
        lemma_sequences_same(ns, kids1, kids2, t, profile.frame_rate_num, profile.frame_rate_den, m);
    }
}

proof fn lemma_first_tagged_carried(
    ns1: Seq<XmlNodeView>,
    ns2: Seq<XmlNodeView>,
    d: Set<usize>,
    f: spec_fn(usize) -> usize,
    ks: Seq<usize>,
    tag: Seq<char>,
)
    requires
        carries(ns1, ns2, d, f),
        within(ks, d),
    ensures
        first_tagged(ns2, ks.map_values(f), tag) == carried(first_tagged(ns1, ks, tag), f),
        first_tagged(ns1, ks, tag) matches Some(p) ==> d.contains(p),
    decreases ks.len(),
{
    lemma_renamed_ends(ks, f);
    if ks.len() > 0 {
        lemma_within_rest(ks, d);
        lemma_node(ns1, ns2, d, f, ks[0]);
        lemma_first_tagged_carried(ns1, ns2, d, f, ks.drop_first(), tag);
    }
}

/// A document whose nodes are those of another under other indices reads
/// as the same project.
proof fn lemma_project_carried<
    T: Fn(&str, u32, u32) -> Result<i64, &'static str>,
    V: Fn(&str) -> bool,
    M: Fn(&str) -> (i64, i32),
>(
    ns1: Seq<XmlNodeView>,
    ns2: Seq<XmlNodeView>,
    d: Set<usize>,
    f: spec_fn(usize) -> usize,
    name: Seq<char>,
    ks: Seq<usize>,
    t: T,
    v: V,
    m: M,
)
    requires
        carries(ns1, ns2, d, f),
        within(ks, d),
    ensures
        project_in(ns2, name, ks.map_values(f), t, v, m) == project_in(ns1, name, ks, t, v, m),
{
    let ks2 = ks.map_values(f);
    lemma_first_tagged_carried(ns1, ns2, d, f, ks, "profile"@);
    if let Some(p) = first_tagged(ns1, ks, "profile"@) {
        lemma_node(ns1, ns2, d, f, p);
    }
    assert(profile_in(ns2, ks2) == profile_in(ns1, ks));
    lemma_last_producer_carried(ns1, ns2, d, f, ks, "main_bin"@);
    let bin = last_playlist(ns1, ks, "main_bin"@);
    if let Some(b) = bin {
        lemma_property_carried(ns1, ns2, d, f, b, "kdenlive:docproperties.version"@);
        lemma_property_carried(ns1, ns2, d, f, b, "kdenlive:docproperties.guides"@);
    }
    assert(version_check(ns2, carried(bin, f), v) == version_check(ns1, bin, v));
    assert(guides_of(ns2, carried(bin, f), m) == guides_of(ns1, bin, m));
    lemma_bin_clips_carried(ns1, ns2, d, f, ks, bin);
    if let Ok(profile) = profile_in(ns1, ks) {
        lemma_sequences_carried(ns1, ns2, d, f, ks, t, profile.frame_rate_num, profile.frame_rate_den, m);
    }
}

/// Two saves of one project that differ only in where the producers and
/// chains stand among the root's children read as the same project: the
/// bin, the timeline, the guides and the profile, or the same error.
///
/// The saves are two node arenas. `f` takes each node of `d`, which holds
/// everything below the first root, to the node of the second save that
/// reads the same; the second root has the first root's name and lists the
/// first root's children, renamed by `f`, with only producers and chains
/// moved. Producers are found by id wherever they stand; this takes that no
/// two of them share an id, since then the later one wins.
pub proof fn reordered_saves_read_the_same<
    T: Fn(&str, u32, u32) -> Result<i64, &'static str>,
    V: Fn(&str) -> bool,
    M: Fn(&str) -> (i64, i32),
>(
    ns1: Seq<XmlNodeView>,
    root1: usize,
    ns2: Seq<XmlNodeView>,
    root2: usize,
    d: Set<usize>,
    f: spec_fn(usize) -> usize,
    t: T,
    v: V,
    m: M,
)
    requires
        carries(ns1, ns2, d, f),
        within(ns1[root1 as int].children, d),
        ns2[root2 as int].name == ns1[root1 as int].name,
        producer_ids_unique(ns1, ns1[root1 as int].children),
        moves_only_producers(ns2, ns1[root1 as int].children.map_values(f), ns2[root2 as int].children),
    ensures
        project_of(ns1, root1, t, v, m) == project_of(ns2, root2, t, v, m),
{
    let name = ns1[root1 as int].name;
    let kids1 = ns1[root1 as int].children;
    lemma_project_carried(ns1, ns2, d, f, name, kids1, t, v, m);
    lemma_unique_ids_carried(ns1, ns2, d, f, kids1);
    lemma_moved_producers_same_project(ns2, name, kids1.map_values(f), ns2[root2 as int].children, t, v, m);
}

/// A save that only moves producers and chains is no change: the projects
/// read from the save before and the save after have no changes between
/// them, so the save is recorded as saved with no detected changes, and
/// nothing is committed for it.
pub proof fn reordered_save_has_no_changes<
    T: Fn(&str, u32, u32) -> Result<i64, &'static str>,
    V: Fn(&str) -> bool,
    M: Fn(&str) -> (i64, i32),
>(
    ns1: Seq<XmlNodeView>,
    root1: usize,
    ns2: Seq<XmlNodeView>,
    root2: usize,
    d: Set<usize>,
    f: spec_fn(usize) -> usize,
    t: T,
    v: V,
    m: M,
    before: Project,
    after: Project,
    rate: spec_fn(u32, u32) -> Seq<char>,
)
    requires
        carries(ns1, ns2, d, f),
        within(ns1[root1 as int].children, d),
        ns2[root2 as int].name == ns1[root1 as int].name,
        producer_ids_unique(ns1, ns1[root1 as int].children),
        moves_only_producers(ns2, ns1[root1 as int].children.map_values(f), ns2[root2 as int].children),
        project_of(ns1, root1, t, v, m) == Ok::<ProjectView, ParseErrorView>(before@),
        project_of(ns2, root2, t, v, m) == Ok::<ProjectView, ParseErrorView>(after@),
        before.well_formed(),
    ensures
        diff_of(before, after, rate).is_empty(),
{
    reordered_saves_read_the_same(ns1, root1, ns2, root2, d, f, t, v, m);
    alike_projects_have_no_changes(before, after, rate);
}

// ---------------------------------------------------------------------------
// Messages.

/// What an error says to a person.
pub open spec fn error_text(e: ParseErrorView) -> Seq<char> {
    match e {
        ParseErrorView::Xml(m) => "not valid XML: "@ + m,
        ParseErrorView::NotKdenlive(n) => "not a Kdenlive project file: root element is <"@ + n
            + ">, expected <mlt>"@,
        ParseErrorView::UnsupportedVersion(v) => "unsupported project format (document version "@ + v
            + "). cutback handles version 1.1, written by Kdenlive 23.04 and later. Open the project in Kdenlive once and save it to upgrade the format"@,
        ParseErrorView::MissingProfile => "project has no <profile>, cannot resolve timecodes to frames"@,
        ParseErrorView::BadProfile(n) => "profile is missing "@ + n,
        ParseErrorView::NotAnInteger { context, value } => context + ": expected an integer, found "@ + debug_text(
            value,
        ),
        ParseErrorView::DanglingProducer(p) => "timeline entry references producer "@ + debug_text(p)
            + ", which is not defined in this file"@,
        ParseErrorView::DanglingPlaylist(t, p) => "track tractor "@ + debug_text(t) + " references playlist "@
            + debug_text(p) + ", which is not defined in this file"@,
        ParseErrorView::BadTimecode { context, value, reason } => "bad timecode "@ + debug_text(value) + " in "@
            + context + ": "@ + reason,
        ParseErrorView::NoSequence => "project contains no timeline sequence"@,
        ParseErrorView::BadMarker { kind, value, reason } => "malformed "@ + kind + " marker "@ + debug_text(value)
            + ": "@ + reason,
    }
}

impl ParseError {
    /// The error as a sentence, as its `Display` reads.
    pub fn message(&self) -> (r: String)
        ensures
            r@ == error_text(self@),
    {
        match self {
            ParseError::Xml(m) => {
                let mut r = owned("not valid XML: ");
                r.append(m.as_str());
                r
            },
            ParseError::NotKdenlive(n) => {
                let mut r = owned("not a Kdenlive project file: root element is <");
                r.append(n.as_str());
                r.append(">, expected <mlt>");
                r
            },
            ParseError::UnsupportedVersion(v) => {
                let mut r = owned("unsupported project format (document version ");
                r.append(v.as_str());
                r.append(
                    "). cutback handles version 1.1, written by Kdenlive 23.04 and later. Open the project in Kdenlive once and save it to upgrade the format",
                );
                r
            },
            ParseError::MissingProfile => owned("project has no <profile>, cannot resolve timecodes to frames"),
            ParseError::BadProfile(n) => {
                let mut r = owned("profile is missing ");
                r.append(n);
                r
            },
            ParseError::NotAnInteger { context, value } => {
                let mut r = context.clone();
                r.append(": expected an integer, found ");
                r.append(debug_quoted(value.as_str()).as_str());
                r
            },
            ParseError::DanglingProducer(p) => {
                let mut r = owned("timeline entry references producer ");
                r.append(debug_quoted(p.as_str()).as_str());
                r.append(", which is not defined in this file");
                r
            },
            ParseError::DanglingPlaylist(t, p) => {
                let mut r = owned("track tractor ");
                r.append(debug_quoted(t.as_str()).as_str());
                r.append(" references playlist ");
                r.append(debug_quoted(p.as_str()).as_str());
                r.append(", which is not defined in this file");
                r
            },
            ParseError::BadTimecode { context, value, reason } => {
                let mut r = owned("bad timecode ");
                r.append(debug_quoted(value.as_str()).as_str());
                r.append(" in ");
                r.append(context.as_str());
                r.append(": ");
                r.append(reason);
                r
            },
            ParseError::NoSequence => owned("project contains no timeline sequence"),
            ParseError::BadMarker { kind, value, reason } => {
                let mut r = owned("malformed ");
                r.append(kind);
                r.append(" marker ");
                r.append(debug_quoted(value.as_str()).as_str());
                r.append(": ");
                r.append(reason);
                r
            },
        }
    }
}

} // verus!
