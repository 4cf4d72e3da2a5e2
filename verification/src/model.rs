//! The structured form of a Kdenlive project, as produced by the parser and
//! consumed by the differ.
//!
//! Everything here is deliberately Kdenlive-shaped. Track kinds are video or
//! audio because that is what Kdenlive has, and effect parameters keep MLT's
//! own keyframe encoding rather than some normalized form.
//!
//! Keyed collections are vectors kept in key order with no key twice, which is
//! what `Project::well_formed` states and what the parser establishes.

use vstd::prelude::*;

use crate::text::{chars_of, opt_view, owned, pair_views, string_from_range, text_lt};

verus! {

/// Frame count on the project timeline.
pub type Frames = i64;

#[derive(Debug)]
pub struct Project {
    pub profile: Profile,
    /// Bin clips in `id` order, one per `kdenlive:id`, the id timeline entries
    /// reference and the only id stable across saves.
    pub bin_clips: Vec<BinClip>,
    pub sequences: Vec<Sequence>,
    pub guides: Vec<Guide>,
}

#[derive(Debug)]
pub struct Profile {
    pub width: u32,
    pub height: u32,
    pub frame_rate_num: u32,
    pub frame_rate_den: u32,
    pub description: Option<String>,
}

/// A clip in the project bin. `resource` is a path for media clips, or inline
/// data for the clip types Kdenlive stores in the file itself.
#[derive(Debug)]
pub struct BinClip {
    pub id: String,
    pub name: Option<String>,
    pub resource: Option<String>,
    pub service: Option<String>,
}

#[derive(Debug)]
pub struct Sequence {
    pub uuid: String,
    pub name: Option<String>,
    pub tracks: Vec<Track>,
    pub markers: Vec<Marker>,
}

#[derive(Clone, Copy, PartialEq, Eq, Structural, Debug)]
pub enum TrackKind {
    Video,
    Audio,
}

#[derive(Debug)]
pub struct Track {
    /// Display name as an editor knows it: V1, V2, A1, A2.
    pub name: String,
    pub kind: TrackKind,
    pub locked: bool,
    pub clips: Vec<TimelineClip>,
}

/// One clip instance on the timeline, merged from both MLT playlists of its
/// track.
#[derive(Debug)]
pub struct TimelineClip {
    /// `kdenlive:id` of the bin clip this instance plays.
    pub bin_id: String,
    pub position: Frames,
    /// In and out points within the source, `out` included as MLT counts it.
    pub source_in: Frames,
    pub source_out: Frames,
    pub effects: Vec<Effect>,
}

/// An MLT filter. `name` is the Kdenlive effect id when present, otherwise
/// the raw MLT service name.
#[derive(Debug)]
pub struct Effect {
    pub name: String,
    pub service: String,
    pub disabled: bool,
    /// Parameters in key order, one per key, excluding MLT bookkeeping and
    /// Kdenlive UI state.
    pub params: Vec<(String, String)>,
}

#[derive(Debug)]
pub struct Marker {
    pub position: Frames,
    pub comment: String,
    pub category: i32,
}

#[derive(Debug)]
pub struct Guide {
    pub position: Frames,
    pub comment: String,
}

/// The part of `s` after its last `sep`, or all of `s` when it holds none:
/// the first item `rsplit(sep)` yields.
pub open spec fn after_last(s: Seq<char>, sep: char) -> Seq<char>
    decreases s.len(),
{
    if s.len() == 0 {
        s
    } else if s.last() == sep {
        Seq::empty()
    } else {
        after_last(s.drop_last(), sep).push(s.last())
    }
}

pub fn last_segment(s: &str, sep: char) -> (r: String)
    ensures
        r@ == after_last(s@, sep),
{
    let v = chars_of(s);
    let mut start: usize = v.len();
    assert(s@.take(start as int) =~= s@);
    assert(s@.skip(start as int) =~= Seq::<char>::empty());
    while start > 0 && v[start - 1] != sep
        invariant
            v@ == s@,
            start <= v.len(),
            after_last(s@, sep) == after_last(s@.take(start as int), sep) + s@.skip(start as int),
        decreases start,
    {
        let ghost t = s@.take(start as int);
        assert(t.drop_last() =~= s@.take(start - 1));
        assert(s@.skip(start - 1) =~= seq![t.last()] + s@.skip(start as int));
        assert(after_last(t, sep) == after_last(t.drop_last(), sep).push(t.last()));
        assert(after_last(t.drop_last(), sep).push(t.last()) + s@.skip(start as int)
            =~= after_last(t.drop_last(), sep) + s@.skip(start - 1));
        start = start - 1;
    }
    let ghost t = s@.take(start as int);
    if start == 0 {
        assert(t =~= Seq::<char>::empty());
    }
    assert(after_last(t, sep) =~= Seq::<char>::empty());
    assert(s@.skip(start as int) =~= v@.subrange(start as int, v.len() as int));
    string_from_range(&v, start, v.len())
}

/// What to call a bin clip in a diff: the bin name when it has one, else the
/// file name of its resource, else `clip <id>`.
pub open spec fn clip_label(c: BinClip) -> Seq<char> {
    if c.name is Some && c.name->0@.len() > 0 {
        c.name->0@
    } else if c.resource is Some && after_last(c.resource->0@, '/').len() > 0 {
        after_last(c.resource->0@, '/')
    } else {
        "clip "@ + c.id@
    }
}

impl BinClip {
    /// What to call this clip in diff output. Prefers the user-visible bin
    /// name, falls back to the file name, then the raw id.
    pub fn label(&self) -> (r: String)
        ensures
            r@ == clip_label(*self),
    {
        if let Some(name) = &self.name {
            if name.as_str().unicode_len() > 0 {
                return name.clone();
            }
        }
        if let Some(res) = &self.resource {
            let base = last_segment(res.as_str(), '/');
            if base.as_str().unicode_len() > 0 {
                return base;
            }
        }
        let mut r = owned("clip ");
        r.append(self.id.as_str());
        r
    }
}

/// A span fits when `out - in` and its length `out - in + 1` are `i64`s,
/// so that computing the length does not overflow.
pub open spec fn duration_fits(c: TimelineClip) -> bool {
    &&& i64::MIN <= c.source_out - c.source_in <= i64::MAX
    &&& i64::MIN <= c.source_out - c.source_in + 1 <= i64::MAX
}

impl TimelineClip {
    pub fn duration(&self) -> (d: Frames)
        requires
            duration_fits(*self),
        ensures
            d == self.source_out - self.source_in + 1,
    {
        self.source_out - self.source_in + 1
    }

    pub fn end(&self) -> (e: Frames)
        requires
            duration_fits(*self),
            i64::MIN <= self.position + (self.source_out - self.source_in + 1) <= i64::MAX,
        ensures
            e == self.position + (self.source_out - self.source_in + 1),
    {
        self.position + self.duration()
    }
}

/// Bin clips in strictly increasing id order, so no id occurs twice.
pub open spec fn bins_in_order(cs: Seq<BinClip>) -> bool {
    forall|i: int, j: int| 0 <= i < j < cs.len() ==> text_lt(#[trigger] cs[i].id@, #[trigger] cs[j].id@)
}

/// An effect's parameters in strictly increasing key order, so no key
/// occurs twice.
pub open spec fn params_in_order(e: EffectView) -> bool {
    forall|i: int, j: int| 0 <= i < j < e.params.len() ==> text_lt(#[trigger] e.params[i].0, #[trigger] e.params[j].0)
}

pub open spec fn clip_params_in_order(c: TimelineClipView) -> bool {
    forall|k: int| 0 <= k < c.effects.len() ==> params_in_order(#[trigger] c.effects[k])
}

pub open spec fn track_params_in_order(t: TrackView) -> bool {
    forall|k: int| 0 <= k < t.clips.len() ==> clip_params_in_order(#[trigger] t.clips[k])
}

pub open spec fn sequence_params_in_order(s: SequenceView) -> bool {
    forall|k: int| 0 <= k < s.tracks.len() ==> track_params_in_order(#[trigger] s.tracks[k])
}

impl Project {
    /// What maps keyed by id and by parameter name would guarantee: bin
    /// clips are in id order with no id twice, and every effect's
    /// parameters in name order with no name twice.
    pub open spec fn well_formed(&self) -> bool {
        &&& bins_in_order(self.bin_clips@)
        &&& forall|k: int|
            0 <= k < self@.sequences.len() ==> sequence_params_in_order(#[trigger] self@.sequences[k])
    }
}

// ---------------------------------------------------------------------------
// Views: the same data with strings as character sequences.

pub struct ProfileView {
    pub width: u32,
    pub height: u32,
    pub frame_rate_num: u32,
    pub frame_rate_den: u32,
    pub description: Option<Seq<char>>,
}

pub struct BinClipView {
    pub id: Seq<char>,
    pub name: Option<Seq<char>>,
    pub resource: Option<Seq<char>>,
    pub service: Option<Seq<char>>,
}

pub struct EffectView {
    pub name: Seq<char>,
    pub service: Seq<char>,
    pub disabled: bool,
    pub params: Seq<(Seq<char>, Seq<char>)>,
}

pub struct TimelineClipView {
    pub bin_id: Seq<char>,
    pub position: Frames,
    pub source_in: Frames,
    pub source_out: Frames,
    pub effects: Seq<EffectView>,
}

pub struct TrackView {
    pub name: Seq<char>,
    pub kind: TrackKind,
    pub locked: bool,
    pub clips: Seq<TimelineClipView>,
}

pub struct MarkerView {
    pub position: Frames,
    pub comment: Seq<char>,
    pub category: i32,
}

pub struct GuideView {
    pub position: Frames,
    pub comment: Seq<char>,
}

pub struct SequenceView {
    pub uuid: Seq<char>,
    pub name: Option<Seq<char>>,
    pub tracks: Seq<TrackView>,
    pub markers: Seq<MarkerView>,
}

pub struct ProjectView {
    pub profile: ProfileView,
    pub bin_clips: Seq<BinClipView>,
    pub sequences: Seq<SequenceView>,
    pub guides: Seq<GuideView>,
}

impl View for Profile {
    type V = ProfileView;

    open spec fn view(&self) -> ProfileView {
        ProfileView {
            width: self.width,
            height: self.height,
            frame_rate_num: self.frame_rate_num,
            frame_rate_den: self.frame_rate_den,
            description: opt_view(self.description),
        }
    }
}

impl View for BinClip {
    type V = BinClipView;

    open spec fn view(&self) -> BinClipView {
        BinClipView {
            id: self.id@,
            name: opt_view(self.name),
            resource: opt_view(self.resource),
            service: opt_view(self.service),
        }
    }
}

impl View for Effect {
    type V = EffectView;

    open spec fn view(&self) -> EffectView {
        EffectView {
            name: self.name@,
            service: self.service@,
            disabled: self.disabled,
            params: pair_views(self.params@),
        }
    }
}

pub open spec fn effect_views(es: Seq<Effect>) -> Seq<EffectView> {
    es.map_values(|e: Effect| e@)
}

impl View for TimelineClip {
    type V = TimelineClipView;

    open spec fn view(&self) -> TimelineClipView {
        TimelineClipView {
            bin_id: self.bin_id@,
            position: self.position,
            source_in: self.source_in,
            source_out: self.source_out,
            effects: effect_views(self.effects@),
        }
    }
}

pub open spec fn clip_views(cs: Seq<TimelineClip>) -> Seq<TimelineClipView> {
    cs.map_values(|c: TimelineClip| c@)
}

impl View for Track {
    type V = TrackView;

    open spec fn view(&self) -> TrackView {
        TrackView { name: self.name@, kind: self.kind, locked: self.locked, clips: clip_views(self.clips@) }
    }
}

pub open spec fn track_views(ts: Seq<Track>) -> Seq<TrackView> {
    ts.map_values(|t: Track| t@)
}

impl View for Marker {
    type V = MarkerView;

    open spec fn view(&self) -> MarkerView {
        MarkerView { position: self.position, comment: self.comment@, category: self.category }
    }
}

pub open spec fn marker_views(ms: Seq<Marker>) -> Seq<MarkerView> {
    ms.map_values(|m: Marker| m@)
}

impl View for Guide {
    type V = GuideView;

    open spec fn view(&self) -> GuideView {
        GuideView { position: self.position, comment: self.comment@ }
    }
}

pub open spec fn guide_views(gs: Seq<Guide>) -> Seq<GuideView> {
    gs.map_values(|g: Guide| g@)
}

impl View for Sequence {
    type V = SequenceView;

    open spec fn view(&self) -> SequenceView {
        SequenceView {
            uuid: self.uuid@,
            name: opt_view(self.name),
            tracks: track_views(self.tracks@),
            markers: marker_views(self.markers@),
        }
    }
}

pub open spec fn sequence_views(ss: Seq<Sequence>) -> Seq<SequenceView> {
    ss.map_values(|s: Sequence| s@)
}

pub open spec fn bin_views(bs: Seq<BinClip>) -> Seq<BinClipView> {
    bs.map_values(|b: BinClip| b@)
}

impl View for Project {
    type V = ProjectView;

    open spec fn view(&self) -> ProjectView {
        ProjectView {
            profile: self.profile@,
            bin_clips: bin_views(self.bin_clips@),
            sequences: sequence_views(self.sequences@),
            guides: guide_views(self.guides@),
        }
    }
}

} // verus!
