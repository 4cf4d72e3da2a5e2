//! Compares two parsed projects and reports what changed as structured data.
//!
//! The output is plain values rather than text. `render` turns it into
//! sentences, and keeping the two apart means the same diff can drive
//! something else later without reparsing prose.
//!
//! The hard part is identity. Kdenlive renumbers producers between saves, so
//! nothing in the file reliably says "this is the same clip as last time".
//! Clips are matched per track by what they play and where they sit, which is
//! what lets a move read as a move instead of a delete plus an add.

use vstd::prelude::*;

use crate::keys::{
    insert_key, insert_key_int, key_set, key_set_int, lemma_key_set_int_members,
    lemma_key_set_members, strs,
};
use crate::model::{
    bin_views, bins_in_order, clip_label, duration_fits, effect_views, guide_views, marker_views,
    sequence_views, track_views, BinClip, Effect, Frames, Guide, Marker, Project, Sequence, TimelineClip, Track,
};
use crate::seqs::{
    concat_map, lemma_concat_map_all, lemma_concat_map_append, lemma_concat_map_contains, lemma_concat_map_empty,
    lemma_concat_map_flatten, lemma_concat_map_pointwise, lemma_concat_map_single, lemma_concat_map_step,
    lemma_concat_map_values,
};
use crate::text::{decimal, decimal_string, lemma_text_lt_irreflexive, opt_view, owned, pair_views};

verus! {

pub struct Diff {
    pub profile_changes: Vec<ProfileChange>,
    pub bin_changes: Vec<BinChange>,
    pub track_changes: Vec<TrackChange>,
    pub clip_changes: Vec<ClipChange>,
    pub marker_changes: Vec<MarkerChange>,
    pub guide_changes: Vec<GuideChange>,
}

pub struct ProfileChange {
    pub what: &'static str,
    pub from: String,
    pub to: String,
}

pub enum BinChange {
    Added { clip: String },
    Removed { clip: String },
    Renamed { from: String, to: String },
}

pub enum TrackChange {
    Added { track: String },
    Removed { track: String },
    Locked { track: String },
    Unlocked { track: String },
}

/// A change to one clip on the timeline. `track` and `clip` are display names
/// so that rendering never has to look anything up again.
pub struct ClipChange {
    pub track: String,
    pub clip: String,
    pub kind: ClipChangeKind,
}

pub enum ClipChangeKind {
    Added { position: Frames, duration: Frames },
    Removed { position: Frames },
    Moved { from: Frames, to: Frames },
    /// In or out point changed, so the clip plays a different span of source.
    Trimmed { from_duration: Frames, to_duration: Frames, position: Frames },
    EffectAdded { effect: String },
    EffectRemoved { effect: String },
    EffectChanged { effect: String, params: Vec<ParamChange> },
    EffectDisabled { effect: String },
    EffectEnabled { effect: String },
}

pub struct ParamChange {
    pub name: String,
    pub from: String,
    pub to: String,
}

pub enum MarkerChange {
    Added { position: Frames, comment: String },
    Removed { position: Frames, comment: String },
    Moved { from: Frames, to: Frames, comment: String },
    Retitled { position: Frames, from: String, to: String },
}

pub enum GuideChange {
    Added { position: Frames, comment: String },
    Removed { position: Frames, comment: String },
    Retitled { position: Frames, from: String, to: String },
}

// ---------------------------------------------------------------------------
// Mathematical views of the diff.

pub struct ProfileChangeView {
    pub what: Seq<char>,
    pub from: Seq<char>,
    pub to: Seq<char>,
}

pub enum BinChangeView {
    Added { clip: Seq<char> },
    Removed { clip: Seq<char> },
    Renamed { from: Seq<char>, to: Seq<char> },
}

pub enum TrackChangeView {
    Added { track: Seq<char> },
    Removed { track: Seq<char> },
    Locked { track: Seq<char> },
    Unlocked { track: Seq<char> },
}

pub struct ClipChangeView {
    pub track: Seq<char>,
    pub clip: Seq<char>,
    pub kind: ClipChangeKindView,
}

pub enum ClipChangeKindView {
    Added { position: Frames, duration: Frames },
    Removed { position: Frames },
    Moved { from: Frames, to: Frames },
    Trimmed { from_duration: Frames, to_duration: Frames, position: Frames },
    EffectAdded { effect: Seq<char> },
    EffectRemoved { effect: Seq<char> },
    EffectChanged { effect: Seq<char>, params: Seq<ParamChangeView> },
    EffectDisabled { effect: Seq<char> },
    EffectEnabled { effect: Seq<char> },
}

pub struct ParamChangeView {
    pub name: Seq<char>,
    pub from: Seq<char>,
    pub to: Seq<char>,
}

pub enum MarkerChangeView {
    Added { position: Frames, comment: Seq<char> },
    Removed { position: Frames, comment: Seq<char> },
    Moved { from: Frames, to: Frames, comment: Seq<char> },
    Retitled { position: Frames, from: Seq<char>, to: Seq<char> },
}

pub enum GuideChangeView {
    Added { position: Frames, comment: Seq<char> },
    Removed { position: Frames, comment: Seq<char> },
    Retitled { position: Frames, from: Seq<char>, to: Seq<char> },
}

pub struct DiffView {
    pub profile_changes: Seq<ProfileChangeView>,
    pub bin_changes: Seq<BinChangeView>,
    pub track_changes: Seq<TrackChangeView>,
    pub clip_changes: Seq<ClipChangeView>,
    pub marker_changes: Seq<MarkerChangeView>,
    pub guide_changes: Seq<GuideChangeView>,
}

impl View for ProfileChange {
    type V = ProfileChangeView;

    open spec fn view(&self) -> ProfileChangeView {
        ProfileChangeView { what: self.what@, from: self.from@, to: self.to@ }
    }
}

impl View for BinChange {
    type V = BinChangeView;

    open spec fn view(&self) -> BinChangeView {
        match self {
            BinChange::Added { clip } => BinChangeView::Added { clip: clip@ },
            BinChange::Removed { clip } => BinChangeView::Removed { clip: clip@ },
            BinChange::Renamed { from, to } => BinChangeView::Renamed { from: from@, to: to@ },
        }
    }
}

impl View for TrackChange {
    type V = TrackChangeView;

    open spec fn view(&self) -> TrackChangeView {
        match self {
            TrackChange::Added { track } => TrackChangeView::Added { track: track@ },
            TrackChange::Removed { track } => TrackChangeView::Removed { track: track@ },
            TrackChange::Locked { track } => TrackChangeView::Locked { track: track@ },
            TrackChange::Unlocked { track } => TrackChangeView::Unlocked { track: track@ },
        }
    }
}

impl View for ParamChange {
    type V = ParamChangeView;

    open spec fn view(&self) -> ParamChangeView {
        ParamChangeView { name: self.name@, from: self.from@, to: self.to@ }
    }
}

pub open spec fn param_views(v: Seq<ParamChange>) -> Seq<ParamChangeView> {
    v.map_values(|p: ParamChange| p@)
}

impl View for ClipChangeKind {
    type V = ClipChangeKindView;

    open spec fn view(&self) -> ClipChangeKindView {
        match self {
            ClipChangeKind::Added { position, duration } => ClipChangeKindView::Added {
                position: *position,
                duration: *duration,
            },
            ClipChangeKind::Removed { position } => ClipChangeKindView::Removed { position: *position },
            ClipChangeKind::Moved { from, to } => ClipChangeKindView::Moved { from: *from, to: *to },
            ClipChangeKind::Trimmed { from_duration, to_duration, position } => ClipChangeKindView::Trimmed {
                from_duration: *from_duration,
                to_duration: *to_duration,
                position: *position,
            },
            ClipChangeKind::EffectAdded { effect } => ClipChangeKindView::EffectAdded { effect: effect@ },
            ClipChangeKind::EffectRemoved { effect } => ClipChangeKindView::EffectRemoved { effect: effect@ },
            ClipChangeKind::EffectChanged { effect, params } => ClipChangeKindView::EffectChanged {
                effect: effect@,
                params: param_views(params@),
            },
            ClipChangeKind::EffectDisabled { effect } => ClipChangeKindView::EffectDisabled { effect: effect@ },
            ClipChangeKind::EffectEnabled { effect } => ClipChangeKindView::EffectEnabled { effect: effect@ },
        }
    }
}

impl View for ClipChange {
    type V = ClipChangeView;

    open spec fn view(&self) -> ClipChangeView {
        ClipChangeView { track: self.track@, clip: self.clip@, kind: self.kind@ }
    }
}

impl View for MarkerChange {
    type V = MarkerChangeView;

    open spec fn view(&self) -> MarkerChangeView {
        match self {
            MarkerChange::Added { position, comment } => MarkerChangeView::Added {
                position: *position,
                comment: comment@,
            },
            MarkerChange::Removed { position, comment } => MarkerChangeView::Removed {
                position: *position,
                comment: comment@,
            },
            MarkerChange::Moved { from, to, comment } => MarkerChangeView::Moved {
                from: *from,
                to: *to,
                comment: comment@,
            },
            MarkerChange::Retitled { position, from, to } => MarkerChangeView::Retitled {
                position: *position,
                from: from@,
                to: to@,
            },
        }
    }
}

impl View for GuideChange {
    type V = GuideChangeView;

    open spec fn view(&self) -> GuideChangeView {
        match self {
            GuideChange::Added { position, comment } => GuideChangeView::Added {
                position: *position,
                comment: comment@,
            },
            GuideChange::Removed { position, comment } => GuideChangeView::Removed {
                position: *position,
                comment: comment@,
            },
            GuideChange::Retitled { position, from, to } => GuideChangeView::Retitled {
                position: *position,
                from: from@,
                to: to@,
            },
        }
    }
}

impl View for Diff {
    type V = DiffView;

    open spec fn view(&self) -> DiffView {
        DiffView {
            profile_changes: self.profile_changes@.map_values(|c: ProfileChange| c@),
            bin_changes: self.bin_changes@.map_values(|c: BinChange| c@),
            track_changes: self.track_changes@.map_values(|c: TrackChange| c@),
            clip_changes: self.clip_changes@.map_values(|c: ClipChange| c@),
            marker_changes: self.marker_changes@.map_values(|c: MarkerChange| c@),
            guide_changes: self.guide_changes@.map_values(|c: GuideChange| c@),
        }
    }
}

impl DiffView {
    pub open spec fn is_empty(self) -> bool {
        &&& self.profile_changes.len() == 0
        &&& self.bin_changes.len() == 0
        &&& self.track_changes.len() == 0
        &&& self.clip_changes.len() == 0
        &&& self.marker_changes.len() == 0
        &&& self.guide_changes.len() == 0
    }
}

impl Diff {
    pub fn is_empty(&self) -> (r: bool)
        ensures
            r == self@.is_empty(),
    {
        self.profile_changes.len() == 0 && self.bin_changes.len() == 0 && self.track_changes.len()
            == 0 && self.clip_changes.len() == 0 && self.marker_changes.len() == 0
            && self.guide_changes.len() == 0
    }
}

// ---------------------------------------------------------------------------
// Frame rate labels.

/// A labeller of frame rates that can be called on any rate and gives one
/// answer per rate.
pub open spec fn rate_labeller<R: Fn(u32, u32) -> String>(r: R) -> bool {
    &&& forall|n: u32, d: u32| #[trigger] r.requires((n, d))
    &&& forall|n: u32, d: u32, a: String, b: String|
        r.ensures((n, d), a) && r.ensures((n, d), b) ==> a@ == b@
}

/// The label `r` gives the rate `n / d`.
pub open spec fn rate_text<R: Fn(u32, u32) -> String>(r: R, n: u32, d: u32) -> Seq<char> {
    (choose|s: String| r.ensures((n, d), s))@
}

fn call_rate<R: Fn(u32, u32) -> String>(r: &R, n: u32, d: u32) -> (s: String)
    requires
        rate_labeller(*r),
    ensures
        s@ == rate_text(*r, n, d),
{
    let s = r(n, d);
    proof {
        let c = choose|c: String| r.ensures((n, d), c);
        assert(r.ensures((n, d), c));
    }
    s
}

// ---------------------------------------------------------------------------
// Profile.

pub open spec fn resolution_text(w: u32, h: u32) -> Seq<char> {
    decimal(w as nat) + "x"@ + decimal(h as nat)
}

pub open spec fn profile_changes_of(
    before: Project,
    after: Project,
    rate: spec_fn(u32, u32) -> Seq<char>,
) -> Seq<ProfileChangeView> {
    let (a, b) = (before.profile, after.profile);
    let resolution = if a.width != b.width || a.height != b.height {
        seq![ProfileChangeView {
            what: "resolution"@,
            from: resolution_text(a.width, a.height),
            to: resolution_text(b.width, b.height),
        }]
    } else {
        Seq::empty()
    };
    let frame_rate = if a.frame_rate_num != b.frame_rate_num || a.frame_rate_den != b.frame_rate_den {
        seq![ProfileChangeView {
            what: "frame rate"@,
            from: rate(a.frame_rate_num, a.frame_rate_den),
            to: rate(b.frame_rate_num, b.frame_rate_den),
        }]
    } else {
        Seq::empty()
    };
    resolution + frame_rate
}

fn resolution_string(w: u32, h: u32) -> (s: String)
    ensures
        s@ == resolution_text(w, h),
{
    let mut s = decimal_string(w as u64);
    s.append("x");
    let t = decimal_string(h as u64);
    s.append(t.as_str());
    s
}

fn diff_profile<R: Fn(u32, u32) -> String>(before: &Project, after: &Project, rate: &R) -> (out: Vec<ProfileChange>)
    requires
        rate_labeller(*rate),
    ensures
        out@.map_values(|c: ProfileChange| c@) == profile_changes_of(
            *before,
            *after,
            |n: u32, d: u32| rate_text(*rate, n, d),
        ),
{
    let mut out: Vec<ProfileChange> = Vec::new();
    let (a, b) = (&before.profile, &after.profile);
    if a.width != b.width || a.height != b.height {
        out.push(ProfileChange {
            what: "resolution",
            from: resolution_string(a.width, a.height),
            to: resolution_string(b.width, b.height),
        });
    }
    if a.frame_rate_num != b.frame_rate_num || a.frame_rate_den != b.frame_rate_den {
        out.push(ProfileChange {
            what: "frame rate",
            from: call_rate(rate, a.frame_rate_num, a.frame_rate_den),
            to: call_rate(rate, b.frame_rate_num, b.frame_rate_den),
        });
    }
    assert(out@.map_values(|c: ProfileChange| c@) =~= profile_changes_of(
        *before,
        *after,
        |n: u32, d: u32| rate_text(*rate, n, d),
    ));
    out
}

// ---------------------------------------------------------------------------
// Bin.

/// The first bin clip with the given id.
pub open spec fn find_bin(cs: Seq<BinClip>, id: Seq<char>) -> Option<BinClip>
    decreases cs.len(),
{
    if cs.len() == 0 {
        None
    } else if cs[0].id@ == id {
        Some(cs[0])
    } else {
        find_bin(cs.drop_first(), id)
    }
}

fn find_bin_exec<'a>(cs: &'a Vec<BinClip>, id: &String) -> (r: Option<&'a BinClip>)
    ensures
        r matches Some(c) ==> find_bin(cs@, id@) == Some(*c),
        r is None ==> find_bin(cs@, id@) is None,
{
    let mut i: usize = 0;
    assert(cs@.skip(0) =~= cs@);
    while i < cs.len()
        invariant
            i <= cs.len(),
            find_bin(cs@, id@) == find_bin(cs@.skip(i as int), id@),
        decreases cs.len() - i,
    {
        assert(cs@.skip(i as int)[0] == cs@[i as int]);
        assert(cs@.skip(i as int).drop_first() =~= cs@.skip(i + 1));
        if cs[i].id == *id {
            return Some(&cs[i]);
        }
        i = i + 1;
    }
    None
}

pub open spec fn bin_old_change(o: BinClip, after: Seq<BinClip>) -> Seq<BinChangeView> {
    match find_bin(after, o.id@) {
        None => seq![BinChangeView::Removed { clip: clip_label(o) }],
        Some(n) => if clip_label(o) != clip_label(n) {
            seq![BinChangeView::Renamed { from: clip_label(o), to: clip_label(n) }]
        } else {
            Seq::empty()
        },
    }
}

pub open spec fn bin_new_change(n: BinClip, before: Seq<BinClip>) -> Seq<BinChangeView> {
    if find_bin(before, n.id@) is None {
        seq![BinChangeView::Added { clip: clip_label(n) }]
    } else {
        Seq::empty()
    }
}

pub open spec fn bin_changes_of(before: Project, after: Project) -> Seq<BinChangeView> {
    concat_map(before.bin_clips@, |o: BinClip| bin_old_change(o, after.bin_clips@))
        + concat_map(after.bin_clips@, |n: BinClip| bin_new_change(n, before.bin_clips@))
}

fn diff_bin(before: &Project, after: &Project) -> (out: Vec<BinChange>)
    ensures
        out@.map_values(|c: BinChange| c@) == bin_changes_of(*before, *after),
{
    let mut out: Vec<BinChange> = Vec::new();
    let ghost fo = |o: BinClip| bin_old_change(o, after.bin_clips@);
    let ghost fnew = |n: BinClip| bin_new_change(n, before.bin_clips@);
    let mut i: usize = 0;
    while i < before.bin_clips.len()
        invariant
            i <= before.bin_clips.len(),
            fo == (|o: BinClip| bin_old_change(o, after.bin_clips@)),
            out@.map_values(|c: BinChange| c@) == concat_map(before.bin_clips@.take(i as int), fo),
        decreases before.bin_clips.len() - i,
    {
        let old = &before.bin_clips[i];
        proof {
            lemma_concat_map_step(before.bin_clips@, fo, i as int);
        }
        match find_bin_exec(&after.bin_clips, &old.id) {
            None => {
                out.push(BinChange::Removed { clip: old.label() });
            },
            Some(new) => {
                let a = old.label();
                let b = new.label();
                if !(a == b) {
                    out.push(BinChange::Renamed { from: a, to: b });
                }
            },
        }
        assert(out@.map_values(|c: BinChange| c@) =~= concat_map(before.bin_clips@.take(i + 1), fo));
        i = i + 1;
    }
    proof {
        lemma_concat_map_all(before.bin_clips@, fo);
    }
    let ghost first = out@.map_values(|c: BinChange| c@);
    let mut j: usize = 0;
    while j < after.bin_clips.len()
        invariant
            j <= after.bin_clips.len(),
            fo == (|o: BinClip| bin_old_change(o, after.bin_clips@)),
            fnew == (|n: BinClip| bin_new_change(n, before.bin_clips@)),
            first == concat_map(before.bin_clips@, fo),
            out@.map_values(|c: BinChange| c@) == first + concat_map(after.bin_clips@.take(j as int), fnew),
        decreases after.bin_clips.len() - j,
    {
        let new = &after.bin_clips[j];
        proof {
            lemma_concat_map_step(after.bin_clips@, fnew, j as int);
            assert(first + concat_map(after.bin_clips@.take(j + 1), fnew) =~= first + concat_map(
                after.bin_clips@.take(j as int),
                fnew,
            ) + fnew(after.bin_clips@[j as int]));
        }
        if find_bin_exec(&before.bin_clips, &new.id).is_none() {
            out.push(BinChange::Added { clip: new.label() });
        }
        assert(out@.map_values(|c: BinChange| c@) =~= first + concat_map(after.bin_clips@.take(j + 1), fnew));
        j = j + 1;
    }
    proof {
        lemma_concat_map_all(after.bin_clips@, fnew);
    }
    out
}

// ---------------------------------------------------------------------------
// Guides, keyed by position; the last guide at a position is the one kept.

pub open spec fn guide_positions(gs: Seq<Guide>) -> Seq<i64> {
    gs.map_values(|g: Guide| g.position)
}

/// The last guide at `pos`.
pub open spec fn last_guide(gs: Seq<Guide>, pos: i64) -> Option<Guide>
    decreases gs.len(),
{
    if gs.len() == 0 {
        None
    } else if gs.last().position == pos {
        Some(gs.last())
    } else {
        last_guide(gs.drop_last(), pos)
    }
}

pub open spec fn guide_old_change(pos: i64, before: Seq<Guide>, after: Seq<Guide>) -> Seq<GuideChangeView> {
    let o = last_guide(before, pos)->0;
    match last_guide(after, pos) {
        None => seq![GuideChangeView::Removed { position: pos, comment: o.comment@ }],
        Some(n) => if n.comment@ != o.comment@ {
            seq![GuideChangeView::Retitled { position: pos, from: o.comment@, to: n.comment@ }]
        } else {
            Seq::empty()
        },
    }
}

pub open spec fn guide_new_change(pos: i64, before: Seq<Guide>, after: Seq<Guide>) -> Seq<GuideChangeView> {
    if last_guide(before, pos) is None {
        seq![GuideChangeView::Added { position: pos, comment: last_guide(after, pos)->0.comment@ }]
    } else {
        Seq::empty()
    }
}

pub open spec fn guide_changes_of(before: Project, after: Project) -> Seq<GuideChangeView> {
    let (b, a) = (before.guides@, after.guides@);
    concat_map(key_set_int(guide_positions(b)), |p: i64| guide_old_change(p, b, a))
        + concat_map(key_set_int(guide_positions(a)), |p: i64| guide_new_change(p, b, a))
}

fn last_guide_exec<'a>(gs: &'a Vec<Guide>, pos: i64) -> (r: Option<&'a Guide>)
    ensures
        r matches Some(g) ==> last_guide(gs@, pos) == Some(*g),
        r is None ==> last_guide(gs@, pos) is None,
{
    let mut i: usize = gs.len();
    assert(gs@.take(i as int) =~= gs@);
    while i > 0
        invariant
            i <= gs.len(),
            last_guide(gs@, pos) == last_guide(gs@.take(i as int), pos),
        decreases i,
    {
        assert(gs@.take(i as int).drop_last() =~= gs@.take(i - 1));
        if gs[i - 1].position == pos {
            return Some(&gs[i - 1]);
        }
        i = i - 1;
    }
    None
}

fn guide_keys(gs: &Vec<Guide>) -> (ks: Vec<i64>)
    ensures
        ks@ == key_set_int(guide_positions(gs@)),
{
    let mut ks: Vec<i64> = Vec::new();
    let mut i: usize = 0;
    while i < gs.len()
        invariant
            i <= gs.len(),
            ks@ == key_set_int(guide_positions(gs@.take(i as int))),
        decreases gs.len() - i,
    {
        insert_key_int(&mut ks, gs[i].position);
        assert(guide_positions(gs@.take(i + 1)).drop_last() =~= guide_positions(gs@.take(i as int)));
        i = i + 1;
    }
    assert(gs@.take(i as int) =~= gs@);
    ks
}

fn diff_guides(before: &Project, after: &Project) -> (out: Vec<GuideChange>)
    ensures
        out@.map_values(|c: GuideChange| c@) == guide_changes_of(*before, *after),
{
    let ghost (b, a) = (before.guides@, after.guides@);
    let ghost fo = |p: i64| guide_old_change(p, b, a);
    let ghost fnew = |p: i64| guide_new_change(p, b, a);
    let mut out: Vec<GuideChange> = Vec::new();
    let old_keys = guide_keys(&before.guides);
    let new_keys = guide_keys(&after.guides);
    proof {
        lemma_key_set_int_members(guide_positions(b));
    }
    let mut i: usize = 0;
    while i < old_keys.len()
        invariant
            i <= old_keys.len(),
            old_keys@ == key_set_int(guide_positions(b)),
            b == before.guides@,
            a == after.guides@,
            fo == (|p: i64| guide_old_change(p, b, a)),
            forall|x: i64| #[trigger] old_keys@.contains(x) <==> guide_positions(b).contains(x),
            out@.map_values(|c: GuideChange| c@) == concat_map(old_keys@.take(i as int), fo),
        decreases old_keys.len() - i,
    {
        let pos = old_keys[i];
        proof {
            lemma_concat_map_step(old_keys@, fo, i as int);
            assert(old_keys@.contains(pos));
            let k = choose|k: int| 0 <= k < b.len() && guide_positions(b)[k] == pos;
            lemma_last_guide_exists(b, pos, k);
        }
        let o = last_guide_exec(&before.guides, pos).unwrap();
        match last_guide_exec(&after.guides, pos) {
            None => {
                out.push(GuideChange::Removed { position: pos, comment: o.comment.clone() });
            },
            Some(n) => {
                if !(n.comment == o.comment) {
                    out.push(GuideChange::Retitled {
                        position: pos,
                        from: o.comment.clone(),
                        to: n.comment.clone(),
                    });
                }
            },
        }
        assert(out@.map_values(|c: GuideChange| c@) =~= concat_map(old_keys@.take(i + 1), fo));
        i = i + 1;
    }
    proof {
        lemma_concat_map_all(old_keys@, fo);
        lemma_key_set_int_members(guide_positions(a));
    }
    let ghost first = out@.map_values(|c: GuideChange| c@);
    let mut j: usize = 0;
    while j < new_keys.len()
        invariant
            j <= new_keys.len(),
            new_keys@ == key_set_int(guide_positions(a)),
            b == before.guides@,
            a == after.guides@,
            fo == (|p: i64| guide_old_change(p, b, a)),
            fnew == (|p: i64| guide_new_change(p, b, a)),
            forall|x: i64| #[trigger] new_keys@.contains(x) <==> guide_positions(a).contains(x),
            first == concat_map(old_keys@, fo),
            out@.map_values(|c: GuideChange| c@) == first + concat_map(new_keys@.take(j as int), fnew),
        decreases new_keys.len() - j,
    {
        let pos = new_keys[j];
        proof {
            lemma_concat_map_step(new_keys@, fnew, j as int);
            assert(first + concat_map(new_keys@.take(j + 1), fnew) =~= first + concat_map(
                new_keys@.take(j as int),
                fnew,
            ) + fnew(new_keys@[j as int]));
            assert(new_keys@.contains(pos));
            let k = choose|k: int| 0 <= k < a.len() && guide_positions(a)[k] == pos;
            lemma_last_guide_exists(a, pos, k);
        }
        if last_guide_exec(&before.guides, pos).is_none() {
            let n = last_guide_exec(&after.guides, pos).unwrap();
            out.push(GuideChange::Added { position: pos, comment: n.comment.clone() });
        }
        assert(out@.map_values(|c: GuideChange| c@) =~= first + concat_map(new_keys@.take(j + 1), fnew));
        j = j + 1;
    }
    proof {
        lemma_concat_map_all(new_keys@, fnew);
    }
    out
}

proof fn lemma_last_guide_exists(gs: Seq<Guide>, pos: i64, k: int)
    requires
        0 <= k < gs.len(),
        gs[k].position == pos,
    ensures
        last_guide(gs, pos) is Some,
        last_guide(gs, pos)->0.position == pos,
    decreases gs.len(),
{
    if gs.last().position != pos {
        assert(k < gs.len() - 1);
        assert(gs.drop_last()[k] == gs[k]);
        lemma_last_guide_exists(gs.drop_last(), pos, k);
    }
}

// ---------------------------------------------------------------------------
// Tracks, keyed by display name across all sequences; the last track with a
// name is the one kept.

/// Every track of every sequence, in document order.
pub open spec fn all_tracks(p: Project) -> Seq<Track> {
    concat_map(p.sequences@, |s: Sequence| s.tracks@)
}

pub open spec fn track_names(ts: Seq<Track>) -> Seq<Seq<char>> {
    ts.map_values(|t: Track| t.name@)
}

/// The last track named `name`.
pub open spec fn last_track(ts: Seq<Track>, name: Seq<char>) -> Option<Track>
    decreases ts.len(),
{
    if ts.len() == 0 {
        None
    } else if ts.last().name@ == name {
        Some(ts.last())
    } else {
        last_track(ts.drop_last(), name)
    }
}

proof fn lemma_last_track_exists(ts: Seq<Track>, name: Seq<char>, k: int)
    requires
        0 <= k < ts.len(),
        ts[k].name@ == name,
    ensures
        last_track(ts, name) is Some,
        last_track(ts, name)->0.name@ == name,
    decreases ts.len(),
{
    if ts.last().name@ != name {
        assert(ts.drop_last()[k] == ts[k]);
        lemma_last_track_exists(ts.drop_last(), name, k);
    }
}

pub open spec fn track_old_change(name: Seq<char>, old: Seq<Track>, new: Seq<Track>) -> Seq<TrackChangeView> {
    let o = last_track(old, name)->0;
    match last_track(new, name) {
        None => seq![TrackChangeView::Removed { track: name }],
        Some(n) => if !o.locked && n.locked {
            seq![TrackChangeView::Locked { track: name }]
        } else if o.locked && !n.locked {
            seq![TrackChangeView::Unlocked { track: name }]
        } else {
            Seq::empty()
        },
    }
}

pub open spec fn track_new_change(name: Seq<char>, old: Seq<Track>, new: Seq<Track>) -> Seq<TrackChangeView> {
    if last_track(old, name) is None {
        seq![TrackChangeView::Added { track: name }]
    } else {
        Seq::empty()
    }
}

pub open spec fn track_changes_of(before: Project, after: Project) -> Seq<TrackChangeView> {
    let (old, new) = (all_tracks(before), all_tracks(after));
    concat_map(key_set(track_names(old)), |n: Seq<char>| track_old_change(n, old, new))
        + concat_map(key_set(track_names(new)), |n: Seq<char>| track_new_change(n, old, new))
}

/// The track a location names: sequence index, then track index.
pub open spec fn track_at(p: Project, loc: (usize, usize)) -> Track {
    p.sequences@[loc.0 as int].tracks@[loc.1 as int]
}

pub open spec fn valid_loc(p: Project, loc: (usize, usize)) -> bool {
    &&& loc.0 < p.sequences@.len()
    &&& loc.1 < p.sequences@[loc.0 as int].tracks@.len()
}

/// The tracks of a project as it lays them out, with the locations that
/// reach them and the distinct names in name order.
struct TrackIndex {
    locs: Vec<(usize, usize)>,
    names: Vec<String>,
}

spec fn index_of(p: Project, ix: TrackIndex) -> bool {
    &&& forall|k: int| 0 <= k < ix.locs@.len() ==> valid_loc(p, #[trigger] ix.locs@[k])
    &&& ix.locs@.map_values(|l: (usize, usize)| track_at(p, l)) == all_tracks(p)
    &&& strs(ix.names@) == key_set(track_names(all_tracks(p)))
}

fn index_tracks(p: &Project) -> (ix: TrackIndex)
    ensures
        index_of(*p, ix),
{
    let ghost f = |s: Sequence| s.tracks@;
    let mut locs: Vec<(usize, usize)> = Vec::new();
    let mut names: Vec<String> = Vec::new();
    let mut i: usize = 0;
    while i < p.sequences.len()
        invariant
            i <= p.sequences.len(),
            f == (|s: Sequence| s.tracks@),
            forall|k: int| 0 <= k < locs@.len() ==> valid_loc(*p, #[trigger] locs@[k]),
            locs@.map_values(|l: (usize, usize)| track_at(*p, l)) == concat_map(p.sequences@.take(i as int), f),
            strs(names@) == key_set(track_names(concat_map(p.sequences@.take(i as int), f))),
        decreases p.sequences.len() - i,
    {
        let ghost before_locs = locs@.map_values(|l: (usize, usize)| track_at(*p, l));
        let ghost base = concat_map(p.sequences@.take(i as int), f);
        let tracks = &p.sequences[i].tracks;
        let mut j: usize = 0;
        while j < tracks.len()
            invariant
                i < p.sequences.len(),
                tracks@ == p.sequences@[i as int].tracks@,
                j <= tracks.len(),
                forall|k: int| 0 <= k < locs@.len() ==> valid_loc(*p, #[trigger] locs@[k]),
                locs@.map_values(|l: (usize, usize)| track_at(*p, l)) == base + tracks@.take(j as int),
                strs(names@) == key_set(track_names(base + tracks@.take(j as int))),
            decreases tracks.len() - j,
        {
            let ghost prev = locs@;
            locs.push((i, j));
            assert(track_at(*p, (i, j)) == tracks@[j as int]);
            assert(locs@ == prev.push((i, j)));
            assert(locs@.map_values(|l: (usize, usize)| track_at(*p, l)) =~= prev.map_values(
                |l: (usize, usize)| track_at(*p, l),
            ).push(tracks@[j as int]));
            insert_key(&mut names, tracks[j].name.as_str());
            assert(locs@.map_values(|l: (usize, usize)| track_at(*p, l)) =~= base + tracks@.take(j + 1));
            assert(track_names(base + tracks@.take(j + 1)).drop_last() =~= track_names(base + tracks@.take(j as int)));
            j = j + 1;
        }
        proof {
            lemma_concat_map_step(p.sequences@, f, i as int);
            assert(tracks@.take(j as int) =~= tracks@);
        }
        i = i + 1;
    }
    proof {
        lemma_concat_map_all(p.sequences@, f);
    }
    TrackIndex { locs, names }
}

/// The location of the last track named `name`.
fn last_track_loc(p: &Project, ix: &TrackIndex, name: &String) -> (r: Option<(usize, usize)>)
    requires
        index_of(*p, *ix),
    ensures
        r matches Some(l) ==> valid_loc(*p, l) && last_track(all_tracks(*p), name@) == Some(track_at(*p, l))
            && exists|k: int| 0 <= k < ix.locs@.len() && ix.locs@[k] == l,
        r is None ==> last_track(all_tracks(*p), name@) is None,
{
    let ghost ts = all_tracks(*p);
    let mut i: usize = ix.locs.len();
    assert(ts.len() == ix.locs@.len());
    assert(ts.take(i as int) =~= ts);
    while i > 0
        invariant
            index_of(*p, *ix),
            ts == all_tracks(*p),
            i <= ix.locs.len(),
            ts.len() == ix.locs@.len(),
            last_track(ts, name@) == last_track(ts.take(i as int), name@),
        decreases i,
    {
        let l = ix.locs[i - 1];
        assert(ts[i - 1] == track_at(*p, l));
        assert(ts.take(i as int).drop_last() =~= ts.take(i - 1));
        assert(valid_loc(*p, ix.locs@[i - 1]));
        if p.sequences[l.0].tracks[l.1].name == *name {
            return Some(l);
        }
        i = i - 1;
    }
    None
}

fn diff_tracks(before: &Project, after: &Project, old: &TrackIndex, new: &TrackIndex) -> (out: Vec<TrackChange>)
    requires
        index_of(*before, *old),
        index_of(*after, *new),
    ensures
        out@.map_values(|c: TrackChange| c@) == track_changes_of(*before, *after),
{
    let ghost (ot, nt) = (all_tracks(*before), all_tracks(*after));
    let ghost fo = |n: Seq<char>| track_old_change(n, ot, nt);
    let ghost fnew = |n: Seq<char>| track_new_change(n, ot, nt);
    let ghost ok = strs(old.names@);
    let ghost nk = strs(new.names@);
    proof {
        lemma_key_set_members(track_names(ot));
        lemma_key_set_members(track_names(nt));
    }
    let mut out: Vec<TrackChange> = Vec::new();
    let mut i: usize = 0;
    while i < old.names.len()
        invariant
            index_of(*before, *old),
            index_of(*after, *new),
            ot == all_tracks(*before),
            nt == all_tracks(*after),
            ok == strs(old.names@),
            fo == (|n: Seq<char>| track_old_change(n, ot, nt)),
            forall|x: Seq<char>| #[trigger] ok.contains(x) <==> track_names(ot).contains(x),
            i <= old.names.len(),
            out@.map_values(|c: TrackChange| c@) == concat_map(ok.take(i as int), fo),
        decreases old.names.len() - i,
    {
        let name = &old.names[i];
        proof {
            lemma_concat_map_step(ok, fo, i as int);
            assert(ok[i as int] == name@);
            assert(ok.contains(name@));
            let k = choose|k: int| 0 <= k < track_names(ot).len() && track_names(ot)[k] == name@;
            lemma_last_track_exists(ot, name@, k);
        }
        let ol = last_track_loc(before, old, name).unwrap();
        let o = &before.sequences[ol.0].tracks[ol.1];
        match last_track_loc(after, new, name) {
            None => {
                out.push(TrackChange::Removed { track: name.clone() });
            },
            Some(nl) => {
                let n = &after.sequences[nl.0].tracks[nl.1];
                if !o.locked && n.locked {
                    out.push(TrackChange::Locked { track: name.clone() });
                } else if o.locked && !n.locked {
                    out.push(TrackChange::Unlocked { track: name.clone() });
                }
            },
        }
        assert(out@.map_values(|c: TrackChange| c@) =~= concat_map(ok.take(i + 1), fo));
        i = i + 1;
    }
    proof {
        lemma_concat_map_all(ok, fo);
    }
    let ghost first = out@.map_values(|c: TrackChange| c@);
    let mut j: usize = 0;
    while j < new.names.len()
        invariant
            index_of(*before, *old),
            index_of(*after, *new),
            ot == all_tracks(*before),
            nt == all_tracks(*after),
            nk == strs(new.names@),
            fo == (|n: Seq<char>| track_old_change(n, ot, nt)),
            fnew == (|n: Seq<char>| track_new_change(n, ot, nt)),
            first == concat_map(strs(old.names@), fo),
            j <= new.names.len(),
            out@.map_values(|c: TrackChange| c@) == first + concat_map(nk.take(j as int), fnew),
        decreases new.names.len() - j,
    {
        let name = &new.names[j];
        proof {
            lemma_concat_map_step(nk, fnew, j as int);
            assert(nk[j as int] == name@);
            assert(first + concat_map(nk.take(j + 1), fnew) =~= first + concat_map(nk.take(j as int), fnew)
                + fnew(nk[j as int]));
        }
        if last_track_loc(before, old, name).is_none() {
            out.push(TrackChange::Added { track: name.clone() });
        }
        assert(out@.map_values(|c: TrackChange| c@) =~= first + concat_map(nk.take(j + 1), fnew));
        j = j + 1;
    }
    proof {
        lemma_concat_map_all(nk, fnew);
    }
    out
}

// ---------------------------------------------------------------------------
// Markers, paired across all sequences: the same position is the same marker,
// retitled or not, and otherwise the same text elsewhere means it moved.

/// Every marker of every sequence, in document order.
pub open spec fn all_markers(p: Project) -> Seq<Marker> {
    concat_map(p.sequences@, |s: Sequence| s.markers@)
}

/// The first unused marker at index `j` or later that sits at `pos`.
pub open spec fn first_at(new: Seq<Marker>, used: Set<int>, pos: i64, j: int) -> Option<int>
    decreases new.len() - j,
{
    if j < 0 || j >= new.len() {
        None
    } else if !used.contains(j) && new[j].position == pos {
        Some(j)
    } else {
        first_at(new, used, pos, j + 1)
    }
}

/// The first unused marker at index `j` or later that reads `comment`.
pub open spec fn first_titled(new: Seq<Marker>, used: Set<int>, comment: Seq<char>, j: int) -> Option<int>
    decreases new.len() - j,
{
    if j < 0 || j >= new.len() {
        None
    } else if !used.contains(j) && new[j].comment@ == comment {
        Some(j)
    } else {
        first_titled(new, used, comment, j + 1)
    }
}

pub struct MarkerScan {
    pub changes: Seq<MarkerChangeView>,
    pub used: Set<int>,
}

/// Pairing of the first `n` old markers with new ones.
pub open spec fn marker_scan(old: Seq<Marker>, new: Seq<Marker>, n: int) -> MarkerScan
    decreases n,
{
    if n <= 0 {
        MarkerScan { changes: Seq::empty(), used: Set::empty() }
    } else {
        let s = marker_scan(old, new, n - 1);
        let o = old[n - 1];
        match first_at(new, s.used, o.position, 0) {
            Some(j) => MarkerScan {
                changes: if new[j].comment@ != o.comment@ {
                    s.changes.push(MarkerChangeView::Retitled {
                        position: o.position,
                        from: o.comment@,
                        to: new[j].comment@,
                    })
                } else {
                    s.changes
                },
                used: s.used.insert(j),
            },
            None => match first_titled(new, s.used, o.comment@, 0) {
                Some(j) => MarkerScan {
                    changes: s.changes.push(MarkerChangeView::Moved {
                        from: o.position,
                        to: new[j].position,
                        comment: o.comment@,
                    }),
                    used: s.used.insert(j),
                },
                None => MarkerScan {
                    changes: s.changes.push(MarkerChangeView::Removed { position: o.position, comment: o.comment@ }),
                    used: s.used,
                },
            },
        }
    }
}

/// The new markers among the first `n` that no old marker took.
pub open spec fn markers_added(new: Seq<Marker>, used: Set<int>, n: int) -> Seq<MarkerChangeView>
    decreases n,
{
    if n <= 0 {
        Seq::empty()
    } else if used.contains(n - 1) {
        markers_added(new, used, n - 1)
    } else {
        markers_added(new, used, n - 1).push(
            MarkerChangeView::Added { position: new[n - 1].position, comment: new[n - 1].comment@ },
        )
    }
}

pub open spec fn marker_changes_of(before: Project, after: Project) -> Seq<MarkerChangeView> {
    let (old, new) = (all_markers(before), all_markers(after));
    let s = marker_scan(old, new, old.len() as int);
    s.changes + markers_added(new, s.used, new.len() as int)
}

fn copy_marker(m: &Marker) -> (r: Marker)
    ensures
        r == *m,
{
    Marker { position: m.position, comment: m.comment.clone(), category: m.category }
}

fn flat_markers(p: &Project) -> (v: Vec<Marker>)
    ensures
        v@ == all_markers(*p),
{
    let ghost f = |s: Sequence| s.markers@;
    let mut v: Vec<Marker> = Vec::new();
    let mut i: usize = 0;
    while i < p.sequences.len()
        invariant
            i <= p.sequences.len(),
            f == (|s: Sequence| s.markers@),
            v@ == concat_map(p.sequences@.take(i as int), f),
        decreases p.sequences.len() - i,
    {
        let ghost base = v@;
        let ms = &p.sequences[i].markers;
        let mut j: usize = 0;
        while j < ms.len()
            invariant
                j <= ms.len(),
                v@ == base + ms@.take(j as int),
            decreases ms.len() - j,
        {
            v.push(copy_marker(&ms[j]));
            assert(v@ =~= base + ms@.take(j + 1));
            j = j + 1;
        }
        proof {
            lemma_concat_map_step(p.sequences@, f, i as int);
            assert(ms@.take(j as int) =~= ms@);
        }
        i = i + 1;
    }
    proof {
        lemma_concat_map_all(p.sequences@, f);
    }
    v
}

spec fn flags_match(flags: Seq<bool>, used: Set<int>) -> bool {
    &&& forall|k: int| 0 <= k < flags.len() ==> (flags[k] <==> #[trigger] used.contains(k))
    &&& forall|k: int| #[trigger] used.contains(k) ==> 0 <= k < flags.len()
}

fn find_at(new: &Vec<Marker>, used: &Vec<bool>, pos: i64, Ghost(set): Ghost<Set<int>>) -> (r: Option<usize>)
    requires
        used.len() == new.len(),
        flags_match(used@, set),
    ensures
        r == (match first_at(new@, set, pos, 0) {
            Some(j) => Some(j as usize),
            None => None,
        }),
        r matches Some(j) ==> j < new.len(),
{
    let mut j: usize = 0;
    while j < new.len()
        invariant
            used.len() == new.len(),
            flags_match(used@, set),
            j <= new.len(),
            first_at(new@, set, pos, 0) == first_at(new@, set, pos, j as int),
        decreases new.len() - j,
    {
        if !used[j] && new[j].position == pos {
            return Some(j);
        }
        j = j + 1;
    }
    None
}

fn find_titled(new: &Vec<Marker>, used: &Vec<bool>, comment: &String, Ghost(set): Ghost<Set<int>>) -> (r: Option<usize>)
    requires
        used.len() == new.len(),
        flags_match(used@, set),
    ensures
        r == (match first_titled(new@, set, comment@, 0) {
            Some(j) => Some(j as usize),
            None => None,
        }),
        r matches Some(j) ==> j < new.len(),
{
    let mut j: usize = 0;
    while j < new.len()
        invariant
            used.len() == new.len(),
            flags_match(used@, set),
            j <= new.len(),
            first_titled(new@, set, comment@, 0) == first_titled(new@, set, comment@, j as int),
        decreases new.len() - j,
    {
        if !used[j] && new[j].comment == *comment {
            return Some(j);
        }
        j = j + 1;
    }
    None
}

proof fn lemma_first_at_bounds(new: Seq<Marker>, used: Set<int>, pos: i64, j: int)
    ensures
        first_at(new, used, pos, j) matches Some(k) ==> j <= k < new.len() && !used.contains(k)
            && new[k].position == pos,
    decreases new.len() - j,
{
    if 0 <= j < new.len() && !(!used.contains(j) && new[j].position == pos) {
        lemma_first_at_bounds(new, used, pos, j + 1);
    }
}

proof fn lemma_first_titled_bounds(new: Seq<Marker>, used: Set<int>, comment: Seq<char>, j: int)
    ensures
        first_titled(new, used, comment, j) matches Some(k) ==> j <= k < new.len() && !used.contains(k)
            && new[k].comment@ == comment,
    decreases new.len() - j,
{
    if 0 <= j < new.len() && !(!used.contains(j) && new[j].comment@ == comment) {
        lemma_first_titled_bounds(new, used, comment, j + 1);
    }
}

fn diff_markers(before: &Project, after: &Project) -> (out: Vec<MarkerChange>)
    ensures
        out@.map_values(|c: MarkerChange| c@) == marker_changes_of(*before, *after),
{
    let old = flat_markers(before);
    let new = flat_markers(after);
    let mut out: Vec<MarkerChange> = Vec::new();
    let mut used: Vec<bool> = Vec::new();
    let mut k: usize = 0;
    while k < new.len()
        invariant
            k <= new.len(),
            used.len() == k,
            forall|x: int| 0 <= x < k ==> !used@[x],
        decreases new.len() - k,
    {
        used.push(false);
        k = k + 1;
    }
    let ghost mut set: Set<int> = Set::empty();
    let mut i: usize = 0;
    while i < old.len()
        invariant
            i <= old.len(),
            used.len() == new.len(),
            flags_match(used@, set),
            set == marker_scan(old@, new@, i as int).used,
            out@.map_values(|c: MarkerChange| c@) == marker_scan(old@, new@, i as int).changes,
        decreases old.len() - i,
    {
        let o = &old[i];
        let ghost prev = out@.map_values(|c: MarkerChange| c@);
        match find_at(&new, &used, o.position, Ghost(set)) {
            Some(j) => {
                proof {
                    lemma_first_at_bounds(new@, set, o.position, 0);
                }
                used.set(j, true);
                let n = &new[j];
                if !(n.comment == o.comment) {
                    out.push(MarkerChange::Retitled {
                        position: o.position,
                        from: o.comment.clone(),
                        to: n.comment.clone(),
                    });
                }
                proof {
                    set = set.insert(j as int);
                }
            },
            None => {
                match find_titled(&new, &used, &o.comment, Ghost(set)) {
                    Some(j) => {
                        proof {
                            lemma_first_titled_bounds(new@, set, o.comment@, 0);
                        }
                        used.set(j, true);
                        out.push(MarkerChange::Moved {
                            from: o.position,
                            to: new[j].position,
                            comment: o.comment.clone(),
                        });
                        proof {
                            set = set.insert(j as int);
                        }
                    },
                    None => {
                        out.push(MarkerChange::Removed { position: o.position, comment: o.comment.clone() });
                    },
                }
            },
        }
        assert(out@.map_values(|c: MarkerChange| c@) =~= marker_scan(old@, new@, i + 1).changes);
        i = i + 1;
    }
    let ghost first = out@.map_values(|c: MarkerChange| c@);
    let mut j: usize = 0;
    while j < new.len()
        invariant
            j <= new.len(),
            used.len() == new.len(),
            flags_match(used@, set),
            first == marker_scan(old@, new@, old@.len() as int).changes,
            out@.map_values(|c: MarkerChange| c@) == first + markers_added(new@, set, j as int),
        decreases new.len() - j,
    {
        assert(set.contains(j as int) == used@[j as int]);
        let ghost prev = out@.map_values(|c: MarkerChange| c@);
        if !used[j] {
            out.push(MarkerChange::Added { position: new[j].position, comment: new[j].comment.clone() });
        }
        if !used[j] {
            assert(out@.map_values(|c: MarkerChange| c@) =~= prev.push(
                MarkerChangeView::Added { position: new@[j as int].position, comment: new@[j as int].comment@ },
            ));
        }
        assert(out@.map_values(|c: MarkerChange| c@) =~= first + markers_added(new@, set, j + 1));
        j = j + 1;
    }
    out
}

// ---------------------------------------------------------------------------
// Effect parameters, keyed by name; a parameter present on one side only
// reads as empty on the other.

pub open spec fn param_keys(ps: Seq<(String, String)>) -> Seq<Seq<char>> {
    ps.map_values(|p: (String, String)| p.0@)
}

/// The value of the first parameter named `key`.
pub open spec fn find_param(ps: Seq<(String, String)>, key: Seq<char>) -> Option<Seq<char>>
    decreases ps.len(),
{
    if ps.len() == 0 {
        None
    } else if ps[0].0@ == key {
        Some(ps[0].1@)
    } else {
        find_param(ps.drop_first(), key)
    }
}

pub open spec fn param_change_for(key: Seq<char>, old: Effect, new: Effect) -> Seq<ParamChangeView> {
    let (a, b) = (find_param(old.params@, key), find_param(new.params@, key));
    if a == b {
        Seq::empty()
    } else {
        seq![ParamChangeView {
            name: key,
            from: match a { Some(v) => v, None => Seq::empty() },
            to: match b { Some(v) => v, None => Seq::empty() },
        }]
    }
}

pub open spec fn param_changes_of(old: Effect, new: Effect) -> Seq<ParamChangeView> {
    concat_map(
        key_set(param_keys(old.params@) + param_keys(new.params@)),
        |k: Seq<char>| param_change_for(k, old, new),
    )
}

fn find_param_exec<'a>(ps: &'a Vec<(String, String)>, key: &String) -> (r: Option<&'a String>)
    ensures
        r matches Some(v) ==> find_param(ps@, key@) == Some(v@),
        r is None ==> find_param(ps@, key@) is None,
{
    let mut i: usize = 0;
    assert(ps@.skip(0) =~= ps@);
    while i < ps.len()
        invariant
            i <= ps.len(),
            find_param(ps@, key@) == find_param(ps@.skip(i as int), key@),
        decreases ps.len() - i,
    {
        assert(ps@.skip(i as int)[0] == ps@[i as int]);
        assert(ps@.skip(i as int).drop_first() =~= ps@.skip(i + 1));
        if ps[i].0 == *key {
            return Some(&ps[i].1);
        }
        i = i + 1;
    }
    None
}

fn param_key_set(old: &Effect, new: &Effect) -> (ks: Vec<String>)
    ensures
        strs(ks@) == key_set(param_keys(old.params@) + param_keys(new.params@)),
{
    let ghost all = param_keys(old.params@) + param_keys(new.params@);
    let mut ks: Vec<String> = Vec::new();
    let mut i: usize = 0;
    while i < old.params.len()
        invariant
            i <= old.params.len(),
            all == param_keys(old.params@) + param_keys(new.params@),
            strs(ks@) == key_set(all.take(i as int)),
        decreases old.params.len() - i,
    {
        insert_key(&mut ks, old.params[i].0.as_str());
        assert(all.take(i + 1).drop_last() =~= all.take(i as int));
        i = i + 1;
    }
    let mut j: usize = 0;
    while j < new.params.len()
        invariant
            j <= new.params.len(),
            all == param_keys(old.params@) + param_keys(new.params@),
            strs(ks@) == key_set(all.take(old.params.len() + j)),
        decreases new.params.len() - j,
    {
        insert_key(&mut ks, new.params[j].0.as_str());
        assert(all.take(old.params.len() + j + 1).drop_last() =~= all.take(old.params.len() + j));
        assert(all[old.params.len() + j] == new.params@[j as int].0@);
        j = j + 1;
    }
    assert(all.take(old.params.len() + j) =~= all);
    ks
}

fn diff_params(old: &Effect, new: &Effect) -> (out: Vec<ParamChange>)
    ensures
        param_views(out@) == param_changes_of(*old, *new),
{
    let keys = param_key_set(old, new);
    let ghost ks = strs(keys@);
    let ghost f = |k: Seq<char>| param_change_for(k, *old, *new);
    let mut out: Vec<ParamChange> = Vec::new();
    let mut i: usize = 0;
    while i < keys.len()
        invariant
            i <= keys.len(),
            ks == strs(keys@),
            f == (|k: Seq<char>| param_change_for(k, *old, *new)),
            param_views(out@) == concat_map(ks.take(i as int), f),
        decreases keys.len() - i,
    {
        let key = &keys[i];
        proof {
            lemma_concat_map_step(ks, f, i as int);
            assert(ks[i as int] == key@);
        }
        let a = find_param_exec(&old.params, key);
        let b = find_param_exec(&new.params, key);
        let same = match (a, b) {
            (None, None) => true,
            (Some(x), Some(y)) => *x == *y,
            _ => false,
        };
        if !same {
            let from = match a {
                Some(x) => x.clone(),
                None => String::new(),
            };
            let to = match b {
                Some(y) => y.clone(),
                None => String::new(),
            };
            out.push(ParamChange { name: key.clone(), from, to });
        }
        assert(param_views(out@) =~= concat_map(ks.take(i + 1), f));
        i = i + 1;
    }
    proof {
        lemma_concat_map_all(ks, f);
    }
    out
}

// ---------------------------------------------------------------------------
// Effects on one clip, grouped by name and paired by their order within each
// name, since the same effect can appear twice.

pub open spec fn effect_names(es: Seq<Effect>) -> Seq<Seq<char>> {
    es.map_values(|e: Effect| e.name@)
}

/// The effects named `name`, in clip order.
pub open spec fn named(es: Seq<Effect>, name: Seq<char>) -> Seq<Effect>
    decreases es.len(),
{
    if es.len() == 0 {
        Seq::empty()
    } else if es.last().name@ == name {
        named(es.drop_last(), name).push(es.last())
    } else {
        named(es.drop_last(), name)
    }
}

pub open spec fn effect_pair_changes(name: Seq<char>, old: Effect, new: Effect) -> Seq<ClipChangeKindView> {
    let toggled = if old.disabled != new.disabled {
        if new.disabled {
            seq![ClipChangeKindView::EffectDisabled { effect: name }]
        } else {
            seq![ClipChangeKindView::EffectEnabled { effect: name }]
        }
    } else {
        Seq::empty()
    };
    let params = param_changes_of(old, new);
    let changed = if params.len() > 0 {
        seq![ClipChangeKindView::EffectChanged { effect: name, params }]
    } else {
        Seq::empty()
    };
    toggled + changed
}

/// Changes from the first `k` pairs of same-named effects.
pub open spec fn effect_zip(name: Seq<char>, olds: Seq<Effect>, news: Seq<Effect>, k: int) -> Seq<ClipChangeKindView>
    decreases k,
{
    if k <= 0 {
        Seq::empty()
    } else {
        effect_zip(name, olds, news, k - 1) + effect_pair_changes(name, olds[k - 1], news[k - 1])
    }
}

/// `count` copies of `kind`, none when `count` is not positive.
pub open spec fn repeat_kind(kind: ClipChangeKindView, count: int) -> Seq<ClipChangeKindView>
    decreases count,
{
    if count <= 0 {
        Seq::empty()
    } else {
        repeat_kind(kind, count - 1).push(kind)
    }
}

pub open spec fn name_changes(name: Seq<char>, old: Seq<Effect>, new: Seq<Effect>) -> Seq<ClipChangeKindView> {
    let (os, ns) = (named(old, name), named(new, name));
    let common = if os.len() < ns.len() { os.len() } else { ns.len() };
    effect_zip(name, os, ns, common as int)
        + repeat_kind(ClipChangeKindView::EffectRemoved { effect: name }, os.len() - ns.len())
        + repeat_kind(ClipChangeKindView::EffectAdded { effect: name }, ns.len() - os.len())
}

pub open spec fn effect_changes_of(old: TimelineClip, new: TimelineClip) -> Seq<ClipChangeKindView> {
    concat_map(
        key_set(effect_names(old.effects@) + effect_names(new.effects@)),
        |name: Seq<char>| name_changes(name, old.effects@, new.effects@),
    )
}

/// The indices of the effects named `name`.
fn named_indices(es: &Vec<Effect>, name: &String) -> (ix: Vec<usize>)
    ensures
        forall|k: int| 0 <= k < ix@.len() ==> ix@[k] < es@.len(),
        ix@.map_values(|k: usize| es@[k as int]) == named(es@, name@),
{
    let mut ix: Vec<usize> = Vec::new();
    let mut i: usize = 0;
    while i < es.len()
        invariant
            i <= es.len(),
            forall|k: int| 0 <= k < ix@.len() ==> ix@[k] < i,
            ix@.map_values(|k: usize| es@[k as int]) == named(es@.take(i as int), name@),
        decreases es.len() - i,
    {
        assert(es@.take(i + 1).drop_last() =~= es@.take(i as int));
        let ghost prev = ix@;
        if es[i].name == *name {
            ix.push(i);
            assert(ix@.map_values(|k: usize| es@[k as int]) =~= prev.map_values(|k: usize| es@[k as int]).push(
                es@[i as int],
            ));
        }
        i = i + 1;
    }
    assert(es@.take(i as int) =~= es@);
    ix
}

fn effect_key_set(old: &TimelineClip, new: &TimelineClip) -> (ks: Vec<String>)
    ensures
        strs(ks@) == key_set(effect_names(old.effects@) + effect_names(new.effects@)),
{
    let ghost all = effect_names(old.effects@) + effect_names(new.effects@);
    let mut ks: Vec<String> = Vec::new();
    let mut i: usize = 0;
    while i < old.effects.len()
        invariant
            i <= old.effects.len(),
            all == effect_names(old.effects@) + effect_names(new.effects@),
            strs(ks@) == key_set(all.take(i as int)),
        decreases old.effects.len() - i,
    {
        insert_key(&mut ks, old.effects[i].name.as_str());
        assert(all.take(i + 1).drop_last() =~= all.take(i as int));
        i = i + 1;
    }
    let mut j: usize = 0;
    while j < new.effects.len()
        invariant
            j <= new.effects.len(),
            all == effect_names(old.effects@) + effect_names(new.effects@),
            strs(ks@) == key_set(all.take(old.effects.len() + j)),
        decreases new.effects.len() - j,
    {
        insert_key(&mut ks, new.effects[j].name.as_str());
        assert(all.take(old.effects.len() + j + 1).drop_last() =~= all.take(old.effects.len() + j));
        assert(all[old.effects.len() + j] == new.effects@[j as int].name@);
        j = j + 1;
    }
    assert(all.take(old.effects.len() + j) =~= all);
    ks
}


pub open spec fn kind_views(v: Seq<ClipChangeKind>) -> Seq<ClipChangeKindView> {
    v.map_values(|k: ClipChangeKind| k@)
}

/// Appends the changes for the effects named `name`.
fn diff_named_effects(before: &TimelineClip, after: &TimelineClip, name: &String, out: &mut Vec<ClipChangeKind>)
    ensures
        kind_views(final(out)@) == kind_views(old(out)@) + name_changes(name@, before.effects@, after.effects@),
{
    let ghost base = kind_views(out@);
    let os = named_indices(&before.effects, name);
    let ns = named_indices(&after.effects, name);
    let ghost oe = named(before.effects@, name@);
    let ghost ne = named(after.effects@, name@);
    assert(os@.len() == oe.len());
    assert(ns@.len() == ne.len());
    let common = if os.len() < ns.len() { os.len() } else { ns.len() };
    let mut k: usize = 0;
    while k < common
        invariant
            k <= common,
            common <= os.len(),
            common <= ns.len(),
            forall|x: int| 0 <= x < os@.len() ==> os@[x] < before.effects@.len(),
            forall|x: int| 0 <= x < ns@.len() ==> ns@[x] < after.effects@.len(),
            os@.map_values(|x: usize| before.effects@[x as int]) == oe,
            ns@.map_values(|x: usize| after.effects@[x as int]) == ne,
            kind_views(out@) == base + effect_zip(name@, oe, ne, k as int),
        decreases common - k,
    {
        let o = &before.effects[os[k]];
        let n = &after.effects[ns[k]];
        assert(*o == oe[k as int]);
        assert(*n == ne[k as int]);
        let ghost prev = kind_views(out@);
        if o.disabled != n.disabled {
            if n.disabled {
                out.push(ClipChangeKind::EffectDisabled { effect: name.clone() });
            } else {
                out.push(ClipChangeKind::EffectEnabled { effect: name.clone() });
            }
        }
        let params = diff_params(o, n);
        if params.len() > 0 {
            out.push(ClipChangeKind::EffectChanged { effect: name.clone(), params });
        }
        assert(kind_views(out@) =~= prev + effect_pair_changes(name@, oe[k as int], ne[k as int]));
        assert(kind_views(out@) =~= base + effect_zip(name@, oe, ne, k + 1));
        k = k + 1;
    }
    let ghost mid = kind_views(out@);
    let removed: usize = if os.len() > ns.len() { os.len() - ns.len() } else { 0 };
    let mut r: usize = 0;
    while r < removed
        invariant
            r <= removed,
            kind_views(out@) == mid + repeat_kind(ClipChangeKindView::EffectRemoved { effect: name@ }, r as int),
        decreases removed - r,
    {
        let ghost prev = kind_views(out@);
        out.push(ClipChangeKind::EffectRemoved { effect: name.clone() });
        assert(kind_views(out@) =~= prev.push(ClipChangeKindView::EffectRemoved { effect: name@ }));
        assert(repeat_kind(ClipChangeKindView::EffectRemoved { effect: name@ }, r + 1) == repeat_kind(
            ClipChangeKindView::EffectRemoved { effect: name@ },
            r as int,
        ).push(ClipChangeKindView::EffectRemoved { effect: name@ }));
        assert(kind_views(out@) =~= mid + repeat_kind(
            ClipChangeKindView::EffectRemoved { effect: name@ },
            r + 1,
        ));
        r = r + 1;
    }
    assert(repeat_kind(ClipChangeKindView::EffectRemoved { effect: name@ }, removed as int) == repeat_kind(
        ClipChangeKindView::EffectRemoved { effect: name@ },
        os.len() - ns.len(),
    ));
    let ghost mid2 = kind_views(out@);
    let added: usize = if ns.len() > os.len() { ns.len() - os.len() } else { 0 };
    let mut a: usize = 0;
    while a < added
        invariant
            a <= added,
            kind_views(out@) == mid2 + repeat_kind(ClipChangeKindView::EffectAdded { effect: name@ }, a as int),
        decreases added - a,
    {
        let ghost prev = kind_views(out@);
        out.push(ClipChangeKind::EffectAdded { effect: name.clone() });
        assert(kind_views(out@) =~= prev.push(ClipChangeKindView::EffectAdded { effect: name@ }));
        assert(repeat_kind(ClipChangeKindView::EffectAdded { effect: name@ }, a + 1) == repeat_kind(
            ClipChangeKindView::EffectAdded { effect: name@ },
            a as int,
        ).push(ClipChangeKindView::EffectAdded { effect: name@ }));
        assert(kind_views(out@) =~= mid2 + repeat_kind(
            ClipChangeKindView::EffectAdded { effect: name@ },
            a + 1,
        ));
        a = a + 1;
    }
    assert(repeat_kind(ClipChangeKindView::EffectAdded { effect: name@ }, added as int) == repeat_kind(
        ClipChangeKindView::EffectAdded { effect: name@ },
        ns.len() - os.len(),
    ));
    assert(kind_views(out@) =~= base + name_changes(name@, before.effects@, after.effects@));
}

fn diff_effects(old: &TimelineClip, new: &TimelineClip) -> (out: Vec<ClipChangeKind>)
    ensures
        kind_views(out@) == effect_changes_of(*old, *new),
{
    let names = effect_key_set(old, new);
    let ghost ks = strs(names@);
    let ghost f = |name: Seq<char>| name_changes(name, old.effects@, new.effects@);
    let mut out: Vec<ClipChangeKind> = Vec::new();
    let mut i: usize = 0;
    while i < names.len()
        invariant
            i <= names.len(),
            ks == strs(names@),
            f == (|name: Seq<char>| name_changes(name, old.effects@, new.effects@)),
            kind_views(out@) == concat_map(ks.take(i as int), f),
        decreases names.len() - i,
    {
        proof {
            lemma_concat_map_step(ks, f, i as int);
            assert(ks[i as int] == names@[i as int]@);
        }
        diff_named_effects(old, new, &names[i], &mut out);
        i = i + 1;
    }
    proof {
        lemma_concat_map_all(ks, f);
    }
    out
}

// ---------------------------------------------------------------------------
// Pairing clips on one track between two saves.
//
// Only clips playing the same bin clip can pair. Exact position matches are
// taken first, in old-clip order, each by the first unused new clip; the
// leftovers then take the nearest unused new clip of the same source, the
// first one on a tie; new clips nobody took are additions.

#[derive(Clone, Copy)]
pub enum ClipPairing {
    Both(usize, usize),
    Removed(usize),
    Added(usize),
}

pub open spec fn distance(a: i64, b: i64) -> int {
    if b >= a {
        b - a
    } else {
        a - b
    }
}

/// The first unused new clip at index `j` or later playing the same source
/// at the same position as old clip `i`.
pub open spec fn exact_from(old: Seq<TimelineClip>, new: Seq<TimelineClip>, used: Set<int>, i: int, j: int) -> Option<int>
    decreases new.len() - j,
{
    if j < 0 || j >= new.len() {
        None
    } else if !used.contains(j) && new[j].bin_id@ == old[i].bin_id@ && new[j].position == old[i].position {
        Some(j)
    } else {
        exact_from(old, new, used, i, j + 1)
    }
}

/// Among the unused new clips before index `j` playing the same source as old
/// clip `i`, the first at the least distance from it.
pub open spec fn nearest_before(old: Seq<TimelineClip>, new: Seq<TimelineClip>, used: Set<int>, i: int, j: int) -> Option<int>
    decreases j,
{
    if j <= 0 {
        None
    } else {
        let best = nearest_before(old, new, used, i, j - 1);
        let k = j - 1;
        if k < new.len() && !used.contains(k) && new[k].bin_id@ == old[i].bin_id@ && (best is None
            || distance(old[i].position, new[k].position) < distance(old[i].position, new[best->0].position)) {
            Some(k)
        } else {
            best
        }
    }
}

pub struct PairScan {
    pub pairs: Seq<ClipPairing>,
    pub used: Set<int>,
    pub matched: Set<int>,
}

/// The exact-position pass over the first `n` old clips.
pub open spec fn exact_pass(old: Seq<TimelineClip>, new: Seq<TimelineClip>, n: int) -> PairScan
    decreases n,
{
    if n <= 0 {
        PairScan { pairs: Seq::empty(), used: Set::empty(), matched: Set::empty() }
    } else {
        let s = exact_pass(old, new, n - 1);
        match exact_from(old, new, s.used, n - 1, 0) {
            Some(j) => PairScan {
                pairs: s.pairs.push(ClipPairing::Both((n - 1) as usize, j as usize)),
                used: s.used.insert(j),
                matched: s.matched.insert(n - 1),
            },
            None => s,
        }
    }
}

/// The nearest-position pass over the first `n` old clips, after the exact pass.
pub open spec fn near_pass(old: Seq<TimelineClip>, new: Seq<TimelineClip>, n: int) -> PairScan
    decreases n,
{
    if n <= 0 {
        exact_pass(old, new, old.len() as int)
    } else {
        let s = near_pass(old, new, n - 1);
        let i = n - 1;
        if s.matched.contains(i) {
            s
        } else {
            match nearest_before(old, new, s.used, i, new.len() as int) {
                Some(j) => PairScan {
                    pairs: s.pairs.push(ClipPairing::Both(i as usize, j as usize)),
                    used: s.used.insert(j),
                    matched: s.matched.insert(i),
                },
                None => PairScan { pairs: s.pairs.push(ClipPairing::Removed(i as usize)), ..s },
            }
        }
    }
}

/// The first `n` new clips that no old clip took.
pub open spec fn clips_added(used: Set<int>, n: int) -> Seq<ClipPairing>
    decreases n,
{
    if n <= 0 {
        Seq::empty()
    } else if used.contains(n - 1) {
        clips_added(used, n - 1)
    } else {
        clips_added(used, n - 1).push(ClipPairing::Added((n - 1) as usize))
    }
}

pub open spec fn pair_clips(old: Seq<TimelineClip>, new: Seq<TimelineClip>) -> Seq<ClipPairing> {
    let s = near_pass(old, new, old.len() as int);
    s.pairs + clips_added(s.used, new.len() as int)
}

pub open spec fn pairing_in_range(p: ClipPairing, old_len: int, new_len: int) -> bool {
    match p {
        ClipPairing::Both(i, j) => i < old_len && j < new_len,
        ClipPairing::Removed(i) => i < old_len,
        ClipPairing::Added(j) => j < new_len,
    }
}

proof fn lemma_exact_from_bounds(old: Seq<TimelineClip>, new: Seq<TimelineClip>, used: Set<int>, i: int, j: int)
    ensures
        exact_from(old, new, used, i, j) matches Some(k) ==> j <= k < new.len() && !used.contains(k),
    decreases new.len() - j,
{
    if 0 <= j < new.len() && !(!used.contains(j) && new[j].bin_id@ == old[i].bin_id@ && new[j].position
        == old[i].position) {
        lemma_exact_from_bounds(old, new, used, i, j + 1);
    }
}

proof fn lemma_nearest_before_bounds(old: Seq<TimelineClip>, new: Seq<TimelineClip>, used: Set<int>, i: int, j: int)
    ensures
        nearest_before(old, new, used, i, j) matches Some(k) ==> 0 <= k < j && k < new.len() && !used.contains(k),
    decreases j,
{
    if j > 0 {
        lemma_nearest_before_bounds(old, new, used, i, j - 1);
    }
}

fn distance_exec(a: i64, b: i64) -> (d: u64)
    ensures
        d == distance(a, b),
{
    if b >= a {
        ((b as i128) - (a as i128)) as u64
    } else {
        ((a as i128) - (b as i128)) as u64
    }
}

fn flags(n: usize) -> (v: Vec<bool>)
    ensures
        v.len() == n,
        flags_match(v@, Set::empty()),
{
    let mut v: Vec<bool> = Vec::new();
    while v.len() < n
        invariant
            v.len() <= n,
            forall|x: int| 0 <= x < v.len() ==> !v@[x],
        decreases n - v.len(),
    {
        v.push(false);
    }
    v
}

fn first_exact(old: &Vec<TimelineClip>, new: &Vec<TimelineClip>, used: &Vec<bool>, i: usize, Ghost(set): Ghost<Set<int>>) -> (r: Option<usize>)
    requires
        i < old.len(),
        used.len() == new.len(),
        flags_match(used@, set),
    ensures
        r == (match exact_from(old@, new@, set, i as int, 0) {
            Some(j) => Some(j as usize),
            None => None,
        }),
{
    let mut j: usize = 0;
    while j < new.len()
        invariant
            i < old.len(),
            used.len() == new.len(),
            flags_match(used@, set),
            j <= new.len(),
            exact_from(old@, new@, set, i as int, 0) == exact_from(old@, new@, set, i as int, j as int),
        decreases new.len() - j,
    {
        if !used[j] && new[j].bin_id == old[i].bin_id && new[j].position == old[i].position {
            return Some(j);
        }
        j = j + 1;
    }
    None
}

fn match_clips(old: &Vec<TimelineClip>, new: &Vec<TimelineClip>) -> (out: Vec<ClipPairing>)
    ensures
        out@ == pair_clips(old@, new@),
        forall|k: int| 0 <= k < out@.len() ==> pairing_in_range(#[trigger] out@[k], old@.len() as int, new@.len() as int),
{
    let mut out: Vec<ClipPairing> = Vec::new();
    let mut used = flags(new.len());
    let mut matched = flags(old.len());
    let ghost mut used_set: Set<int> = Set::empty();
    let ghost mut matched_set: Set<int> = Set::empty();
    let mut i: usize = 0;
    while i < old.len()
        invariant
            i <= old.len(),
            used.len() == new.len(),
            matched.len() == old.len(),
            flags_match(used@, used_set),
            flags_match(matched@, matched_set),
            exact_pass(old@, new@, i as int) == (PairScan { pairs: out@, used: used_set, matched: matched_set }),
            forall|k: int| 0 <= k < out@.len() ==> pairing_in_range(#[trigger] out@[k], old@.len() as int, new@.len() as int),
        decreases old.len() - i,
    {
        let found = first_exact(old, new, &used, i, Ghost(used_set));
        proof {
            lemma_exact_from_bounds(old@, new@, used_set, i as int, 0);
        }
        match found {
            Some(j) => {
                assert(exact_from(old@, new@, used_set, i as int, 0) == Some(j as int));
                used.set(j, true);
                matched.set(i, true);
                out.push(ClipPairing::Both(i, j));
                proof {
                    used_set = used_set.insert(j as int);
                    matched_set = matched_set.insert(i as int);
                }
            },
            None => {},
        }
        i = i + 1;
    }
    assert(near_pass(old@, new@, 0) == (PairScan { pairs: out@, used: used_set, matched: matched_set }));
    let mut i: usize = 0;
    while i < old.len()
        invariant
            i <= old.len(),
            used.len() == new.len(),
            matched.len() == old.len(),
            flags_match(used@, used_set),
            flags_match(matched@, matched_set),
            near_pass(old@, new@, i as int) == (PairScan { pairs: out@, used: used_set, matched: matched_set }),
            forall|k: int| 0 <= k < out@.len() ==> pairing_in_range(#[trigger] out@[k], old@.len() as int, new@.len() as int),
        decreases old.len() - i,
    {
        assert(matched@[i as int] == matched_set.contains(i as int));
        if !matched[i] {
            let mut best: Option<usize> = None;
            let mut best_distance: u64 = 0;
            let mut j: usize = 0;
            while j < new.len()
                invariant
                    i < old.len(),
                    used.len() == new.len(),
                    flags_match(used@, used_set),
                    j <= new.len(),
                    best == (match nearest_before(old@, new@, used_set, i as int, j as int) {
                        Some(k) => Some(k as usize),
                        None => None,
                    }),
                    best matches Some(k) ==> k < new.len() && best_distance == distance(
                        old@[i as int].position,
                        new@[k as int].position,
                    ),
                decreases new.len() - j,
            {
                proof {
                    lemma_nearest_before_bounds(old@, new@, used_set, i as int, j as int);
                }
                if !used[j] && new[j].bin_id == old[i].bin_id {
                    let d = distance_exec(old[i].position, new[j].position);
                    if best.is_none() || d < best_distance {
                        best = Some(j);
                        best_distance = d;
                    }
                }
                j = j + 1;
            }
            proof {
                lemma_nearest_before_bounds(old@, new@, used_set, i as int, new.len() as int);
            }
            match best {
                Some(j) => {
                    used.set(j, true);
                    matched.set(i, true);
                    out.push(ClipPairing::Both(i, j));
                    proof {
                        used_set = used_set.insert(j as int);
                        matched_set = matched_set.insert(i as int);
                    }
                },
                None => {
                    out.push(ClipPairing::Removed(i));
                },
            }
        }
        i = i + 1;
    }
    let ghost first = out@;
    let mut j: usize = 0;
    while j < new.len()
        invariant
            j <= new.len(),
            used.len() == new.len(),
            flags_match(used@, used_set),
            first == near_pass(old@, new@, old@.len() as int).pairs,
            used_set == near_pass(old@, new@, old@.len() as int).used,
            out@ == first + clips_added(used_set, j as int),
            forall|k: int| 0 <= k < out@.len() ==> pairing_in_range(#[trigger] out@[k], old@.len() as int, new@.len() as int),
        decreases new.len() - j,
    {
        assert(used@[j as int] == used_set.contains(j as int));
        if !used[j] {
            out.push(ClipPairing::Added(j));
        }
        assert(out@ =~= first + clips_added(used_set, j + 1));
        j = j + 1;
    }
    out
}

// ---------------------------------------------------------------------------
// Clips, per track present in both saves.

/// What to call the bin clip a timeline clip plays, in project `p`.
pub open spec fn clip_name(p: Project, c: TimelineClip) -> Seq<char> {
    match find_bin(p.bin_clips@, c.bin_id@) {
        Some(b) => clip_label(b),
        None => "clip "@ + c.bin_id@,
    }
}

pub open spec fn span(c: TimelineClip) -> Frames {
    (c.source_out - c.source_in + 1) as Frames
}

pub open spec fn with_names(track: Seq<char>, clip: Seq<char>, kinds: Seq<ClipChangeKindView>) -> Seq<ClipChangeView> {
    kinds.map_values(|k: ClipChangeKindView| ClipChangeView { track, clip, kind: k })
}

pub open spec fn pairing_changes(
    pr: ClipPairing,
    track: Seq<char>,
    old: Seq<TimelineClip>,
    new: Seq<TimelineClip>,
    before: Project,
    after: Project,
) -> Seq<ClipChangeView> {
    match pr {
        ClipPairing::Both(i, j) => {
            let (o, n) = (old[i as int], new[j as int]);
            let name = clip_name(after, n);
            let moved = if o.position != n.position {
                seq![ClipChangeView {
                    track,
                    clip: name,
                    kind: ClipChangeKindView::Moved { from: o.position, to: n.position },
                }]
            } else {
                Seq::empty()
            };
            let trimmed = if o.source_in != n.source_in || o.source_out != n.source_out {
                seq![ClipChangeView {
                    track,
                    clip: name,
                    kind: ClipChangeKindView::Trimmed {
                        from_duration: span(o),
                        to_duration: span(n),
                        position: n.position,
                    },
                }]
            } else {
                Seq::empty()
            };
            moved + trimmed + with_names(track, name, effect_changes_of(o, n))
        },
        ClipPairing::Removed(i) => seq![ClipChangeView {
            track,
            clip: clip_name(before, old[i as int]),
            kind: ClipChangeKindView::Removed { position: old[i as int].position },
        }],
        ClipPairing::Added(j) => seq![ClipChangeView {
            track,
            clip: clip_name(after, new[j as int]),
            kind: ClipChangeKindView::Added { position: new[j as int].position, duration: span(new[j as int]) },
        }],
    }
}

pub open spec fn track_clip_changes(name: Seq<char>, ot: Track, nt: Track, before: Project, after: Project) -> Seq<
    ClipChangeView,
> {
    concat_map(
        pair_clips(ot.clips@, nt.clips@),
        |pr: ClipPairing| pairing_changes(pr, name, ot.clips@, nt.clips@, before, after),
    )
}

pub open spec fn clip_changes_for(name: Seq<char>, before: Project, after: Project) -> Seq<ClipChangeView> {
    match last_track(all_tracks(before), name) {
        Some(ot) => track_clip_changes(name, ot, last_track(all_tracks(after), name)->0, before, after),
        None => Seq::empty(),
    }
}

pub open spec fn clip_changes_of(before: Project, after: Project) -> Seq<ClipChangeView> {
    concat_map(key_set(track_names(all_tracks(after))), |name: Seq<char>| clip_changes_for(name, before, after))
}

/// Every clip's length can be computed without overflow.
pub open spec fn spans_fit(p: Project) -> bool {
    forall|t: int, c: int|
        0 <= t < all_tracks(p).len() && 0 <= c < all_tracks(p)[t].clips@.len() ==> duration_fits(
            #[trigger] all_tracks(p)[t].clips@[c],
        )
}

/// Whether every clip's length in `p` can be computed without overflow,
/// which `diff` asks of both projects.
pub fn spans_fit_in(p: &Project) -> (r: bool)
    ensures
        r == spans_fit(*p),
{
    let ix = index_tracks(p);
    let ghost ts = all_tracks(*p);
    let mut k: usize = 0;
    while k < ix.locs.len()
        invariant
            index_of(*p, ix),
            ts == all_tracks(*p),
            k <= ix.locs.len(),
            forall|t: int, c: int|
                0 <= t < k && 0 <= c < ts[t].clips@.len() ==> duration_fits(#[trigger] ts[t].clips@[c]),
        decreases ix.locs.len() - k,
    {
        let (si, ti) = ix.locs[k];
        assert(valid_loc(*p, ix.locs@[k as int]));
        let track = &p.sequences[si].tracks[ti];
        assert(ix.locs@.map_values(|l: (usize, usize)| track_at(*p, l))[k as int] == track_at(*p, ix.locs@[k as int]));
        assert(ts[k as int] == track_at(*p, ix.locs@[k as int]));
        let mut c: usize = 0;
        while c < track.clips.len()
            invariant
                c <= track.clips.len(),
                k < ts.len(),
                ts == all_tracks(*p),
                ts[k as int].clips@ == track.clips@,
                forall|j: int| 0 <= j < c ==> duration_fits(#[trigger] track.clips@[j]),
            decreases track.clips.len() - c,
        {
            let clip = &track.clips[c];
            let fits = match clip.source_out.checked_sub(clip.source_in) {
                Some(d) => d.checked_add(1).is_some(),
                None => false,
            };
            if !fits {
                assert(!duration_fits(ts[k as int].clips@[c as int]));
                assert(!duration_fits(all_tracks(*p)[k as int].clips@[c as int]));
                return false;
            }
            c = c + 1;
        }
        assert forall|t: int, j: int|
            0 <= t < k + 1 && 0 <= j < ts[t].clips@.len() implies duration_fits(#[trigger] ts[t].clips@[j]) by {
            if t == k {
                assert(ts[t].clips@[j] == track.clips@[j]);
            }
        }
        k = k + 1;
    }
    true
}

fn clip_name_exec(p: &Project, c: &TimelineClip) -> (r: String)
    ensures
        r@ == clip_name(*p, *c),
{
    match find_bin_exec(&p.bin_clips, &c.bin_id) {
        Some(b) => b.label(),
        None => {
            let mut r = owned("clip ");
            r.append(c.bin_id.as_str());
            r
        },
    }
}

spec fn clip_views(v: Seq<ClipChange>) -> Seq<ClipChangeView> {
    v.map_values(|c: ClipChange| c@)
}

fn push_pairing(
    pr: ClipPairing,
    track: &String,
    ot: &Track,
    nt: &Track,
    before: &Project,
    after: &Project,
    out: &mut Vec<ClipChange>,
)
    requires
        pairing_in_range(pr, ot.clips@.len() as int, nt.clips@.len() as int),
        forall|c: int| 0 <= c < ot.clips@.len() ==> duration_fits(#[trigger] ot.clips@[c]),
        forall|c: int| 0 <= c < nt.clips@.len() ==> duration_fits(#[trigger] nt.clips@[c]),
    ensures
        clip_views(final(out)@) == clip_views(old(out)@) + pairing_changes(
            pr,
            track@,
            ot.clips@,
            nt.clips@,
            *before,
            *after,
        ),
{
    let ghost base = clip_views(out@);
    match pr {
        ClipPairing::Both(i, j) => {
            let o = &ot.clips[i];
            let n = &nt.clips[j];
            assert(duration_fits(ot.clips@[i as int]));
            assert(duration_fits(nt.clips@[j as int]));
            let name = clip_name_exec(after, n);
            if o.position != n.position {
                out.push(ClipChange {
                    track: track.clone(),
                    clip: name.clone(),
                    kind: ClipChangeKind::Moved { from: o.position, to: n.position },
                });
            }
            if o.source_in != n.source_in || o.source_out != n.source_out {
                out.push(ClipChange {
                    track: track.clone(),
                    clip: name.clone(),
                    kind: ClipChangeKind::Trimmed {
                        from_duration: o.duration(),
                        to_duration: n.duration(),
                        position: n.position,
                    },
                });
            }
            let ghost mid = clip_views(out@);
            let kinds = diff_effects(o, n);
            let mut k: usize = 0;
            while k < kinds.len()
                invariant
                    k <= kinds.len(),
                    clip_views(out@) == mid + with_names(track@, name@, kind_views(kinds@).take(k as int)),
                decreases kinds.len() - k,
            {
                let ghost prev = clip_views(out@);
                out.push(ClipChange { track: track.clone(), clip: name.clone(), kind: copy_kind(&kinds[k]) });
                assert(with_names(track@, name@, kind_views(kinds@).take(k + 1)) =~= with_names(
                    track@,
                    name@,
                    kind_views(kinds@).take(k as int),
                ).push(ClipChangeView { track: track@, clip: name@, kind: kinds@[k as int]@ }));
                assert(clip_views(out@) =~= prev.push(
                    ClipChangeView { track: track@, clip: name@, kind: kinds@[k as int]@ },
                ));
                k = k + 1;
            }
            assert(kind_views(kinds@).take(k as int) =~= kind_views(kinds@));
            assert(clip_views(out@) =~= base + pairing_changes(pr, track@, ot.clips@, nt.clips@, *before, *after));
        },
        ClipPairing::Removed(i) => {
            let o = &ot.clips[i];
            out.push(ClipChange {
                track: track.clone(),
                clip: clip_name_exec(before, o),
                kind: ClipChangeKind::Removed { position: o.position },
            });
            assert(clip_views(out@) =~= base + pairing_changes(pr, track@, ot.clips@, nt.clips@, *before, *after));
        },
        ClipPairing::Added(j) => {
            let n = &nt.clips[j];
            assert(duration_fits(nt.clips@[j as int]));
            out.push(ClipChange {
                track: track.clone(),
                clip: clip_name_exec(after, n),
                kind: ClipChangeKind::Added { position: n.position, duration: n.duration() },
            });
            assert(clip_views(out@) =~= base + pairing_changes(pr, track@, ot.clips@, nt.clips@, *before, *after));
        },
    }
}

fn copy_params(ps: &Vec<ParamChange>) -> (r: Vec<ParamChange>)
    ensures
        param_views(r@) == param_views(ps@),
{
    let mut r: Vec<ParamChange> = Vec::new();
    let mut i: usize = 0;
    while i < ps.len()
        invariant
            i <= ps.len(),
            r@.len() == i,
            param_views(r@) == param_views(ps@.take(i as int)),
        decreases ps.len() - i,
    {
        let ghost prev = r@;
        r.push(ParamChange { name: ps[i].name.clone(), from: ps[i].from.clone(), to: ps[i].to.clone() });
        assert(r@ == prev.push(r@[i as int]));
        assert(r@[i as int]@ == ps@[i as int]@);
        assert(param_views(r@) =~= param_views(prev).push(ps@[i as int]@));
        assert(param_views(ps@.take(i + 1)) =~= param_views(ps@.take(i as int)).push(ps@[i as int]@));
        i = i + 1;
    }
    assert(ps@.take(i as int) =~= ps@);
    r
}

fn copy_kind(k: &ClipChangeKind) -> (r: ClipChangeKind)
    ensures
        r@ == k@,
{
    match k {
        ClipChangeKind::Added { position, duration } => ClipChangeKind::Added { position: *position, duration: *duration },
        ClipChangeKind::Removed { position } => ClipChangeKind::Removed { position: *position },
        ClipChangeKind::Moved { from, to } => ClipChangeKind::Moved { from: *from, to: *to },
        ClipChangeKind::Trimmed { from_duration, to_duration, position } => ClipChangeKind::Trimmed {
            from_duration: *from_duration,
            to_duration: *to_duration,
            position: *position,
        },
        ClipChangeKind::EffectAdded { effect } => ClipChangeKind::EffectAdded { effect: effect.clone() },
        ClipChangeKind::EffectRemoved { effect } => ClipChangeKind::EffectRemoved { effect: effect.clone() },
        ClipChangeKind::EffectChanged { effect, params } => ClipChangeKind::EffectChanged {
            effect: effect.clone(),
            params: copy_params(params),
        },
        ClipChangeKind::EffectDisabled { effect } => ClipChangeKind::EffectDisabled { effect: effect.clone() },
        ClipChangeKind::EffectEnabled { effect } => ClipChangeKind::EffectEnabled { effect: effect.clone() },
    }
}

fn diff_track_clips(track: &String, ot: &Track, nt: &Track, before: &Project, after: &Project, out: &mut Vec<ClipChange>)
    requires
        forall|c: int| 0 <= c < ot.clips@.len() ==> duration_fits(#[trigger] ot.clips@[c]),
        forall|c: int| 0 <= c < nt.clips@.len() ==> duration_fits(#[trigger] nt.clips@[c]),
    ensures
        clip_views(final(out)@) == clip_views(old(out)@) + track_clip_changes(track@, *ot, *nt, *before, *after),
{
    let ghost base = clip_views(out@);
    let pairs = match_clips(&ot.clips, &nt.clips);
    let ghost f = |pr: ClipPairing| pairing_changes(pr, track@, ot.clips@, nt.clips@, *before, *after);
    let mut k: usize = 0;
    while k < pairs.len()
        invariant
            k <= pairs.len(),
            pairs@ == pair_clips(ot.clips@, nt.clips@),
            forall|x: int| 0 <= x < pairs@.len() ==> pairing_in_range(#[trigger] pairs@[x], ot.clips@.len() as int, nt.clips@.len() as int),
            forall|c: int| 0 <= c < ot.clips@.len() ==> duration_fits(#[trigger] ot.clips@[c]),
            forall|c: int| 0 <= c < nt.clips@.len() ==> duration_fits(#[trigger] nt.clips@[c]),
            f == (|pr: ClipPairing| pairing_changes(pr, track@, ot.clips@, nt.clips@, *before, *after)),
            clip_views(out@) == base + concat_map(pairs@.take(k as int), f),
        decreases pairs.len() - k,
    {
        proof {
            lemma_concat_map_step(pairs@, f, k as int);
        }
        let pr = pairs[k];
        assert(pairing_in_range(pairs@[k as int], ot.clips@.len() as int, nt.clips@.len() as int));
        push_pairing(pr, track, ot, nt, before, after, out);
        assert(clip_views(out@) =~= base + concat_map(pairs@.take(k + 1), f));
        k = k + 1;
    }
    proof {
        lemma_concat_map_all(pairs@, f);
    }
}

proof fn lemma_spans_fit_at(p: Project, ix: TrackIndex, l: (usize, usize))
    requires
        spans_fit(p),
        index_of(p, ix),
        valid_loc(p, l),
        exists|k: int| 0 <= k < ix.locs@.len() && ix.locs@[k] == l,
    ensures
        forall|c: int| 0 <= c < track_at(p, l).clips@.len() ==> duration_fits(#[trigger] track_at(p, l).clips@[c]),
{
    let k = choose|k: int| 0 <= k < ix.locs@.len() && ix.locs@[k] == l;
    assert(all_tracks(p)[k] == track_at(p, l));
    assert forall|c: int| 0 <= c < track_at(p, l).clips@.len() implies duration_fits(#[trigger] track_at(p, l).clips@[c]) by {
        assert(duration_fits(all_tracks(p)[k].clips@[c]));
    }
}

fn diff_clips(before: &Project, after: &Project, old: &TrackIndex, new: &TrackIndex) -> (out: Vec<ClipChange>)
    requires
        index_of(*before, *old),
        index_of(*after, *new),
        spans_fit(*before),
        spans_fit(*after),
    ensures
        clip_views(out@) == clip_changes_of(*before, *after),
{
    let ghost nt = all_tracks(*after);
    let ghost nk = strs(new.names@);
    let ghost f = |name: Seq<char>| clip_changes_for(name, *before, *after);
    proof {
        lemma_key_set_members(track_names(nt));
    }
    let mut out: Vec<ClipChange> = Vec::new();
    let mut i: usize = 0;
    while i < new.names.len()
        invariant
            index_of(*before, *old),
            index_of(*after, *new),
            spans_fit(*before),
            spans_fit(*after),
            nt == all_tracks(*after),
            nk == strs(new.names@),
            forall|x: Seq<char>| #[trigger] nk.contains(x) <==> track_names(nt).contains(x),
            f == (|name: Seq<char>| clip_changes_for(name, *before, *after)),
            i <= new.names.len(),
            clip_views(out@) == concat_map(nk.take(i as int), f),
        decreases new.names.len() - i,
    {
        let name = &new.names[i];
        proof {
            lemma_concat_map_step(nk, f, i as int);
            assert(nk[i as int] == name@);
            assert(nk.contains(name@));
            let k = choose|k: int| 0 <= k < track_names(nt).len() && track_names(nt)[k] == name@;
            lemma_last_track_exists(nt, name@, k);
        }
        let ghost prev = clip_views(out@);
        match last_track_loc(before, old, name) {
            Some(ol) => {
                let nl = last_track_loc(after, new, name).unwrap();
                proof {
                    lemma_spans_fit_at(*before, *old, ol);
                    lemma_spans_fit_at(*after, *new, nl);
                }
                diff_track_clips(
                    name,
                    &before.sequences[ol.0].tracks[ol.1],
                    &after.sequences[nl.0].tracks[nl.1],
                    before,
                    after,
                    &mut out,
                );
            },
            None => {},
        }
        assert(clip_views(out@) =~= concat_map(nk.take(i + 1), f));
        i = i + 1;
    }
    proof {
        lemma_concat_map_all(nk, f);
    }
    out
}

// ---------------------------------------------------------------------------
// The whole diff.

pub open spec fn diff_of(before: Project, after: Project, rate: spec_fn(u32, u32) -> Seq<char>) -> DiffView {
    DiffView {
        profile_changes: profile_changes_of(before, after, rate),
        bin_changes: bin_changes_of(before, after),
        track_changes: track_changes_of(before, after),
        clip_changes: clip_changes_of(before, after),
        marker_changes: marker_changes_of(before, after),
        guide_changes: guide_changes_of(before, after),
    }
}

/// Compares two projects. `rate_label` names a frame rate given as a
/// numerator and denominator, for reporting a changed rate.
pub fn diff<R: Fn(u32, u32) -> String>(before: &Project, after: &Project, rate_label: &R) -> (d: Diff)
    requires
        rate_labeller(*rate_label),
        spans_fit(*before),
        spans_fit(*after),
    ensures
        d@ == diff_of(*before, *after, |n: u32, d: u32| rate_text(*rate_label, n, d)),
{
    let old = index_tracks(before);
    let new = index_tracks(after);
    Diff {
        profile_changes: diff_profile(before, after, rate_label),
        bin_changes: diff_bin(before, after),
        track_changes: diff_tracks(before, after, &old, &new),
        clip_changes: diff_clips(before, after, &old, &new),
        marker_changes: diff_markers(before, after),
        guide_changes: diff_guides(before, after),
    }
}

// ---------------------------------------------------------------------------
// A project compared with itself.

proof fn lemma_find_bin_self(cs: Seq<BinClip>, i: int)
    requires
        bins_in_order(cs),
        0 <= i < cs.len(),
    ensures
        find_bin(cs, cs[i].id@) == Some(cs[i]),
    decreases cs.len(),
{
    if i > 0 {
        assert(text_lt_pair(cs, 0, i));
        lemma_text_lt_irreflexive(cs[i].id@);
        assert forall|a: int, b: int| 0 <= a < b < cs.drop_first().len() implies crate::text::text_lt(
            #[trigger] cs.drop_first()[a].id@,
            #[trigger] cs.drop_first()[b].id@,
        ) by {
            assert(text_lt_pair(cs, a + 1, b + 1));
        }
        lemma_find_bin_self(cs.drop_first(), i - 1);
    }
}

spec fn text_lt_pair(cs: Seq<BinClip>, a: int, b: int) -> bool {
    crate::text::text_lt(cs[a].id@, cs[b].id@)
}

proof fn lemma_bin_self(p: Project)
    requires
        p.well_formed(),
    ensures
        bin_changes_of(p, p).len() == 0,
{
    let cs = p.bin_clips@;
    assert forall|i: int| 0 <= i < cs.len() implies (|o: BinClip| bin_old_change(o, cs))(#[trigger] cs[i]).len()
        == 0 by {
        lemma_find_bin_self(cs, i);
    }
    assert forall|i: int| 0 <= i < cs.len() implies (|n: BinClip| bin_new_change(n, cs))(#[trigger] cs[i]).len()
        == 0 by {
        lemma_find_bin_self(cs, i);
    }
    lemma_concat_map_empty(cs, |o: BinClip| bin_old_change(o, cs));
    lemma_concat_map_empty(cs, |n: BinClip| bin_new_change(n, cs));
}

proof fn lemma_tracks_self(p: Project)
    ensures
        track_changes_of(p, p).len() == 0,
{
    let ts = all_tracks(p);
    let ks = key_set(track_names(ts));
    lemma_key_set_members(track_names(ts));
    assert forall|i: int| 0 <= i < ks.len() implies (|n: Seq<char>| track_old_change(n, ts, ts))(#[trigger] ks[i]).len()
        == 0 by {
        assert(ks.contains(ks[i]));
        let k = choose|k: int| 0 <= k < track_names(ts).len() && track_names(ts)[k] == ks[i];
        lemma_last_track_exists(ts, ks[i], k);
    }
    assert forall|i: int| 0 <= i < ks.len() implies (|n: Seq<char>| track_new_change(n, ts, ts))(#[trigger] ks[i]).len()
        == 0 by {
        assert(ks.contains(ks[i]));
        let k = choose|k: int| 0 <= k < track_names(ts).len() && track_names(ts)[k] == ks[i];
        lemma_last_track_exists(ts, ks[i], k);
    }
    lemma_concat_map_empty(ks, |n: Seq<char>| track_old_change(n, ts, ts));
    lemma_concat_map_empty(ks, |n: Seq<char>| track_new_change(n, ts, ts));
}

pub open spec fn first_indices(n: int) -> Set<int> {
    Set::new(|k: int| 0 <= k < n)
}

pub open spec fn self_pairs(n: int) -> Seq<ClipPairing> {
    Seq::new(n as nat, |k: int| ClipPairing::Both(k as usize, k as usize))
}

proof fn lemma_exact_from_self(cs: Seq<TimelineClip>, used: Set<int>, i: int, j: int)
    requires
        0 <= j <= i < cs.len(),
        forall|k: int| j <= k < i ==> used.contains(k),
        !used.contains(i),
    ensures
        exact_from(cs, cs, used, i, j) == Some(i),
    decreases i - j,
{
    if j < i {
        lemma_exact_from_self(cs, used, i, j + 1);
    }
}

proof fn lemma_exact_pass_self(cs: Seq<TimelineClip>, n: int)
    requires
        0 <= n <= cs.len(),
    ensures
        exact_pass(cs, cs, n) == (PairScan { pairs: self_pairs(n), used: first_indices(n), matched: first_indices(n) }),
    decreases n,
{
    if n > 0 {
        lemma_exact_pass_self(cs, n - 1);
        lemma_exact_from_self(cs, first_indices(n - 1), n - 1, 0);
        assert(self_pairs(n - 1).push(ClipPairing::Both((n - 1) as usize, (n - 1) as usize)) =~= self_pairs(n));
        assert(first_indices(n - 1).insert(n - 1) =~= first_indices(n));
    } else {
        assert(self_pairs(n) =~= Seq::<ClipPairing>::empty());
        assert(first_indices(n) =~= Set::<int>::empty());
    }
}

proof fn lemma_near_pass_self(cs: Seq<TimelineClip>, n: int)
    requires
        0 <= n <= cs.len(),
    ensures
        near_pass(cs, cs, n) == exact_pass(cs, cs, cs.len() as int),
    decreases n,
{
    lemma_exact_pass_self(cs, cs.len() as int);
    if n > 0 {
        lemma_near_pass_self(cs, n - 1);
    }
}

proof fn lemma_added_none(n: int, m: int)
    requires
        0 <= n <= m,
    ensures
        clips_added(first_indices(m), n).len() == 0,
    decreases n,
{
    if n > 0 {
        lemma_added_none(n - 1, m);
    }
}

proof fn lemma_params_self(e: Effect)
    ensures
        param_changes_of(e, e).len() == 0,
{
    let ks = key_set(param_keys(e.params@) + param_keys(e.params@));
    assert forall|i: int| 0 <= i < ks.len() implies (|k: Seq<char>| param_change_for(k, e, e))(#[trigger] ks[i]).len()
        == 0 by {}
    lemma_concat_map_empty(ks, |k: Seq<char>| param_change_for(k, e, e));
}

proof fn lemma_zip_self(name: Seq<char>, es: Seq<Effect>, k: int)
    requires
        k <= es.len(),
    ensures
        effect_zip(name, es, es, k).len() == 0,
    decreases k,
{
    if k > 0 {
        lemma_zip_self(name, es, k - 1);
        lemma_params_self(es[k - 1]);
    }
}

proof fn lemma_effects_self(c: TimelineClip)
    ensures
        effect_changes_of(c, c).len() == 0,
{
    let es = c.effects@;
    let ks = key_set(effect_names(es) + effect_names(es));
    assert forall|i: int| 0 <= i < ks.len() implies (|name: Seq<char>| name_changes(name, es, es))(#[trigger] ks[i]).len()
        == 0 by {
        lemma_zip_self(ks[i], named(es, ks[i]), named(es, ks[i]).len() as int);
    }
    lemma_concat_map_empty(ks, |name: Seq<char>| name_changes(name, es, es));
}

proof fn lemma_track_clips_self(name: Seq<char>, t: Track, p: Project)
    ensures
        track_clip_changes(name, t, t, p, p).len() == 0,
{
    let cs = t.clips@;
    lemma_near_pass_self(cs, cs.len() as int);
    lemma_exact_pass_self(cs, cs.len() as int);
    lemma_added_none(cs.len() as int, cs.len() as int);
    let pairs = pair_clips(cs, cs);
    assert(pairs =~= self_pairs(cs.len() as int));
    let f = |pr: ClipPairing| pairing_changes(pr, name, cs, cs, p, p);
    assert forall|i: int| 0 <= i < pairs.len() implies f(#[trigger] pairs[i]).len() == 0 by {
        assert(t.clips@.len() == t.clips.len());
        assert(pairs[i] == ClipPairing::Both(i as usize, i as usize));
        assert((i as usize) as int == i);
        lemma_effects_self(cs[i]);
        assert(with_names(name, clip_name(p, cs[i]), effect_changes_of(cs[i], cs[i])).len() == 0);
    }
    lemma_concat_map_empty(pairs, f);
}

proof fn lemma_clips_self(p: Project)
    ensures
        clip_changes_of(p, p).len() == 0,
{
    let ts = all_tracks(p);
    let ks = key_set(track_names(ts));
    assert forall|i: int| 0 <= i < ks.len() implies (|name: Seq<char>| clip_changes_for(name, p, p))(#[trigger] ks[i]).len()
        == 0 by {
        if let Some(t) = last_track(ts, ks[i]) {
            lemma_track_clips_self(ks[i], t, p);
        }
    }
    lemma_concat_map_empty(ks, |name: Seq<char>| clip_changes_for(name, p, p));
}

proof fn lemma_first_at_self(ms: Seq<Marker>, used: Set<int>, i: int, j: int)
    requires
        0 <= j <= i < ms.len(),
        forall|k: int| j <= k < i ==> used.contains(k),
        !used.contains(i),
    ensures
        first_at(ms, used, ms[i].position, j) == Some(i),
    decreases i - j,
{
    if j < i {
        lemma_first_at_self(ms, used, i, j + 1);
    }
}

proof fn lemma_marker_scan_self(ms: Seq<Marker>, n: int)
    requires
        0 <= n <= ms.len(),
    ensures
        marker_scan(ms, ms, n).changes.len() == 0,
        marker_scan(ms, ms, n).used == first_indices(n),
    decreases n,
{
    if n > 0 {
        lemma_marker_scan_self(ms, n - 1);
        lemma_first_at_self(ms, first_indices(n - 1), n - 1, 0);
        assert(first_indices(n - 1).insert(n - 1) =~= first_indices(n));
    } else {
        assert(first_indices(n) =~= Set::<int>::empty());
    }
}

proof fn lemma_markers_added_none(ms: Seq<Marker>, n: int, m: int)
    requires
        0 <= n <= m,
    ensures
        markers_added(ms, first_indices(m), n).len() == 0,
    decreases n,
{
    if n > 0 {
        lemma_markers_added_none(ms, n - 1, m);
    }
}

proof fn lemma_guides_self(p: Project)
    ensures
        guide_changes_of(p, p).len() == 0,
{
    let gs = p.guides@;
    let ks = key_set_int(guide_positions(gs));
    lemma_key_set_int_members(guide_positions(gs));
    assert forall|i: int| 0 <= i < ks.len() implies (|q: i64| guide_old_change(q, gs, gs))(#[trigger] ks[i]).len() == 0 by {
        assert(ks.contains(ks[i]));
        let k = choose|k: int| 0 <= k < guide_positions(gs).len() && guide_positions(gs)[k] == ks[i];
        lemma_last_guide_exists(gs, ks[i], k);
    }
    assert forall|i: int| 0 <= i < ks.len() implies (|q: i64| guide_new_change(q, gs, gs))(#[trigger] ks[i]).len() == 0 by {
        assert(ks.contains(ks[i]));
        let k = choose|k: int| 0 <= k < guide_positions(gs).len() && guide_positions(gs)[k] == ks[i];
        lemma_last_guide_exists(gs, ks[i], k);
    }
    lemma_concat_map_empty(ks, |q: i64| guide_old_change(q, gs, gs));
    lemma_concat_map_empty(ks, |q: i64| guide_new_change(q, gs, gs));
}

/// A project compared with itself has no changes: whatever order the saved
/// file lists things in, nothing in a project differs from itself.
pub proof fn diff_with_itself_is_empty(p: Project, rate: spec_fn(u32, u32) -> Seq<char>)
    requires
        p.well_formed(),
    ensures
        diff_of(p, p, rate).is_empty(),
{
    lemma_bin_self(p);
    lemma_tracks_self(p);
    lemma_clips_self(p);
    let ms = all_markers(p);
    lemma_marker_scan_self(ms, ms.len() as int);
    lemma_markers_added_none(ms, ms.len() as int, ms.len() as int);
    lemma_guides_self(p);
}

// ---------------------------------------------------------------------------
// Removals mirror additions.

/// The labels of the bin clips `cs` reports added, in order.
pub open spec fn added_bins(cs: Seq<BinChangeView>) -> Seq<Seq<char>>
    decreases cs.len(),
{
    if cs.len() == 0 {
        Seq::empty()
    } else {
        match cs.last() {
            BinChangeView::Added { clip } => added_bins(cs.drop_last()).push(clip),
            _ => added_bins(cs.drop_last()),
        }
    }
}

/// The labels of the bin clips `cs` reports removed, in order.
pub open spec fn removed_bins(cs: Seq<BinChangeView>) -> Seq<Seq<char>>
    decreases cs.len(),
{
    if cs.len() == 0 {
        Seq::empty()
    } else {
        match cs.last() {
            BinChangeView::Removed { clip } => removed_bins(cs.drop_last()).push(clip),
            _ => removed_bins(cs.drop_last()),
        }
    }
}

/// The labels of the clips of `bs` that `others` has no clip for.
pub open spec fn missing_from(bs: Seq<BinClip>, others: Seq<BinClip>) -> Seq<Seq<char>>
    decreases bs.len(),
{
    if bs.len() == 0 {
        Seq::empty()
    } else if find_bin(others, bs.last().id@) is None {
        missing_from(bs.drop_last(), others).push(clip_label(bs.last()))
    } else {
        missing_from(bs.drop_last(), others)
    }
}

proof fn lemma_added_bins_concat(x: Seq<BinChangeView>, y: Seq<BinChangeView>)
    ensures
        added_bins(x + y) == added_bins(x) + added_bins(y),
        removed_bins(x + y) == removed_bins(x) + removed_bins(y),
    decreases y.len(),
{
    if y.len() == 0 {
        assert(x + y =~= x);
        assert(added_bins(x) + added_bins(y) =~= added_bins(x));
        assert(removed_bins(x) + removed_bins(y) =~= removed_bins(x));
    } else {
        lemma_added_bins_concat(x, y.drop_last());
        assert((x + y).drop_last() =~= x + y.drop_last());
        assert((x + y).last() == y.last());
        match y.last() {
            BinChangeView::Added { clip } => {
                assert(added_bins(x) + added_bins(y) =~= (added_bins(x) + added_bins(y.drop_last())).push(clip));
            },
            BinChangeView::Removed { clip } => {
                assert(removed_bins(x) + removed_bins(y) =~= (removed_bins(x) + removed_bins(y.drop_last())).push(
                    clip,
                ));
            },
            _ => {},
        }
    }
}

proof fn lemma_single_change(c: BinChangeView)
    ensures
        added_bins(seq![c]) == (match c {
            BinChangeView::Added { clip } => seq![clip],
            _ => Seq::<Seq<char>>::empty(),
        }),
        removed_bins(seq![c]) == (match c {
            BinChangeView::Removed { clip } => seq![clip],
            _ => Seq::<Seq<char>>::empty(),
        }),
{
    let one = seq![c];
    let none = Seq::<BinChangeView>::empty();
    assert(one.drop_last() =~= none);
    assert(one.last() == c);
    assert(added_bins(none) =~= Seq::<Seq<char>>::empty());
    assert(removed_bins(none) =~= Seq::<Seq<char>>::empty());
    match c {
        BinChangeView::Added { clip } => {
            assert(added_bins(one) == added_bins(none).push(clip));
            assert(added_bins(none).push(clip) =~= seq![clip]);
            assert(removed_bins(one) == removed_bins(none));
        },
        BinChangeView::Removed { clip } => {
            assert(removed_bins(one) == removed_bins(none).push(clip));
            assert(removed_bins(none).push(clip) =~= seq![clip]);
            assert(added_bins(one) == added_bins(none));
        },
        _ => {
            assert(added_bins(one) == added_bins(none));
            assert(removed_bins(one) == removed_bins(none));
        },
    }
}

proof fn lemma_old_changes_add_nothing(bs: Seq<BinClip>, others: Seq<BinClip>)
    ensures
        added_bins(concat_map(bs, |o: BinClip| bin_old_change(o, others))).len() == 0,
        removed_bins(concat_map(bs, |o: BinClip| bin_old_change(o, others))) == missing_from(bs, others),
    decreases bs.len(),
{
    if bs.len() > 0 {
        let f = |o: BinClip| bin_old_change(o, others);
        lemma_old_changes_add_nothing(bs.drop_last(), others);
        let one = bin_old_change(bs.last(), others);
        assert(f(bs.last()) == one);
        lemma_added_bins_concat(concat_map(bs.drop_last(), f), one);
        let o = bs.last();
        match find_bin(others, o.id@) {
            None => {
                lemma_single_change(BinChangeView::Removed { clip: clip_label(o) });
            },
            Some(n) => {
                if clip_label(o) != clip_label(n) {
                    lemma_single_change(BinChangeView::Renamed { from: clip_label(o), to: clip_label(n) });
                } else {
                    assert(added_bins(one) =~= Seq::<Seq<char>>::empty());
                    assert(removed_bins(one) =~= Seq::<Seq<char>>::empty());
                }
            },
        }
        assert(removed_bins(concat_map(bs.drop_last(), f)) + removed_bins(one) =~= missing_from(bs, others));
    }
}

proof fn lemma_new_changes_remove_nothing(bs: Seq<BinClip>, others: Seq<BinClip>)
    ensures
        removed_bins(concat_map(bs, |n: BinClip| bin_new_change(n, others))).len() == 0,
        added_bins(concat_map(bs, |n: BinClip| bin_new_change(n, others))) == missing_from(bs, others),
    decreases bs.len(),
{
    if bs.len() > 0 {
        let f = |n: BinClip| bin_new_change(n, others);
        lemma_new_changes_remove_nothing(bs.drop_last(), others);
        let one = bin_new_change(bs.last(), others);
        assert(f(bs.last()) == one);
        lemma_added_bins_concat(concat_map(bs.drop_last(), f), one);
        let n = bs.last();
        if find_bin(others, n.id@) is None {
            lemma_single_change(BinChangeView::Added { clip: clip_label(n) });
        } else {
            assert(added_bins(one) =~= Seq::<Seq<char>>::empty());
            assert(removed_bins(one) =~= Seq::<Seq<char>>::empty());
        }
        assert(added_bins(concat_map(bs.drop_last(), f)) + added_bins(one) =~= missing_from(bs, others));
    }
}

/// Removals mirror additions: the bin clips a diff from `a` to `b` reports
/// added are the ones the diff from `b` to `a` reports removed, in the same
/// order.
pub proof fn bin_removals_mirror_additions(a: Project, b: Project)
    ensures
        added_bins(bin_changes_of(a, b)) == removed_bins(bin_changes_of(b, a)),
{
    let ab_old = concat_map(a.bin_clips@, |o: BinClip| bin_old_change(o, b.bin_clips@));
    let ab_new = concat_map(b.bin_clips@, |n: BinClip| bin_new_change(n, a.bin_clips@));
    let ba_old = concat_map(b.bin_clips@, |o: BinClip| bin_old_change(o, a.bin_clips@));
    let ba_new = concat_map(a.bin_clips@, |n: BinClip| bin_new_change(n, b.bin_clips@));
    lemma_added_bins_concat(ab_old, ab_new);
    lemma_added_bins_concat(ba_old, ba_new);
    lemma_old_changes_add_nothing(a.bin_clips@, b.bin_clips@);
    lemma_new_changes_remove_nothing(b.bin_clips@, a.bin_clips@);
    lemma_old_changes_add_nothing(b.bin_clips@, a.bin_clips@);
    lemma_new_changes_remove_nothing(a.bin_clips@, b.bin_clips@);
    assert(added_bins(ab_old) =~= Seq::<Seq<char>>::empty());
    assert(removed_bins(ba_new) =~= Seq::<Seq<char>>::empty());
    assert(added_bins(ab_old) + added_bins(ab_new) =~= missing_from(b.bin_clips@, a.bin_clips@));
    assert(removed_bins(ba_old) + removed_bins(ba_new) =~= missing_from(b.bin_clips@, a.bin_clips@));
}

// ---------------------------------------------------------------------------
// Tracks and guides: removals mirror additions too.

pub open spec fn track_added(c: TrackChangeView) -> Seq<Seq<char>> {
    match c {
        TrackChangeView::Added { track } => seq![track],
        _ => Seq::empty(),
    }
}

pub open spec fn track_removed(c: TrackChangeView) -> Seq<Seq<char>> {
    match c {
        TrackChangeView::Removed { track } => seq![track],
        _ => Seq::empty(),
    }
}

pub open spec fn track_locked(c: TrackChangeView) -> Seq<Seq<char>> {
    match c {
        TrackChangeView::Locked { track } => seq![track],
        _ => Seq::empty(),
    }
}

pub open spec fn track_unlocked(c: TrackChangeView) -> Seq<Seq<char>> {
    match c {
        TrackChangeView::Unlocked { track } => seq![track],
        _ => Seq::empty(),
    }
}

/// The tracks `cs` reports added, in order.
pub open spec fn added_tracks(cs: Seq<TrackChangeView>) -> Seq<Seq<char>> {
    concat_map(cs, |c: TrackChangeView| track_added(c))
}

/// The tracks `cs` reports removed, in order.
pub open spec fn removed_tracks(cs: Seq<TrackChangeView>) -> Seq<Seq<char>> {
    concat_map(cs, |c: TrackChangeView| track_removed(c))
}

/// The tracks `cs` reports locked, in order.
pub open spec fn locked_tracks(cs: Seq<TrackChangeView>) -> Seq<Seq<char>> {
    concat_map(cs, |c: TrackChangeView| track_locked(c))
}

/// The tracks `cs` reports unlocked, in order.
pub open spec fn unlocked_tracks(cs: Seq<TrackChangeView>) -> Seq<Seq<char>> {
    concat_map(cs, |c: TrackChangeView| track_unlocked(c))
}

/// One list of changes taken apart by `pick`.
proof fn lemma_picked<K, C, X>(ks: Seq<K>, change: spec_fn(K) -> Seq<C>, pick: spec_fn(C) -> Seq<X>)
    ensures
        concat_map(concat_map(ks, change), pick) == concat_map(ks, |k: K| concat_map(change(k), pick)),
{
    lemma_concat_map_flatten(ks, change, pick);
}

/// What a single track change, or none, gives each way of taking changes
/// apart.
proof fn lemma_track_change_picks(k: Seq<char>)
    ensures
        ({
            let (add, rem, lock, unlock) = (
                |c: TrackChangeView| track_added(c),
                |c: TrackChangeView| track_removed(c),
                |c: TrackChangeView| track_locked(c),
                |c: TrackChangeView| track_unlocked(c),
            );
            &&& concat_map(seq![TrackChangeView::Added { track: k }], add) == seq![k]
            &&& concat_map(seq![TrackChangeView::Added { track: k }], rem) == Seq::<Seq<char>>::empty()
            &&& concat_map(seq![TrackChangeView::Added { track: k }], lock) == Seq::<Seq<char>>::empty()
            &&& concat_map(seq![TrackChangeView::Added { track: k }], unlock) == Seq::<Seq<char>>::empty()
            &&& concat_map(seq![TrackChangeView::Removed { track: k }], add) == Seq::<Seq<char>>::empty()
            &&& concat_map(seq![TrackChangeView::Removed { track: k }], rem) == seq![k]
            &&& concat_map(seq![TrackChangeView::Removed { track: k }], lock) == Seq::<Seq<char>>::empty()
            &&& concat_map(seq![TrackChangeView::Removed { track: k }], unlock) == Seq::<Seq<char>>::empty()
            &&& concat_map(seq![TrackChangeView::Locked { track: k }], add) == Seq::<Seq<char>>::empty()
            &&& concat_map(seq![TrackChangeView::Locked { track: k }], rem) == Seq::<Seq<char>>::empty()
            &&& concat_map(seq![TrackChangeView::Locked { track: k }], lock) == seq![k]
            &&& concat_map(seq![TrackChangeView::Locked { track: k }], unlock) == Seq::<Seq<char>>::empty()
            &&& concat_map(seq![TrackChangeView::Unlocked { track: k }], add) == Seq::<Seq<char>>::empty()
            &&& concat_map(seq![TrackChangeView::Unlocked { track: k }], rem) == Seq::<Seq<char>>::empty()
            &&& concat_map(seq![TrackChangeView::Unlocked { track: k }], lock) == Seq::<Seq<char>>::empty()
            &&& concat_map(seq![TrackChangeView::Unlocked { track: k }], unlock) == seq![k]
            &&& concat_map(Seq::<TrackChangeView>::empty(), add) == Seq::<Seq<char>>::empty()
            &&& concat_map(Seq::<TrackChangeView>::empty(), rem) == Seq::<Seq<char>>::empty()
            &&& concat_map(Seq::<TrackChangeView>::empty(), lock) == Seq::<Seq<char>>::empty()
            &&& concat_map(Seq::<TrackChangeView>::empty(), unlock) == Seq::<Seq<char>>::empty()
        }),
{
    let (add, rem, lock, unlock) = (
        |c: TrackChangeView| track_added(c),
        |c: TrackChangeView| track_removed(c),
        |c: TrackChangeView| track_locked(c),
        |c: TrackChangeView| track_unlocked(c),
    );
    let cs = seq![
        TrackChangeView::Added { track: k },
        TrackChangeView::Removed { track: k },
        TrackChangeView::Locked { track: k },
        TrackChangeView::Unlocked { track: k },
    ];
    assert forall|i: int| 0 <= i < 4 implies {
        &&& concat_map(seq![cs[i]], add) == track_added(cs[i])
        &&& concat_map(seq![cs[i]], rem) == track_removed(cs[i])
        &&& concat_map(seq![cs[i]], lock) == track_locked(cs[i])
        &&& concat_map(seq![cs[i]], unlock) == track_unlocked(cs[i])
    } by {
        lemma_concat_map_single(cs[i], add);
        lemma_concat_map_single(cs[i], rem);
        lemma_concat_map_single(cs[i], lock);
        lemma_concat_map_single(cs[i], unlock);
    }
    assert(cs[0] == TrackChangeView::Added { track: k });
    assert(cs[1] == TrackChangeView::Removed { track: k });
    assert(cs[2] == TrackChangeView::Locked { track: k });
    assert(cs[3] == TrackChangeView::Unlocked { track: k });
}

/// Removals mirror additions for tracks: the tracks a diff from `a` to `b`
/// reports added are the ones the diff from `b` to `a` reports removed, in
/// the same order.
pub proof fn track_removals_mirror_additions(a: Project, b: Project)
    ensures
        added_tracks(track_changes_of(a, b)) == removed_tracks(track_changes_of(b, a)),
{
    let (ta, tb) = (all_tracks(a), all_tracks(b));
    let (ka, kb) = (key_set(track_names(ta)), key_set(track_names(tb)));
    let add = |c: TrackChangeView| track_added(c);
    let rem = |c: TrackChangeView| track_removed(c);
    let old_ab = |n: Seq<char>| track_old_change(n, ta, tb);
    let new_ab = |n: Seq<char>| track_new_change(n, ta, tb);
    let old_ba = |n: Seq<char>| track_old_change(n, tb, ta);
    let new_ba = |n: Seq<char>| track_new_change(n, tb, ta);
    lemma_concat_map_append(concat_map(ka, old_ab), concat_map(kb, new_ab), add);
    lemma_concat_map_append(concat_map(kb, old_ba), concat_map(ka, new_ba), rem);
    lemma_picked(ka, old_ab, add);
    lemma_picked(kb, new_ab, add);
    lemma_picked(kb, old_ba, rem);
    lemma_picked(ka, new_ba, rem);
    let f1 = |k: Seq<char>| concat_map(old_ab(k), add);
    let f4 = |k: Seq<char>| concat_map(new_ba(k), rem);
    let f2 = |k: Seq<char>| concat_map(new_ab(k), add);
    let f3 = |k: Seq<char>| concat_map(old_ba(k), rem);
    assert forall|k: Seq<char>|
        #![trigger f1(k)]
        #![trigger f2(k)]
        #![trigger f3(k)]
        #![trigger f4(k)]
        f1(k) == Seq::<Seq<char>>::empty() && f4(k) == Seq::<Seq<char>>::empty() && f2(k) == f3(k) by {
        lemma_track_change_picks(k);
    }
    lemma_concat_map_empty(ka, f1);
    lemma_concat_map_empty(ka, f4);
    assert(f2 =~= f3);
    assert(concat_map(ka, f1) =~= Seq::<Seq<char>>::empty());
    assert(concat_map(ka, f4) =~= Seq::<Seq<char>>::empty());
    assert(concat_map(kb, f2) + concat_map(ka, f4) =~= concat_map(kb, f2));
    assert(concat_map(ka, f1) + concat_map(kb, f2) =~= concat_map(kb, f2));
}

proof fn lemma_last_track_named(ts: Seq<Track>, n: Seq<char>)
    ensures
        last_track(ts, n) is Some <==> track_names(ts).contains(n),
    decreases ts.len(),
{
    if ts.len() > 0 {
        let rest = ts.drop_last();
        lemma_last_track_named(rest, n);
        let k = ts.len() - 1;
        assert(track_names(ts)[k] == ts.last().name@);
        if track_names(ts).contains(n) && ts.last().name@ != n {
            let j = choose|j: int| 0 <= j < track_names(ts).len() && track_names(ts)[j] == n;
            assert(j < k);
            assert(track_names(rest)[j] == n);
        }
        if track_names(rest).contains(n) {
            let j = choose|j: int| 0 <= j < track_names(rest).len() && track_names(rest)[j] == n;
            assert(track_names(ts)[j] == n);
        }
    }
}

/// Whether track `k` is unlocked in `ta` and locked in `tb`.
pub open spec fn lock_flip(ta: Seq<Track>, tb: Seq<Track>, k: Seq<char>) -> bool {
    &&& last_track(ta, k) is Some
    &&& last_track(tb, k) is Some
    &&& !last_track(ta, k)->0.locked
    &&& last_track(tb, k)->0.locked
}

/// Locks mirror unlocks: the tracks a diff from `a` to `b` reports locked
/// are the ones the diff from `b` to `a` reports unlocked, in the same
/// order.
pub proof fn locks_mirror_unlocks(a: Project, b: Project)
    ensures
        locked_tracks(track_changes_of(a, b)) == unlocked_tracks(track_changes_of(b, a)),
{
    let (ta, tb) = (all_tracks(a), all_tracks(b));
    let (ka, kb) = (key_set(track_names(ta)), key_set(track_names(tb)));
    let lock = |c: TrackChangeView| track_locked(c);
    let unlock = |c: TrackChangeView| track_unlocked(c);
    let old_ab = |n: Seq<char>| track_old_change(n, ta, tb);
    let new_ab = |n: Seq<char>| track_new_change(n, ta, tb);
    let old_ba = |n: Seq<char>| track_old_change(n, tb, ta);
    let new_ba = |n: Seq<char>| track_new_change(n, tb, ta);
    lemma_concat_map_append(concat_map(ka, old_ab), concat_map(kb, new_ab), lock);
    lemma_concat_map_append(concat_map(kb, old_ba), concat_map(ka, new_ba), unlock);
    lemma_picked(ka, old_ab, lock);
    lemma_picked(kb, new_ab, lock);
    lemma_picked(kb, old_ba, unlock);
    lemma_picked(ka, new_ba, unlock);
    let g1 = |k: Seq<char>| concat_map(old_ab(k), lock);
    let g2 = |k: Seq<char>| concat_map(new_ab(k), lock);
    let h1 = |k: Seq<char>| concat_map(old_ba(k), unlock);
    let h2 = |k: Seq<char>| concat_map(new_ba(k), unlock);
    let same = |k: Seq<char>| k;
    let flips = |k: Seq<char>| lock_flip(ta, tb, k);
    let pick = |k: Seq<char>| if flips(k) { seq![same(k)] } else { Seq::<Seq<char>>::empty() };
    assert forall|k: Seq<char>|
        #![trigger g1(k)]
        #![trigger g2(k)]
        #![trigger h1(k)]
        #![trigger h2(k)]
        g2(k) == Seq::<Seq<char>>::empty() && h2(k) == Seq::<Seq<char>>::empty() && (last_track(ta, k) is Some
            ==> g1(k) == pick(k)) && (last_track(tb, k) is Some ==> h1(k) == pick(k)) by {
        lemma_track_change_picks(k);
    }
    lemma_concat_map_empty(kb, g2);
    lemma_concat_map_empty(ka, h2);
    assert(concat_map(ka, g1) + concat_map(kb, g2) =~= concat_map(ka, g1));
    assert(concat_map(kb, h1) + concat_map(ka, h2) =~= concat_map(kb, h1));
    lemma_key_set_members(track_names(ta));
    lemma_key_set_members(track_names(tb));
    assert forall|i: int| 0 <= i < ka.len() implies g1(#[trigger] ka[i]) == pick(ka[i]) by {
        assert(ka.contains(ka[i]));
        lemma_last_track_named(ta, ka[i]);
    }
    assert forall|i: int| 0 <= i < kb.len() implies h1(#[trigger] kb[i]) == pick(kb[i]) by {
        assert(kb.contains(kb[i]));
        lemma_last_track_named(tb, kb[i]);
    }
    lemma_concat_map_pointwise(ka, g1, pick);
    lemma_concat_map_pointwise(kb, h1, pick);
    crate::keys::lemma_key_set_sorted(track_names(ta));
    crate::keys::lemma_key_set_sorted(track_names(tb));
    crate::keys::lemma_picked_keys(ka, same, flips);
    crate::keys::lemma_picked_keys(kb, same, flips);
    let pa = crate::keys::picked_keys(ka, same, flips);
    let pb = crate::keys::picked_keys(kb, same, flips);
    assert(concat_map(ka, pick) == pa);
    assert(concat_map(kb, pick) == pb);
    assert forall|x: Seq<char>| pa.contains(x) <==> pb.contains(x) by {
        lemma_last_track_named(ta, x);
        lemma_last_track_named(tb, x);
        if pa.contains(x) {
            let i = choose|i: int| 0 <= i < ka.len() && flips(#[trigger] ka[i]) && same(ka[i]) == x;
            assert(kb.contains(x));
            let j = choose|j: int| 0 <= j < kb.len() && kb[j] == x;
            assert(flips(kb[j]) && same(kb[j]) == x);
        }
        if pb.contains(x) {
            let j = choose|j: int| 0 <= j < kb.len() && flips(#[trigger] kb[j]) && same(kb[j]) == x;
            assert(ka.contains(x));
            let i = choose|i: int| 0 <= i < ka.len() && ka[i] == x;
            assert(flips(ka[i]) && same(ka[i]) == x);
        }
    }
    crate::keys::lemma_sorted_members_equal(pa, pb);
}

// Guides.

pub open spec fn guide_added(c: GuideChangeView) -> Seq<(Frames, Seq<char>)> {
    match c {
        GuideChangeView::Added { position, comment } => seq![(position, comment)],
        _ => Seq::empty(),
    }
}

pub open spec fn guide_removed(c: GuideChangeView) -> Seq<(Frames, Seq<char>)> {
    match c {
        GuideChangeView::Removed { position, comment } => seq![(position, comment)],
        _ => Seq::empty(),
    }
}

/// The guides `cs` reports added, by position and comment, in order.
pub open spec fn added_guides(cs: Seq<GuideChangeView>) -> Seq<(Frames, Seq<char>)> {
    concat_map(cs, |c: GuideChangeView| guide_added(c))
}

/// The guides `cs` reports removed, by position and comment, in order.
pub open spec fn removed_guides(cs: Seq<GuideChangeView>) -> Seq<(Frames, Seq<char>)> {
    concat_map(cs, |c: GuideChangeView| guide_removed(c))
}

/// Removals mirror additions for guides: the guides a diff from `a` to `b`
/// reports added, with their comments, are the ones the diff from `b` to
/// `a` reports removed, in the same order.
pub proof fn guide_removals_mirror_additions(a: Project, b: Project)
    ensures
        added_guides(guide_changes_of(a, b)) == removed_guides(guide_changes_of(b, a)),
{
    let (ga, gb) = (a.guides@, b.guides@);
    let (ka, kb) = (key_set_int(guide_positions(ga)), key_set_int(guide_positions(gb)));
    let add = |c: GuideChangeView| guide_added(c);
    let rem = |c: GuideChangeView| guide_removed(c);
    let old_ab = |p: i64| guide_old_change(p, ga, gb);
    let new_ab = |p: i64| guide_new_change(p, ga, gb);
    let old_ba = |p: i64| guide_old_change(p, gb, ga);
    let new_ba = |p: i64| guide_new_change(p, gb, ga);
    lemma_concat_map_append(concat_map(ka, old_ab), concat_map(kb, new_ab), add);
    lemma_concat_map_append(concat_map(kb, old_ba), concat_map(ka, new_ba), rem);
    lemma_picked(ka, old_ab, add);
    lemma_picked(kb, new_ab, add);
    lemma_picked(kb, old_ba, rem);
    lemma_picked(ka, new_ba, rem);
    let f1 = |k: i64| concat_map(old_ab(k), add);
    let f2 = |k: i64| concat_map(new_ab(k), add);
    let f3 = |k: i64| concat_map(old_ba(k), rem);
    let f4 = |k: i64| concat_map(new_ba(k), rem);
    assert forall|k: i64|
        #![trigger f1(k)]
        #![trigger f2(k)]
        #![trigger f3(k)]
        #![trigger f4(k)]
        f1(k) == Seq::<(Frames, Seq<char>)>::empty() && f4(k) == Seq::<(Frames, Seq<char>)>::empty() && f2(k)
            == f3(k) by {
        let none = Seq::<GuideChangeView>::empty();
        assert(concat_map(none, add) =~= Seq::<(Frames, Seq<char>)>::empty());
        assert(concat_map(none, rem) =~= Seq::<(Frames, Seq<char>)>::empty());
        let oa = last_guide(ga, k)->0;
        let ob = last_guide(gb, k)->0;
        lemma_concat_map_single(GuideChangeView::Removed { position: k, comment: oa.comment@ }, add);
        lemma_concat_map_single(GuideChangeView::Retitled { position: k, from: oa.comment@, to: ob.comment@ }, add);
        lemma_concat_map_single(GuideChangeView::Added { position: k, comment: ob.comment@ }, add);
        lemma_concat_map_single(GuideChangeView::Removed { position: k, comment: ob.comment@ }, rem);
        lemma_concat_map_single(GuideChangeView::Retitled { position: k, from: ob.comment@, to: oa.comment@ }, rem);
        lemma_concat_map_single(GuideChangeView::Added { position: k, comment: oa.comment@ }, rem);
    }
    lemma_concat_map_empty(ka, f1);
    lemma_concat_map_empty(ka, f4);
    assert(f2 =~= f3);
    assert(concat_map(ka, f1) + concat_map(kb, f2) =~= concat_map(kb, f2));
    assert(concat_map(kb, f3) + concat_map(ka, f4) =~= concat_map(kb, f3));
}

// Bin clips renamed.

pub open spec fn bin_renamed(c: BinChangeView) -> Seq<(Seq<char>, Seq<char>)> {
    match c {
        BinChangeView::Renamed { from, to } => seq![(from, to)],
        _ => Seq::empty(),
    }
}

/// The renames `cs` reports, as pairs of the old and the new label, in order.
pub open spec fn renamed_bins(cs: Seq<BinChangeView>) -> Seq<(Seq<char>, Seq<char>)> {
    concat_map(cs, |c: BinChangeView| bin_renamed(c))
}

proof fn lemma_find_bin_member(cs: Seq<BinClip>, id: Seq<char>)
    ensures
        find_bin(cs, id) matches Some(c) ==> c.id@ == id && exists|j: int| 0 <= j < cs.len() && cs[j] == c,
    decreases cs.len(),
{
    if cs.len() > 0 {
        if cs[0].id@ == id {
            assert(cs[0] == cs[0]);
        } else {
            lemma_find_bin_member(cs.drop_first(), id);
            if let Some(c) = find_bin(cs, id) {
                let j = choose|j: int| 0 <= j < cs.drop_first().len() && cs.drop_first()[j] == c;
                assert(cs[j + 1] == c);
            }
        }
    }
}

/// The bin changes between two lists of bin clips.
pub open spec fn bin_changes_of_clips(xs: Seq<BinClip>, ys: Seq<BinClip>) -> Seq<BinChangeView> {
    concat_map(xs, |o: BinClip| bin_old_change(o, ys)) + concat_map(ys, |n: BinClip| bin_new_change(n, xs))
}

/// Whether both lists hold a clip with id `id`, called differently.
pub open spec fn renamed_id(xs: Seq<BinClip>, ys: Seq<BinClip>, id: Seq<char>) -> bool {
    &&& find_bin(xs, id) is Some
    &&& find_bin(ys, id) is Some
    &&& clip_label(find_bin(xs, id)->0) != clip_label(find_bin(ys, id)->0)
}

/// The rename the clip with id `id` undergoes from `xs` to `ys`.
pub open spec fn rename_of(xs: Seq<BinClip>, ys: Seq<BinClip>, id: Seq<char>) -> Seq<(Seq<char>, Seq<char>)> {
    seq![(clip_label(find_bin(xs, id)->0), clip_label(find_bin(ys, id)->0))]
}

/// The renames from `xs` to `ys` are those of the renamed ids, in id order.
proof fn lemma_renames_by_id(xs: Seq<BinClip>, ys: Seq<BinClip>)
    requires
        bins_in_order(xs),
    ensures
        renamed_bins(bin_changes_of_clips(xs, ys)) == concat_map(
            crate::keys::picked_keys(xs, |o: BinClip| o.id@, |o: BinClip| renamed_id(xs, ys, o.id@)),
            |id: Seq<char>| rename_of(xs, ys, id),
        ),
{
    let ren = |c: BinChangeView| bin_renamed(c);
    let old = |o: BinClip| bin_old_change(o, ys);
    let new = |n: BinClip| bin_new_change(n, xs);
    lemma_concat_map_append(concat_map(xs, old), concat_map(ys, new), ren);
    lemma_picked(xs, old, ren);
    lemma_picked(ys, new, ren);
    let g1 = |o: BinClip| concat_map(old(o), ren);
    let g2 = |n: BinClip| concat_map(new(n), ren);
    let none = Seq::<BinChangeView>::empty();
    assert(concat_map(none, ren) =~= Seq::<(Seq<char>, Seq<char>)>::empty());
    assert forall|c: BinClip|
        #![trigger g1(c)]
        #![trigger g2(c)]
        g2(c) == Seq::<(Seq<char>, Seq<char>)>::empty() && g1(c) == (match find_bin(ys, c.id@) {
            Some(n) => if clip_label(c) != clip_label(n) {
                seq![(clip_label(c), clip_label(n))]
            } else {
                Seq::<(Seq<char>, Seq<char>)>::empty()
            },
            None => Seq::<(Seq<char>, Seq<char>)>::empty(),
        }) by {
        lemma_concat_map_single(BinChangeView::Added { clip: clip_label(c) }, ren);
        lemma_concat_map_single(BinChangeView::Removed { clip: clip_label(c) }, ren);
        if let Some(n) = find_bin(ys, c.id@) {
            lemma_concat_map_single(BinChangeView::Renamed { from: clip_label(c), to: clip_label(n) }, ren);
        }
    }
    lemma_concat_map_empty(ys, g2);
    assert(concat_map(xs, g1) + concat_map(ys, g2) =~= concat_map(xs, g1));
    let key = |o: BinClip| o.id@;
    let picks = |o: BinClip| renamed_id(xs, ys, o.id@);
    let sel = |a: BinClip| if picks(a) { seq![key(a)] } else { Seq::<Seq<char>>::empty() };
    let h = |id: Seq<char>| rename_of(xs, ys, id);
    let viaid = |a: BinClip| concat_map(sel(a), h);
    assert forall|i: int| 0 <= i < xs.len() implies g1(#[trigger] xs[i]) == viaid(xs[i]) by {
        lemma_find_bin_self(xs, i);
        lemma_concat_map_single(xs[i].id@, h);
        assert(concat_map(Seq::<Seq<char>>::empty(), h) =~= Seq::<(Seq<char>, Seq<char>)>::empty());
    }
    lemma_concat_map_pointwise(xs, g1, viaid);
    lemma_concat_map_flatten(xs, sel, h);
    assert(viaid =~= (|a: BinClip| concat_map(sel(a), h)));
    assert(crate::keys::picked_keys(xs, key, picks) == concat_map(xs, sel));
}

/// Renames mirror each other: the renames a diff from `b` to `a` reports
/// are those the diff from `a` to `b` reports, in the same order, each with
/// its old and new name swapped. Each project holds one clip per id, as
/// every parsed project does.
pub proof fn renames_mirror(a: Project, b: Project)
    requires
        a.well_formed(),
        b.well_formed(),
    ensures
        renamed_bins(bin_changes_of(b, a)) == renamed_bins(bin_changes_of(a, b)).map_values(
            |r: (Seq<char>, Seq<char>)| (r.1, r.0),
        ),
{
    let (xs, ys) = (a.bin_clips@, b.bin_clips@);
    assert(bin_changes_of(a, b) == bin_changes_of_clips(xs, ys));
    assert(bin_changes_of(b, a) == bin_changes_of_clips(ys, xs));
    lemma_renames_by_id(xs, ys);
    lemma_renames_by_id(ys, xs);
    let key = |o: BinClip| o.id@;
    let pxy = |o: BinClip| renamed_id(xs, ys, o.id@);
    let pyx = |o: BinClip| renamed_id(ys, xs, o.id@);
    let ids_x = crate::keys::picked_keys(xs, key, pxy);
    let ids_y = crate::keys::picked_keys(ys, key, pyx);
    crate::keys::lemma_picked_keys(xs, key, pxy);
    crate::keys::lemma_picked_keys(ys, key, pyx);
    assert forall|x: Seq<char>| ids_x.contains(x) <==> ids_y.contains(x) by {
        lemma_find_bin_member(xs, x);
        lemma_find_bin_member(ys, x);
        if ids_x.contains(x) {
            let j = choose|j: int| 0 <= j < ys.len() && ys[j] == find_bin(ys, x)->0;
            assert(pyx(ys[j]) && key(ys[j]) == x);
        }
        if ids_y.contains(x) {
            let i = choose|i: int| 0 <= i < xs.len() && xs[i] == find_bin(xs, x)->0;
            assert(pxy(xs[i]) && key(xs[i]) == x);
        }
    }
    crate::keys::lemma_sorted_members_equal(ids_x, ids_y);
    let swap = |r: (Seq<char>, Seq<char>)| (r.1, r.0);
    let hxy = |id: Seq<char>| rename_of(xs, ys, id);
    let hyx = |id: Seq<char>| rename_of(ys, xs, id);
    lemma_concat_map_values(ids_x, hxy, swap);
    assert((|id: Seq<char>| hxy(id).map_values(swap)) =~= hyx) by {
        assert forall|id: Seq<char>| #[trigger] hxy(id).map_values(swap) == hyx(id) by {
            assert(hxy(id).map_values(swap) =~= hyx(id));
        }
    }
}

// ---------------------------------------------------------------------------
// Projects that read alike have no changes between them.

proof fn lemma_bins_alike(xs: Seq<BinClip>, ys: Seq<BinClip>)
    requires
        bin_views(xs) == bin_views(ys),
    ensures
        xs.len() == ys.len(),
        forall|i: int| #![trigger xs[i]] #![trigger ys[i]] 0 <= i < xs.len() ==> xs[i]@ == ys[i]@,
{
    assert(bin_views(xs).len() == xs.len());
    assert(bin_views(ys).len() == ys.len());
    assert forall|i: int| #![trigger xs[i]] #![trigger ys[i]] 0 <= i < xs.len() implies xs[i]@ == ys[i]@ by {
        assert(bin_views(xs)[i] == xs[i]@);
        assert(bin_views(ys)[i] == ys[i]@);
    }
}

proof fn lemma_label_alike(x: BinClip, y: BinClip)
    requires
        x@ == y@,
    ensures
        clip_label(x) == clip_label(y),
{
    assert(opt_view(x.name) == opt_view(y.name));
    assert(opt_view(x.resource) == opt_view(y.resource));
}

proof fn lemma_find_bin_alike(xs: Seq<BinClip>, ys: Seq<BinClip>, id: Seq<char>)
    requires
        bin_views(xs) == bin_views(ys),
    ensures
        find_bin(xs, id) is Some <==> find_bin(ys, id) is Some,
        find_bin(xs, id) is Some ==> find_bin(xs, id)->0@ == find_bin(ys, id)->0@,
    decreases xs.len(),
{
    lemma_bins_alike(xs, ys);
    if xs.len() > 0 {
        assert(xs[0]@ == ys[0]@);
        assert(bin_views(xs.drop_first()) =~= bin_views(ys.drop_first())) by {
            assert forall|k: int| 0 <= k < xs.len() - 1 implies bin_views(xs.drop_first())[k] == bin_views(
                ys.drop_first(),
            )[k] by {
                assert(xs[k + 1]@ == ys[k + 1]@);
            }
        }
        lemma_find_bin_alike(xs.drop_first(), ys.drop_first(), id);
    }
}

proof fn lemma_bins_alike_unchanged(a: Project, b: Project)
    requires
        a.well_formed(),
        a@ == b@,
    ensures
        bin_changes_of(a, b).len() == 0,
{
    let (xs, ys) = (a.bin_clips@, b.bin_clips@);
    assert(bin_views(xs) == bin_views(ys));
    lemma_bins_alike(xs, ys);
    assert forall|i: int| 0 <= i < xs.len() implies (|o: BinClip| bin_old_change(o, ys))(#[trigger] xs[i]).len()
        == 0 by {
        lemma_find_bin_self(xs, i);
        lemma_find_bin_alike(xs, ys, xs[i].id@);
        lemma_label_alike(xs[i], find_bin(ys, xs[i].id@)->0);
    }
    assert forall|j: int| 0 <= j < ys.len() implies (|n: BinClip| bin_new_change(n, xs))(#[trigger] ys[j]).len()
        == 0 by {
        lemma_find_bin_self(xs, j);
        assert(xs[j]@ == ys[j]@);
    }
    lemma_concat_map_empty(xs, |o: BinClip| bin_old_change(o, ys));
    lemma_concat_map_empty(ys, |n: BinClip| bin_new_change(n, xs));
}

proof fn lemma_sequences_alike(sa: Seq<Sequence>, sb: Seq<Sequence>)
    requires
        sequence_views(sa) == sequence_views(sb),
    ensures
        track_views(concat_map(sa, |s: Sequence| s.tracks@)) == track_views(concat_map(sb, |s: Sequence| s.tracks@)),
        marker_views(concat_map(sa, |s: Sequence| s.markers@)) == marker_views(
            concat_map(sb, |s: Sequence| s.markers@),
        ),
    decreases sa.len(),
{
    assert(sequence_views(sa).len() == sa.len());
    assert(sequence_views(sb).len() == sb.len());
    if sa.len() > 0 {
        let n = sa.len() - 1;
        assert(sequence_views(sa.drop_last()) =~= sequence_views(sb.drop_last())) by {
            assert forall|k: int| 0 <= k < n implies sequence_views(sa.drop_last())[k] == sequence_views(
                sb.drop_last(),
            )[k] by {
                assert(sequence_views(sa)[k] == sa[k]@);
                assert(sequence_views(sb)[k] == sb[k]@);
            }
        }
        lemma_sequences_alike(sa.drop_last(), sb.drop_last());
        assert(sequence_views(sa)[n] == sa.last()@);
        assert(sequence_views(sb)[n] == sb.last()@);
        let t = |s: Sequence| s.tracks@;
        let m = |s: Sequence| s.markers@;
        assert(track_views(concat_map(sa.drop_last(), t) + t(sa.last())) =~= track_views(concat_map(sa.drop_last(), t))
            + track_views(t(sa.last())));
        assert(track_views(concat_map(sb.drop_last(), t) + t(sb.last())) =~= track_views(concat_map(sb.drop_last(), t))
            + track_views(t(sb.last())));
        assert(marker_views(concat_map(sa.drop_last(), m) + m(sa.last())) =~= marker_views(
            concat_map(sa.drop_last(), m),
        ) + marker_views(m(sa.last())));
        assert(marker_views(concat_map(sb.drop_last(), m) + m(sb.last())) =~= marker_views(
            concat_map(sb.drop_last(), m),
        ) + marker_views(m(sb.last())));
    }
}

proof fn lemma_tracks_alike(ta: Seq<Track>, tb: Seq<Track>)
    requires
        track_views(ta) == track_views(tb),
    ensures
        ta.len() == tb.len(),
        forall|i: int| #![trigger ta[i]] #![trigger tb[i]] 0 <= i < ta.len() ==> ta[i]@ == tb[i]@,
        track_names(ta) == track_names(tb),
{
    assert(track_views(ta).len() == ta.len());
    assert(track_views(tb).len() == tb.len());
    assert forall|i: int| #![trigger ta[i]] #![trigger tb[i]] 0 <= i < ta.len() implies ta[i]@ == tb[i]@ by {
        assert(track_views(ta)[i] == ta[i]@);
        assert(track_views(tb)[i] == tb[i]@);
    }
    assert(track_names(ta) =~= track_names(tb));
}

proof fn lemma_last_track_alike(ta: Seq<Track>, tb: Seq<Track>, n: Seq<char>)
    requires
        track_views(ta) == track_views(tb),
    ensures
        last_track(ta, n) is Some <==> last_track(tb, n) is Some,
        last_track(ta, n) is Some ==> last_track(ta, n)->0@ == last_track(tb, n)->0@,
    decreases ta.len(),
{
    lemma_tracks_alike(ta, tb);
    if ta.len() > 0 {
        let k = ta.len() - 1;
        assert(ta[k]@ == tb[k]@);
        assert(track_views(ta.drop_last()) =~= track_views(tb.drop_last())) by {
            assert forall|j: int| 0 <= j < k implies track_views(ta.drop_last())[j] == track_views(tb.drop_last())[j] by {
                assert(ta[j]@ == tb[j]@);
            }
        }
        lemma_last_track_alike(ta.drop_last(), tb.drop_last(), n);
    }
}

proof fn lemma_tracks_alike_unchanged(a: Project, b: Project)
    requires
        a@ == b@,
    ensures
        track_changes_of(a, b).len() == 0,
{
    let (ta, tb) = (all_tracks(a), all_tracks(b));
    lemma_sequences_alike(a.sequences@, b.sequences@);
    lemma_tracks_alike(ta, tb);
    let ks = key_set(track_names(ta));
    lemma_key_set_members(track_names(ta));
    assert forall|i: int| 0 <= i < ks.len() implies (|n: Seq<char>| track_old_change(n, ta, tb))(#[trigger] ks[i]).len()
        == 0 by {
        assert(ks.contains(ks[i]));
        let k = choose|k: int| 0 <= k < track_names(ta).len() && track_names(ta)[k] == ks[i];
        lemma_last_track_exists(ta, ks[i], k);
        lemma_last_track_alike(ta, tb, ks[i]);
    }
    assert forall|i: int| 0 <= i < ks.len() implies (|n: Seq<char>| track_new_change(n, ta, tb))(#[trigger] ks[i]).len()
        == 0 by {
        assert(ks.contains(ks[i]));
        let k = choose|k: int| 0 <= k < track_names(ta).len() && track_names(ta)[k] == ks[i];
        lemma_last_track_exists(ta, ks[i], k);
    }
    lemma_concat_map_empty(ks, |n: Seq<char>| track_old_change(n, ta, tb));
    lemma_concat_map_empty(ks, |n: Seq<char>| track_new_change(n, ta, tb));
}

proof fn lemma_last_guide_alike(ga: Seq<Guide>, gb: Seq<Guide>, pos: i64)
    requires
        guide_views(ga) == guide_views(gb),
    ensures
        last_guide(ga, pos) is Some <==> last_guide(gb, pos) is Some,
        last_guide(ga, pos) is Some ==> last_guide(ga, pos)->0@ == last_guide(gb, pos)->0@,
    decreases ga.len(),
{
    assert(guide_views(ga).len() == ga.len());
    assert(guide_views(gb).len() == gb.len());
    if ga.len() > 0 {
        let k = ga.len() - 1;
        assert(guide_views(ga)[k] == ga[k]@);
        assert(guide_views(gb)[k] == gb[k]@);
        assert(guide_views(ga.drop_last()) =~= guide_views(gb.drop_last())) by {
            assert forall|j: int| 0 <= j < k implies guide_views(ga.drop_last())[j] == guide_views(gb.drop_last())[j] by {
                assert(guide_views(ga)[j] == ga[j]@);
                assert(guide_views(gb)[j] == gb[j]@);
            }
        }
        lemma_last_guide_alike(ga.drop_last(), gb.drop_last(), pos);
    }
}

proof fn lemma_guides_alike_unchanged(a: Project, b: Project)
    requires
        a@ == b@,
    ensures
        guide_changes_of(a, b).len() == 0,
{
    let (ga, gb) = (a.guides@, b.guides@);
    assert(guide_views(ga) == guide_views(gb));
    assert(guide_views(ga).len() == ga.len());
    assert(guide_views(gb).len() == gb.len());
    assert(guide_positions(ga) =~= guide_positions(gb)) by {
        assert forall|j: int| 0 <= j < ga.len() implies guide_positions(ga)[j] == guide_positions(gb)[j] by {
            assert(guide_views(ga)[j] == ga[j]@);
            assert(guide_views(gb)[j] == gb[j]@);
        }
    }
    let ks = key_set_int(guide_positions(ga));
    lemma_key_set_int_members(guide_positions(ga));
    assert forall|i: int| 0 <= i < ks.len() implies (|q: i64| guide_old_change(q, ga, gb))(#[trigger] ks[i]).len() == 0 by {
        assert(ks.contains(ks[i]));
        let k = choose|k: int| 0 <= k < guide_positions(ga).len() && guide_positions(ga)[k] == ks[i];
        lemma_last_guide_exists(ga, ks[i], k);
        lemma_last_guide_alike(ga, gb, ks[i]);
    }
    assert forall|i: int| 0 <= i < ks.len() implies (|q: i64| guide_new_change(q, ga, gb))(#[trigger] ks[i]).len() == 0 by {
        assert(ks.contains(ks[i]));
        let k = choose|k: int| 0 <= k < guide_positions(ga).len() && guide_positions(ga)[k] == ks[i];
        lemma_last_guide_exists(ga, ks[i], k);
    }
    lemma_concat_map_empty(ks, |q: i64| guide_old_change(q, ga, gb));
    lemma_concat_map_empty(ks, |q: i64| guide_new_change(q, ga, gb));
}

proof fn lemma_clips_alike(cs: Seq<TimelineClip>, ds: Seq<TimelineClip>)
    requires
        crate::model::clip_views(cs) == crate::model::clip_views(ds),
    ensures
        cs.len() == ds.len(),
        forall|i: int| #![trigger cs[i]] #![trigger ds[i]] 0 <= i < cs.len() ==> cs[i]@ == ds[i]@,
{
    assert(crate::model::clip_views(cs).len() == cs.len());
    assert(crate::model::clip_views(ds).len() == ds.len());
    assert forall|i: int| #![trigger cs[i]] #![trigger ds[i]] 0 <= i < cs.len() implies cs[i]@ == ds[i]@ by {
        assert(crate::model::clip_views(cs)[i] == cs[i]@);
        assert(crate::model::clip_views(ds)[i] == ds[i]@);
    }
}

proof fn lemma_exact_from_alike(cs: Seq<TimelineClip>, ds: Seq<TimelineClip>, used: Set<int>, i: int, j: int)
    requires
        crate::model::clip_views(cs) == crate::model::clip_views(ds),
        0 <= j <= i < cs.len(),
        forall|k: int| j <= k < i ==> used.contains(k),
        !used.contains(i),
    ensures
        exact_from(cs, ds, used, i, j) == Some(i),
    decreases i - j,
{
    lemma_clips_alike(cs, ds);
    assert(cs[i]@ == ds[i]@);
    if j < i {
        lemma_exact_from_alike(cs, ds, used, i, j + 1);
    }
}

proof fn lemma_exact_pass_alike(cs: Seq<TimelineClip>, ds: Seq<TimelineClip>, n: int)
    requires
        crate::model::clip_views(cs) == crate::model::clip_views(ds),
        0 <= n <= cs.len(),
    ensures
        exact_pass(cs, ds, n) == (PairScan { pairs: self_pairs(n), used: first_indices(n), matched: first_indices(n) }),
    decreases n,
{
    if n > 0 {
        lemma_exact_pass_alike(cs, ds, n - 1);
        lemma_exact_from_alike(cs, ds, first_indices(n - 1), n - 1, 0);
        assert(self_pairs(n - 1).push(ClipPairing::Both((n - 1) as usize, (n - 1) as usize)) =~= self_pairs(n));
        assert(first_indices(n - 1).insert(n - 1) =~= first_indices(n));
    } else {
        assert(self_pairs(n) =~= Seq::<ClipPairing>::empty());
        assert(first_indices(n) =~= Set::<int>::empty());
    }
}

proof fn lemma_near_pass_alike(cs: Seq<TimelineClip>, ds: Seq<TimelineClip>, n: int)
    requires
        crate::model::clip_views(cs) == crate::model::clip_views(ds),
        0 <= n <= cs.len(),
    ensures
        near_pass(cs, ds, n) == exact_pass(cs, ds, cs.len() as int),
    decreases n,
{
    lemma_exact_pass_alike(cs, ds, cs.len() as int);
    if n > 0 {
        lemma_near_pass_alike(cs, ds, n - 1);
    }
}

proof fn lemma_effect_views_alike(es: Seq<Effect>, fs: Seq<Effect>)
    requires
        effect_views(es) == effect_views(fs),
    ensures
        es.len() == fs.len(),
        forall|i: int| #![trigger es[i]] #![trigger fs[i]] 0 <= i < es.len() ==> es[i]@ == fs[i]@,
        effect_names(es) == effect_names(fs),
{
    assert(effect_views(es).len() == es.len());
    assert(effect_views(fs).len() == fs.len());
    assert forall|i: int| #![trigger es[i]] #![trigger fs[i]] 0 <= i < es.len() implies es[i]@ == fs[i]@ by {
        assert(effect_views(es)[i] == es[i]@);
        assert(effect_views(fs)[i] == fs[i]@);
    }
    assert(effect_names(es) =~= effect_names(fs));
}

proof fn lemma_named_alike(es: Seq<Effect>, fs: Seq<Effect>, name: Seq<char>)
    requires
        effect_views(es) == effect_views(fs),
    ensures
        effect_views(named(es, name)) == effect_views(named(fs, name)),
    decreases es.len(),
{
    lemma_effect_views_alike(es, fs);
    if es.len() > 0 {
        let k = es.len() - 1;
        assert(es[k]@ == fs[k]@);
        assert(effect_views(es.drop_last()) =~= effect_views(fs.drop_last())) by {
            assert forall|j: int| 0 <= j < k implies effect_views(es.drop_last())[j] == effect_views(fs.drop_last())[j] by {
                assert(es[j]@ == fs[j]@);
            }
        }
        lemma_named_alike(es.drop_last(), fs.drop_last(), name);
        let (x, y) = (named(es.drop_last(), name), named(fs.drop_last(), name));
        assert(effect_views(x.push(es.last())) =~= effect_views(x).push(es.last()@));
        assert(effect_views(y.push(fs.last())) =~= effect_views(y).push(fs.last()@));
    }
}

proof fn lemma_find_param_alike(ps: Seq<(String, String)>, qs: Seq<(String, String)>, key: Seq<char>)
    requires
        pair_views(ps) == pair_views(qs),
    ensures
        find_param(ps, key) == find_param(qs, key),
    decreases ps.len(),
{
    assert(pair_views(ps).len() == ps.len());
    assert(pair_views(qs).len() == qs.len());
    if ps.len() > 0 {
        assert(pair_views(ps)[0] == pair_views(qs)[0]);
        assert(pair_views(ps.drop_first()) =~= pair_views(qs.drop_first())) by {
            assert forall|j: int| 0 <= j < ps.len() - 1 implies pair_views(ps.drop_first())[j] == pair_views(
                qs.drop_first(),
            )[j] by {
                assert(pair_views(ps)[j + 1] == pair_views(qs)[j + 1]);
            }
        }
        lemma_find_param_alike(ps.drop_first(), qs.drop_first(), key);
    }
}

proof fn lemma_params_alike(e: Effect, f: Effect)
    requires
        e@ == f@,
    ensures
        param_changes_of(e, f).len() == 0,
{
    let ks = key_set(param_keys(e.params@) + param_keys(f.params@));
    assert forall|i: int| 0 <= i < ks.len() implies (|k: Seq<char>| param_change_for(k, e, f))(#[trigger] ks[i]).len()
        == 0 by {
        lemma_find_param_alike(e.params@, f.params@, ks[i]);
    }
    lemma_concat_map_empty(ks, |k: Seq<char>| param_change_for(k, e, f));
}

proof fn lemma_zip_alike(name: Seq<char>, os: Seq<Effect>, ns: Seq<Effect>, k: int)
    requires
        effect_views(os) == effect_views(ns),
        k <= os.len(),
    ensures
        effect_zip(name, os, ns, k).len() == 0,
    decreases k,
{
    if k > 0 {
        lemma_zip_alike(name, os, ns, k - 1);
        lemma_effect_views_alike(os, ns);
        assert(os[k - 1]@ == ns[k - 1]@);
        lemma_params_alike(os[k - 1], ns[k - 1]);
    }
}

proof fn lemma_effect_changes_alike(o: TimelineClip, n: TimelineClip)
    requires
        o@ == n@,
    ensures
        effect_changes_of(o, n).len() == 0,
{
    let (es, fs) = (o.effects@, n.effects@);
    assert(effect_views(es) == effect_views(fs));
    lemma_effect_views_alike(es, fs);
    let ks = key_set(effect_names(es) + effect_names(fs));
    assert forall|i: int| 0 <= i < ks.len() implies (|name: Seq<char>| name_changes(name, es, fs))(#[trigger] ks[i]).len()
        == 0 by {
        let name = ks[i];
        lemma_named_alike(es, fs, name);
        let (os, ns) = (named(es, name), named(fs, name));
        lemma_effect_views_alike(os, ns);
        lemma_zip_alike(name, os, ns, os.len() as int);
    }
    lemma_concat_map_empty(ks, |name: Seq<char>| name_changes(name, es, fs));
}

proof fn lemma_track_clips_alike(name: Seq<char>, ot: Track, nt: Track, a: Project, b: Project)
    requires
        ot@ == nt@,
    ensures
        track_clip_changes(name, ot, nt, a, b).len() == 0,
{
    let (cs, ds) = (ot.clips@, nt.clips@);
    assert(crate::model::clip_views(cs) == crate::model::clip_views(ds));
    lemma_clips_alike(cs, ds);
    lemma_near_pass_alike(cs, ds, cs.len() as int);
    lemma_exact_pass_alike(cs, ds, cs.len() as int);
    lemma_added_none(ds.len() as int, cs.len() as int);
    let pairs = pair_clips(cs, ds);
    assert(pairs =~= self_pairs(cs.len() as int));
    let f = |pr: ClipPairing| pairing_changes(pr, name, cs, ds, a, b);
    assert forall|i: int| 0 <= i < pairs.len() implies f(#[trigger] pairs[i]).len() == 0 by {
        assert(ot.clips@.len() == ot.clips.len());
        assert(pairs[i] == ClipPairing::Both(i as usize, i as usize));
        assert((i as usize) as int == i);
        assert(cs[i]@ == ds[i]@);
        lemma_effect_changes_alike(cs[i], ds[i]);
        assert(with_names(name, clip_name(b, ds[i]), effect_changes_of(cs[i], ds[i])).len() == 0);
    }
    lemma_concat_map_empty(pairs, f);
}

proof fn lemma_clips_alike_unchanged(a: Project, b: Project)
    requires
        a@ == b@,
    ensures
        clip_changes_of(a, b).len() == 0,
{
    let (ta, tb) = (all_tracks(a), all_tracks(b));
    lemma_sequences_alike(a.sequences@, b.sequences@);
    lemma_tracks_alike(ta, tb);
    let ks = key_set(track_names(tb));
    assert forall|i: int| 0 <= i < ks.len() implies (|name: Seq<char>| clip_changes_for(name, a, b))(
        #[trigger] ks[i],
    ).len() == 0 by {
        lemma_last_track_alike(ta, tb, ks[i]);
        if let Some(ot) = last_track(ta, ks[i]) {
            lemma_track_clips_alike(ks[i], ot, last_track(tb, ks[i])->0, a, b);
        }
    }
    lemma_concat_map_empty(ks, |name: Seq<char>| clip_changes_for(name, a, b));
}

proof fn lemma_markers_alike(ms: Seq<Marker>, ns: Seq<Marker>)
    requires
        marker_views(ms) == marker_views(ns),
    ensures
        ms.len() == ns.len(),
        forall|i: int| #![trigger ms[i]] #![trigger ns[i]] 0 <= i < ms.len() ==> ms[i]@ == ns[i]@,
{
    assert(marker_views(ms).len() == ms.len());
    assert(marker_views(ns).len() == ns.len());
    assert forall|i: int| #![trigger ms[i]] #![trigger ns[i]] 0 <= i < ms.len() implies ms[i]@ == ns[i]@ by {
        assert(marker_views(ms)[i] == ms[i]@);
        assert(marker_views(ns)[i] == ns[i]@);
    }
}

proof fn lemma_first_at_alike(ms: Seq<Marker>, ns: Seq<Marker>, used: Set<int>, i: int, j: int)
    requires
        marker_views(ms) == marker_views(ns),
        0 <= j <= i < ms.len(),
        forall|k: int| j <= k < i ==> used.contains(k),
        !used.contains(i),
    ensures
        first_at(ns, used, ms[i].position, j) == Some(i),
    decreases i - j,
{
    lemma_markers_alike(ms, ns);
    assert(ms[i]@ == ns[i]@);
    if j < i {
        lemma_first_at_alike(ms, ns, used, i, j + 1);
    }
}

proof fn lemma_marker_scan_alike(ms: Seq<Marker>, ns: Seq<Marker>, n: int)
    requires
        marker_views(ms) == marker_views(ns),
        0 <= n <= ms.len(),
    ensures
        marker_scan(ms, ns, n).changes.len() == 0,
        marker_scan(ms, ns, n).used == first_indices(n),
    decreases n,
{
    if n > 0 {
        lemma_marker_scan_alike(ms, ns, n - 1);
        lemma_first_at_alike(ms, ns, first_indices(n - 1), n - 1, 0);
        lemma_markers_alike(ms, ns);
        assert(ms[n - 1]@ == ns[n - 1]@);
        assert(first_indices(n - 1).insert(n - 1) =~= first_indices(n));
    } else {
        assert(first_indices(n) =~= Set::<int>::empty());
    }
}

proof fn lemma_markers_alike_unchanged(a: Project, b: Project)
    requires
        a@ == b@,
    ensures
        marker_changes_of(a, b).len() == 0,
{
    let (ms, ns) = (all_markers(a), all_markers(b));
    lemma_sequences_alike(a.sequences@, b.sequences@);
    lemma_markers_alike(ms, ns);
    lemma_marker_scan_alike(ms, ns, ms.len() as int);
    lemma_markers_added_none(ns, ns.len() as int, ms.len() as int);
}

/// Two projects that read alike, the same values in whatever strings and
/// vectors hold them, have no changes between them.
pub proof fn alike_projects_have_no_changes(a: Project, b: Project, rate: spec_fn(u32, u32) -> Seq<char>)
    requires
        a.well_formed(),
        a@ == b@,
    ensures
        diff_of(a, b, rate).is_empty(),
{
    assert(a.profile@ == b.profile@);
    lemma_bins_alike_unchanged(a, b);
    lemma_tracks_alike_unchanged(a, b);
    lemma_clips_alike_unchanged(a, b);
    lemma_markers_alike_unchanged(a, b);
    lemma_guides_alike_unchanged(a, b);
}

// ---------------------------------------------------------------------------
// What each change says.

/// How far apart two positions are, in frames.
pub open spec fn apart(a: i64, b: i64) -> int {
    if a <= b {
        b - a
    } else {
        a - b
    }
}

/// New clip `j` plays old clip `i`'s source and is not yet taken, and no
/// other new clip still free that plays it lies strictly closer to it.
pub open spec fn nearest_free(old: Seq<TimelineClip>, new: Seq<TimelineClip>, used: Set<int>, i: int, j: int) -> bool {
    &&& 0 <= j < new.len()
    &&& !used.contains(j)
    &&& new[j].bin_id@ == old[i].bin_id@
    &&& forall|k: int|
        #![trigger new[k]]
        0 <= k < new.len() && !used.contains(k) && new[k].bin_id@ == old[i].bin_id@ ==> apart(
            old[i].position,
            new[j].position,
        ) <= apart(old[i].position, new[k].position)
}

proof fn lemma_nearest_before_is_nearest(
    old: Seq<TimelineClip>,
    new: Seq<TimelineClip>,
    used: Set<int>,
    i: int,
    n: int,
)
    requires
        0 <= n <= new.len(),
    ensures
        nearest_before(old, new, used, i, n) matches Some(j) ==> {
            &&& 0 <= j < n
            &&& !used.contains(j)
            &&& new[j].bin_id@ == old[i].bin_id@
            &&& forall|k: int|
                #![trigger new[k]]
                0 <= k < n && !used.contains(k) && new[k].bin_id@ == old[i].bin_id@ ==> apart(
                    old[i].position,
                    new[j].position,
                ) <= apart(old[i].position, new[k].position)
        },
        nearest_before(old, new, used, i, n) is None ==> forall|k: int|
            #![trigger new[k]]
            0 <= k < n && !used.contains(k) ==> new[k].bin_id@ != old[i].bin_id@,
    decreases n,
{
    if n > 0 {
        lemma_nearest_before_is_nearest(old, new, used, i, n - 1);
    }
}

/// Clips the exact pass left unpaired pair with the nearest new clip still
/// free that plays the same source, so nudging one clip does not cascade
/// onto others; one with no such clip left is reported removed.
pub proof fn leftover_clips_pair_with_the_nearest(old: Seq<TimelineClip>, new: Seq<TimelineClip>, i: int)
    requires
        0 <= i < old.len(),
    ensures
        ({
            let s = near_pass(old, new, i);
            let t = near_pass(old, new, i + 1);
            !s.matched.contains(i) ==> ((exists|j: int|
                #[trigger] nearest_free(old, new, s.used, i, j) && t.pairs == s.pairs.push(
                    ClipPairing::Both(i as usize, j as usize),
                )) || ((forall|k: int|
                #![trigger new[k]]
                0 <= k < new.len() && !s.used.contains(k) ==> new[k].bin_id@ != old[i].bin_id@) && t.pairs
                == s.pairs.push(ClipPairing::Removed(i as usize))))
        }),
{
    let s = near_pass(old, new, i);
    lemma_nearest_before_is_nearest(old, new, s.used, i, new.len() as int);
    if !s.matched.contains(i) {
        if let Some(j) = nearest_before(old, new, s.used, i, new.len() as int) {
            assert(nearest_free(old, new, s.used, i, j));
        }
    }
}

proof fn lemma_pair_toggles(name: Seq<char>, o: Effect, n: Effect)
    ensures
        effect_pair_changes(name, o, n).contains(ClipChangeKindView::EffectDisabled { effect: name }) <==> (
        !o.disabled && n.disabled),
        effect_pair_changes(name, o, n).contains(ClipChangeKindView::EffectEnabled { effect: name }) <==> (
        o.disabled && !n.disabled),
{
    let dis = ClipChangeKindView::EffectDisabled { effect: name };
    let en = ClipChangeKindView::EffectEnabled { effect: name };
    let c = effect_pair_changes(name, o, n);
    let params = param_changes_of(o, n);
    let changed = if params.len() > 0 {
        seq![ClipChangeKindView::EffectChanged { effect: name, params }]
    } else {
        Seq::empty()
    };
    let toggled = if o.disabled != n.disabled {
        if n.disabled {
            seq![dis]
        } else {
            seq![en]
        }
    } else {
        Seq::<ClipChangeKindView>::empty()
    };
    assert(c == toggled + changed);
    if c.contains(dis) {
        let k = choose|k: int| 0 <= k < c.len() && c[k] == dis;
        if k >= toggled.len() {
            assert(changed[k - toggled.len()] == dis);
        }
    }
    if c.contains(en) {
        let k = choose|k: int| 0 <= k < c.len() && c[k] == en;
        if k >= toggled.len() {
            assert(changed[k - toggled.len()] == en);
        }
    }
    if !o.disabled && n.disabled {
        assert(c[0] == dis);
    }
    if o.disabled && !n.disabled {
        assert(c[0] == en);
    }
}

/// Same-named effects are compared in clip order; among the first `k`
/// pairs, a disable is reported exactly when an effect enabled in the
/// earlier save is disabled in the newer one, and an enable exactly when
/// one disabled in the earlier save is enabled in the newer one.
pub proof fn toggles_follow_the_newer_save(name: Seq<char>, os: Seq<Effect>, ns: Seq<Effect>, k: int)
    requires
        0 <= k <= os.len(),
        k <= ns.len(),
    ensures
        effect_zip(name, os, ns, k).contains(ClipChangeKindView::EffectDisabled { effect: name }) <==> exists|m: int|
            0 <= m < k && !(#[trigger] os[m]).disabled && ns[m].disabled,
        effect_zip(name, os, ns, k).contains(ClipChangeKindView::EffectEnabled { effect: name }) <==> exists|m: int|
            0 <= m < k && (#[trigger] os[m]).disabled && !ns[m].disabled,
    decreases k,
{
    let dis = ClipChangeKindView::EffectDisabled { effect: name };
    let en = ClipChangeKindView::EffectEnabled { effect: name };
    if k > 0 {
        toggles_follow_the_newer_save(name, os, ns, k - 1);
        lemma_pair_toggles(name, os[k - 1], ns[k - 1]);
        let a = effect_zip(name, os, ns, k - 1);
        let b = effect_pair_changes(name, os[k - 1], ns[k - 1]);
        assert(effect_zip(name, os, ns, k) == a + b);
        assert forall|x: ClipChangeKindView| (a + b).contains(x) <==> a.contains(x) || b.contains(x) by {
            if (a + b).contains(x) {
                let q = choose|q: int| 0 <= q < (a + b).len() && (a + b)[q] == x;
                if q < a.len() {
                    assert(a[q] == x);
                } else {
                    assert(b[q - a.len()] == x);
                }
            }
            if a.contains(x) {
                let q = choose|q: int| 0 <= q < a.len() && a[q] == x;
                assert((a + b)[q] == x);
            }
            if b.contains(x) {
                let q = choose|q: int| 0 <= q < b.len() && b[q] == x;
                assert((a + b)[a.len() + q] == x);
            }
        }
        if exists|m: int| 0 <= m < k && !(#[trigger] os[m]).disabled && ns[m].disabled {
            let m = choose|m: int| 0 <= m < k && !(#[trigger] os[m]).disabled && ns[m].disabled;
            if m < k - 1 {
                assert(exists|m2: int| 0 <= m2 < k - 1 && !(#[trigger] os[m2]).disabled && ns[m2].disabled);
            }
        }
        if exists|m: int| 0 <= m < k && (#[trigger] os[m]).disabled && !ns[m].disabled {
            let m = choose|m: int| 0 <= m < k && (#[trigger] os[m]).disabled && !ns[m].disabled;
            if m < k - 1 {
                assert(exists|m2: int| 0 <= m2 < k - 1 && (#[trigger] os[m2]).disabled && !ns[m2].disabled);
            }
        }
    } else {
        assert(effect_zip(name, os, ns, k) =~= Seq::<ClipChangeKindView>::empty());
    }
}

/// Whether `ms` holds a marker at `pos` reading `comment`.
pub open spec fn has_marker(ms: Seq<Marker>, pos: i64, comment: Seq<char>) -> bool {
    exists|x: int| 0 <= x < ms.len() && (#[trigger] ms[x]).position == pos && ms[x].comment@ == comment
}

/// What a marker change says of the markers before and after: an added
/// marker is in the newer save, a removed one in the earlier save, a moved
/// one sits at `from` in the earlier save and at `to` in the newer, and a
/// renamed one reads `from` in the earlier save and `to` in the newer.
pub open spec fn marker_change_holds(c: MarkerChangeView, old: Seq<Marker>, new: Seq<Marker>) -> bool {
    match c {
        MarkerChangeView::Added { position, comment } => has_marker(new, position, comment),
        MarkerChangeView::Removed { position, comment } => has_marker(old, position, comment),
        MarkerChangeView::Moved { from, to, comment } => has_marker(old, from, comment) && has_marker(new, to, comment),
        MarkerChangeView::Retitled { position, from, to } => has_marker(old, position, from) && has_marker(
            new,
            position,
            to,
        ),
    }
}

proof fn lemma_first_at_found(new: Seq<Marker>, used: Set<int>, pos: i64, j: int)
    ensures
        first_at(new, used, pos, j) matches Some(k) ==> 0 <= k < new.len() && new[k].position == pos,
    decreases new.len() - j,
{
    if 0 <= j < new.len() {
        lemma_first_at_found(new, used, pos, j + 1);
    }
}

proof fn lemma_first_titled_found(new: Seq<Marker>, used: Set<int>, comment: Seq<char>, j: int)
    ensures
        first_titled(new, used, comment, j) matches Some(k) ==> 0 <= k < new.len() && new[k].comment@ == comment,
    decreases new.len() - j,
{
    if 0 <= j < new.len() {
        lemma_first_titled_found(new, used, comment, j + 1);
    }
}

proof fn lemma_marker_scan_holds(old: Seq<Marker>, new: Seq<Marker>, n: int)
    requires
        n <= old.len(),
    ensures
        forall|c: int|
            0 <= c < marker_scan(old, new, n).changes.len() ==> marker_change_holds(
                #[trigger] marker_scan(old, new, n).changes[c],
                old,
                new,
            ),
    decreases n,
{
    if n > 0 {
        lemma_marker_scan_holds(old, new, n - 1);
        let s = marker_scan(old, new, n - 1);
        let o = old[n - 1];
        lemma_first_at_found(new, s.used, o.position, 0);
        lemma_first_titled_found(new, s.used, o.comment@, 0);
        assert(has_marker(old, o.position, o.comment@));
        let t = marker_scan(old, new, n);
        assert forall|c: int| 0 <= c < t.changes.len() implies marker_change_holds(#[trigger] t.changes[c], old, new) by {
            if c < s.changes.len() {
                assert(t.changes[c] == s.changes[c]);
            } else {
                match first_at(new, s.used, o.position, 0) {
                    Some(j) => {
                        assert(has_marker(new, o.position, new[j].comment@));
                    },
                    None => match first_titled(new, s.used, o.comment@, 0) {
                        Some(j) => {
                            assert(has_marker(new, new[j].position, o.comment@));
                        },
                        None => {},
                    },
                }
            }
        }
    }
}

proof fn lemma_markers_added_hold(old: Seq<Marker>, new: Seq<Marker>, used: Set<int>, n: int)
    requires
        n <= new.len(),
    ensures
        forall|c: int|
            0 <= c < markers_added(new, used, n).len() ==> marker_change_holds(
                #[trigger] markers_added(new, used, n)[c],
                old,
                new,
            ),
    decreases n,
{
    if n > 0 {
        lemma_markers_added_hold(old, new, used, n - 1);
        let s = markers_added(new, used, n - 1);
        assert(has_marker(new, new[n - 1].position, new[n - 1].comment@));
        assert forall|c: int| 0 <= c < markers_added(new, used, n).len() implies marker_change_holds(
            #[trigger] markers_added(new, used, n)[c],
            old,
            new,
        ) by {
            if c < s.len() {
                assert(markers_added(new, used, n)[c] == s[c]);
            }
        }
    }
}

/// Every marker change says truly where markers were and are: a marker
/// reported moved from `from` to `to` sits at `from` in the earlier save and
/// at `to` in the newer, with its comment; a renamed one reads its old
/// comment in the earlier save and its new one in the newer; an added one
/// is in the newer save and a removed one in the earlier.
pub proof fn marker_changes_say_before_and_after(a: Project, b: Project)
    ensures
        forall|c: int|
            0 <= c < marker_changes_of(a, b).len() ==> marker_change_holds(
                #[trigger] marker_changes_of(a, b)[c],
                all_markers(a),
                all_markers(b),
            ),
{
    let (old, new) = (all_markers(a), all_markers(b));
    let s = marker_scan(old, new, old.len() as int);
    lemma_marker_scan_holds(old, new, old.len() as int);
    lemma_markers_added_hold(old, new, s.used, new.len() as int);
    let added = markers_added(new, s.used, new.len() as int);
    assert forall|c: int| 0 <= c < marker_changes_of(a, b).len() implies marker_change_holds(
        #[trigger] marker_changes_of(a, b)[c],
        old,
        new,
    ) by {
        if c < s.changes.len() {
            assert(marker_changes_of(a, b)[c] == s.changes[c]);
        } else {
            assert(marker_changes_of(a, b)[c] == added[c - s.changes.len()]);
        }
    }
}

/// Whether the profile change list holds a change of `what`.
pub open spec fn reports(cs: Seq<ProfileChangeView>, what: Seq<char>) -> bool {
    exists|k: int| 0 <= k < cs.len() && (#[trigger] cs[k]).what == what
}

/// Profile changes go from the earlier save to the newer: a resolution
/// change is reported exactly when the width or height differ, from the
/// earlier save's `width`x`height` to the newer's, in decimal; a frame rate
/// change exactly when the rate differs, from the earlier rate's label to
/// the newer's.
pub proof fn profile_changes_say_before_and_after(a: Project, b: Project, rate: spec_fn(u32, u32) -> Seq<char>)
    ensures
        ({
            let cs = profile_changes_of(a, b, rate);
            &&& reports(cs, "resolution"@) <==> (a.profile.width != b.profile.width || a.profile.height
                != b.profile.height)
            &&& reports(cs, "frame rate"@) <==> (a.profile.frame_rate_num != b.profile.frame_rate_num
                || a.profile.frame_rate_den != b.profile.frame_rate_den)
            &&& forall|k: int|
                0 <= k < cs.len() && (#[trigger] cs[k]).what == "resolution"@ ==> cs[k].from == decimal(
                    a.profile.width as nat,
                ) + "x"@ + decimal(a.profile.height as nat) && cs[k].to == decimal(b.profile.width as nat) + "x"@
                    + decimal(b.profile.height as nat)
            &&& forall|k: int|
                0 <= k < cs.len() && (#[trigger] cs[k]).what == "frame rate"@ ==> cs[k].from == rate(
                    a.profile.frame_rate_num,
                    a.profile.frame_rate_den,
                ) && cs[k].to == rate(b.profile.frame_rate_num, b.profile.frame_rate_den)
        }),
{
    reveal_strlit("resolution");
    reveal_strlit("frame rate");
    assert("resolution"@[0] != "frame rate"@[0]);
    let cs = profile_changes_of(a, b, rate);
    let (pa, pb) = (a.profile, b.profile);
    if pa.width != pb.width || pa.height != pb.height {
        assert(cs[0].what == "resolution"@);
    }
    if pa.frame_rate_num != pb.frame_rate_num || pa.frame_rate_den != pb.frame_rate_den {
        assert(cs[cs.len() - 1].what == "frame rate"@);
    }
}

/// What a track change says of the tracks before and after: an added track
/// is only in the newer save, a removed one only in the earlier, a locked
/// one is unlocked before and locked after, and an unlocked one the other
/// way round.
pub open spec fn track_change_holds(c: TrackChangeView, ta: Seq<Track>, tb: Seq<Track>) -> bool {
    match c {
        TrackChangeView::Added { track } => last_track(ta, track) is None && last_track(tb, track) is Some,
        TrackChangeView::Removed { track } => last_track(ta, track) is Some && last_track(tb, track) is None,
        TrackChangeView::Locked { track } => {
            &&& last_track(ta, track) is Some
            &&& last_track(tb, track) is Some
            &&& !last_track(ta, track)->0.locked
            &&& last_track(tb, track)->0.locked
        },
        TrackChangeView::Unlocked { track } => {
            &&& last_track(ta, track) is Some
            &&& last_track(tb, track) is Some
            &&& last_track(ta, track)->0.locked
            &&& !last_track(tb, track)->0.locked
        },
    }
}

/// Every track change says truly what the track was and is: added tracks
/// are new, removed ones gone, and a lock or unlock goes from the earlier
/// save's state to the newer one's.
pub proof fn track_changes_say_before_and_after(a: Project, b: Project)
    ensures
        forall|c: int|
            0 <= c < track_changes_of(a, b).len() ==> track_change_holds(
                #[trigger] track_changes_of(a, b)[c],
                all_tracks(a),
                all_tracks(b),
            ),
{
    let (ta, tb) = (all_tracks(a), all_tracks(b));
    let (ka, kb) = (key_set(track_names(ta)), key_set(track_names(tb)));
    let old = |n: Seq<char>| track_old_change(n, ta, tb);
    let new = |n: Seq<char>| track_new_change(n, ta, tb);
    let x = concat_map(ka, old);
    let y = concat_map(kb, new);
    lemma_key_set_members(track_names(ta));
    lemma_key_set_members(track_names(tb));
    assert forall|c: int| 0 <= c < track_changes_of(a, b).len() implies track_change_holds(
        #[trigger] track_changes_of(a, b)[c],
        ta,
        tb,
    ) by {
        let ch = track_changes_of(a, b)[c];
        if c < x.len() {
            assert(ch == x[c]);
            assert(x.contains(ch));
            lemma_concat_map_contains(ka, old, ch);
            let i = choose|i: int| 0 <= i < ka.len() && #[trigger] old(ka[i]).contains(ch);
            assert(ka.contains(ka[i]));
            lemma_last_track_named(ta, ka[i]);
            let piece = old(ka[i]);
            let q = choose|q: int| 0 <= q < piece.len() && piece[q] == ch;
        } else {
            assert(ch == y[c - x.len()]);
            assert(y.contains(ch));
            lemma_concat_map_contains(kb, new, ch);
            let j = choose|j: int| 0 <= j < kb.len() && #[trigger] new(kb[j]).contains(ch);
            assert(kb.contains(kb[j]));
            lemma_last_track_named(tb, kb[j]);
            let piece = new(kb[j]);
            let q = choose|q: int| 0 <= q < piece.len() && piece[q] == ch;
        }
    }
}

proof fn lemma_find_bin_none(cs: Seq<BinClip>, id: Seq<char>)
    ensures
        find_bin(cs, id) is None ==> forall|k: int| 0 <= k < cs.len() ==> (#[trigger] cs[k]).id@ != id,
    decreases cs.len(),
{
    if cs.len() > 0 {
        lemma_find_bin_none(cs.drop_first(), id);
        if find_bin(cs, id) is None {
            assert forall|k: int| 0 <= k < cs.len() implies (#[trigger] cs[k]).id@ != id by {
                if k > 0 {
                    assert(cs.drop_first()[k - 1] == cs[k]);
                }
            }
        }
    }
}

/// What a bin change says of the clips before and after: an added clip is
/// in the newer save and no clip of the earlier has its id, a removed one
/// the other way round, and a renamed one is a clip of the earlier save
/// called `from` whose id a clip of the newer save, called `to`, has.
pub open spec fn bin_change_holds(c: BinChangeView, xs: Seq<BinClip>, ys: Seq<BinClip>) -> bool {
    match c {
        BinChangeView::Added { clip } => exists|j: int|
            0 <= j < ys.len() && clip_label(#[trigger] ys[j]) == clip && forall|k: int|
                0 <= k < xs.len() ==> (#[trigger] xs[k]).id@ != ys[j].id@,
        BinChangeView::Removed { clip } => exists|i: int|
            0 <= i < xs.len() && clip_label(#[trigger] xs[i]) == clip && forall|k: int|
                0 <= k < ys.len() ==> (#[trigger] ys[k]).id@ != xs[i].id@,
        BinChangeView::Renamed { from, to } => exists|i: int, j: int|
            0 <= i < xs.len() && 0 <= j < ys.len() && (#[trigger] xs[i]).id@ == (#[trigger] ys[j]).id@ && clip_label(
                xs[i],
            ) == from && clip_label(ys[j]) == to,
    }
}

/// Every bin change says truly what the bin held before and after.
pub proof fn bin_changes_say_before_and_after(a: Project, b: Project)
    ensures
        forall|c: int|
            0 <= c < bin_changes_of(a, b).len() ==> bin_change_holds(
                #[trigger] bin_changes_of(a, b)[c],
                a.bin_clips@,
                b.bin_clips@,
            ),
{
    let (xs, ys) = (a.bin_clips@, b.bin_clips@);
    let old = |o: BinClip| bin_old_change(o, ys);
    let new = |n: BinClip| bin_new_change(n, xs);
    let x = concat_map(xs, old);
    let y = concat_map(ys, new);
    assert forall|c: int| 0 <= c < bin_changes_of(a, b).len() implies bin_change_holds(
        #[trigger] bin_changes_of(a, b)[c],
        xs,
        ys,
    ) by {
        let ch = bin_changes_of(a, b)[c];
        if c < x.len() {
            assert(ch == x[c]);
            assert(x.contains(ch));
            lemma_concat_map_contains(xs, old, ch);
            let i = choose|i: int| 0 <= i < xs.len() && #[trigger] old(xs[i]).contains(ch);
            let piece = old(xs[i]);
            let q = choose|q: int| 0 <= q < piece.len() && piece[q] == ch;
            lemma_find_bin_none(ys, xs[i].id@);
            lemma_find_bin_member(ys, xs[i].id@);
            if let Some(n) = find_bin(ys, xs[i].id@) {
                let j = choose|j: int| 0 <= j < ys.len() && ys[j] == n;
                assert(xs[i].id@ == ys[j].id@);
            }
        } else {
            assert(ch == y[c - x.len()]);
            assert(y.contains(ch));
            lemma_concat_map_contains(ys, new, ch);
            let j = choose|j: int| 0 <= j < ys.len() && #[trigger] new(ys[j]).contains(ch);
            let piece = new(ys[j]);
            let q = choose|q: int| 0 <= q < piece.len() && piece[q] == ch;
            lemma_find_bin_none(xs, ys[j].id@);
        }
    }
}

/// What a guide change says of the guides before and after: an added guide
/// is at its position only in the newer save, with its comment; a removed
/// one only in the earlier; a renamed one reads `from` in the earlier save
/// and `to` in the newer.
pub open spec fn guide_change_holds(c: GuideChangeView, ga: Seq<Guide>, gb: Seq<Guide>) -> bool {
    match c {
        GuideChangeView::Added { position, comment } => {
            &&& last_guide(ga, position) is None
            &&& last_guide(gb, position) is Some
            &&& last_guide(gb, position)->0.comment@ == comment
        },
        GuideChangeView::Removed { position, comment } => {
            &&& last_guide(ga, position) is Some
            &&& last_guide(ga, position)->0.comment@ == comment
            &&& last_guide(gb, position) is None
        },
        GuideChangeView::Retitled { position, from, to } => {
            &&& last_guide(ga, position) is Some
            &&& last_guide(ga, position)->0.comment@ == from
            &&& last_guide(gb, position) is Some
            &&& last_guide(gb, position)->0.comment@ == to
        },
    }
}

proof fn lemma_guide_key_found(gs: Seq<Guide>, p: i64)
    requires
        key_set_int(guide_positions(gs)).contains(p),
    ensures
        last_guide(gs, p) is Some,
{
    lemma_key_set_int_members(guide_positions(gs));
    let k = choose|k: int| 0 <= k < guide_positions(gs).len() && guide_positions(gs)[k] == p;
    lemma_last_guide_exists(gs, p, k);
}

/// Every guide change says truly what the guides were and are.
pub proof fn guide_changes_say_before_and_after(a: Project, b: Project)
    ensures
        forall|c: int|
            0 <= c < guide_changes_of(a, b).len() ==> guide_change_holds(
                #[trigger] guide_changes_of(a, b)[c],
                a.guides@,
                b.guides@,
            ),
{
    let (ga, gb) = (a.guides@, b.guides@);
    let (ka, kb) = (key_set_int(guide_positions(ga)), key_set_int(guide_positions(gb)));
    let old = |p: i64| guide_old_change(p, ga, gb);
    let new = |p: i64| guide_new_change(p, ga, gb);
    let x = concat_map(ka, old);
    let y = concat_map(kb, new);
    assert forall|c: int| 0 <= c < guide_changes_of(a, b).len() implies guide_change_holds(
        #[trigger] guide_changes_of(a, b)[c],
        ga,
        gb,
    ) by {
        let ch = guide_changes_of(a, b)[c];
        if c < x.len() {
            assert(ch == x[c]);
            assert(x.contains(ch));
            lemma_concat_map_contains(ka, old, ch);
            let i = choose|i: int| 0 <= i < ka.len() && #[trigger] old(ka[i]).contains(ch);
            assert(ka.contains(ka[i]));
            lemma_guide_key_found(ga, ka[i]);
            let piece = old(ka[i]);
            let q = choose|q: int| 0 <= q < piece.len() && piece[q] == ch;
        } else {
            assert(ch == y[c - x.len()]);
            assert(y.contains(ch));
            lemma_concat_map_contains(kb, new, ch);
            let j = choose|j: int| 0 <= j < kb.len() && #[trigger] new(kb[j]).contains(ch);
            assert(kb.contains(kb[j]));
            lemma_guide_key_found(gb, kb[j]);
            let piece = new(kb[j]);
            let q = choose|q: int| 0 <= q < piece.len() && piece[q] == ch;
        }
    }
}

/// A pairing names clips that exist, and a pair plays one source.
pub open spec fn pairing_ok(p: ClipPairing, old: Seq<TimelineClip>, new: Seq<TimelineClip>) -> bool {
    &&& pairing_in_range(p, old.len() as int, new.len() as int)
    &&& p matches ClipPairing::Both(i, j) ==> old[i as int].bin_id@ == new[j as int].bin_id@
}

proof fn lemma_exact_from_same_source(old: Seq<TimelineClip>, new: Seq<TimelineClip>, used: Set<int>, i: int, j: int)
    ensures
        exact_from(old, new, used, i, j) matches Some(k) ==> new[k].bin_id@ == old[i].bin_id@,
    decreases new.len() - j,
{
    if 0 <= j < new.len() {
        lemma_exact_from_same_source(old, new, used, i, j + 1);
    }
}

proof fn lemma_exact_pass_in_range(old: Seq<TimelineClip>, new: Seq<TimelineClip>, n: int)
    requires
        0 <= n <= old.len() <= usize::MAX,
        new.len() <= usize::MAX,
    ensures
        forall|k: int|
            0 <= k < exact_pass(old, new, n).pairs.len() ==> pairing_ok(#[trigger] exact_pass(old, new, n).pairs[k], old, new),
        forall|u: int| #[trigger] exact_pass(old, new, n).used.contains(u) ==> 0 <= u < new.len(),
    decreases n,
{
    if n > 0 {
        lemma_exact_pass_in_range(old, new, n - 1);
        let s = exact_pass(old, new, n - 1);
        lemma_exact_from_bounds(old, new, s.used, n - 1, 0);
        lemma_exact_from_same_source(old, new, s.used, n - 1, 0);
        let t = exact_pass(old, new, n);
        assert forall|k: int| 0 <= k < t.pairs.len() implies pairing_ok(#[trigger] t.pairs[k], old, new) by {
            if k < s.pairs.len() {
                assert(t.pairs[k] == s.pairs[k]);
            }
        }
    }
}

proof fn lemma_near_pass_in_range(old: Seq<TimelineClip>, new: Seq<TimelineClip>, n: int)
    requires
        0 <= n <= old.len() <= usize::MAX,
        new.len() <= usize::MAX,
    ensures
        forall|k: int|
            0 <= k < near_pass(old, new, n).pairs.len() ==> pairing_ok(#[trigger] near_pass(old, new, n).pairs[k], old, new),
        forall|u: int| #[trigger] near_pass(old, new, n).used.contains(u) ==> 0 <= u < new.len(),
    decreases n,
{
    if n > 0 {
        lemma_near_pass_in_range(old, new, n - 1);
        let s = near_pass(old, new, n - 1);
        lemma_nearest_before_bounds(old, new, s.used, n - 1, new.len() as int);
        lemma_nearest_before_is_nearest(old, new, s.used, n - 1, new.len() as int);
        let t = near_pass(old, new, n);
        assert forall|k: int| 0 <= k < t.pairs.len() implies pairing_ok(#[trigger] t.pairs[k], old, new) by {
            if k < s.pairs.len() {
                assert(t.pairs[k] == s.pairs[k]);
            }
        }
    } else {
        lemma_exact_pass_in_range(old, new, old.len() as int);
    }
}

proof fn lemma_clips_added_in_range(used: Set<int>, m: int, old: Seq<TimelineClip>, new: Seq<TimelineClip>)
    requires
        m <= new.len() <= usize::MAX,
    ensures
        forall|k: int| 0 <= k < clips_added(used, m).len() ==> pairing_ok(#[trigger] clips_added(used, m)[k], old, new),
    decreases m,
{
    if m > 0 {
        lemma_clips_added_in_range(used, m - 1, old, new);
        let s = clips_added(used, m - 1);
        assert forall|k: int| 0 <= k < clips_added(used, m).len() implies pairing_ok(
            #[trigger] clips_added(used, m)[k],
            old,
            new,
        ) by {
            if k < s.len() {
                assert(clips_added(used, m)[k] == s[k]);
            }
        }
    }
}

/// Every pair names clips that exist on their side, and a clip paired with
/// another plays the same source.
pub proof fn pairs_name_real_clips(old: Seq<TimelineClip>, new: Seq<TimelineClip>)
    requires
        old.len() <= usize::MAX,
        new.len() <= usize::MAX,
    ensures
        forall|k: int| 0 <= k < pair_clips(old, new).len() ==> pairing_ok(#[trigger] pair_clips(old, new)[k], old, new),
{
    lemma_near_pass_in_range(old, new, old.len() as int);
    let s = near_pass(old, new, old.len() as int);
    lemma_clips_added_in_range(s.used, new.len() as int, old, new);
    let added = clips_added(s.used, new.len() as int);
    assert forall|k: int| 0 <= k < pair_clips(old, new).len() implies pairing_ok(
        #[trigger] pair_clips(old, new)[k],
        old,
        new,
    ) by {
        if k < s.pairs.len() {
            assert(pair_clips(old, new)[k] == s.pairs[k]);
        } else {
            assert(pair_clips(old, new)[k] == added[k - s.pairs.len()]);
        }
    }
}

/// Whether a change kind is about a clip's effects.
pub open spec fn is_effect_kind(k: ClipChangeKindView) -> bool {
    ||| k is EffectAdded
    ||| k is EffectRemoved
    ||| k is EffectChanged
    ||| k is EffectDisabled
    ||| k is EffectEnabled
}

proof fn lemma_repeat_effect(kind: ClipChangeKindView, count: int)
    requires
        is_effect_kind(kind),
    ensures
        forall|x: int| 0 <= x < repeat_kind(kind, count).len() ==> is_effect_kind(#[trigger] repeat_kind(kind, count)[x]),
    decreases count,
{
    if count > 0 {
        lemma_repeat_effect(kind, count - 1);
        let s = repeat_kind(kind, count - 1);
        assert forall|x: int| 0 <= x < repeat_kind(kind, count).len() implies is_effect_kind(
            #[trigger] repeat_kind(kind, count)[x],
        ) by {
            if x < s.len() {
                assert(repeat_kind(kind, count)[x] == s[x]);
            }
        }
    }
}

proof fn lemma_zip_effect(name: Seq<char>, os: Seq<Effect>, ns: Seq<Effect>, k: int)
    ensures
        forall|x: int| 0 <= x < effect_zip(name, os, ns, k).len() ==> is_effect_kind(#[trigger] effect_zip(name, os, ns, k)[x]),
    decreases k,
{
    if k > 0 {
        lemma_zip_effect(name, os, ns, k - 1);
        let a = effect_zip(name, os, ns, k - 1);
        let b = effect_pair_changes(name, os[k - 1], ns[k - 1]);
        assert forall|x: int| 0 <= x < (a + b).len() implies is_effect_kind(#[trigger] (a + b)[x]) by {
            if x < a.len() {
                assert((a + b)[x] == a[x]);
            } else {
                assert((a + b)[x] == b[x - a.len()]);
            }
        }
    }
}

proof fn lemma_effect_changes_are_effects(o: TimelineClip, n: TimelineClip)
    ensures
        forall|x: int| 0 <= x < effect_changes_of(o, n).len() ==> is_effect_kind(#[trigger] effect_changes_of(o, n)[x]),
{
    let ks = key_set(effect_names(o.effects@) + effect_names(n.effects@));
    let f = |name: Seq<char>| name_changes(name, o.effects@, n.effects@);
    assert forall|x: int| 0 <= x < effect_changes_of(o, n).len() implies is_effect_kind(
        #[trigger] effect_changes_of(o, n)[x],
    ) by {
        let e = effect_changes_of(o, n)[x];
        assert(concat_map(ks, f).contains(e));
        lemma_concat_map_contains(ks, f, e);
        let i = choose|i: int| 0 <= i < ks.len() && #[trigger] f(ks[i]).contains(e);
        let name = ks[i];
        let (os, ns) = (named(o.effects@, name), named(n.effects@, name));
        let common = if os.len() < ns.len() { os.len() } else { ns.len() };
        let z = effect_zip(name, os, ns, common as int);
        let r1 = repeat_kind(ClipChangeKindView::EffectRemoved { effect: name }, os.len() - ns.len());
        let r2 = repeat_kind(ClipChangeKindView::EffectAdded { effect: name }, ns.len() - os.len());
        lemma_zip_effect(name, os, ns, common as int);
        lemma_repeat_effect(ClipChangeKindView::EffectRemoved { effect: name }, os.len() - ns.len());
        lemma_repeat_effect(ClipChangeKindView::EffectAdded { effect: name }, ns.len() - os.len());
        let piece = f(name);
        assert(piece == z + r1 + r2);
        let q = choose|q: int| 0 <= q < piece.len() && piece[q] == e;
        if q < z.len() {
            assert(piece[q] == z[q]);
        } else if q < z.len() + r1.len() {
            assert(piece[q] == r1[q - z.len()]);
        } else {
            assert(piece[q] == r2[q - z.len() - r1.len()]);
        }
    }
}

/// Whether track list `ts` has, on a track named `track`, the clip `c`.
pub open spec fn has_clip(ts: Seq<Track>, track: Seq<char>, c: TimelineClip) -> bool {
    exists|t: int, k: int|
        0 <= t < ts.len() && 0 <= k < ts[t].clips@.len() && (#[trigger] ts[t]).name@ == track && #[trigger] ts[t].clips@[k]
            == c
}

/// What a clip change says of the clips before and after, on its track: a
/// moved clip sits at `from` in the earlier save and, playing the same
/// source, at `to` in the newer; a trimmed clip is `from_duration` frames
/// long before and `to_duration` long after, where it now sits; an added
/// clip is in the newer save, a removed one in the earlier.
pub open spec fn clip_change_holds(ch: ClipChangeView, ta: Seq<Track>, tb: Seq<Track>) -> bool {
    match ch.kind {
        ClipChangeKindView::Moved { from, to } => exists|o: TimelineClip, n: TimelineClip|
            #[trigger] has_clip(ta, ch.track, o) && #[trigger] has_clip(tb, ch.track, n) && o.position == from
                && n.position == to && o.bin_id@ == n.bin_id@,
        ClipChangeKindView::Trimmed { from_duration, to_duration, position } => exists|
            o: TimelineClip,
            n: TimelineClip,
        |
            #[trigger] has_clip(ta, ch.track, o) && #[trigger] has_clip(tb, ch.track, n) && (o.source_out
                - o.source_in + 1) as Frames == from_duration && (n.source_out - n.source_in + 1) as Frames
                == to_duration && n.position == position && o.bin_id@ == n.bin_id@,
        ClipChangeKindView::Added { position, duration } => exists|n: TimelineClip|
            #[trigger] has_clip(tb, ch.track, n) && n.position == position && (n.source_out - n.source_in + 1) as Frames
                == duration,
        ClipChangeKindView::Removed { position } => exists|o: TimelineClip|
            #[trigger] has_clip(ta, ch.track, o) && o.position == position,
        _ => is_effect_kind(ch.kind),
    }
}

proof fn lemma_last_track_member(ts: Seq<Track>, name: Seq<char>)
    ensures
        last_track(ts, name) matches Some(t) ==> t.name@ == name && exists|x: int| 0 <= x < ts.len() && ts[x] == t,
    decreases ts.len(),
{
    if ts.len() > 0 && ts.last().name@ != name {
        lemma_last_track_member(ts.drop_last(), name);
        if let Some(t) = last_track(ts, name) {
            let x = choose|x: int| 0 <= x < ts.drop_last().len() && ts.drop_last()[x] == t;
            assert(ts[x] == t);
        }
    } else if ts.len() > 0 {
        assert(ts[ts.len() - 1] == ts.last());
    }
}

proof fn lemma_pairing_changes_hold(
    pr: ClipPairing,
    name: Seq<char>,
    ot: Track,
    nt: Track,
    a: Project,
    b: Project,
    x: int,
    y: int,
)
    requires
        pairing_ok(pr, ot.clips@, nt.clips@),
        0 <= x < all_tracks(a).len() && all_tracks(a)[x] == ot && ot.name@ == name,
        0 <= y < all_tracks(b).len() && all_tracks(b)[y] == nt && nt.name@ == name,
    ensures
        forall|e: int|
            0 <= e < pairing_changes(pr, name, ot.clips@, nt.clips@, a, b).len() ==> {
                let ch = #[trigger] pairing_changes(pr, name, ot.clips@, nt.clips@, a, b)[e];
                ch.track == name && clip_change_holds(ch, all_tracks(a), all_tracks(b))
            },
{
    let (ta, tb) = (all_tracks(a), all_tracks(b));
    let pc = pairing_changes(pr, name, ot.clips@, nt.clips@, a, b);
    match pr {
        ClipPairing::Both(i, j) => {
            let (o, n) = (ot.clips@[i as int], nt.clips@[j as int]);
            assert(has_clip(ta, name, o)) by {
                assert(ta[x].clips@[i as int] == o);
            }
            assert(has_clip(tb, name, n)) by {
                assert(tb[y].clips@[j as int] == n);
            }
            let cname = clip_name(b, n);
            let moved = if o.position != n.position {
                seq![ClipChangeView { track: name, clip: cname, kind: ClipChangeKindView::Moved { from: o.position, to: n.position } }]
            } else {
                Seq::empty()
            };
            let trimmed = if o.source_in != n.source_in || o.source_out != n.source_out {
                seq![ClipChangeView {
                    track: name,
                    clip: cname,
                    kind: ClipChangeKindView::Trimmed {
                        from_duration: span(o),
                        to_duration: span(n),
                        position: n.position,
                    },
                }]
            } else {
                Seq::empty()
            };
            let wn = with_names(name, cname, effect_changes_of(o, n));
            lemma_effect_changes_are_effects(o, n);
            assert(pc == moved + trimmed + wn);
            assert forall|e: int| 0 <= e < pc.len() implies {
                let ch = #[trigger] pc[e];
                ch.track == name && clip_change_holds(ch, ta, tb)
            } by {
                if e < moved.len() {
                    assert(pc[e] == moved[e]);
                    assert(has_clip(ta, pc[e].track, o) && has_clip(tb, pc[e].track, n));
                } else if e < moved.len() + trimmed.len() {
                    assert(pc[e] == trimmed[e - moved.len()]);
                    assert(has_clip(ta, pc[e].track, o) && has_clip(tb, pc[e].track, n));
                } else {
                    let w = e - moved.len() - trimmed.len();
                    assert(pc[e] == wn[w]);
                    assert(wn[w].kind == effect_changes_of(o, n)[w]);
                    assert(is_effect_kind(effect_changes_of(o, n)[w]));
                }
            }
        },
        ClipPairing::Removed(i) => {
            let o = ot.clips@[i as int];
            assert(has_clip(ta, name, o)) by {
                assert(ta[x].clips@[i as int] == o);
            }
        },
        ClipPairing::Added(j) => {
            let n = nt.clips@[j as int];
            assert(has_clip(tb, name, n)) by {
                assert(tb[y].clips@[j as int] == n);
            }
        },
    }
}

/// Every clip change says truly, on its track, where its clips were and
/// are: a move goes from the earlier position to the newer one, a trim from
/// the earlier length to the newer one, an added clip is in the newer save
/// and a removed one in the earlier.
pub proof fn clip_changes_say_before_and_after(a: Project, b: Project)
    ensures
        forall|c: int|
            0 <= c < clip_changes_of(a, b).len() ==> clip_change_holds(
                #[trigger] clip_changes_of(a, b)[c],
                all_tracks(a),
                all_tracks(b),
            ),
{
    let (ta, tb) = (all_tracks(a), all_tracks(b));
    let kb = key_set(track_names(tb));
    let cf = |name: Seq<char>| clip_changes_for(name, a, b);
    lemma_key_set_members(track_names(tb));
    assert forall|c: int| 0 <= c < clip_changes_of(a, b).len() implies clip_change_holds(
        #[trigger] clip_changes_of(a, b)[c],
        ta,
        tb,
    ) by {
        let ch = clip_changes_of(a, b)[c];
        assert(concat_map(kb, cf).contains(ch));
        lemma_concat_map_contains(kb, cf, ch);
        let i = choose|i: int| 0 <= i < kb.len() && #[trigger] cf(kb[i]).contains(ch);
        let name = kb[i];
        assert(kb.contains(name));
        lemma_last_track_named(tb, name);
        lemma_last_track_member(ta, name);
        lemma_last_track_member(tb, name);
        let ot = last_track(ta, name)->0;
        let nt = last_track(tb, name)->0;
        let x = choose|x: int| 0 <= x < ta.len() && ta[x] == ot;
        let y = choose|y: int| 0 <= y < tb.len() && tb[y] == nt;
        assert(ot.clips@.len() == ot.clips.len());
        assert(nt.clips@.len() == nt.clips.len());
        pairs_name_real_clips(ot.clips@, nt.clips@);
        let pairs = pair_clips(ot.clips@, nt.clips@);
        let f = |pr: ClipPairing| pairing_changes(pr, name, ot.clips@, nt.clips@, a, b);
        assert(cf(name) == concat_map(pairs, f));
        lemma_concat_map_contains(pairs, f, ch);
        let q = choose|q: int| 0 <= q < pairs.len() && #[trigger] f(pairs[q]).contains(ch);
        lemma_pairing_changes_hold(pairs[q], name, ot, nt, a, b, x, y);
        let piece = f(pairs[q]);
        let e = choose|e: int| 0 <= e < piece.len() && piece[e] == ch;
    }
}

/// Whether `value` is what parameters `ps` set `name` to: empty, or the
/// value of a parameter of that name.
pub open spec fn param_value_holds(ps: Seq<(String, String)>, name: Seq<char>, value: Seq<char>) -> bool {
    value.len() == 0 || exists|k: int| 0 <= k < ps.len() && (#[trigger] ps[k]).0@ == name && ps[k].1@ == value
}

/// A parameter change goes from the earlier effect's value to the newer's.
pub open spec fn param_change_holds(p: ParamChangeView, old: Effect, new: Effect) -> bool {
    param_value_holds(old.params@, p.name, p.from) && param_value_holds(new.params@, p.name, p.to)
}

proof fn lemma_find_param_found(ps: Seq<(String, String)>, key: Seq<char>)
    ensures
        find_param(ps, key) matches Some(v) ==> exists|k: int| 0 <= k < ps.len() && (#[trigger] ps[k]).0@ == key && ps[k].1@ == v,
    decreases ps.len(),
{
    if ps.len() > 0 && ps[0].0@ != key {
        lemma_find_param_found(ps.drop_first(), key);
        if let Some(v) = find_param(ps, key) {
            let k = choose|k: int| 0 <= k < ps.drop_first().len() && (#[trigger] ps.drop_first()[k]).0@ == key
                && ps.drop_first()[k].1@ == v;
            assert(ps[k + 1] == ps.drop_first()[k]);
        }
    }
}

/// Every parameter change names the earlier value first and the newer one
/// after it.
pub proof fn param_changes_say_before_and_after(old: Effect, new: Effect)
    ensures
        forall|x: int|
            0 <= x < param_changes_of(old, new).len() ==> param_change_holds(#[trigger] param_changes_of(old, new)[x], old, new),
{
    let ks = key_set(param_keys(old.params@) + param_keys(new.params@));
    let f = |k: Seq<char>| param_change_for(k, old, new);
    assert forall|x: int| 0 <= x < param_changes_of(old, new).len() implies param_change_holds(
        #[trigger] param_changes_of(old, new)[x],
        old,
        new,
    ) by {
        let p = param_changes_of(old, new)[x];
        assert(concat_map(ks, f).contains(p));
        lemma_concat_map_contains(ks, f, p);
        let i = choose|i: int| 0 <= i < ks.len() && #[trigger] f(ks[i]).contains(p);
        let key = ks[i];
        lemma_find_param_found(old.params@, key);
        lemma_find_param_found(new.params@, key);
        let piece = f(key);
        let q = choose|q: int| 0 <= q < piece.len() && piece[q] == p;
    }
}

/// The `m`th effects named `effect` of the two clips, the earlier one
/// disabled exactly when `was_disabled`, the newer one the other way.
pub open spec fn switched_at(o: TimelineClip, n: TimelineClip, effect: Seq<char>, m: int, was_disabled: bool) -> bool {
    &&& 0 <= m < named(o.effects@, effect).len()
    &&& m < named(n.effects@, effect).len()
    &&& named(o.effects@, effect)[m].disabled == was_disabled
    &&& named(n.effects@, effect)[m].disabled == !was_disabled
}

/// The `m`th effects named `effect` of the two clips, `params` going from
/// the earlier one's values to the newer one's.
pub open spec fn params_changed_at(
    o: TimelineClip,
    n: TimelineClip,
    effect: Seq<char>,
    m: int,
    params: Seq<ParamChangeView>,
) -> bool {
    &&& 0 <= m < named(o.effects@, effect).len()
    &&& m < named(n.effects@, effect).len()
    &&& forall|x: int|
        0 <= x < params.len() ==> param_change_holds(
            #[trigger] params[x],
            named(o.effects@, effect)[m],
            named(n.effects@, effect)[m],
        )
}

/// What an effect change on a clip says of the effects before and after:
/// an added effect has more effects of its name in the newer save, a
/// removed one fewer; a disable pairs an effect enabled before with one
/// disabled after, an enable the other way round; a parameter change pairs
/// an earlier and a newer effect of the name and goes from the earlier's
/// values to the newer's.
pub open spec fn effect_change_holds(k: ClipChangeKindView, o: TimelineClip, n: TimelineClip) -> bool {
    &&& k is EffectAdded ==> named(n.effects@, k->EffectAdded_effect).len() > named(
        o.effects@,
        k->EffectAdded_effect,
    ).len()
    &&& k is EffectRemoved ==> named(o.effects@, k->EffectRemoved_effect).len() > named(
        n.effects@,
        k->EffectRemoved_effect,
    ).len()
    &&& k is EffectDisabled ==> exists|m: int| #[trigger] switched_at(o, n, k->EffectDisabled_effect, m, false)
    &&& k is EffectEnabled ==> exists|m: int| #[trigger] switched_at(o, n, k->EffectEnabled_effect, m, true)
    &&& k is EffectChanged ==> k->EffectChanged_params.len() > 0 && exists|m: int|
        #[trigger] params_changed_at(o, n, k->EffectChanged_effect, m, k->EffectChanged_params)
    &&& !(k is Added || k is Removed || k is Moved || k is Trimmed)
}

proof fn lemma_zip_member(name: Seq<char>, os: Seq<Effect>, ns: Seq<Effect>, k: int, e: ClipChangeKindView)
    requires
        effect_zip(name, os, ns, k).contains(e),
    ensures
        exists|m: int| 0 <= m < k && (#[trigger] effect_pair_changes(name, os[m], ns[m])).contains(e),
    decreases k,
{
    if k > 0 {
        let a = effect_zip(name, os, ns, k - 1);
        let b = effect_pair_changes(name, os[k - 1], ns[k - 1]);
        let q = choose|q: int| 0 <= q < (a + b).len() && (a + b)[q] == e;
        if q < a.len() {
            assert(a[q] == e);
            assert(a.contains(e));
            lemma_zip_member(name, os, ns, k - 1, e);
        } else {
            assert(b[q - a.len()] == e);
            assert(b.contains(e));
        }
    }
}

proof fn lemma_repeat_member(kind: ClipChangeKindView, count: int, e: ClipChangeKindView)
    requires
        repeat_kind(kind, count).contains(e),
    ensures
        e == kind && count > 0,
    decreases count,
{
    if count > 0 {
        let s = repeat_kind(kind, count - 1);
        let q = choose|q: int| 0 <= q < s.push(kind).len() && s.push(kind)[q] == e;
        if q < s.len() {
            assert(s[q] == e);
            assert(s.contains(e));
            lemma_repeat_member(kind, count - 1, e);
        }
    }
}

proof fn lemma_paired_effect_change_holds(o: TimelineClip, n: TimelineClip, name: Seq<char>, m: int, e: ClipChangeKindView)
    requires
        0 <= m < named(o.effects@, name).len(),
        m < named(n.effects@, name).len(),
        effect_pair_changes(name, named(o.effects@, name)[m], named(n.effects@, name)[m]).contains(e),
    ensures
        effect_change_holds(e, o, n),
{
    let (eo, en) = (named(o.effects@, name)[m], named(n.effects@, name)[m]);
    lemma_pair_toggles(name, eo, en);
    let params = param_changes_of(eo, en);
    let changed = if params.len() > 0 {
        seq![ClipChangeKindView::EffectChanged { effect: name, params }]
    } else {
        Seq::empty()
    };
    let toggled = if eo.disabled != en.disabled {
        if en.disabled {
            seq![ClipChangeKindView::EffectDisabled { effect: name }]
        } else {
            seq![ClipChangeKindView::EffectEnabled { effect: name }]
        }
    } else {
        Seq::<ClipChangeKindView>::empty()
    };
    let pc = effect_pair_changes(name, eo, en);
    assert(pc == toggled + changed);
    let w = choose|w: int| 0 <= w < pc.len() && pc[w] == e;
    if w >= toggled.len() {
        assert(changed[w - toggled.len()] == e);
        param_changes_say_before_and_after(eo, en);
        assert(params_changed_at(o, n, name, m, params));
        let k = ClipChangeKindView::EffectChanged { effect: name, params };
        assert(e == k);
        assert(exists|mm: int| #[trigger] params_changed_at(o, n, name, mm, params));
        assert(k is EffectChanged && k->EffectChanged_effect == name && k->EffectChanged_params == params);
        assert(effect_change_holds(k, o, n));
    } else {
        assert(toggled[w] == e);
        if en.disabled {
            let k = ClipChangeKindView::EffectDisabled { effect: name };
            assert(e == k);
            assert(switched_at(o, n, name, m, false));
            assert(exists|mm: int| #[trigger] switched_at(o, n, name, mm, false));
            assert(k is EffectDisabled && k->EffectDisabled_effect == name);
            assert(effect_change_holds(k, o, n));
        } else {
            let k = ClipChangeKindView::EffectEnabled { effect: name };
            assert(e == k);
            assert(switched_at(o, n, name, m, true));
            assert(exists|mm: int| #[trigger] switched_at(o, n, name, mm, true));
            assert(k is EffectEnabled && k->EffectEnabled_effect == name);
            assert(effect_change_holds(k, o, n));
        }
    }
}

/// Every effect change on a paired clip says truly what its effects were
/// and are.
pub proof fn effect_changes_say_before_and_after(o: TimelineClip, n: TimelineClip)
    ensures
        forall|x: int|
            0 <= x < effect_changes_of(o, n).len() ==> effect_change_holds(#[trigger] effect_changes_of(o, n)[x], o, n),
{
    let ks = key_set(effect_names(o.effects@) + effect_names(n.effects@));
    let f = |name: Seq<char>| name_changes(name, o.effects@, n.effects@);
    assert forall|x: int| 0 <= x < effect_changes_of(o, n).len() implies effect_change_holds(
        #[trigger] effect_changes_of(o, n)[x],
        o,
        n,
    ) by {
        let e = effect_changes_of(o, n)[x];
        assert(concat_map(ks, f).contains(e));
        lemma_concat_map_contains(ks, f, e);
        let i = choose|i: int| 0 <= i < ks.len() && #[trigger] f(ks[i]).contains(e);
        let name = ks[i];
        let (os, ns) = (named(o.effects@, name), named(n.effects@, name));
        let common = if os.len() < ns.len() { os.len() } else { ns.len() };
        let z = effect_zip(name, os, ns, common as int);
        let removed = ClipChangeKindView::EffectRemoved { effect: name };
        let added = ClipChangeKindView::EffectAdded { effect: name };
        let r1 = repeat_kind(removed, os.len() - ns.len());
        let r2 = repeat_kind(added, ns.len() - os.len());
        let piece = f(name);
        assert(piece == z + r1 + r2);
        let q = choose|q: int| 0 <= q < piece.len() && piece[q] == e;
        if q < z.len() {
            assert(z[q] == e);
            assert(z.contains(e));
            lemma_zip_member(name, os, ns, common as int, e);
            let m = choose|m: int| 0 <= m < common && (#[trigger] effect_pair_changes(name, os[m], ns[m])).contains(e);
            lemma_paired_effect_change_holds(o, n, name, m, e);
        } else if q < z.len() + r1.len() {
            assert(r1[q - z.len()] == e);
            assert(r1.contains(e));
            lemma_repeat_member(removed, os.len() - ns.len(), e);
        } else {
            assert(r2[q - z.len() - r1.len()] == e);
            assert(r2.contains(e));
            lemma_repeat_member(added, ns.len() - os.len(), e);
        }
    }
}

} // verus!
