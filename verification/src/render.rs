//! Turns a [`Diff`] into plain English.
//!
//! Kept separate from the differ so the structured diff stays usable on its
//! own. Lines are written the way an editor would describe the edit, so
//! positions read as timecode and effect parameters use the names shown in
//! Kdenlive's UI where we know them.
//!
//! How a frame count reads as a timecode depends on the project's frame rate;
//! the renderer is handed that as a function `at` from frames to text.

use vstd::prelude::*;

use crate::differ::{
    BinChange, BinChangeView, ClipChange, ClipChangeKind, ClipChangeKindView, ClipChangeView, Diff,
    DiffView, GuideChange, GuideChangeView, MarkerChange, MarkerChangeView, ParamChange,
    ParamChangeView, ProfileChangeView, TrackChange, TrackChangeView,
};
use crate::model::Frames;
use crate::text::{
    capitalize, capitalized, contains_char, decimal, decimal_string, has_char, owned, replace_char, replaced,
};

verus! {

/// How many parameter changes to name before summarizing the rest.
pub const MAX_NAMED_PARAMS: usize = 3;

// ---------------------------------------------------------------------------
// The timecode function.

/// A frame formatter that can be called on any frame count and gives one
/// answer per count.
pub open spec fn time_labeller<F: Fn(Frames) -> String>(at: F) -> bool {
    &&& forall|f: Frames| #[trigger] at.requires((f,))
    &&& forall|f: Frames, a: String, b: String| at.ensures((f,), a) && at.ensures((f,), b) ==> a@ == b@
}

/// The text `at` gives frame count `f`.
pub open spec fn time_text<F: Fn(Frames) -> String>(at: F, f: Frames) -> Seq<char> {
    (choose|s: String| at.ensures((f,), s))@
}

fn call_at<F: Fn(Frames) -> String>(at: &F, f: Frames) -> (s: String)
    requires
        time_labeller(*at),
    ensures
        s@ == time_text(*at, f),
{
    let s = at(f);
    proof {
        let c = choose|c: String| at.ensures((f,), c);
        assert(at.ensures((f,), c));
    }
    s
}

// ---------------------------------------------------------------------------
// Small pieces.

/// Underscores to spaces, enough to make Kdenlive's machine names read.
pub open spec fn pretty(name: Seq<char>) -> Seq<char> {
    replace_char(name, '_', ' ')
}

fn pretty_exec(name: &str) -> (r: String)
    ensures
        r@ == pretty(name@),
{
    replaced(name, '_', ' ')
}

pub open spec fn quoted(text: Seq<char>) -> Seq<char> {
    if text.len() == 0 {
        "(no text)"@
    } else {
        "\""@ + text + "\""@
    }
}

fn quoted_exec(text: &str) -> (r: String)
    ensures
        r@ == quoted(text@),
{
    if text.unicode_len() == 0 {
        owned("(no text)")
    } else {
        let mut r = owned("\"");
        r.append(text);
        r.append("\"");
        r
    }
}

/// MLT writes keyframed values as `time=value;time=value`.
pub open spec fn is_keyframed(value: Seq<char>) -> bool {
    has_char(value, '=') && has_char(value, ';')
}

fn is_keyframed_exec(value: &str) -> (r: bool)
    ensures
        r == is_keyframed(value@),
{
    contains_char(value, '=') && contains_char(value, ';')
}

/// `a, b, c`: the items separated by commas.
pub open spec fn comma_list(parts: Seq<Seq<char>>) -> Seq<char>
    decreases parts.len(),
{
    if parts.len() == 0 {
        Seq::empty()
    } else if parts.len() == 1 {
        parts[0]
    } else {
        comma_list(parts.drop_last()) + ", "@ + parts.last()
    }
}

/// `a, b and c`: a list read as English.
pub open spec fn join_list(parts: Seq<Seq<char>>) -> Seq<char> {
    if parts.len() == 0 {
        Seq::empty()
    } else if parts.len() == 1 {
        parts[0]
    } else {
        comma_list(parts.drop_last()) + " and "@ + parts.last()
    }
}

fn comma_list_exec(parts: &Vec<String>, n: usize) -> (r: String)
    requires
        n <= parts.len(),
    ensures
        r@ == comma_list(parts@.take(n as int).map_values(|s: String| s@)),
{
    let ghost v = parts@.map_values(|s: String| s@);
    let mut r = String::new();
    let mut i: usize = 0;
    while i < n
        invariant
            i <= n <= parts.len(),
            v == parts@.map_values(|s: String| s@),
            r@ == comma_list(v.take(i as int)),
        decreases n - i,
    {
        assert(v.take(i + 1).drop_last() =~= v.take(i as int));
        if i > 0 {
            r.append(", ");
        }
        r.append(parts[i].as_str());
        i = i + 1;
    }
    assert(parts@.take(n as int).map_values(|s: String| s@) =~= v.take(n as int));
    r
}

fn join_exec(parts: &Vec<String>) -> (r: String)
    ensures
        r@ == join_list(parts@.map_values(|s: String| s@)),
{
    let ghost v = parts@.map_values(|s: String| s@);
    if parts.len() == 0 {
        String::new()
    } else if parts.len() == 1 {
        parts[0].clone()
    } else {
        let mut r = comma_list_exec(parts, parts.len() - 1);
        assert(parts@.take(parts.len() - 1).map_values(|s: String| s@) =~= v.drop_last());
        r.append(" and ");
        r.append(parts[parts.len() - 1].as_str());
        r
    }
}

// ---------------------------------------------------------------------------
// Parameters.

pub open spec fn param_phrase(p: ParamChangeView) -> Seq<char> {
    if is_keyframed(p.from) || is_keyframed(p.to) {
        pretty(p.name) + " keyframes"@
    } else if p.from.len() == 0 {
        pretty(p.name) + " to "@ + p.to
    } else {
        pretty(p.name) + " "@ + p.from + " to "@ + p.to
    }
}

/// The first few parameter changes named, the rest counted.
pub open spec fn params_phrase(params: Seq<ParamChangeView>) -> Seq<char> {
    let shown = if params.len() < MAX_NAMED_PARAMS { params.len() } else { MAX_NAMED_PARAMS as nat };
    let named = join_list(params.take(shown as int).map_values(|p: ParamChangeView| param_phrase(p)));
    let rest = params.len() - shown;
    if rest == 0 {
        named
    } else if rest == 1 {
        named + " and 1 other parameter"@
    } else {
        named + " and "@ + decimal(rest as nat) + " other parameters"@
    }
}

fn param_phrase_exec(p: &ParamChange) -> (r: String)
    ensures
        r@ == param_phrase(p@),
{
    let mut r = pretty_exec(p.name.as_str());
    if is_keyframed_exec(p.from.as_str()) || is_keyframed_exec(p.to.as_str()) {
        r.append(" keyframes");
    } else if p.from.as_str().unicode_len() == 0 {
        r.append(" to ");
        r.append(p.to.as_str());
    } else {
        r.append(" ");
        r.append(p.from.as_str());
        r.append(" to ");
        r.append(p.to.as_str());
    }
    r
}

fn params_phrase_exec(params: &Vec<ParamChange>) -> (r: String)
    ensures
        r@ == params_phrase(params@.map_values(|p: ParamChange| p@)),
{
    let ghost pv = params@.map_values(|p: ParamChange| p@);
    let shown = if params.len() < MAX_NAMED_PARAMS { params.len() } else { MAX_NAMED_PARAMS };
    let mut named: Vec<String> = Vec::new();
    let mut i: usize = 0;
    while i < shown
        invariant
            shown <= params.len(),
            i <= shown,
            pv == params@.map_values(|p: ParamChange| p@),
            named@.len() == i,
            named@.map_values(|s: String| s@) == pv.take(i as int).map_values(|p: ParamChangeView| param_phrase(p)),
        decreases shown - i,
    {
        let ghost prev = named@;
        let phrase = param_phrase_exec(&params[i]);
        assert(phrase@ == param_phrase(pv[i as int]));
        named.push(phrase);
        assert(named@ == prev.push(phrase));
        assert(named@.map_values(|s: String| s@) =~= prev.map_values(|s: String| s@).push(phrase@));
        assert(pv.take(i + 1).map_values(|p: ParamChangeView| param_phrase(p)) =~= pv.take(i as int).map_values(
            |p: ParamChangeView| param_phrase(p),
        ).push(param_phrase(pv[i as int])));
        assert(named@.map_values(|s: String| s@) =~= pv.take(i + 1).map_values(
            |p: ParamChangeView| param_phrase(p),
        ));
        i = i + 1;
    }
    let mut r = join_exec(&named);
    let rest = params.len() - shown;
    if rest == 1 {
        r.append(" and 1 other parameter");
    } else if rest > 1 {
        r.append(" and ");
        let n = decimal_string(rest as u64);
        r.append(n.as_str());
        r.append(" other parameters");
    }
    r
}

// ---------------------------------------------------------------------------
// Clip changes.

pub open spec fn clip_line(c: ClipChangeView, at: spec_fn(Frames) -> Seq<char>) -> Seq<char> {
    let (clip, track) = (c.clip, c.track);
    match c.kind {
        ClipChangeKindView::Added { position, duration } => "added "@ + clip + " to "@ + track + " at "@
            + at(position) + ", "@ + at(duration) + " long"@,
        ClipChangeKindView::Removed { position } => "removed "@ + clip + " from "@ + track + " at "@ + at(
            position,
        ),
        ClipChangeKindView::Moved { from, to } => "moved "@ + clip + " on "@ + track + " from "@ + at(from)
            + " to "@ + at(to),
        ClipChangeKindView::Trimmed { from_duration, to_duration, position } => (if to_duration
            > from_duration {
            "extended"@
        } else {
            "trimmed"@
        }) + " "@ + clip + " on "@ + track + " at "@ + at(position) + ", "@ + at(from_duration) + " to "@
            + at(to_duration),
        ClipChangeKindView::EffectAdded { effect } => "added "@ + pretty(effect) + " effect to "@ + clip
            + " on "@ + track,
        ClipChangeKindView::EffectRemoved { effect } => "removed "@ + pretty(effect) + " effect from "@
            + clip + " on "@ + track,
        ClipChangeKindView::EffectDisabled { effect } => "disabled "@ + pretty(effect) + " effect on "@
            + clip + ", "@ + track,
        ClipChangeKindView::EffectEnabled { effect } => "enabled "@ + pretty(effect) + " effect on "@
            + clip + ", "@ + track,
        ClipChangeKindView::EffectChanged { effect, params } => {
            // Effects often share a name with their only parameter, and
            // "changed gain on gain effect" reads badly.
            if params.len() == 1 && pretty(params[0].name) == pretty(effect) {
                "changed "@ + params_phrase(params) + " on "@ + clip + ", "@ + track
            } else {
                "changed "@ + params_phrase(params) + " on "@ + pretty(effect) + " effect, "@ + clip
                    + " on "@ + track
            }
        },
    }
}

fn render_clip_change<F: Fn(Frames) -> String>(change: &ClipChange, at: &F) -> (r: String)
    requires
        time_labeller(*at),
    ensures
        r@ == clip_line(change@, |f: Frames| time_text(*at, f)),
{
    let (clip, track) = (change.clip.as_str(), change.track.as_str());
    match &change.kind {
        ClipChangeKind::Added { position, duration } => {
            let mut r = owned("added ");
            r.append(clip);
            r.append(" to ");
            r.append(track);
            r.append(" at ");
            r.append(call_at(at, *position).as_str());
            r.append(", ");
            r.append(call_at(at, *duration).as_str());
            r.append(" long");
            r
        },
        ClipChangeKind::Removed { position } => {
            let mut r = owned("removed ");
            r.append(clip);
            r.append(" from ");
            r.append(track);
            r.append(" at ");
            r.append(call_at(at, *position).as_str());
            r
        },
        ClipChangeKind::Moved { from, to } => {
            let mut r = owned("moved ");
            r.append(clip);
            r.append(" on ");
            r.append(track);
            r.append(" from ");
            r.append(call_at(at, *from).as_str());
            r.append(" to ");
            r.append(call_at(at, *to).as_str());
            r
        },
        ClipChangeKind::Trimmed { from_duration, to_duration, position } => {
            let mut r = if *to_duration > *from_duration {
                owned("extended")
            } else {
                owned("trimmed")
            };
            r.append(" ");
            r.append(clip);
            r.append(" on ");
            r.append(track);
            r.append(" at ");
            r.append(call_at(at, *position).as_str());
            r.append(", ");
            r.append(call_at(at, *from_duration).as_str());
            r.append(" to ");
            r.append(call_at(at, *to_duration).as_str());
            r
        },
        ClipChangeKind::EffectAdded { effect } => {
            let mut r = owned("added ");
            r.append(pretty_exec(effect.as_str()).as_str());
            r.append(" effect to ");
            r.append(clip);
            r.append(" on ");
            r.append(track);
            r
        },
        ClipChangeKind::EffectRemoved { effect } => {
            let mut r = owned("removed ");
            r.append(pretty_exec(effect.as_str()).as_str());
            r.append(" effect from ");
            r.append(clip);
            r.append(" on ");
            r.append(track);
            r
        },
        ClipChangeKind::EffectDisabled { effect } => {
            let mut r = owned("disabled ");
            r.append(pretty_exec(effect.as_str()).as_str());
            r.append(" effect on ");
            r.append(clip);
            r.append(", ");
            r.append(track);
            r
        },
        ClipChangeKind::EffectEnabled { effect } => {
            let mut r = owned("enabled ");
            r.append(pretty_exec(effect.as_str()).as_str());
            r.append(" effect on ");
            r.append(clip);
            r.append(", ");
            r.append(track);
            r
        },
        ClipChangeKind::EffectChanged { effect, params } => {
            let effect_name = pretty_exec(effect.as_str());
            let single = params.len() == 1 && pretty_exec(params[0].name.as_str()) == effect_name;
            let mut r = owned("changed ");
            r.append(params_phrase_exec(params).as_str());
            r.append(" on ");
            if single {
                r.append(clip);
                r.append(", ");
                r.append(track);
            } else {
                r.append(effect_name.as_str());
                r.append(" effect, ");
                r.append(clip);
                r.append(" on ");
                r.append(track);
            }
            r
        },
    }
}

// ---------------------------------------------------------------------------
// The other kinds of change.

pub open spec fn profile_line(c: ProfileChangeView) -> Seq<char> {
    "changed project "@ + c.what + " from "@ + c.from + " to "@ + c.to
}

pub open spec fn track_line(c: TrackChangeView) -> Seq<char> {
    match c {
        TrackChangeView::Added { track } => "added track "@ + track,
        TrackChangeView::Removed { track } => "removed track "@ + track,
        TrackChangeView::Locked { track } => "locked track "@ + track,
        TrackChangeView::Unlocked { track } => "unlocked track "@ + track,
    }
}

pub open spec fn bin_line(c: BinChangeView) -> Seq<char> {
    match c {
        BinChangeView::Added { clip } => "added "@ + clip + " to the project bin"@,
        BinChangeView::Removed { clip } => "removed "@ + clip + " from the project bin"@,
        BinChangeView::Renamed { from, to } => "renamed bin clip "@ + from + " to "@ + to,
    }
}

pub open spec fn marker_line(c: MarkerChangeView, at: spec_fn(Frames) -> Seq<char>) -> Seq<char> {
    match c {
        MarkerChangeView::Added { position, comment } => "added marker "@ + quoted(comment) + " at "@ + at(
            position,
        ),
        MarkerChangeView::Removed { position, comment } => "removed marker "@ + quoted(comment) + " at "@
            + at(position),
        MarkerChangeView::Moved { from, to, comment } => "moved marker "@ + quoted(comment) + " from "@
            + at(from) + " to "@ + at(to),
        MarkerChangeView::Retitled { position, from, to } => "renamed marker at "@ + at(position)
            + " from "@ + quoted(from) + " to "@ + quoted(to),
    }
}

pub open spec fn guide_line(c: GuideChangeView, at: spec_fn(Frames) -> Seq<char>) -> Seq<char> {
    match c {
        GuideChangeView::Added { position, comment } => "added guide "@ + quoted(comment) + " at "@ + at(
            position,
        ),
        GuideChangeView::Removed { position, comment } => "removed guide "@ + quoted(comment) + " at "@
            + at(position),
        GuideChangeView::Retitled { position, from, to } => "renamed guide at "@ + at(position) + " from "@
            + quoted(from) + " to "@ + quoted(to),
    }
}

/// One line per change: profile, tracks, bin, clips, markers, then guides.
pub open spec fn render_lines(d: DiffView, at: spec_fn(Frames) -> Seq<char>) -> Seq<Seq<char>> {
    d.profile_changes.map_values(|c: ProfileChangeView| profile_line(c))
        + d.track_changes.map_values(|c: TrackChangeView| track_line(c))
        + d.bin_changes.map_values(|c: BinChangeView| bin_line(c))
        + d.clip_changes.map_values(|c: ClipChangeView| clip_line(c, at))
        + d.marker_changes.map_values(|c: MarkerChangeView| marker_line(c, at))
        + d.guide_changes.map_values(|c: GuideChangeView| guide_line(c, at))
}

pub open spec fn line_views(v: Seq<String>) -> Seq<Seq<char>> {
    v.map_values(|s: String| s@)
}

fn track_line_exec(c: &TrackChange) -> (r: String)
    ensures
        r@ == track_line(c@),
{
    let (head, track) = match c {
        TrackChange::Added { track } => ("added track ", track),
        TrackChange::Removed { track } => ("removed track ", track),
        TrackChange::Locked { track } => ("locked track ", track),
        TrackChange::Unlocked { track } => ("unlocked track ", track),
    };
    let mut r = owned(head);
    r.append(track.as_str());
    r
}

fn bin_line_exec(c: &BinChange) -> (r: String)
    ensures
        r@ == bin_line(c@),
{
    match c {
        BinChange::Added { clip } => {
            let mut r = owned("added ");
            r.append(clip.as_str());
            r.append(" to the project bin");
            r
        },
        BinChange::Removed { clip } => {
            let mut r = owned("removed ");
            r.append(clip.as_str());
            r.append(" from the project bin");
            r
        },
        BinChange::Renamed { from, to } => {
            let mut r = owned("renamed bin clip ");
            r.append(from.as_str());
            r.append(" to ");
            r.append(to.as_str());
            r
        },
    }
}

fn marker_line_exec<F: Fn(Frames) -> String>(c: &MarkerChange, at: &F) -> (r: String)
    requires
        time_labeller(*at),
    ensures
        r@ == marker_line(c@, |f: Frames| time_text(*at, f)),
{
    match c {
        MarkerChange::Added { position, comment } => {
            let mut r = owned("added marker ");
            r.append(quoted_exec(comment.as_str()).as_str());
            r.append(" at ");
            r.append(call_at(at, *position).as_str());
            r
        },
        MarkerChange::Removed { position, comment } => {
            let mut r = owned("removed marker ");
            r.append(quoted_exec(comment.as_str()).as_str());
            r.append(" at ");
            r.append(call_at(at, *position).as_str());
            r
        },
        MarkerChange::Moved { from, to, comment } => {
            let mut r = owned("moved marker ");
            r.append(quoted_exec(comment.as_str()).as_str());
            r.append(" from ");
            r.append(call_at(at, *from).as_str());
            r.append(" to ");
            r.append(call_at(at, *to).as_str());
            r
        },
        MarkerChange::Retitled { position, from, to } => {
            let mut r = owned("renamed marker at ");
            r.append(call_at(at, *position).as_str());
            r.append(" from ");
            r.append(quoted_exec(from.as_str()).as_str());
            r.append(" to ");
            r.append(quoted_exec(to.as_str()).as_str());
            r
        },
    }
}

fn guide_line_exec<F: Fn(Frames) -> String>(c: &GuideChange, at: &F) -> (r: String)
    requires
        time_labeller(*at),
    ensures
        r@ == guide_line(c@, |f: Frames| time_text(*at, f)),
{
    match c {
        GuideChange::Added { position, comment } => {
            let mut r = owned("added guide ");
            r.append(quoted_exec(comment.as_str()).as_str());
            r.append(" at ");
            r.append(call_at(at, *position).as_str());
            r
        },
        GuideChange::Removed { position, comment } => {
            let mut r = owned("removed guide ");
            r.append(quoted_exec(comment.as_str()).as_str());
            r.append(" at ");
            r.append(call_at(at, *position).as_str());
            r
        },
        GuideChange::Retitled { position, from, to } => {
            let mut r = owned("renamed guide at ");
            r.append(call_at(at, *position).as_str());
            r.append(" from ");
            r.append(quoted_exec(from.as_str()).as_str());
            r.append(" to ");
            r.append(quoted_exec(to.as_str()).as_str());
            r
        },
    }
}

/// Describes every change in `diff`, one line each. `at` renders a frame
/// count as a timecode.
pub fn render<F: Fn(Frames) -> String>(diff: &Diff, at: &F) -> (lines: Vec<String>)
    requires
        time_labeller(*at),
    ensures
        line_views(lines@) == render_lines(diff@, |f: Frames| time_text(*at, f)),
{
    let ghost tt = |f: Frames| time_text(*at, f);
    let mut lines: Vec<String> = Vec::new();
    {
        let ghost base = line_views(lines@);
        let mut i: usize = 0;
        while i < diff.profile_changes.len()
            invariant
                i <= diff.profile_changes.len(),
                time_labeller(*at),
                tt == (|f: Frames| time_text(*at, f)),
                line_views(lines@) == base + diff@.profile_changes.take(i as int).map_values(|c: ProfileChangeView| profile_line(c)),
            decreases diff.profile_changes.len() - i,
        {
            let ghost prev = line_views(lines@);
            let line = profile_line_exec(&diff.profile_changes[i]);
            lines.push(line);
            assert(diff@.profile_changes[i as int] == diff.profile_changes@[i as int]@);
            assert(line_views(lines@) =~= prev.push(line@));
            assert(diff@.profile_changes.take(i + 1).map_values(|c: ProfileChangeView| profile_line(c)) =~= diff@.profile_changes.take(
                i as int,
            ).map_values(|c: ProfileChangeView| profile_line(c)).push(profile_line(diff@.profile_changes[i as int])));
            i = i + 1;
        }
        assert(diff@.profile_changes.take(i as int) =~= diff@.profile_changes);
    }
    {
        let ghost base = line_views(lines@);
        let mut i: usize = 0;
        while i < diff.track_changes.len()
            invariant
                i <= diff.track_changes.len(),
                time_labeller(*at),
                tt == (|f: Frames| time_text(*at, f)),
                line_views(lines@) == base + diff@.track_changes.take(i as int).map_values(|c: TrackChangeView| track_line(c)),
            decreases diff.track_changes.len() - i,
        {
            let ghost prev = line_views(lines@);
            let line = track_line_exec(&diff.track_changes[i]);
            lines.push(line);
            assert(diff@.track_changes[i as int] == diff.track_changes@[i as int]@);
            assert(line_views(lines@) =~= prev.push(line@));
            assert(diff@.track_changes.take(i + 1).map_values(|c: TrackChangeView| track_line(c)) =~= diff@.track_changes.take(
                i as int,
            ).map_values(|c: TrackChangeView| track_line(c)).push(track_line(diff@.track_changes[i as int])));
            i = i + 1;
        }
        assert(diff@.track_changes.take(i as int) =~= diff@.track_changes);
    }
    {
        let ghost base = line_views(lines@);
        let mut i: usize = 0;
        while i < diff.bin_changes.len()
            invariant
                i <= diff.bin_changes.len(),
                time_labeller(*at),
                tt == (|f: Frames| time_text(*at, f)),
                line_views(lines@) == base + diff@.bin_changes.take(i as int).map_values(|c: BinChangeView| bin_line(c)),
            decreases diff.bin_changes.len() - i,
        {
            let ghost prev = line_views(lines@);
            let line = bin_line_exec(&diff.bin_changes[i]);
            lines.push(line);
            assert(diff@.bin_changes[i as int] == diff.bin_changes@[i as int]@);
            assert(line_views(lines@) =~= prev.push(line@));
            assert(diff@.bin_changes.take(i + 1).map_values(|c: BinChangeView| bin_line(c)) =~= diff@.bin_changes.take(
                i as int,
            ).map_values(|c: BinChangeView| bin_line(c)).push(bin_line(diff@.bin_changes[i as int])));
            i = i + 1;
        }
        assert(diff@.bin_changes.take(i as int) =~= diff@.bin_changes);
    }
    {
        let ghost base = line_views(lines@);
        let mut i: usize = 0;
        while i < diff.clip_changes.len()
            invariant
                i <= diff.clip_changes.len(),
                time_labeller(*at),
                tt == (|f: Frames| time_text(*at, f)),
                line_views(lines@) == base + diff@.clip_changes.take(i as int).map_values(|c: ClipChangeView| clip_line(c, tt)),
            decreases diff.clip_changes.len() - i,
        {
            let ghost prev = line_views(lines@);
            let line = render_clip_change(&diff.clip_changes[i], at);
            lines.push(line);
            assert(diff@.clip_changes[i as int] == diff.clip_changes@[i as int]@);
            assert(line_views(lines@) =~= prev.push(line@));
            assert(diff@.clip_changes.take(i + 1).map_values(|c: ClipChangeView| clip_line(c, tt)) =~= diff@.clip_changes.take(
                i as int,
            ).map_values(|c: ClipChangeView| clip_line(c, tt)).push(clip_line(diff@.clip_changes[i as int], tt)));
            i = i + 1;
        }
        assert(diff@.clip_changes.take(i as int) =~= diff@.clip_changes);
    }
    {
        let ghost base = line_views(lines@);
        let mut i: usize = 0;
        while i < diff.marker_changes.len()
            invariant
                i <= diff.marker_changes.len(),
                time_labeller(*at),
                tt == (|f: Frames| time_text(*at, f)),
                line_views(lines@) == base + diff@.marker_changes.take(i as int).map_values(|c: MarkerChangeView| marker_line(c, tt)),
            decreases diff.marker_changes.len() - i,
        {
            let ghost prev = line_views(lines@);
            let line = marker_line_exec(&diff.marker_changes[i], at);
            lines.push(line);
            assert(diff@.marker_changes[i as int] == diff.marker_changes@[i as int]@);
            assert(line_views(lines@) =~= prev.push(line@));
            assert(diff@.marker_changes.take(i + 1).map_values(|c: MarkerChangeView| marker_line(c, tt)) =~= diff@.marker_changes.take(
                i as int,
            ).map_values(|c: MarkerChangeView| marker_line(c, tt)).push(marker_line(diff@.marker_changes[i as int], tt)));
            i = i + 1;
        }
        assert(diff@.marker_changes.take(i as int) =~= diff@.marker_changes);
    }
    {
        let ghost base = line_views(lines@);
        let mut i: usize = 0;
        while i < diff.guide_changes.len()
            invariant
                i <= diff.guide_changes.len(),
                time_labeller(*at),
                tt == (|f: Frames| time_text(*at, f)),
                line_views(lines@) == base + diff@.guide_changes.take(i as int).map_values(|c: GuideChangeView| guide_line(c, tt)),
            decreases diff.guide_changes.len() - i,
        {
            let ghost prev = line_views(lines@);
            let line = guide_line_exec(&diff.guide_changes[i], at);
            lines.push(line);
            assert(diff@.guide_changes[i as int] == diff.guide_changes@[i as int]@);
            assert(line_views(lines@) =~= prev.push(line@));
            assert(diff@.guide_changes.take(i + 1).map_values(|c: GuideChangeView| guide_line(c, tt)) =~= diff@.guide_changes.take(
                i as int,
            ).map_values(|c: GuideChangeView| guide_line(c, tt)).push(guide_line(diff@.guide_changes[i as int], tt)));
            i = i + 1;
        }
        assert(diff@.guide_changes.take(i as int) =~= diff@.guide_changes);
    }
    assert(line_views(lines@) =~= render_lines(diff@, tt));
    lines
}

fn profile_line_exec(c: &crate::differ::ProfileChange) -> (r: String)
    ensures
        r@ == profile_line(c@),
{
    let mut r = owned("changed project ");
    r.append(c.what);
    r.append(" from ");
    r.append(c.from.as_str());
    r.append(" to ");
    r.append(c.to.as_str());
    r
}

/// One line for a whole diff: its first change, capitalized, with the rest
/// counted.
pub open spec fn summary(lines: Seq<Seq<char>>) -> Seq<char> {
    if lines.len() == 0 {
        "saved with no detected changes"@
    } else if lines.len() == 1 {
        capitalized(lines[0])
    } else {
        capitalized(lines[0]) + " and "@ + decimal((lines.len() - 1) as nat) + " more change"@ + (if lines.len()
            == 2 {
            Seq::empty()
        } else {
            "s"@
        })
    }
}

/// Whether `s` begins with a lower-case ASCII letter.
pub open spec fn starts_lower(s: Seq<char>) -> bool {
    s.len() > 0 && 'a' <= s[0] <= 'z'
}

proof fn lemma_clip_line_starts_lower(c: ClipChangeView, at: spec_fn(Frames) -> Seq<char>)
    ensures
        starts_lower(clip_line(c, at)),
{
    reveal_strlit("added ");
    reveal_strlit("removed ");
    reveal_strlit("moved ");
    reveal_strlit("extended");
    reveal_strlit("trimmed");
    reveal_strlit("disabled ");
    reveal_strlit("enabled ");
    reveal_strlit("changed ");
    let l = clip_line(c, at);
    match c.kind {
        ClipChangeKindView::Added { .. } => assert(l[0] == "added "@[0]),
        ClipChangeKindView::Removed { .. } => assert(l[0] == "removed "@[0]),
        ClipChangeKindView::Moved { .. } => assert(l[0] == "moved "@[0]),
        ClipChangeKindView::Trimmed { from_duration, to_duration, .. } => {
            if to_duration > from_duration {
                assert(l[0] == "extended"@[0]);
            } else {
                assert(l[0] == "trimmed"@[0]);
            }
        },
        ClipChangeKindView::EffectAdded { .. } => assert(l[0] == "added "@[0]),
        ClipChangeKindView::EffectRemoved { .. } => assert(l[0] == "removed "@[0]),
        ClipChangeKindView::EffectDisabled { .. } => assert(l[0] == "disabled "@[0]),
        ClipChangeKindView::EffectEnabled { .. } => assert(l[0] == "enabled "@[0]),
        ClipChangeKindView::EffectChanged { .. } => assert(l[0] == "changed "@[0]),
    }
}

proof fn lemma_other_lines_start_lower(
    p: ProfileChangeView,
    t: TrackChangeView,
    b: BinChangeView,
    m: MarkerChangeView,
    g: GuideChangeView,
    at: spec_fn(Frames) -> Seq<char>,
)
    ensures
        starts_lower(profile_line(p)),
        starts_lower(track_line(t)),
        starts_lower(bin_line(b)),
        starts_lower(marker_line(m, at)),
        starts_lower(guide_line(g, at)),
{
    reveal_strlit("changed project ");
    reveal_strlit("added track ");
    reveal_strlit("removed track ");
    reveal_strlit("locked track ");
    reveal_strlit("unlocked track ");
    reveal_strlit("added ");
    reveal_strlit("removed ");
    reveal_strlit("renamed bin clip ");
    reveal_strlit("added marker ");
    reveal_strlit("removed marker ");
    reveal_strlit("moved marker ");
    reveal_strlit("renamed marker at ");
    reveal_strlit("added guide ");
    reveal_strlit("removed guide ");
    reveal_strlit("renamed guide at ");
    assert(profile_line(p)[0] == "changed project "@[0]);
    match t {
        TrackChangeView::Added { .. } => assert(track_line(t)[0] == "added track "@[0]),
        TrackChangeView::Removed { .. } => assert(track_line(t)[0] == "removed track "@[0]),
        TrackChangeView::Locked { .. } => assert(track_line(t)[0] == "locked track "@[0]),
        TrackChangeView::Unlocked { .. } => assert(track_line(t)[0] == "unlocked track "@[0]),
    }
    match b {
        BinChangeView::Added { .. } => assert(bin_line(b)[0] == "added "@[0]),
        BinChangeView::Removed { .. } => assert(bin_line(b)[0] == "removed "@[0]),
        BinChangeView::Renamed { .. } => assert(bin_line(b)[0] == "renamed bin clip "@[0]),
    }
    match m {
        MarkerChangeView::Added { .. } => assert(marker_line(m, at)[0] == "added marker "@[0]),
        MarkerChangeView::Removed { .. } => assert(marker_line(m, at)[0] == "removed marker "@[0]),
        MarkerChangeView::Moved { .. } => assert(marker_line(m, at)[0] == "moved marker "@[0]),
        MarkerChangeView::Retitled { .. } => assert(marker_line(m, at)[0] == "renamed marker at "@[0]),
    }
    match g {
        GuideChangeView::Added { .. } => assert(guide_line(g, at)[0] == "added guide "@[0]),
        GuideChangeView::Removed { .. } => assert(guide_line(g, at)[0] == "removed guide "@[0]),
        GuideChangeView::Retitled { .. } => assert(guide_line(g, at)[0] == "renamed guide at "@[0]),
    }
}

/// Every line a diff renders to begins with a lower-case letter: a verb
/// saying what happened.
pub proof fn lines_start_with_a_verb(d: DiffView, at: spec_fn(Frames) -> Seq<char>)
    ensures
        forall|i: int| 0 <= i < render_lines(d, at).len() ==> starts_lower(#[trigger] render_lines(d, at)[i]),
{
    let ls = render_lines(d, at);
    assert forall|i: int| 0 <= i < ls.len() implies starts_lower(#[trigger] ls[i]) by {
        let n1 = d.profile_changes.len() as int;
        let n2 = n1 + d.track_changes.len();
        let n3 = n2 + d.bin_changes.len();
        let n4 = n3 + d.clip_changes.len();
        let n5 = n4 + d.marker_changes.len();
        if i < n1 {
            lemma_other_lines_start_lower(d.profile_changes[i], TrackChangeView::Added { track: Seq::empty() },
                BinChangeView::Added { clip: Seq::empty() }, MarkerChangeView::Added { position: 0, comment: Seq::empty() },
                GuideChangeView::Added { position: 0, comment: Seq::empty() }, at);
        } else if i < n2 {
            lemma_other_lines_start_lower(ProfileChangeView { what: Seq::empty(), from: Seq::empty(), to: Seq::empty() },
                d.track_changes[i - n1], BinChangeView::Added { clip: Seq::empty() },
                MarkerChangeView::Added { position: 0, comment: Seq::empty() },
                GuideChangeView::Added { position: 0, comment: Seq::empty() }, at);
        } else if i < n3 {
            lemma_other_lines_start_lower(ProfileChangeView { what: Seq::empty(), from: Seq::empty(), to: Seq::empty() },
                TrackChangeView::Added { track: Seq::empty() }, d.bin_changes[i - n2],
                MarkerChangeView::Added { position: 0, comment: Seq::empty() },
                GuideChangeView::Added { position: 0, comment: Seq::empty() }, at);
        } else if i < n4 {
            lemma_clip_line_starts_lower(d.clip_changes[i - n3], at);
        } else if i < n5 {
            lemma_other_lines_start_lower(ProfileChangeView { what: Seq::empty(), from: Seq::empty(), to: Seq::empty() },
                TrackChangeView::Added { track: Seq::empty() }, BinChangeView::Added { clip: Seq::empty() },
                d.marker_changes[i - n4], GuideChangeView::Added { position: 0, comment: Seq::empty() }, at);
        } else {
            lemma_other_lines_start_lower(ProfileChangeView { what: Seq::empty(), from: Seq::empty(), to: Seq::empty() },
                TrackChangeView::Added { track: Seq::empty() }, BinChangeView::Added { clip: Seq::empty() },
                MarkerChangeView::Added { position: 0, comment: Seq::empty() }, d.guide_changes[i - n5], at);
        }
    }
}

/// Whether `s` holds no line feed.
pub open spec fn single_line(s: Seq<char>) -> bool {
    forall|i: int| 0 <= i < s.len() ==> s[i] != '\n'
}

/// No text a diff holds has a line feed in it.
pub open spec fn diff_single_line(d: DiffView) -> bool {
    &&& forall|i: int|
        0 <= i < d.profile_changes.len() ==> {
            let c = #[trigger] d.profile_changes[i];
            single_line(c.what) && single_line(c.from) && single_line(c.to)
        }
    &&& forall|i: int|
        0 <= i < d.track_changes.len() ==> match #[trigger] d.track_changes[i] {
            TrackChangeView::Added { track } => single_line(track),
            TrackChangeView::Removed { track } => single_line(track),
            TrackChangeView::Locked { track } => single_line(track),
            TrackChangeView::Unlocked { track } => single_line(track),
        }
    &&& forall|i: int|
        0 <= i < d.bin_changes.len() ==> match #[trigger] d.bin_changes[i] {
            BinChangeView::Added { clip } => single_line(clip),
            BinChangeView::Removed { clip } => single_line(clip),
            BinChangeView::Renamed { from, to } => single_line(from) && single_line(to),
        }
    &&& forall|i: int| 0 <= i < d.clip_changes.len() ==> clip_change_single_line(#[trigger] d.clip_changes[i])
    &&& forall|i: int|
        0 <= i < d.marker_changes.len() ==> match #[trigger] d.marker_changes[i] {
            MarkerChangeView::Added { comment, .. } => single_line(comment),
            MarkerChangeView::Removed { comment, .. } => single_line(comment),
            MarkerChangeView::Moved { comment, .. } => single_line(comment),
            MarkerChangeView::Retitled { from, to, .. } => single_line(from) && single_line(to),
        }
    &&& forall|i: int|
        0 <= i < d.guide_changes.len() ==> match #[trigger] d.guide_changes[i] {
            GuideChangeView::Added { comment, .. } => single_line(comment),
            GuideChangeView::Removed { comment, .. } => single_line(comment),
            GuideChangeView::Retitled { from, to, .. } => single_line(from) && single_line(to),
        }
}

/// No text a clip change holds has a line feed in it.
pub open spec fn clip_change_single_line(c: ClipChangeView) -> bool {
    &&& single_line(c.track)
    &&& single_line(c.clip)
    &&& match c.kind {
        ClipChangeKindView::EffectAdded { effect } => single_line(effect),
        ClipChangeKindView::EffectRemoved { effect } => single_line(effect),
        ClipChangeKindView::EffectDisabled { effect } => single_line(effect),
        ClipChangeKindView::EffectEnabled { effect } => single_line(effect),
        ClipChangeKindView::EffectChanged { effect, params } => single_line(effect) && forall|k: int|
            0 <= k < params.len() ==> {
                let p = #[trigger] params[k];
                single_line(p.name) && single_line(p.from) && single_line(p.to)
            },
        _ => true,
    }
}

proof fn lemma_single_line_literals()
    ensures
        single_line(" and "@),
        single_line(", "@),
        single_line(" "@),
        single_line(" to "@),
        single_line(" keyframes"@),
        single_line(" and 1 other parameter"@),
        single_line(" other parameters"@),
        single_line("(no text)"@),
        single_line("\""@),
{
    reveal_strlit(" and ");
    reveal_strlit(", ");
    reveal_strlit(" ");
    reveal_strlit(" to ");
    reveal_strlit(" keyframes");
    reveal_strlit(" and 1 other parameter");
    reveal_strlit(" other parameters");
    reveal_strlit("(no text)");
    reveal_strlit("\"");
}

proof fn lemma_decimal_single_line(n: nat)
    ensures
        single_line(decimal(n)),
    decreases n,
{
    if n >= 10 {
        lemma_decimal_single_line(n / 10);
    }
}

proof fn lemma_comma_list_single_line(parts: Seq<Seq<char>>)
    requires
        forall|k: int| 0 <= k < parts.len() ==> single_line(#[trigger] parts[k]),
    ensures
        single_line(comma_list(parts)),
        single_line(join_list(parts)),
    decreases parts.len(),
{
    lemma_single_line_literals();
    if parts.len() > 1 {
        assert forall|k: int| 0 <= k < parts.drop_last().len() implies single_line(#[trigger] parts.drop_last()[k]) by {
            assert(parts.drop_last()[k] == parts[k]);
        }
        lemma_comma_list_single_line(parts.drop_last());
        assert(single_line(parts[parts.len() - 1]));
    } else if parts.len() == 1 {
        assert(single_line(parts[0]));
    }
}

proof fn lemma_params_single_line(params: Seq<ParamChangeView>)
    requires
        forall|k: int|
            0 <= k < params.len() ==> {
                let p = #[trigger] params[k];
                single_line(p.name) && single_line(p.from) && single_line(p.to)
            },
    ensures
        single_line(params_phrase(params)),
{
    lemma_single_line_literals();
    let shown = if params.len() < MAX_NAMED_PARAMS { params.len() } else { MAX_NAMED_PARAMS as nat };
    let phrases = params.take(shown as int).map_values(|p: ParamChangeView| param_phrase(p));
    assert forall|k: int| 0 <= k < phrases.len() implies single_line(#[trigger] phrases[k]) by {
        let p = params[k];
        assert(phrases[k] == param_phrase(p));
        assert(single_line(p.name) && single_line(p.from) && single_line(p.to));
        assert(single_line(pretty(p.name)));
    }
    lemma_comma_list_single_line(phrases);
    lemma_decimal_single_line((params.len() - shown) as nat);
}

proof fn lemma_clip_line_single_line(c: ClipChangeView, at: spec_fn(Frames) -> Seq<char>)
    requires
        clip_change_single_line(c),
        forall|f: Frames| single_line(#[trigger] at(f)),
    ensures
        single_line(clip_line(c, at)),
{
    lemma_single_line_literals();
    reveal_strlit("added ");
    reveal_strlit(" to ");
    reveal_strlit(" at ");
    reveal_strlit(", ");
    reveal_strlit(" long");
    reveal_strlit("removed ");
    reveal_strlit(" from ");
    reveal_strlit("moved ");
    reveal_strlit(" on ");
    reveal_strlit("extended");
    reveal_strlit("trimmed");
    reveal_strlit(" effect to ");
    reveal_strlit(" effect from ");
    reveal_strlit("disabled ");
    reveal_strlit(" effect on ");
    reveal_strlit("enabled ");
    reveal_strlit("changed ");
    reveal_strlit(" effect, ");
    match c.kind {
        ClipChangeKindView::Added { position, duration } => {
            assert(single_line(at(position)) && single_line(at(duration)));
        },
        ClipChangeKindView::Removed { position } => {
            assert(single_line(at(position)));
        },
        ClipChangeKindView::Moved { from, to } => {
            assert(single_line(at(from)) && single_line(at(to)));
        },
        ClipChangeKindView::Trimmed { from_duration, to_duration, position } => {
            assert(single_line(at(position)) && single_line(at(from_duration)) && single_line(at(to_duration)));
        },
        ClipChangeKindView::EffectChanged { effect, params } => {
            lemma_params_single_line(params);
            assert(single_line(pretty(effect)));
        },
        ClipChangeKindView::EffectAdded { effect } => {
            assert(single_line(pretty(effect)));
        },
        ClipChangeKindView::EffectRemoved { effect } => {
            assert(single_line(pretty(effect)));
        },
        ClipChangeKindView::EffectDisabled { effect } => {
            assert(single_line(pretty(effect)));
        },
        ClipChangeKindView::EffectEnabled { effect } => {
            assert(single_line(pretty(effect)));
        },
    }
}

proof fn lemma_other_lines_single_line(
    p: ProfileChangeView,
    t: TrackChangeView,
    b: BinChangeView,
    m: MarkerChangeView,
    g: GuideChangeView,
    at: spec_fn(Frames) -> Seq<char>,
)
    requires
        forall|f: Frames| single_line(#[trigger] at(f)),
    ensures
        single_line(p.what) && single_line(p.from) && single_line(p.to) ==> single_line(profile_line(p)),
        (match t {
            TrackChangeView::Added { track } => single_line(track),
            TrackChangeView::Removed { track } => single_line(track),
            TrackChangeView::Locked { track } => single_line(track),
            TrackChangeView::Unlocked { track } => single_line(track),
        }) ==> single_line(track_line(t)),
        (match b {
            BinChangeView::Added { clip } => single_line(clip),
            BinChangeView::Removed { clip } => single_line(clip),
            BinChangeView::Renamed { from, to } => single_line(from) && single_line(to),
        }) ==> single_line(bin_line(b)),
        (match m {
            MarkerChangeView::Added { comment, .. } => single_line(comment),
            MarkerChangeView::Removed { comment, .. } => single_line(comment),
            MarkerChangeView::Moved { comment, .. } => single_line(comment),
            MarkerChangeView::Retitled { from, to, .. } => single_line(from) && single_line(to),
        }) ==> single_line(marker_line(m, at)),
        (match g {
            GuideChangeView::Added { comment, .. } => single_line(comment),
            GuideChangeView::Removed { comment, .. } => single_line(comment),
            GuideChangeView::Retitled { from, to, .. } => single_line(from) && single_line(to),
        }) ==> single_line(guide_line(g, at)),
{
    lemma_single_line_literals();
    reveal_strlit("changed project ");
    reveal_strlit(" from ");
    reveal_strlit(" to ");
    reveal_strlit("added track ");
    reveal_strlit("removed track ");
    reveal_strlit("locked track ");
    reveal_strlit("unlocked track ");
    reveal_strlit("added ");
    reveal_strlit("removed ");
    reveal_strlit(" to the project bin");
    reveal_strlit(" from the project bin");
    reveal_strlit("renamed bin clip ");
    reveal_strlit("added marker ");
    reveal_strlit("removed marker ");
    reveal_strlit("moved marker ");
    reveal_strlit("renamed marker at ");
    reveal_strlit(" at ");
    reveal_strlit("added guide ");
    reveal_strlit("removed guide ");
    reveal_strlit("renamed guide at ");
    match m {
        MarkerChangeView::Added { position, comment } => {
            assert(single_line(at(position)));
            assert(single_line(comment) ==> single_line(quoted(comment)));
        },
        MarkerChangeView::Removed { position, comment } => {
            assert(single_line(at(position)));
            assert(single_line(comment) ==> single_line(quoted(comment)));
        },
        MarkerChangeView::Moved { from, to, comment } => {
            assert(single_line(at(from)) && single_line(at(to)));
            assert(single_line(comment) ==> single_line(quoted(comment)));
        },
        MarkerChangeView::Retitled { position, from, to } => {
            assert(single_line(at(position)));
            assert(single_line(from) ==> single_line(quoted(from)));
            assert(single_line(to) ==> single_line(quoted(to)));
        },
    }
    match g {
        GuideChangeView::Added { position, comment } => {
            assert(single_line(at(position)));
            assert(single_line(comment) ==> single_line(quoted(comment)));
        },
        GuideChangeView::Removed { position, comment } => {
            assert(single_line(at(position)));
            assert(single_line(comment) ==> single_line(quoted(comment)));
        },
        GuideChangeView::Retitled { position, from, to } => {
            assert(single_line(at(position)));
            assert(single_line(from) ==> single_line(quoted(from)));
            assert(single_line(to) ==> single_line(quoted(to)));
        },
    }
}

/// A diff whose texts, and the times its labeller writes, hold no line
/// feed renders to lines that hold none either.
pub proof fn lines_stay_single(d: DiffView, at: spec_fn(Frames) -> Seq<char>)
    requires
        diff_single_line(d),
        forall|f: Frames| single_line(#[trigger] at(f)),
    ensures
        forall|i: int| 0 <= i < render_lines(d, at).len() ==> single_line(#[trigger] render_lines(d, at)[i]),
{
    let ls = render_lines(d, at);
    let dp = ProfileChangeView { what: Seq::empty(), from: Seq::empty(), to: Seq::empty() };
    let dt = TrackChangeView::Added { track: Seq::empty() };
    let db = BinChangeView::Added { clip: Seq::empty() };
    let dm = MarkerChangeView::Added { position: 0, comment: Seq::empty() };
    let dg = GuideChangeView::Added { position: 0, comment: Seq::empty() };
    assert forall|i: int| 0 <= i < ls.len() implies single_line(#[trigger] ls[i]) by {
        let n1 = d.profile_changes.len() as int;
        let n2 = n1 + d.track_changes.len();
        let n3 = n2 + d.bin_changes.len();
        let n4 = n3 + d.clip_changes.len();
        let n5 = n4 + d.marker_changes.len();
        if i < n1 {
            let c = d.profile_changes[i];
            lemma_other_lines_single_line(c, dt, db, dm, dg, at);
        } else if i < n2 {
            let c = d.track_changes[i - n1];
            lemma_other_lines_single_line(dp, c, db, dm, dg, at);
        } else if i < n3 {
            let c = d.bin_changes[i - n2];
            lemma_other_lines_single_line(dp, dt, c, dm, dg, at);
        } else if i < n4 {
            lemma_clip_line_single_line(d.clip_changes[i - n3], at);
        } else if i < n5 {
            let c = d.marker_changes[i - n4];
            lemma_other_lines_single_line(dp, dt, db, c, dg, at);
        } else {
            let c = d.guide_changes[i - n5];
            lemma_other_lines_single_line(dp, dt, db, dm, c, at);
        }
    }
}

/// One line summarizing a whole diff, for use as a commit subject.
pub fn summarize<F: Fn(Frames) -> String>(diff: &Diff, at: &F) -> (r: String)
    requires
        time_labeller(*at),
    ensures
        r@ == summary(render_lines(diff@, |f: Frames| time_text(*at, f))),
        !diff@.is_empty() ==> 'A' <= r@[0] <= 'Z',
        !diff@.is_empty() && !has_char(render_lines(diff@, |f: Frames| time_text(*at, f))[0], '\n') ==> !has_char(
            r@,
            '\n',
        ),
        diff_single_line(diff@) && (forall|f: Frames| single_line(#[trigger] time_text(*at, f))) ==> !has_char(
            r@,
            '\n',
        ),
{
    let lines = render(diff, at);
    let ghost ls = render_lines(diff@, |f: Frames| time_text(*at, f));
    assert(lines@.len() == line_views(lines@).len());
    proof {
        lines_start_with_a_verb(diff@, |f: Frames| time_text(*at, f));
        empty_diff_reads_as_no_change(diff@, |f: Frames| time_text(*at, f));
        if ls.len() > 0 {
            assert(starts_lower(ls[0]));
            assert(line_views(lines@)[0] == lines@[0]@);
        }
    }
    proof {
        if diff_single_line(diff@) && (forall|f: Frames| single_line(#[trigger] time_text(*at, f))) {
            lines_stay_single(diff@, |f: Frames| time_text(*at, f));
            if ls.len() > 0 {
                assert(single_line(ls[0]));
            }
        }
    }
    if lines.len() == 0 {
        proof {
            reveal_strlit("saved with no detected changes");
            assert(single_line("saved with no detected changes"@));
        }
        return owned("saved with no detected changes");
    }
    let first = capitalize(lines[0].as_str());
    proof {
        if !has_char(ls[0], '\n') {
            lemma_capital_keeps_one_line(ls[0], first@);
            lemma_summary_keeps_one_line(ls, first@);
        }
    }
    if lines.len() == 1 {
        first
    } else {
        let n = lines.len();
        let mut r = first;
        r.append(" and ");
        r.append(decimal_string((n - 1) as u64).as_str());
        r.append(" more change");
        if n != 2 {
            r.append("s");
        }
        r
    }
}

proof fn lemma_joined_keeps_one_line(a: Seq<char>, b: Seq<char>)
    requires
        !has_char(a, '\n'),
        !has_char(b, '\n'),
    ensures
        !has_char(a + b, '\n'),
{
    if has_char(a + b, '\n') {
        let i = choose|i: int| 0 <= i < (a + b).len() && (a + b)[i] == '\n';
        if i < a.len() {
            assert(a[i] == '\n');
        } else {
            assert(b[i - a.len()] == '\n');
        }
    }
}

proof fn lemma_decimal_one_line(n: nat)
    ensures
        !has_char(decimal(n), '\n'),
    decreases n,
{
    if n >= 10 {
        lemma_decimal_one_line(n / 10);
        lemma_joined_keeps_one_line(decimal(n / 10), seq![crate::text::digit_char(n % 10)]);
        assert(decimal(n / 10).push(crate::text::digit_char(n % 10)) =~= decimal(n / 10) + seq![
            crate::text::digit_char(n % 10),
        ]);
    }
}

proof fn lemma_capital_keeps_one_line(line: Seq<char>, cap: Seq<char>)
    requires
        starts_lower(line),
        !has_char(line, '\n'),
        cap == seq![((line[0] as u32) - 32) as char] + line.drop_first(),
    ensures
        !has_char(cap, '\n'),
{
    if has_char(cap, '\n') {
        let i = choose|i: int| 0 <= i < cap.len() && cap[i] == '\n';
        if i > 0 {
            assert(line[i] == '\n');
        }
    }
}

proof fn lemma_summary_keeps_one_line(lines: Seq<Seq<char>>, cap: Seq<char>)
    requires
        lines.len() > 0,
        capitalized(lines[0]) == cap,
        !has_char(cap, '\n'),
    ensures
        !has_char(summary(lines), '\n'),
{
    if lines.len() > 1 {
        reveal_strlit(" and ");
        reveal_strlit(" more change");
        reveal_strlit("s");
        let n = (lines.len() - 1) as nat;
        lemma_decimal_one_line(n);
        assert(!has_char(" and "@, '\n'));
        assert(!has_char(" more change"@, '\n'));
        assert(!has_char("s"@, '\n'));
        assert(!has_char(Seq::<char>::empty(), '\n'));
        lemma_joined_keeps_one_line(cap, " and "@);
        lemma_joined_keeps_one_line(cap + " and "@, decimal(n));
        lemma_joined_keeps_one_line(cap + " and "@ + decimal(n), " more change"@);
        let tail = if lines.len() == 2 { Seq::<char>::empty() } else { "s"@ };
        lemma_joined_keeps_one_line(cap + " and "@ + decimal(n) + " more change"@, tail);
    }
}

/// The number of changes a diff records.
pub open spec fn change_count(d: DiffView) -> nat {
    d.profile_changes.len() + d.track_changes.len() + d.bin_changes.len() + d.clip_changes.len()
        + d.marker_changes.len() + d.guide_changes.len()
}

/// Rendering gives exactly one line per change.
pub proof fn one_line_per_change(d: DiffView, at: spec_fn(Frames) -> Seq<char>)
    ensures
        render_lines(d, at).len() == change_count(d),
{
}

/// A diff renders to no lines exactly when it is empty, and its summary is
/// then the no-change sentence.
pub proof fn empty_diff_reads_as_no_change(d: DiffView, at: spec_fn(Frames) -> Seq<char>)
    ensures
        d.is_empty() <==> render_lines(d, at).len() == 0,
        d.is_empty() ==> summary(render_lines(d, at)) == "saved with no detected changes"@,
{
}

/// A save that changed nothing reads as one: the summary of a project
/// compared with itself is the no-change sentence.
pub proof fn unchanged_project_reads_as_no_change(
    p: crate::model::Project,
    rate: spec_fn(u32, u32) -> Seq<char>,
    at: spec_fn(Frames) -> Seq<char>,
)
    requires
        p.well_formed(),
    ensures
        render_lines(crate::differ::diff_of(p, p, rate), at).len() == 0,
        summary(render_lines(crate::differ::diff_of(p, p, rate), at)) == "saved with no detected changes"@,
{
    crate::differ::diff_with_itself_is_empty(p, rate);
}

/// Each sentence names the earlier state first and the newer one after
/// it: a moved clip reads from its old position to its new one, a trimmed
/// clip from its old length to its new one, a project setting, a renamed
/// bin clip and a renamed marker or guide from the old value to the new,
/// and a moved marker from where it was to where it is.
pub proof fn lines_read_from_old_to_new(
    clip: Seq<char>,
    track: Seq<char>,
    from: Frames,
    to: Frames,
    position: Frames,
    old_text: Seq<char>,
    new_text: Seq<char>,
    what: Seq<char>,
    at: spec_fn(Frames) -> Seq<char>,
)
    ensures
        clip_line(ClipChangeView { track, clip, kind: ClipChangeKindView::Moved { from, to } }, at) == "moved "@
            + clip + " on "@ + track + " from "@ + at(from) + " to "@ + at(to),
        clip_line(
            ClipChangeView {
                track,
                clip,
                kind: ClipChangeKindView::Trimmed { from_duration: from, to_duration: to, position },
            },
            at,
        ) == (if to > from {
            "extended"@
        } else {
            "trimmed"@
        }) + " "@ + clip + " on "@ + track + " at "@ + at(position) + ", "@ + at(from) + " to "@ + at(to),
        profile_line(ProfileChangeView { what, from: old_text, to: new_text }) == "changed project "@ + what
            + " from "@ + old_text + " to "@ + new_text,
        bin_line(BinChangeView::Renamed { from: old_text, to: new_text }) == "renamed bin clip "@ + old_text + " to "@
            + new_text,
        marker_line(MarkerChangeView::Moved { from, to, comment: old_text }, at) == "moved marker "@ + quoted(
            old_text,
        ) + " from "@ + at(from) + " to "@ + at(to),
        marker_line(MarkerChangeView::Retitled { position, from: old_text, to: new_text }, at)
            == "renamed marker at "@ + at(position) + " from "@ + quoted(old_text) + " to "@ + quoted(new_text),
        guide_line(GuideChangeView::Retitled { position, from: old_text, to: new_text }, at)
            == "renamed guide at "@ + at(position) + " from "@ + quoted(old_text) + " to "@ + quoted(new_text),
{
}

} // verus!
