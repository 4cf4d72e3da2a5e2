//! Differ and renderer tests on small documents, edited in place the way a
//! save in Kdenlive would change them.

use cutback::cli::{describe_catch_up, describe_save};
use cutback::differ::{diff, spans_fit_in, ClipChangeKind, Diff};
use cutback::model::Project;
use cutback::render::{render, summarize};
use cutback::xml_parser::parse_str;

fn seconds_to_frames(seconds: f64, fps: f64) -> Result<i64, &'static str> {
    if !fps.is_finite() || fps <= 0.0 {
        return Err("project profile has no usable frame rate");
    }
    if !seconds.is_finite() {
        return Err("not a finite time value");
    }
    Ok((seconds * fps).round() as i64)
}

fn parse_timecode(raw: &str, fps: f64) -> Result<i64, &'static str> {
    let value = raw.trim();
    if value.is_empty() {
        return Err("empty value");
    }
    if !value.contains(':') {
        if let Ok(frames) = value.parse::<i64>() {
            return Ok(frames);
        }
        let seconds: f64 = value.parse().map_err(|_| "not a number or timecode")?;
        return seconds_to_frames(seconds, fps);
    }
    let parts: Vec<&str> = value.split(':').collect();
    let [hours, minutes, rest] = parts[..] else {
        return Err("expected HH:MM:SS.mmm or HH:MM:SS:FF");
    };
    let hours: f64 = hours.parse().map_err(|_| "hours is not a number")?;
    let minutes: f64 = minutes.parse().map_err(|_| "minutes is not a number")?;
    let seconds: f64 = rest.parse().map_err(|_| "seconds is not a number")?;
    seconds_to_frames(hours * 3600.0 + minutes * 60.0 + seconds, fps)
}

fn time(raw: &str, num: u32, den: u32) -> Result<i64, &'static str> {
    let fps = if den == 0 { 0.0 } else { f64::from(num) / f64::from(den) };
    parse_timecode(raw, fps)
}

fn version(v: &str) -> bool {
    v.parse::<f64>().map(|x| (1.1..=1.1).contains(&x)).unwrap_or(false)
}

fn number(t: &str) -> (i64, i32) {
    let x: f64 = t.parse().unwrap_or(0.0);
    (x.round() as i64, x as i32)
}



fn format_duration(frames: i64, fps: f64) -> String {
    if !fps.is_finite() || fps <= 0.0 {
        return format!("{frames} frames");
    }
    let total = (frames as f64 / fps).round().max(0.0) as i64;
    let (hours, minutes, seconds) = (total / 3600, (total % 3600) / 60, total % 60);
    if hours > 0 {
        format!("{hours}:{minutes:02}:{seconds:02}")
    } else {
        format!("{minutes}:{seconds:02}")
    }
}

fn format_fps(fps: f64) -> String {
    if (fps.round() - fps).abs() < 0.001 {
        format!("{fps:.0} fps")
    } else {
        format!("{fps:.2} fps")
    }
}

fn rate(num: u32, den: u32) -> String {
    format_fps(if den == 0 { 0.0 } else { f64::from(num) / f64::from(den) })
}

fn changes(before: &Project, after: &Project) -> Diff {
    diff(before, after, &rate)
}

fn lines(d: &Diff, fps: f64) -> Vec<String> {
    render(d, &|f: i64| format_duration(f, fps))
}

fn one_line(d: &Diff, fps: f64) -> String {
    summarize(d, &|f: i64| format_duration(f, fps))
}

fn parse(text: &str) -> Project {
    parse_str(text, &time, &version, &number).expect("sample should parse")
}

const DOC: &str = r#"<?xml version='1.0' encoding='utf-8'?>
<mlt LC_NUMERIC="C" producer="main_bin" version="7.22.0">
 <profile description="HD 1080p 30 fps" width="1920" height="1080" frame_rate_num="30" frame_rate_den="1"/>
 <chain id="chain0" out="00:00:10.000">
  <property name="resource">/videos/VID_20251212_092005.mp4</property>
  <property name="mlt_service">avformat-novalidate</property>
  <property name="kdenlive:id">2</property>
 </chain>
 <producer id="producer1">
  <property name="resource">title.kdenlivetitle</property>
  <property name="mlt_service">kdenlivetitle</property>
  <property name="kdenlive:clipname">Intro title</property>
  <property name="kdenlive:id">3</property>
 </producer>
 <producer id="black_track">
  <property name="mlt_service">color</property>
 </producer>
 <playlist id="main_bin">
  <property name="kdenlive:docproperties.version">1.1</property>
  <property name="kdenlive:docproperties.guides">[{"comment":"Chorus","pos":90,"type":0},{"comment":"Start","pos":30,"type":0}]</property>
  <entry producer="chain0" in="00:00:00.000" out="00:00:10.000"/>
  <entry producer="producer1" in="00:00:00.000" out="00:00:05.000"/>
 </playlist>
 <playlist id="playlist0">
  <entry producer="chain0" in="00:00:00.000" out="00:00:07.600">
   <property name="kdenlive:id">2</property>
   <filter id="filter0">
    <property name="mlt_service">volume</property>
    <property name="kdenlive_id">gain</property>
    <property name="gain">0.25</property>
    <property name="kdenlive:collapsed">0</property>
   </filter>
   <filter id="filter1">
    <property name="mlt_service">panner</property>
    <property name="internal_added">237</property>
   </filter>
  </entry>
  <blank length="00:00:01.000"/>
  <entry producer="producer1" in="0" out="149"/>
 </playlist>
 <playlist id="playlist1"/>
 <playlist id="playlist2"/>
 <playlist id="playlist3"/>
 <playlist id="playlist4"/>
 <playlist id="playlist5"/>
 <tractor id="tractor0" in="0" out="500">
  <property name="kdenlive:audio_track">1</property>
  <track producer="playlist0" hide="video"/>
  <track producer="playlist1" hide="video"/>
 </tractor>
 <tractor id="tractor1" in="0" out="500">
  <property name="kdenlive:locked_track">1</property>
  <track producer="playlist2"/>
  <track producer="playlist3"/>
 </tractor>
 <tractor id="tractor2" in="0" out="500">
  <track producer="playlist4"/>
  <track producer="playlist5"/>
 </tractor>
 <tractor id="{5ab2c9e1-0000-4000-8000-000000000000}" in="0" out="500">
  <property name="kdenlive:uuid">{5ab2c9e1-0000-4000-8000-000000000000}</property>
  <property name="kdenlive:clipname">Sequence 1</property>
  <property name="kdenlive:markers">[{"comment":"Gap","pos":2574,"type":2}]</property>
  <track producer="black_track"/>
  <track producer="tractor0"/>
  <track producer="tractor1"/>
  <track producer="tractor2"/>
 </tractor>
</mlt>
"#;


#[test]
fn a_file_against_itself_has_no_changes() {
    let p = parse(DOC);
    let d = changes(&p, &p);
    assert!(d.is_empty());
    assert_eq!(one_line(&d, 30.0), "saved with no detected changes");
    assert!(lines(&d, 30.0).is_empty());
}

#[test]
fn reordered_xml_is_not_a_change() {
    let moved = DOC.replace(
        r#" <producer id="black_track">
  <property name="mlt_service">color</property>
 </producer>
"#,
        "",
    )
    .replace(
        "</mlt>",
        " <producer id=\"black_track\">\n  <property name=\"mlt_service\">color</property>\n </producer>\n</mlt>",
    );
    assert_ne!(moved, DOC);
    let d = changes(&parse(DOC), &parse(&moved));
    assert!(d.is_empty(), "expected no changes, got {:?}", lines(&d, 30.0));
    assert_eq!(one_line(&d, 30.0), "saved with no detected changes");
}

#[test]
fn changing_an_effect_parameter_names_it() {
    let after = DOC.replace(r#"<property name="gain">0.25</property>"#, r#"<property name="gain">0.75</property>"#);
    let d = changes(&parse(DOC), &parse(&after));
    let out = lines(&d, 30.0);
    assert_eq!(out.len(), 1, "{out:?}");
    assert!(out[0].contains("gain 0.25 to 0.75"), "{out:?}");
    assert!(out[0].ends_with("A1"), "the line should name the track: {}", out[0]);
    // The effect here is named "gain" and so is its only parameter, so the
    // effect name is not said twice.
    assert!(!out[0].contains("gain effect"), "{}", out[0]);
}

#[test]
fn trimming_a_clip_reports_old_and_new_duration() {
    let after = DOC.replace(r#"out="00:00:07.600""#, r#"out="00:00:05.600""#);
    let d = changes(&parse(DOC), &parse(&after));
    let trims: Vec<_> = d
        .clip_changes
        .iter()
        .filter(|c| matches!(c.kind, ClipChangeKind::Trimmed { .. }))
        .collect();
    assert_eq!(trims.len(), 1, "expected exactly one trim, got {}", d.clip_changes.len());
    let line = &lines(&d, 30.0)[0];
    assert!(line.starts_with("trimmed "), "{line}");
    assert!(line.contains("0:08 to 0:06"), "{line}");
}

#[test]
fn extending_a_clip_says_extended_not_trimmed() {
    let after = DOC.replace(r#"out="00:00:07.600""#, r#"out="00:00:09.600""#);
    let out = lines(&changes(&parse(DOC), &parse(&after)), 30.0);
    assert!(out.iter().any(|l| l.starts_with("extended ")), "{out:?}");
}

#[test]
fn removals_mirror_additions() {
    let before = DOC.replace(r#"<blank length="00:00:01.000"/>
  <entry producer="producer1" in="0" out="149"/>"#, "");
    let forward = lines(&changes(&parse(&before), &parse(DOC)), 30.0);
    let back = lines(&changes(&parse(DOC), &parse(&before)), 30.0);
    assert_eq!(forward.len(), back.len(), "{forward:?} {back:?}");
    assert!(forward.iter().any(|l| l.starts_with("added Intro title to A1")), "{forward:?}");
    assert!(back.iter().all(|l| l.starts_with("removed")), "{back:?}");
}

#[test]
fn marker_changes_are_reported_with_their_text() {
    let after = DOC.replace(r#""comment":"Gap""#, r#""comment":"Cut here""#);
    let out = lines(&changes(&parse(DOC), &parse(&after)), 30.0);
    assert!(out.iter().any(|l| l.contains("Gap") && l.contains("Cut here")), "{out:?}");
}

#[test]
fn profile_changes_are_reported() {
    let after = DOC.replace(r#"frame_rate_num="30""#, r#"frame_rate_num="60""#);
    let out = lines(&changes(&parse(DOC), &parse(&after)), 60.0);
    assert!(out.iter().any(|l| l.contains("frame rate") && l.contains("30 fps") && l.contains("60 fps")), "{out:?}");
}

#[test]
fn bin_additions_are_reported() {
    let after = DOC.replace(
        r#"  <entry producer="producer1" in="00:00:00.000" out="00:00:05.000"/>
 </playlist>"#,
        r#"  <entry producer="producer1" in="00:00:00.000" out="00:00:05.000"/>
  <entry producer="extra"/>
 </playlist>
 <producer id="extra"><property name="kdenlive:id">9</property><property name="kdenlive:clipname">Logo</property></producer>"#,
    );
    let out = lines(&changes(&parse(DOC), &parse(&after)), 30.0);
    assert_eq!(out, vec!["added Logo to the project bin".to_string()]);
}

#[test]
fn summary_stays_one_line() {
    let after = DOC
        .replace(r#"<property name="gain">0.25</property>"#, r#"<property name="gain">0.75</property>"#)
        .replace(r#""comment":"Gap""#, r#""comment":"Cut here""#);
    let d = changes(&parse(DOC), &parse(&after));
    let subject = one_line(&d, 30.0);
    assert!(!subject.contains('\n'), "commit subject must be one line");
    assert!(subject.starts_with(char::is_uppercase), "{subject}");
    assert!(subject.contains("more change"), "{subject}");
}

#[test]
fn bin_removals_mirror_bin_additions() {
    let after = DOC.replace(
        r#"  <entry producer="producer1" in="00:00:00.000" out="00:00:05.000"/>
 </playlist>"#,
        r#"  <entry producer="producer1" in="00:00:00.000" out="00:00:05.000"/>
  <entry producer="extra"/>
 </playlist>
 <producer id="extra"><property name="kdenlive:id">9</property><property name="kdenlive:clipname">Logo</property></producer>"#,
    );
    let back = lines(&changes(&parse(&after), &parse(DOC)), 30.0);
    assert_eq!(back, vec!["removed Logo from the project bin".to_string()]);
}

#[test]
fn a_single_change_reads_as_a_sentence() {
    let after = DOC.replace(r#"<property name="gain">0.25</property>"#, r#"<property name="gain">0.90</property>"#);
    let d = changes(&parse(DOC), &parse(&after));
    let subject = one_line(&d, 30.0);
    assert!(subject.starts_with("Changed gain 0.25 to 0.90"), "{subject}");
}

#[test]
fn a_save_that_changed_nothing_is_not_recorded() {
    let p = parse(DOC);
    assert!(describe_save(&p, &p, &rate, &|f: i64| format_duration(f, 30.0)).is_none());
}

#[test]
fn a_recorded_save_lists_its_changes_in_the_body() {
    let after = DOC
        .replace(r#"<property name="gain">0.25</property>"#, r#"<property name="gain">0.75</property>"#)
        .replace(r#""comment":"Gap""#, r#""comment":"Cut here""#);
    let record = describe_save(&parse(DOC), &parse(&after), &rate, &|f: i64| format_duration(f, 30.0)).unwrap();
    assert_eq!(record.lines.len(), 2);
    assert_eq!(record.body, record.lines.join("\n"));
    assert!(record.subject.ends_with(" and 1 more change"), "{}", record.subject);
}

#[test]
fn clip_lengths_must_be_measurable() {
    assert!(spans_fit_in(&parse(DOC)));
    let far = DOC.replace(r#"in="0" out="149""#, r#"in="-2" out="9223372036854775807""#);
    assert!(!spans_fit_in(&parse(&far)));
}

/// Moving a clip must read as a move, not as a delete plus an add.
#[test]
fn moving_a_clip_reads_as_a_move() {
    // V2 holds one title clip after a blank. Lengthening the blank slides the
    // clip later on the track, which is what dragging it in Kdenlive does.
    let original = DOC.replace(
        r#"<playlist id="playlist4"/>"#,
        r#"<playlist id="playlist4"><blank length="00:00:19.700"/><entry producer="producer1" in="0" out="149"/></playlist>"#,
    );
    let moved = original.replacen(
        r#"<blank length="00:00:19.700"/>"#,
        r#"<blank length="00:00:21.700"/>"#,
        1,
    );
    assert_ne!(original, moved, "the blank we key on should exist");

    let d = diff(&parse(&original), &parse(&moved), &rate);
    let moves: Vec<_> = d
        .clip_changes
        .iter()
        .filter(|c| matches!(c.kind, ClipChangeKind::Moved { .. }))
        .collect();

    assert_eq!(moves.len(), 1, "expected one move, got {}", d.clip_changes.len());
    assert_eq!(moves[0].track, "V2");
    assert!(
        !d.clip_changes
            .iter()
            .any(|c| matches!(c.kind, ClipChangeKind::Added { .. } | ClipChangeKind::Removed { .. })),
        "a move must not also report an add or a remove"
    );
}

#[test]
fn a_blank_grown_on_an_audio_track_moves_the_clip_after_it() {
    let moved = DOC.replacen(r#"<blank length="00:00:01.000"/>"#, r#"<blank length="00:00:03.000"/>"#, 1);
    assert_ne!(moved, DOC, "the blank we key on should exist");
    let d = changes(&parse(DOC), &parse(&moved));
    let moves: Vec<_> = d
        .clip_changes
        .iter()
        .filter(|c| matches!(c.kind, ClipChangeKind::Moved { .. }))
        .collect();
    assert_eq!(moves.len(), 1, "expected one move, got {}", d.clip_changes.len());
    assert_eq!(moves[0].track, "A1");
}

#[test]
fn detects_clips_and_bin_items_added_between_real_saves() {
    let after = DOC
        .replace(
            r#"  <entry producer="producer1" in="00:00:00.000" out="00:00:05.000"/>
 </playlist>"#,
            r#"  <entry producer="producer1" in="00:00:00.000" out="00:00:05.000"/>
  <entry producer="extra"/>
 </playlist>
 <producer id="extra"><property name="kdenlive:id">9</property><property name="kdenlive:clipname">Logo</property></producer>"#,
        )
        .replace(r#"<playlist id="playlist4"/>"#, r#"<playlist id="playlist4"><blank length="15"/><entry producer="extra" in="0" out="29"/></playlist>"#);
    let out = lines(&changes(&parse(DOC), &parse(&after)), 30.0);
    assert!(out.iter().any(|l| l.contains("to the project bin")), "expected a bin addition, got {out:?}");
    assert!(
        out.iter().any(|l| l.starts_with("added") && l.contains(" to V2 at ")),
        "expected clips added to V2, got {out:?}"
    );
}

const ADDED_TRACK: &str = r#" <tractor id="tractor3" in="0" out="500">
  <track producer="playlist6"/>
  <track producer="playlist7"/>
 </tractor>
 <playlist id="playlist6"/>
 <playlist id="playlist7"/>
 <tractor id="{5ab2c9e1"#;

fn with_a_third_video_track() -> String {
    DOC.replacen(" <tractor id=\"{5ab2c9e1", ADDED_TRACK, 1)
        .replace("  <track producer=\"tractor2\"/>\n </tractor>\n</mlt>", "  <track producer=\"tractor2\"/>\n  <track producer=\"tractor3\"/>\n </tractor>\n</mlt>")
}

#[test]
fn track_removals_mirror_track_additions() {
    let after = with_a_third_video_track();
    let forward = changes(&parse(DOC), &parse(&after));
    let back = changes(&parse(&after), &parse(DOC));
    let added: Vec<String> = forward
        .track_changes
        .iter()
        .filter_map(|c| match c {
            cutback::differ::TrackChange::Added { track } => Some(track.clone()),
            _ => None,
        })
        .collect();
    let removed: Vec<String> = back
        .track_changes
        .iter()
        .filter_map(|c| match c {
            cutback::differ::TrackChange::Removed { track } => Some(track.clone()),
            _ => None,
        })
        .collect();
    assert_eq!(added, vec!["V3".to_string()]);
    assert_eq!(removed, added);
}

#[test]
fn unlocking_mirrors_locking() {
    let after = DOC.replace("  <property name=\"kdenlive:locked_track\">1</property>\n", "");
    assert_ne!(after, DOC);
    let forward = changes(&parse(DOC), &parse(&after));
    let back = changes(&parse(&after), &parse(DOC));
    assert!(matches!(&forward.track_changes[..], [cutback::differ::TrackChange::Unlocked { track }] if track == "V1"));
    assert!(matches!(&back.track_changes[..], [cutback::differ::TrackChange::Locked { track }] if track == "V1"));
}

#[test]
fn guide_removals_mirror_guide_additions() {
    let after = DOC.replace(r#",{"comment":"Start","pos":30,"type":0}"#, "");
    assert_ne!(after, DOC);
    let forward = changes(&parse(DOC), &parse(&after));
    let back = changes(&parse(&after), &parse(DOC));
    assert!(matches!(&forward.guide_changes[..],
        [cutback::differ::GuideChange::Removed { position: 30, comment }] if comment == "Start"));
    assert!(matches!(&back.guide_changes[..],
        [cutback::differ::GuideChange::Added { position: 30, comment }] if comment == "Start"));
}

#[test]
fn renames_mirror_each_other() {
    let after = DOC.replace("Intro title", "Opening");
    let forward = changes(&parse(DOC), &parse(&after));
    let back = changes(&parse(&after), &parse(DOC));
    assert!(matches!(&forward.bin_changes[..],
        [cutback::differ::BinChange::Renamed { from, to }] if from == "Intro title" && to == "Opening"));
    assert!(matches!(&back.bin_changes[..],
        [cutback::differ::BinChange::Renamed { from, to }] if from == "Opening" && to == "Intro title"));
}

#[test]
fn moving_a_producer_reads_as_the_same_project() {
    let chain = &DOC[DOC.find(" <chain id=\"chain0\"").unwrap()..DOC.find(" <producer id=\"producer1\"").unwrap()];
    let moved = DOC.replacen(chain, "", 1).replace("</mlt>", &format!("{chain}</mlt>"));
    assert_ne!(moved, DOC);
    assert_eq!(format!("{:?}", parse(DOC)), format!("{:?}", parse(&moved)));
    assert!(changes(&parse(DOC), &parse(&moved)).is_empty());
}

#[test]
fn edits_made_while_not_watching_say_so() {
    let after = DOC.replace(
        r#"  <entry producer="producer1" in="00:00:00.000" out="00:00:05.000"/>
 </playlist>"#,
        r#"  <entry producer="producer1" in="00:00:00.000" out="00:00:05.000"/>
  <entry producer="extra"/>
 </playlist>
 <producer id="extra"><property name="kdenlive:id">9</property><property name="kdenlive:clipname">Logo</property></producer>"#,
    );
    let record = describe_catch_up(&parse(DOC), &parse(&after), &rate, &|f: i64| format_duration(f, 30.0)).unwrap();
    assert_eq!(record.subject, "Added Logo to the project bin (edited while cutback was not running)");
    assert_eq!(record.body, "added Logo to the project bin");
    assert!(record.subject.contains("not running") && record.subject.contains("project bin"));
    let p = parse(DOC);
    assert!(describe_catch_up(&p, &p, &rate, &|f: i64| format_duration(f, 30.0)).is_none());
}
