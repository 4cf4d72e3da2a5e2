//! Parser tests on small documents in the gen-5 layout Kdenlive writes.

use cutback::model::{Project, TrackKind};
use cutback::xml::read_outline;
use cutback::xml_parser::{parse_str, project_from_outline, ParseError};

fn seconds_to_frames(seconds: f64, fps: f64) -> Result<i64, &'static str> {
    if !fps.is_finite() || fps <= 0.0 {
        return Err("project profile has no usable frame rate");
    }
    if !seconds.is_finite() {
        return Err("not a finite time value");
    }
    Ok((seconds * fps).round() as i64)
}

fn parse_timecode(raw: &str, fps: f64) -> Result<i64, &'static str> {
    let value = raw.trim();
    if value.is_empty() {
        return Err("empty value");
    }
    if !value.contains(':') {
        if let Ok(frames) = value.parse::<i64>() {
            return Ok(frames);
        }
        let seconds: f64 = value.parse().map_err(|_| "not a number or timecode")?;
        return seconds_to_frames(seconds, fps);
    }
    let parts: Vec<&str> = value.split(':').collect();
    let [hours, minutes, rest] = parts[..] else {
        return Err("expected HH:MM:SS.mmm or HH:MM:SS:FF");
    };
    let hours: f64 = hours.parse().map_err(|_| "hours is not a number")?;
    let minutes: f64 = minutes.parse().map_err(|_| "minutes is not a number")?;
    let seconds: f64 = rest.parse().map_err(|_| "seconds is not a number")?;
    seconds_to_frames(hours * 3600.0 + minutes * 60.0 + seconds, fps)
}

fn time(raw: &str, num: u32, den: u32) -> Result<i64, &'static str> {
    let fps = if den == 0 { 0.0 } else { f64::from(num) / f64::from(den) };
    parse_timecode(raw, fps)
}

fn version(v: &str) -> bool {
    v.parse::<f64>().map(|x| (1.1..=1.1).contains(&x)).unwrap_or(false)
}

fn number(t: &str) -> (i64, i32) {
    let x: f64 = t.parse().unwrap_or(0.0);
    (x.round() as i64, x as i32)
}

fn parse(text: &str) -> Result<Project, ParseError> {
    parse_str(text, &time, &version, &number)
}

const DOC: &str = r#"<?xml version='1.0' encoding='utf-8'?>
<mlt LC_NUMERIC="C" producer="main_bin" version="7.22.0">
 <profile description="HD 1080p 30 fps" width="1920" height="1080" frame_rate_num="30" frame_rate_den="1"/>
 <chain id="chain0" out="00:00:10.000">
  <property name="resource">/videos/VID_20251212_092005.mp4</property>
  <property name="mlt_service">avformat-novalidate</property>
  <property name="kdenlive:id">2</property>
 </chain>
 <producer id="producer1">
  <property name="resource">title.kdenlivetitle</property>
  <property name="mlt_service">kdenlivetitle</property>
  <property name="kdenlive:clipname">Intro title</property>
  <property name="kdenlive:id">3</property>
 </producer>
 <producer id="black_track">
  <property name="mlt_service">color</property>
 </producer>
 <playlist id="main_bin">
  <property name="kdenlive:docproperties.version">1.1</property>
  <property name="kdenlive:docproperties.guides">[{"comment":"Chorus","pos":90,"type":0},{"comment":"Start","pos":30,"type":0}]</property>
  <entry producer="chain0" in="00:00:00.000" out="00:00:10.000"/>
  <entry producer="producer1" in="00:00:00.000" out="00:00:05.000"/>
 </playlist>
 <playlist id="playlist0">
  <entry producer="chain0" in="00:00:00.000" out="00:00:07.600">
   <property name="kdenlive:id">2</property>
   <filter id="filter0">
    <property name="mlt_service">volume</property>
    <property name="kdenlive_id">gain</property>
    <property name="gain">0.25</property>
    <property name="kdenlive:collapsed">0</property>
   </filter>
   <filter id="filter1">
    <property name="mlt_service">panner</property>
    <property name="internal_added">237</property>
   </filter>
  </entry>
  <blank length="00:00:01.000"/>
  <entry producer="producer1" in="0" out="149"/>
 </playlist>
 <playlist id="playlist1"/>
 <playlist id="playlist2"/>
 <playlist id="playlist3"/>
 <playlist id="playlist4"/>
 <playlist id="playlist5"/>
 <tractor id="tractor0" in="0" out="500">
  <property name="kdenlive:audio_track">1</property>
  <track producer="playlist0" hide="video"/>
  <track producer="playlist1" hide="video"/>
 </tractor>
 <tractor id="tractor1" in="0" out="500">
  <property name="kdenlive:locked_track">1</property>
  <track producer="playlist2"/>
  <track producer="playlist3"/>
 </tractor>
 <tractor id="tractor2" in="0" out="500">
  <track producer="playlist4"/>
  <track producer="playlist5"/>
 </tractor>
 <tractor id="{5ab2c9e1-0000-4000-8000-000000000000}" in="0" out="500">
  <property name="kdenlive:uuid">{5ab2c9e1-0000-4000-8000-000000000000}</property>
  <property name="kdenlive:clipname">Sequence 1</property>
  <property name="kdenlive:markers">[{"comment":"Gap","pos":2574,"type":2}]</property>
  <track producer="black_track"/>
  <track producer="tractor0"/>
  <track producer="tractor1"/>
  <track producer="tractor2"/>
 </tractor>
</mlt>
"#;

/// Five pieces of footage laid end to end on V1, two audio tracks and two
/// video tracks, the way a timelapse project is saved.
const TIMELAPSE: &str = r#"<?xml version='1.0' encoding='utf-8'?>
<mlt LC_NUMERIC="C" producer="main_bin" version="7.22.0">
 <profile description="HD 1080p 30 fps" width="1920" height="1080" frame_rate_num="30" frame_rate_den="1"/>
 <chain id="chain0" out="00:00:20.000">
  <property name="resource">/videos/VID_20251212_092005.mp4</property>
  <property name="mlt_service">avformat-novalidate</property>
  <property name="kdenlive:id">2</property>
 </chain>
 <chain id="chain1" out="00:00:20.000">
  <property name="resource">/videos/VID_20251212_092140.mp4</property>
  <property name="mlt_service">avformat-novalidate</property>
  <property name="kdenlive:id">3</property>
 </chain>
 <chain id="chain2" out="00:00:20.000">
  <property name="resource">/videos/VID_20251212_092311.mp4</property>
  <property name="mlt_service">avformat-novalidate</property>
  <property name="kdenlive:id">4</property>
 </chain>
 <chain id="chain3" out="00:00:20.000">
  <property name="resource">/videos/VID_20251212_092502.mp4</property>
  <property name="mlt_service">avformat-novalidate</property>
  <property name="kdenlive:id">5</property>
 </chain>
 <chain id="chain4" out="00:00:20.000">
  <property name="resource">/videos/VID_20251212_092649.mp4</property>
  <property name="mlt_service">avformat-novalidate</property>
  <property name="kdenlive:id">6</property>
 </chain>
 <producer id="black_track">
  <property name="mlt_service">color</property>
 </producer>
 <playlist id="main_bin">
  <property name="kdenlive:docproperties.version">1.1</property>
  <entry producer="chain0" in="00:00:00.000" out="00:00:20.000"/>
  <entry producer="chain1" in="00:00:00.000" out="00:00:20.000"/>
  <entry producer="chain2" in="00:00:00.000" out="00:00:20.000"/>
  <entry producer="chain3" in="00:00:00.000" out="00:00:20.000"/>
  <entry producer="chain4" in="00:00:00.000" out="00:00:20.000"/>
 </playlist>
 <playlist id="playlist0">
  <entry producer="chain0" in="0" out="228">
   <filter id="filter0">
    <property name="mlt_service">panner</property>
    <property name="internal_added">237</property>
   </filter>
   <filter id="filter1">
    <property name="mlt_service">audiolevel</property>
    <property name="internal_added">237</property>
   </filter>
  </entry>
 </playlist>
 <playlist id="playlist1"/>
 <playlist id="playlist2"/>
 <playlist id="playlist3"/>
 <playlist id="playlist4">
  <entry producer="chain0" in="0" out="228"/>
  <entry producer="chain1" in="00:00:01.000" out="00:00:05.000"/>
  <entry producer="chain2" in="10" out="99"/>
  <entry producer="chain3" in="0" out="59"/>
  <entry producer="chain4" in="0" out="299"/>
 </playlist>
 <playlist id="playlist5"/>
 <playlist id="playlist6"/>
 <playlist id="playlist7"/>
 <tractor id="tractor0" in="0" out="1000">
  <property name="kdenlive:audio_track">1</property>
  <track producer="playlist0" hide="video"/>
  <track producer="playlist1" hide="video"/>
 </tractor>
 <tractor id="tractor1" in="0" out="1000">
  <property name="kdenlive:audio_track">1</property>
  <track producer="playlist2" hide="video"/>
  <track producer="playlist3" hide="video"/>
 </tractor>
 <tractor id="tractor2" in="0" out="1000">
  <track producer="playlist4"/>
  <track producer="playlist5"/>
 </tractor>
 <tractor id="tractor3" in="0" out="1000">
  <track producer="playlist6"/>
  <track producer="playlist7"/>
 </tractor>
 <tractor id="{7c41d2e0-0000-4000-8000-000000000000}" in="0" out="1000">
  <property name="kdenlive:uuid">{7c41d2e0-0000-4000-8000-000000000000}</property>
  <track producer="black_track"/>
  <track producer="tractor0"/>
  <track producer="tractor1"/>
  <track producer="tractor2"/>
  <track producer="tractor3"/>
 </tractor>
</mlt>
"#;

#[test]
fn refuses_files_that_are_not_kdenlive_projects() {
    let err = parse("<html><body/></html>").unwrap_err();
    assert!(err.message().contains("not a Kdenlive project"));
}

#[test]
fn refuses_malformed_xml() {
    assert!(parse("<mlt><unclosed>").is_err());
}

#[test]
fn malformed_xml_says_so() {
    let err = parse("<mlt><unclosed>").unwrap_err();
    assert!(err.message().starts_with("not valid XML: "), "{}", err.message());
    assert!(err.message().len() > "not valid XML: ".len());
}

/// A future format is exactly where a silently wrong diff would come from, so
/// the parser refuses rather than guessing.
#[test]
fn refuses_a_newer_document_version() {
    let doc = r#"<?xml version='1.0' encoding='utf-8'?>
<mlt producer="main_bin">
 <profile width="1920" height="1080" frame_rate_num="30" frame_rate_den="1"/>
 <playlist id="main_bin">
  <property name="kdenlive:docproperties.version">2.0</property>
 </playlist>
</mlt>"#;
    let err = parse(doc).unwrap_err();
    assert!(err.message().contains("unsupported project format"), "{}", err.message());
}

#[test]
fn reads_the_project_profile() {
    let p = parse(DOC).unwrap();
    assert_eq!((p.profile.width, p.profile.height), (1920, 1080));
    assert_eq!((p.profile.frame_rate_num, p.profile.frame_rate_den), (30, 1));
    assert_eq!(p.profile.description.as_deref(), Some("HD 1080p 30 fps"));
}

#[test]
fn the_bin_holds_listed_clips_by_id() {
    let p = parse(DOC).unwrap();
    let ids: Vec<&str> = p.bin_clips.iter().map(|c| c.id.as_str()).collect();
    assert_eq!(ids, vec!["2", "3"]);
    assert_eq!(p.bin_clips[0].label(), "VID_20251212_092005.mp4");
    assert_eq!(p.bin_clips[0].service.as_deref(), Some("avformat-novalidate"));
    assert_eq!(p.bin_clips[1].label(), "Intro title");
}

#[test]
fn tracks_are_named_the_way_the_editor_sees_them() {
    let p = parse(TIMELAPSE).unwrap();
    let seq = &p.sequences[0];
    let names: Vec<&str> = seq.tracks.iter().map(|t| t.name.as_str()).collect();
    assert_eq!(names, vec!["V2", "V1", "A1", "A2"]);

    let kinds: Vec<_> = seq.tracks.iter().map(|t| t.kind).collect();
    assert_eq!(kinds, vec![TrackKind::Video, TrackKind::Video, TrackKind::Audio, TrackKind::Audio]);
}

#[test]
fn a_locked_track_reads_as_locked() {
    let p = parse(DOC).unwrap();
    let seq = &p.sequences[0];
    let names: Vec<&str> = seq.tracks.iter().map(|t| t.name.as_str()).collect();
    assert_eq!(names, vec!["V2", "V1", "A1"]);
    let kinds: Vec<TrackKind> = seq.tracks.iter().map(|t| t.kind).collect();
    assert_eq!(kinds, vec![TrackKind::Video, TrackKind::Video, TrackKind::Audio]);
    let locked: Vec<bool> = seq.tracks.iter().map(|t| t.locked).collect();
    assert_eq!(locked, vec![false, true, false]);
}

/// Clip positions are implicit in MLT: each entry starts where the previous
/// entry or blank ended. Getting this wrong shifts every clip after a gap.
#[test]
fn clips_lay_end_to_end_on_the_track() {
    let p = parse(TIMELAPSE).unwrap();
    let v1 = p.sequences[0]
        .tracks
        .iter()
        .find(|t| t.name == "V1")
        .expect("V1 exists");

    assert_eq!(v1.clips.len(), 5);
    assert_eq!(v1.clips[0].position, 0);
    for pair in v1.clips.windows(2) {
        assert_eq!(
            pair[1].position,
            pair[0].end(),
            "clip at {} should start where the previous one ended",
            pair[1].position
        );
    }
}

#[test]
fn a_blank_moves_the_next_clip_along() {
    let p = parse(DOC).unwrap();
    let a1 = p.sequences[0].tracks.iter().find(|t| t.name == "A1").unwrap();
    assert_eq!(a1.clips.len(), 2);
    assert_eq!(a1.clips[0].position, 0);
    assert_eq!((a1.clips[0].source_in, a1.clips[0].source_out), (0, 228));
    assert_eq!(a1.clips[0].duration(), 229);
    // One second of blank at 30 fps after the first clip.
    assert_eq!(a1.clips[1].position, a1.clips[0].end() + 30);
    assert_eq!(a1.clips[1].bin_id, "3");
}

/// Kdenlive's own audio mixing and subtitle filters are not user edits, and
/// reporting them would make every diff noisy.
#[test]
fn internal_filters_are_not_treated_as_effects() {
    let p = parse(TIMELAPSE).unwrap();
    for seq in &p.sequences {
        for track in &seq.tracks {
            for clip in &track.clips {
                for effect in &clip.effects {
                    assert_ne!(effect.service, "panner");
                    assert_ne!(effect.service, "audiolevel");
                }
            }
        }
    }
}

#[test]
fn a_user_effect_keeps_its_parameters() {
    let p = parse(DOC).unwrap();
    let a1 = p.sequences[0].tracks.iter().find(|t| t.name == "A1").unwrap();
    let effects = &a1.clips[0].effects;
    assert_eq!(effects.len(), 1);
    assert_eq!(effects[0].name, "gain");
    assert_eq!(effects[0].service, "volume");
    assert!(!effects[0].disabled);
    assert_eq!(effects[0].params, vec![("gain".to_string(), "0.25".to_string())]);
}

#[test]
fn a_disable_parameter_is_a_switch() {
    let doc = DOC.replace(
        r#"<property name="gain">0.25</property>"#,
        r#"<property name="gain">0.25</property><property name="disable">1</property>"#,
    );
    let p = parse(&doc).unwrap();
    let a1 = p.sequences[0].tracks.iter().find(|t| t.name == "A1").unwrap();
    assert!(a1.clips[0].effects[0].disabled);
    assert_eq!(a1.clips[0].effects[0].params.len(), 1);
}

#[test]
fn reads_json_markers() {
    let p = parse(DOC).unwrap();
    let markers = &p.sequences[0].markers;
    assert_eq!(markers.len(), 1);
    assert_eq!(markers[0].comment, "Gap");
    assert_eq!(markers[0].position, 2574);
    assert_eq!(markers[0].category, 2);
}

#[test]
fn guides_come_in_position_order() {
    let p = parse(DOC).unwrap();
    let guides: Vec<(i64, &str)> = p.guides.iter().map(|g| (g.position, g.comment.as_str())).collect();
    assert_eq!(guides, vec![(30, "Start"), (90, "Chorus")]);
}

#[test]
fn every_sequence_has_a_uuid() {
    for (name, text) in [("timelapse", TIMELAPSE), ("sample", DOC)] {
        let p = parse(text).unwrap();
        assert!(!p.sequences.is_empty(), "{name} has a timeline");
        for seq in &p.sequences {
            assert!(seq.uuid.starts_with('{'), "{name}: sequence uuid looks wrong");
        }
    }
}

#[test]
fn a_sequence_keeps_its_name() {
    let p = parse(DOC).unwrap();
    assert_eq!(p.sequences.len(), 1);
    assert_eq!(p.sequences[0].name.as_deref(), Some("Sequence 1"));
}

#[test]
fn a_project_without_a_sequence_is_refused() {
    let doc = DOC.replace("kdenlive:uuid", "kdenlive:other");
    let err = parse(&doc).unwrap_err();
    assert_eq!(err.message(), "project contains no timeline sequence");
}

#[test]
fn a_missing_profile_is_refused() {
    let doc = DOC.replace("<profile ", "<other ");
    assert_eq!(
        parse(&doc).unwrap_err().message(),
        "project has no <profile>, cannot resolve timecodes to frames"
    );
    let doc = DOC.replace("height=\"1080\"", "height=\"tall\"");
    assert_eq!(parse(&doc).unwrap_err().message(), "profile is missing height");
}

#[test]
fn a_dangling_playlist_is_refused() {
    let doc = DOC.replace(r#"<track producer="playlist1" hide="video"/>"#, r#"<track producer="nowhere"/>"#);
    assert_eq!(
        parse(&doc).unwrap_err().message(),
        "track tractor \"tractor0\" references playlist \"nowhere\", which is not defined in this file"
    );
}

#[test]
fn a_dangling_producer_is_refused() {
    let doc = DOC.replace(r#"<entry producer="producer1" in="0" out="149"/>"#, r#"<entry producer="ghost" in="0" out="149"/>"#);
    assert_eq!(
        parse(&doc).unwrap_err().message(),
        "timeline entry references producer \"ghost\", which is not defined in this file"
    );
}

#[test]
fn a_bad_timecode_names_its_place() {
    let doc = DOC.replace(r#"<blank length="00:00:01.000"/>"#, r#"<blank length="soon"/>"#);
    assert_eq!(
        parse(&doc).unwrap_err().message(),
        "bad timecode \"soon\" in blank in playlist0: not a number or timecode"
    );
    let doc = DOC.replace(r#"in="0" out="149""#, r#"in="0""#);
    assert_eq!(
        parse(&doc).unwrap_err().message(),
        "bad timecode \"\" in <entry producer=\"producer1\"> in playlist0: missing in/out attribute"
    );
}

#[test]
fn malformed_markers_are_refused() {
    let doc = DOC.replace(r#"[{"comment":"Gap","pos":2574,"type":2}]"#, "not   json");
    assert_eq!(
        parse(&doc).unwrap_err().message(),
        "malformed timeline marker \"not json\": expected a JSON array of marker objects"
    );
    let doc = DOC.replace(r#""pos":2574,"#, "");
    assert_eq!(
        parse(&doc).unwrap_err().message(),
        "malformed timeline marker \"[{\\\"comment\\\":\\\"Gap\\\",\\\"type\\\":2}]\": marker has no numeric pos"
    );
}

#[test]
fn an_older_document_version_is_refused() {
    let doc = DOC.replace(">1.1</property>", "> 1.04 </property>");
    assert_eq!(
        parse(&doc).unwrap_err().message(),
        "unsupported project format (document version 1.04). cutback handles version 1.1, written by Kdenlive 23.04 and later. Open the project in Kdenlive once and save it to upgrade the format"
    );
}

#[test]
fn the_outline_can_be_read_on_its_own() {
    let outline = read_outline(DOC).unwrap();
    assert_eq!(outline.nodes[outline.root].name, "mlt");
    let p = project_from_outline(&outline, &time, &version, &number).unwrap();
    assert_eq!(p.sequences[0].tracks.len(), 3);
    assert!(read_outline("<a>").is_err());
}

/// Modern Kdenlive writes avformat media as <chain>, not <producer>. A parser
/// that only looked for <producer> would find an empty bin here.
#[test]
fn finds_bin_clips_written_as_chains() {
    let p = parse(TIMELAPSE).unwrap();
    let media: Vec<_> = p
        .bin_clips
        .iter()
        .filter(|c| c.service.as_deref() == Some("avformat-novalidate"))
        .collect();
    assert!(
        media.len() >= 5,
        "expected the timelapse footage in the bin, found {}",
        media.len()
    );
    assert!(media.iter().any(|c| c.label() == "VID_20251212_092005.mp4"));
}

#[test]
fn title_clips_keep_their_bin_name() {
    let p = parse(DOC).unwrap();
    let title = p
        .bin_clips
        .iter()
        .find(|c| c.service.as_deref() == Some("kdenlivetitle"))
        .expect("this project has a title clip");
    assert!(!title.label().is_empty());
    assert!(!title.label().starts_with("clip "));
}

#[test]
fn clip_durations_come_from_in_and_out_points() {
    let p = parse(TIMELAPSE).unwrap();
    let v1 = p.sequences[0].tracks.iter().find(|t| t.name == "V1").unwrap();
    let first = &v1.clips[0];
    // in=0 out=228 is 229 frames, MLT counts the out point as included.
    assert_eq!((first.source_in, first.source_out), (0, 228));
    assert_eq!(first.duration(), 229);
}

#[test]
fn a_clip_with_no_name_or_resource_is_called_by_its_id() {
    let doc = DOC.replace("<property name=\"resource\">/videos/VID_20251212_092005.mp4</property>", "");
    let p = parse(&doc).unwrap();
    assert_eq!(p.bin_clips[0].label(), "clip 2");
}

#[test]
fn nested_values_in_markers_are_refused() {
    let doc = DOC.replace(r#""type":2"#, r#""type":{"a":1}"#);
    let err = parse(&doc).unwrap_err();
    assert!(err.message().contains("expected a JSON array of marker objects"), "{}", err.message());
}

#[test]
fn the_bin_does_not_depend_on_producer_order() {
    let chain = &DOC[DOC.find(" <chain id=\"chain0\"").unwrap()..DOC.find(" <producer id=\"producer1\"").unwrap()];
    let swapped = DOC.replacen(chain, "", 1).replacen(" <playlist id=\"main_bin\">", &format!("{chain} <playlist id=\"main_bin\">"), 1);
    assert_ne!(swapped, DOC);
    let a = parse(DOC).unwrap();
    let b = parse(&swapped).unwrap();
    let view = |p: &Project| -> Vec<(String, String)> { p.bin_clips.iter().map(|c| (c.id.clone(), c.label())).collect() };
    assert_eq!(view(&a), view(&b));
}

#[test]
fn effect_parameters_come_in_key_order_once_each() {
    let doc = DOC.replace(
        r#"<property name="gain">0.25</property>"#,
        r#"<property name="gain">0.25</property><property name="b_level">1</property><property name="a_level">2</property><property name="b_level">3</property>"#,
    );
    let p = parse(&doc).unwrap();
    let a1 = p.sequences[0].tracks.iter().find(|t| t.name == "A1").unwrap();
    let params: Vec<(&str, &str)> =
        a1.clips[0].effects[0].params.iter().map(|(k, v)| (k.as_str(), v.as_str())).collect();
    assert_eq!(params, vec![("a_level", "2"), ("b_level", "3"), ("gain", "0.25")]);
}

#[test]
fn an_empty_file_is_not_xml() {
    let err = parse("").unwrap_err();
    assert_eq!(err.message(), "not valid XML: the document does not have a root node");
}

#[test]
fn moving_producers_keeps_the_project() {
    let chain = &DOC[DOC.find(" <chain id=\"chain0\"").unwrap()..DOC.find(" <producer id=\"producer1\"").unwrap()];
    let moved = DOC.replacen(chain, "", 1).replace("</mlt>", &format!("{chain}</mlt>"));
    assert_ne!(moved, DOC);
    assert_eq!(format!("{:?}", parse(DOC).unwrap()), format!("{:?}", parse(&moved).unwrap()));
}
