use cutback::term::{color_enabled, commit_id, ellipsize, pad, style, subject, terminal_width, time, width};

#[test]
fn width_ignores_escapes() {
    assert_eq!(width("plain"), 5);
    assert_eq!(width("\x1b[31mred\x1b[0m"), 3);
}

#[test]
fn wide_characters_count_double() {
    assert_eq!(width("日本語"), 6);
    assert_eq!(width("ab"), 2);
}

#[test]
fn ellipsize_keeps_both_ends() {
    let out = ellipsize("VID_20251212_092005.mp4", 14);
    assert!(out.starts_with("VID_"), "{out}");
    assert!(out.ends_with("mp4"), "{out}");
    assert!(width(&out) <= 14, "{out} is {} wide", width(&out));
}

#[test]
fn ellipsize_leaves_short_text_alone() {
    assert_eq!(ellipsize("short.mp4", 20), "short.mp4");
}

#[test]
fn pad_accounts_for_wide_characters() {
    assert_eq!(width(&pad("日本", 6)), 6);
    assert_eq!(width(&pad("ab", 6)), 6);
}

#[test]
fn ellipsized_text_fits_the_room_it_is_given() {
    for max in 0..30 {
        let out = ellipsize("a_rather_long_clip_name_from_the_camera.mp4", max);
        assert!(width(&out) <= max, "{out} at {max}");
    }
}

#[test]
fn padding_never_cuts_text() {
    assert_eq!(pad("longer than six", 6), "longer than six");
    assert_eq!(pad("ab", 4), "ab  ");
}

#[test]
fn colour_follows_the_environment() {
    assert!(!color_enabled(true, Some("1"), None, true));
    assert!(color_enabled(false, Some("1"), Some("dumb"), false));
    assert!(!color_enabled(false, Some("0"), Some("dumb"), true));
    assert!(!color_enabled(false, None, Some("dumb"), true));
    assert!(color_enabled(false, None, Some("xterm"), true));
    assert!(!color_enabled(false, None, None, false));
}

#[test]
fn styles_wrap_text_in_escapes_only_when_enabled() {
    assert_eq!(style("x", "1", true), "\x1b[1mx\x1b[0m");
    assert_eq!(style("x", "1", false), "x");
    assert_eq!(commit_id("abc1234", true), "\x1b[33mabc1234\x1b[0m");
    assert_eq!(subject("V1", true), "\x1b[36mV1\x1b[0m");
    assert_eq!(time("0:26", true), "\x1b[32m0:26\x1b[0m");
    assert_eq!(time("0:26", false), "0:26");
}

#[test]
fn terminal_width_reads_columns() {
    assert_eq!(terminal_width(Some("120")), 120);
    assert_eq!(terminal_width(Some("20")), 80);
    assert_eq!(terminal_width(Some("wide")), 80);
    assert_eq!(terminal_width(None), 80);
}

#[test]
fn a_room_under_six_columns_keeps_the_start() {
    assert_eq!(ellipsize("VID_20251212.mp4", 4), "VID_");
    assert_eq!(ellipsize("日本語の名前", 5), "日本");
    assert_eq!(ellipsize("abc", 2), "ab");
    assert_eq!(ellipsize("abc", 3), "abc");
}

#[test]
fn a_line_begins_with_a_capital() {
    assert_eq!(cutback::text::capitalize("added Logo"), "Added Logo");
    assert_eq!(cutback::text::capitalize("zoom"), "Zoom");
    assert_eq!(cutback::text::capitalize("é"), "É");
    assert_eq!(cutback::text::capitalize("1 more"), "1 more");
    assert_eq!(cutback::text::capitalize(""), "");
}

#[test]
fn colour_takes_no_room() {
    for text in ["a1b2c3d", "V2", "0:05", "日本語", ""] {
        assert_eq!(width(&commit_id(text, true)), width(text));
        assert_eq!(width(&subject(text, true)), width(text));
        assert_eq!(width(&time(text, true)), width(text));
        assert_eq!(commit_id(text, false), text);
    }
    assert_eq!(commit_id("abc", true), "\x1b[33mabc\x1b[0m");
}
