use active_app_volume::color::BarColors;
use active_app_volume::render::{
    bar_feedback, data_uri, escape, gauge_label, gauge_marks, gauge_sections, percent,
};

#[test]
fn escape_writes_markup_characters_as_entities() {
    assert_eq!(escape("Tom & Jerry <3 >_<"), "Tom &amp; Jerry &lt;3 &gt;_&lt;");
    assert_eq!(escape("plain"), "plain");
    assert_eq!(escape(""), "");
    assert_eq!(escape("&amp;"), "&amp;amp;");
    assert_eq!(escape("Brave — Ünïcode"), "Brave — Ünïcode");
}

#[test]
fn gauge_label_keeps_eighteen_characters() {
    assert_eq!(gauge_label("Brave"), "Brave");
    assert_eq!(gauge_label("A very long application name"), "A very long applic");
    assert_eq!(gauge_label("<<<<<<<<<<<<<<<<<<<<"), "&lt;".repeat(18));
    assert_eq!(gauge_label("ÄÖÜäöüßÄÖÜäöüßÄÖÜäöü"), "ÄÖÜäöüßÄÖÜäöüßÄÖÜä");
    assert_eq!(gauge_label(""), "");
}

#[test]
fn percent_text_is_the_whole_number() {
    assert_eq!(percent(0), "0%");
    assert_eq!(percent(7), "7%");
    assert_eq!(percent(72), "72%");
    assert_eq!(percent(150), "150%");
    assert_eq!(percent(4294967295), "4294967295%");
    for n in [1u32, 9, 10, 99, 100, 1000, 65536] {
        assert_eq!(percent(n), format!("{n}%"));
    }
}

#[test]
fn original_bar_levels_boost_mute_and_unavailable() {
    let colors = BarColors {
        unmute_color: Some("#123456".into()),
        mute_color: Some("#abcdef".into()),
        ..BarColors::default()
    };
    for (pct, text, bar) in [(0, "0%", 0), (72, "72%", 72), (150, "150%", 100)] {
        let fb = bar_feedback(true, false, pct, &colors);
        assert_eq!(fb.text, text);
        assert_eq!(fb.text_color, "#ffffff");
        assert_eq!(fb.value, bar);
        assert_eq!(fb.bar_color, "#123456");
    }
    let muted = bar_feedback(true, true, 72, &colors);
    assert_eq!(muted.text, "muted");
    assert_eq!(muted.text_color, "#abcdef");
    assert_eq!(muted.bar_color, "#abcdef");
    assert_eq!(muted.value, 72);
    let missing = bar_feedback(false, true, 0, &colors);
    assert_eq!(missing.text, "n/a");
    assert_eq!(missing.value, 100);
    assert_eq!(missing.bar_color, "#eab308");
    assert_eq!(missing.text_color, "#eab308");
}

#[test]
fn data_uri_holds_the_svg_in_standard_base64() {
    assert_eq!(data_uri(""), "data:image/svg+xml;base64,");
    assert_eq!(data_uri("a"), "data:image/svg+xml;base64,YQ==");
    assert_eq!(data_uri("ab"), "data:image/svg+xml;base64,YWI=");
    assert_eq!(data_uri("abc"), "data:image/svg+xml;base64,YWJj");
    assert_eq!(data_uri("<svg/>"), "data:image/svg+xml;base64,PHN2Zy8+");
    assert_eq!(data_uri("\u{ff}\u{fe}"), "data:image/svg+xml;base64,w7/Dvg==");
}

#[test]
fn colors_fall_back_to_their_defaults() {
    let colors = BarColors::default();
    assert_eq!(colors.active(), "#22c55e");
    assert_eq!(colors.mute(), "#6b7280");
    assert_eq!(colors.gauge_low_color(), "#ef4444");
    assert_eq!(colors.gauge_lower_mid_color(), "#eab308");
    assert_eq!(colors.gauge_normal_color(), "#22c55e");
    assert_eq!(colors.gauge_boost_color(), "#eab308");
    assert_eq!(colors.gauge_high_color(), "#ef4444");
    let custom = BarColors {
        gauge_boost_color: Some("#010203".into()),
        ..BarColors::default()
    };
    assert_eq!(custom.gauge_boost_color(), "#010203");
    assert_eq!(custom.clone().gauge_boost_color(), "#010203");
}

#[test]
fn gauge_sections_follow_the_volume_ranges() {
    let colors = BarColors { gauge_normal_color: Some("#00ff00".into()), ..BarColors::default() };
    let live = gauge_sections(true, false, &colors);
    let bounds: Vec<(u32, u32)> = live.iter().map(|s| (s.start, s.end)).collect();
    assert_eq!(bounds, vec![(0, 40), (40, 80), (80, 110), (110, 130), (130, 150)]);
    assert_eq!(live[0].color, "#ef4444");
    assert_eq!(live[1].color, "#eab308");
    assert_eq!(live[2].color, "#00ff00");
    assert_eq!(live[3].color, "#eab308");
    assert_eq!(live[4].color, "#ef4444");
    for (known, muted) in [(true, true), (false, false), (false, true)] {
        let grey = gauge_sections(known, muted, &colors);
        assert_eq!(grey.len(), 1);
        assert_eq!((grey[0].start, grey[0].end), (0, 150));
        assert_eq!(grey[0].color, "#555555");
    }
    assert_eq!(gauge_marks(), vec![40, 80, 100, 110, 130]);
}
