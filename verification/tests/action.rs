use active_app_volume::action::{
    adjust_plan, key_gesture, toggle_plan, ActiveAppVolumeSettings, AdjustPlan, Gesture, TogglePlan,
};
use active_app_volume::color::BarColors;
use active_app_volume::display::{
    display_label, is_encoder, placeholder_title, surface_update, BarStyle, KeyMode, Surface,
};
use active_app_volume::refresh::Appearances;

#[test]
fn default_settings() {
    let s = ActiveAppVolumeSettings::default();
    assert_eq!(s.step, 5);
    assert_eq!(s.bar_style, BarStyle::Gauge);
    assert_eq!(s.mode, KeyMode::Up);
    assert!(s.colors.mute_color.is_none());
    assert_eq!(BarStyle::default(), BarStyle::Gauge);
    let copy = s.clone();
    assert_eq!(copy.step, 5);
}

#[test]
fn bar_style_layouts() {
    assert_eq!(BarStyle::Gauge.layout(), "layouts/active-app-volume.json");
    assert_eq!(BarStyle::Original.layout(), "layouts/original-volume.json");
}

#[test]
fn gestures_and_plans() {
    assert_eq!(key_gesture(KeyMode::Up), Gesture::Raise);
    assert_eq!(key_gesture(KeyMode::Down), Gesture::Lower);
    assert_eq!(key_gesture(KeyMode::Mute), Gesture::ToggleMute);
    assert_eq!(adjust_plan(false, Some(true)), AdjustPlan::Redraw);
    assert_eq!(adjust_plan(true, Some(true)), AdjustPlan::Adjust { unmute_first: true });
    assert_eq!(adjust_plan(true, Some(false)), AdjustPlan::Adjust { unmute_first: false });
    assert_eq!(adjust_plan(true, None), AdjustPlan::Adjust { unmute_first: false });
    assert_eq!(toggle_plan(true), TogglePlan::Toggle);
    assert_eq!(toggle_plan(false), TogglePlan::Redraw);
}

#[test]
fn surfaces_and_labels() {
    assert!(is_encoder("Encoder"));
    assert!(!is_encoder("Keypad"));
    assert!(!is_encoder("encoder"));
    assert_eq!(surface_update(true, false, BarStyle::Gauge), Surface::GaugeFeedback);
    assert_eq!(surface_update(true, true, BarStyle::Original), Surface::BarFeedback);
    assert_eq!(surface_update(false, false, BarStyle::Gauge), Surface::PlaceholderTitle);
    assert_eq!(surface_update(false, true, BarStyle::Original), Surface::GaugeImage);
    assert_eq!(display_label(None), "No Focused App");
    assert_eq!(display_label(Some("Brave")), "Brave");
    assert_eq!(placeholder_title(), "—");
}

#[test]
fn layouts_are_sent_once_per_style() {
    let mut store = Appearances::new();
    assert_eq!(store.layout_to_apply("a", true), None);
    store.set_appearance("a", &BarColors::default(), BarStyle::Gauge);
    assert_eq!(store.layout_to_apply("a", true), Some(BarStyle::Gauge));
    assert_eq!(store.layout_to_apply("a", false), None);
    store.mark_layout_applied("a", BarStyle::Gauge);
    assert_eq!(store.layout_to_apply("a", true), None);
    // Same style again: nothing to resend.
    store.set_appearance("a", &BarColors::default(), BarStyle::Gauge);
    assert_eq!(store.layout_to_apply("a", true), None);
    // A style switch needs the other layout.
    let colors = BarColors { mute_color: Some("#111111".into()), ..BarColors::default() };
    store.set_appearance("a", &colors, BarStyle::Original);
    assert_eq!(store.layout_to_apply("a", true), Some(BarStyle::Original));
    assert_eq!(store.get("a").unwrap().colors.mute(), "#111111");
    assert_eq!(store.get("a").unwrap().applied_style, Some(BarStyle::Gauge));
    store.set_appearance("b", &BarColors::default(), BarStyle::Gauge);
    store.forget_appearance("a");
    assert!(store.get("a").is_none());
    assert!(store.get("b").is_some());
    assert_eq!(store.layout_to_apply("a", true), None);
    store.mark_layout_applied("a", BarStyle::Gauge);
    assert!(store.get("a").is_none());
}
