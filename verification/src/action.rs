//! The CD-Active App Volume action: its settings, and what each gesture on a
//! key or an encoder asks of the PipeWire backend.

use crate::color::BarColors;
use crate::display::{BarStyle, KeyMode};
use vstd::prelude::*;

verus! {

/// Per-instance settings from the Property Inspector.
pub struct ActiveAppVolumeSettings {
    /// Volume step per key press or dial tick, in percent.
    pub step: u8,
    pub bar_style: BarStyle,
    /// What a key press does.
    pub mode: KeyMode,
    pub colors: BarColors,
}

impl Default for ActiveAppVolumeSettings {
    /// A 5% step, the gauge, volume up on key press, default colors.
    fn default() -> (r: Self)
        ensures
            r.step == 5,
            r.bar_style == BarStyle::Gauge,
            r.mode == KeyMode::Up,
            r.colors.unmute_color is None,
            r.colors.mute_color is None,
            r.colors.gauge_low_color is None,
            r.colors.gauge_lower_mid_color is None,
            r.colors.gauge_normal_color is None,
            r.colors.gauge_boost_color is None,
            r.colors.gauge_high_color is None,
    {
        ActiveAppVolumeSettings {
            step: 5,
            bar_style: BarStyle::Gauge,
            mode: KeyMode::Up,
            colors: BarColors::default(),
        }
    }
}

impl Clone for ActiveAppVolumeSettings {
    fn clone(&self) -> (r: Self)
        ensures
            r == *self,
    {
        ActiveAppVolumeSettings {
            step: self.step,
            bar_style: self.bar_style,
            mode: self.mode,
            colors: self.colors.clone(),
        }
    }
}

/// The effect of a key press.
#[derive(Clone, Copy, Debug, PartialEq, Eq, Structural)]
pub enum Gesture {
    /// Raise the volume by one step.
    Raise,
    /// Lower the volume by one step.
    Lower,
    /// Toggle mute.
    ToggleMute,
}

/// A key press raises, lowers or toggles mute according to the key mode.
pub fn key_gesture(mode: KeyMode) -> (g: Gesture)
    ensures
        g == match mode {
            KeyMode::Up => Gesture::Raise,
            KeyMode::Down => Gesture::Lower,
            KeyMode::Mute => Gesture::ToggleMute,
        },
{
    match mode {
        KeyMode::Up => Gesture::Raise,
        KeyMode::Down => Gesture::Lower,
        KeyMode::Mute => Gesture::ToggleMute,
    }
}

/// What a volume change does.
#[derive(Clone, Copy, Debug, PartialEq, Eq, Structural)]
pub enum AdjustPlan {
    /// No focused application: just redraw the instance.
    Redraw,
    /// Send the volume change, after an unmute when the application is muted.
    /// PipeWire's change notification redraws.
    Adjust { unmute_first: bool },
}

/// A volume change for the candidate PIDs of the focused window. `focused_mute`
/// is the mute state of the application those PIDs resolve to, if any: a
/// muted application is unmuted before its volume changes.
pub fn adjust_plan(has_candidates: bool, focused_mute: Option<bool>) -> (p: AdjustPlan)
    ensures
        !has_candidates ==> p == AdjustPlan::Redraw,
        has_candidates ==> p == (AdjustPlan::Adjust { unmute_first: focused_mute == Some(true) }),
{
    if !has_candidates {
        return AdjustPlan::Redraw;
    }
    let unmute_first = match focused_mute {
        Some(m) => m,
        None => false,
    };
    AdjustPlan::Adjust { unmute_first }
}

/// What a mute toggle does.
#[derive(Clone, Copy, Debug, PartialEq, Eq, Structural)]
pub enum TogglePlan {
    /// No focused application: just redraw the instance.
    Redraw,
    /// Send the toggle; PipeWire's change notification redraws.
    Toggle,
}

/// A mute toggle for the candidate PIDs of the focused window.
pub fn toggle_plan(has_candidates: bool) -> (p: TogglePlan)
    ensures
        p == if has_candidates {
            TogglePlan::Toggle
        } else {
            TogglePlan::Redraw
        },
{
    if has_candidates {
        TogglePlan::Toggle
    } else {
        TogglePlan::Redraw
    }
}

} // verus!
