//! User-configurable colors of the encoder display. Every color is a CSS
//! color string; a color the user has not set falls back to its default.

use vstd::prelude::*;

verus! {

/// Colors chosen in the Property Inspector; `None` means "use the default".
pub struct BarColors {
    /// Bar and text color while the application is not muted.
    pub unmute_color: Option<String>,
    /// Bar and text color while the application is muted.
    pub mute_color: Option<String>,
    /// Gauge section from 0% to 40%.
    pub gauge_low_color: Option<String>,
    /// Gauge section from 40% to 80%.
    pub gauge_lower_mid_color: Option<String>,
    /// Gauge section from 80% to 110%.
    pub gauge_normal_color: Option<String>,
    /// Gauge section from 110% to 130%.
    pub gauge_boost_color: Option<String>,
    /// Gauge section from 130% to 150%.
    pub gauge_high_color: Option<String>,
}

/// The color the user set, or `default` when none is set.
pub open spec fn color_or(choice: Option<String>, default: Seq<char>) -> Seq<char> {
    match choice {
        Some(c) => c@,
        None => default,
    }
}

pub open spec fn default_active() -> Seq<char> {
    "#22c55e"@
}

pub open spec fn default_mute() -> Seq<char> {
    "#6b7280"@
}

pub open spec fn default_red() -> Seq<char> {
    "#ef4444"@
}

pub open spec fn default_yellow() -> Seq<char> {
    "#eab308"@
}

pub open spec fn default_green() -> Seq<char> {
    "#22c55e"@
}

fn pick<'a>(choice: &'a Option<String>, default: &'a str) -> (r: &'a str)
    ensures
        r@ == match choice {
            Some(c) => c@,
            None => default@,
        },
{
    match choice {
        Some(c) => c.as_str(),
        None => default,
    }
}

impl BarColors {
    /// Bar color while not muted.
    pub fn active(&self) -> (r: &str)
        ensures
            r@ == color_or(self.unmute_color, default_active()),
    {
        pick(&self.unmute_color, "#22c55e")
    }

    /// Bar and text color while muted.
    pub fn mute(&self) -> (r: &str)
        ensures
            r@ == color_or(self.mute_color, default_mute()),
    {
        pick(&self.mute_color, "#6b7280")
    }

    pub fn gauge_low_color(&self) -> (r: &str)
        ensures
            r@ == color_or(self.gauge_low_color, default_red()),
    {
        pick(&self.gauge_low_color, "#ef4444")
    }

    pub fn gauge_lower_mid_color(&self) -> (r: &str)
        ensures
            r@ == color_or(self.gauge_lower_mid_color, default_yellow()),
    {
        pick(&self.gauge_lower_mid_color, "#eab308")
    }

    pub fn gauge_normal_color(&self) -> (r: &str)
        ensures
            r@ == color_or(self.gauge_normal_color, default_green()),
    {
        pick(&self.gauge_normal_color, "#22c55e")
    }

    pub fn gauge_boost_color(&self) -> (r: &str)
        ensures
            r@ == color_or(self.gauge_boost_color, default_yellow()),
    {
        pick(&self.gauge_boost_color, "#eab308")
    }

    pub fn gauge_high_color(&self) -> (r: &str)
        ensures
            r@ == color_or(self.gauge_high_color, default_red()),
    {
        pick(&self.gauge_high_color, "#ef4444")
    }
}

impl Default for BarColors {
    fn default() -> (r: Self)
        ensures
            r.unmute_color is None,
            r.mute_color is None,
            r.gauge_low_color is None,
            r.gauge_lower_mid_color is None,
            r.gauge_normal_color is None,
            r.gauge_boost_color is None,
            r.gauge_high_color is None,
    {
        BarColors {
            unmute_color: None,
            mute_color: None,
            gauge_low_color: None,
            gauge_lower_mid_color: None,
            gauge_normal_color: None,
            gauge_boost_color: None,
            gauge_high_color: None,
        }
    }
}

impl Clone for BarColors {
    fn clone(&self) -> (r: Self)
        ensures
            r == *self,
    {
        BarColors {
            unmute_color: self.unmute_color.clone(),
            mute_color: self.mute_color.clone(),
            gauge_low_color: self.gauge_low_color.clone(),
            gauge_lower_mid_color: self.gauge_lower_mid_color.clone(),
            gauge_normal_color: self.gauge_normal_color.clone(),
            gauge_boost_color: self.gauge_boost_color.clone(),
            gauge_high_color: self.gauge_high_color.clone(),
        }
    }
}

} // verus!
