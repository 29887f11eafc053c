//! What the action shows, and where: the encoder layout for each bar style,
//! the label, and which surface update an instance gets.

use vstd::prelude::*;

verus! {

/// The encoder display: the semicircular gauge, or the original upstream
/// horizontal bar.
#[derive(Clone, Copy, Debug, PartialEq, Eq, Structural)]
pub enum BarStyle {
    Original,
    Gauge,
}

impl Default for BarStyle {
    /// The gauge, also for settings saved before the style existed.
    fn default() -> (r: Self)
        ensures
            r == BarStyle::Gauge,
    {
        BarStyle::Gauge
    }
}

/// The OpenDeck feedback layout file of a bar style.
pub open spec fn layout_path(style: BarStyle) -> Seq<char> {
    match style {
        BarStyle::Gauge => "layouts/active-app-volume.json"@,
        BarStyle::Original => "layouts/original-volume.json"@,
    }
}

impl BarStyle {
    /// The feedback layout file for this style.
    pub fn layout(self) -> (r: &'static str)
        ensures
            r@ == layout_path(self),
    {
        match self {
            BarStyle::Gauge => "layouts/active-app-volume.json",
            BarStyle::Original => "layouts/original-volume.json",
        }
    }
}

/// What a key press does.
#[derive(Clone, Copy, Debug, PartialEq, Eq, Structural)]
pub enum KeyMode {
    Up,
    Down,
    Mute,
}

/// The label shown when no application is focused.
pub open spec fn no_app_label() -> Seq<char> {
    "No Focused App"@
}

/// The label for the focused application `app`, or "No Focused App".
pub fn display_label<'a>(app: Option<&'a str>) -> (r: &'a str)
    ensures
        r@ == match app {
            Some(a) => a@,
            None => no_app_label(),
        },
{
    match app {
        Some(a) => a,
        None => "No Focused App",
    }
}

/// The title of a key while no application is focused.
pub open spec fn placeholder_title_text() -> Seq<char> {
    "\u{2014}"@
}

/// The title of a key while no application is focused: an em dash.
pub fn placeholder_title() -> (r: &'static str)
    ensures
        r@ == placeholder_title_text(),
{
    "\u{2014}"
}

/// The controller name OpenDeck gives to encoders (dials).
pub open spec fn encoder_controller() -> Seq<char> {
    "Encoder"@
}

/// The instance sits on an encoder.
pub fn is_encoder(controller: &str) -> (b: bool)
    ensures
        b == (controller@ == encoder_controller()),
{
    controller.to_owned() == "Encoder".to_owned()
}

/// The update an instance's surface gets.
#[derive(Clone, Copy, Debug, PartialEq, Eq, Structural)]
pub enum Surface {
    /// Encoder feedback: the gauge image on the full canvas.
    GaugeFeedback,
    /// Encoder feedback: the horizontal bar of the original layout.
    BarFeedback,
    /// A key without a focused application: the placeholder title.
    PlaceholderTitle,
    /// A key with a focused application: the gauge as the key image.
    GaugeImage,
}

/// Encoders show their bar style; keys show the gauge image, or the
/// placeholder title while no application is focused.
pub open spec fn surface_for(encoder: bool, has_app: bool, style: BarStyle) -> Surface {
    if encoder {
        match style {
            BarStyle::Gauge => Surface::GaugeFeedback,
            BarStyle::Original => Surface::BarFeedback,
        }
    } else if !has_app {
        Surface::PlaceholderTitle
    } else {
        Surface::GaugeImage
    }
}

/// The surface update for an instance.
pub fn surface_update(encoder: bool, has_app: bool, style: BarStyle) -> (r: Surface)
    ensures
        r == surface_for(encoder, has_app, style),
        encoder ==> (r == Surface::GaugeFeedback <==> style == BarStyle::Gauge),
        encoder ==> (r == Surface::BarFeedback <==> style == BarStyle::Original),
        !encoder ==> (r == Surface::PlaceholderTitle <==> !has_app),
        !encoder ==> (r == Surface::GaugeImage <==> has_app),
{
    if encoder {
        match style {
            BarStyle::Gauge => Surface::GaugeFeedback,
            BarStyle::Original => Surface::BarFeedback,
        }
    } else if !has_app {
        Surface::PlaceholderTitle
    } else {
        Surface::GaugeImage
    }
}

/// An encoder shows the gauge image exactly in the gauge style and the
/// horizontal bar exactly in the original style, focused application or not.
pub proof fn lemma_encoder_surface_follows_style(has_app: bool, style: BarStyle)
    ensures
        surface_for(true, has_app, style) == Surface::GaugeFeedback <==> style == BarStyle::Gauge,
        surface_for(true, has_app, style) == Surface::BarFeedback <==> style == BarStyle::Original,
        surface_for(true, has_app, style) == surface_for(true, !has_app, style),
{
}

/// A key shows the gauge image exactly while an application is focused and
/// the placeholder title exactly while none is, whatever the bar style.
pub proof fn lemma_key_surface_follows_focus(has_app: bool, style: BarStyle)
    ensures
        surface_for(false, has_app, style) == Surface::PlaceholderTitle <==> !has_app,
        surface_for(false, has_app, style) == Surface::GaugeImage <==> has_app,
        surface_for(false, has_app, BarStyle::Gauge) == surface_for(false, has_app, BarStyle::Original),
{
}

} // verus!
