//! The text that goes onto the encoder display: escaped application labels,
//! percentages, the parts of the horizontal bar feedback, and `data:` URIs
//! for the rendered gauge image.

use crate::color::{color_or, default_active, default_mute, BarColors};
use crate::text::push_char;
use base64::Engine;
use vstd::prelude::*;
use vstd::string::StringExecFns;
use vstd::string::StringSliceAdditionalSpecFns;

verus! {

/// Character `v` (0..64) of the standard base64 alphabet of RFC 4648.
pub open spec fn base64_char(v: int) -> char {
    if v < 26 {
        (65 + v) as char
    } else if v < 52 {
        (97 + v - 26) as char
    } else if v < 62 {
        (48 + v - 52) as char
    } else if v == 62 {
        '+'
    } else {
        '/'
    }
}

/// Standard base64 with `=` padding (RFC 4648, section 4): every three bytes
/// become four characters of six bits each.
pub open spec fn base64_standard(b: Seq<u8>) -> Seq<char>
    decreases b.len(),
{
    if b.len() == 0 {
        seq![]
    } else {
        let x = b[0] as int;
        let y = if b.len() > 1 { b[1] as int } else { 0 };
        let z = if b.len() > 2 { b[2] as int } else { 0 };
        let c0 = base64_char(x / 4);
        let c1 = base64_char((x % 4) * 16 + y / 16);
        let c2 = base64_char((y % 16) * 4 + z / 64);
        let c3 = base64_char(z % 64);
        if b.len() == 1 {
            seq![c0, c1, '=', '=']
        } else if b.len() == 2 {
            seq![c0, c1, c2, '=']
        } else {
            seq![c0, c1, c2, c3] + base64_standard(b.skip(3))
        }
    }
}

/// The length of the padded base64 text for `n` bytes.
pub open spec fn base64_len(n: nat) -> nat {
    if n % 3 == 0 {
        n / 3 * 4
    } else {
        n / 3 * 4 + 4
    }
}

/// `base64::engine::general_purpose::STANDARD.encode`: the standard alphabet
/// with padding. It panics when the encoded length overflows `usize`, which
/// `requires` leaves out.
#[verifier::external_body]
fn encode_base64(bytes: &[u8]) -> (r: String)
    requires
        base64_len(bytes@.len()) <= usize::MAX,
    ensures
        r@ == base64_standard(bytes@),
{
    base64::engine::general_purpose::STANDARD.encode(bytes)
}

/// The start of a `data:` URI that holds a base64-encoded SVG image.
pub open spec fn svg_data_uri_prefix() -> Seq<char> {
    "data:image/svg+xml;base64,"@
}

/// A `data:image/svg+xml;base64,...` URI for `svg`, as `Instance::set_image`
/// takes it.
pub fn data_uri(svg: &str) -> (r: String)
    requires
        base64_len(svg.spec_bytes().len()) <= usize::MAX,
    ensures
        r@ == svg_data_uri_prefix() + base64_standard(svg.spec_bytes()),
{
    let encoded = encode_base64(svg.as_bytes());
    let mut uri = "data:image/svg+xml;base64,".to_owned();
    uri.append(encoded.as_str());
    uri
}

/// The XML text for one character of untrusted text.
pub open spec fn escape_char(c: char) -> Seq<char> {
    if c == '&' {
        seq!['&', 'a', 'm', 'p', ';']
    } else if c == '<' {
        seq!['&', 'l', 't', ';']
    } else if c == '>' {
        seq!['&', 'g', 't', ';']
    } else {
        seq![c]
    }
}

/// `s` with `&`, `<` and `>` written as XML entities.
pub open spec fn escaped(s: Seq<char>) -> Seq<char>
    decreases s.len(),
{
    if s.len() == 0 {
        seq![]
    } else {
        escaped(s.drop_last()) + escape_char(s.last())
    }
}

proof fn lemma_escaped_has_no_tags(s: Seq<char>)
    ensures
        !escaped(s).contains('<'),
        !escaped(s).contains('>'),
    decreases s.len(),
{
    if s.len() > 0 {
        lemma_escaped_has_no_tags(s.drop_last());
        let e = escape_char(s.last());
        assert(!e.contains('<') && !e.contains('>')) by {
            if e.contains('<') {
                let k = choose|k: int| 0 <= k < e.len() && e[k] == '<';
            }
            if e.contains('>') {
                let k = choose|k: int| 0 <= k < e.len() && e[k] == '>';
            }
        }
        let a = escaped(s.drop_last());
        assert(escaped(s) == a + e);
        assert forall|c: char| (a + e).contains(c) implies a.contains(c) || e.contains(c) by {
            let k = choose|k: int| 0 <= k < (a + e).len() && (a + e)[k] == c;
            if k < a.len() {
                assert(a[k] == c);
            } else {
                assert(e[k - a.len()] == c);
            }
        }
    }
}

fn push_str(s: &mut String, t: &str)
    ensures
        final(s)@ == old(s)@ + t@,
{
    s.append(t);
}

/// Minimal XML text escaping for untrusted strings such as application
/// names: `&`, `<` and `>` become entities, so the text holds no markup.
pub fn escape(s: &str) -> (r: String)
    ensures
        r@ == escaped(s@),
        !r@.contains('<'),
        !r@.contains('>'),
{
    let mut r = String::new();
    for c in it: s.chars()
        invariant
            it.seq() == s@,
            r@ == escaped(it.seq().take(it.index())),
    {
        proof {
            let t = it.seq().take(it.index() + 1);
            assert(t.drop_last() == it.seq().take(it.index()));
            assert(t.last() == c);
        }
        if c == '&' {
            push_str(&mut r, "&amp;");
            proof {
                reveal_strlit("&amp;");
            }
        } else if c == '<' {
            push_str(&mut r, "&lt;");
            proof {
                reveal_strlit("&lt;");
            }
        } else if c == '>' {
            push_str(&mut r, "&gt;");
            proof {
                reveal_strlit("&gt;");
            }
        } else {
            push_char(&mut r, c);
        }
    }
    proof {
        assert(s@.take(s@.len() as int) == s@);
        lemma_escaped_has_no_tags(s@);
    }
    r
}

/// The gauge's application label: the first 18 characters of `label`.
pub open spec fn gauge_label_text(label: Seq<char>) -> Seq<char> {
    if label.len() <= 18 {
        escaped(label)
    } else {
        escaped(label.take(18))
    }
}

/// The label above the gauge: at most 18 characters of the application name,
/// escaped for SVG text.
pub fn gauge_label(label: &str) -> (r: String)
    ensures
        r@ == gauge_label_text(label@),
{
    let chars = crate::text::chars_of(label);
    let n = if chars.len() <= 18 {
        chars.len()
    } else {
        18
    };
    let short = crate::text::string_of_range(&chars, 0, n);
    proof {
        if chars@.len() <= 18 {
            assert(chars@.subrange(0, n as int) == label@);
        } else {
            assert(chars@.subrange(0, 18) == label@.take(18));
        }
    }
    escape(short.as_str())
}

/// The character of the decimal digit `d`.
pub open spec fn digit_char(d: int) -> char {
    (48 + d) as char
}

/// `n` in decimal, without leading zeros (`0` for zero).
pub open spec fn decimal_digits(n: nat) -> Seq<char>
    decreases n,
{
    if n < 10 {
        seq![digit_char(n as int)]
    } else {
        decimal_digits(n / 10) + seq![digit_char((n % 10) as int)]
    }
}

/// Append `n` in decimal.
fn push_decimal(s: &mut String, n: u32)
    ensures
        final(s)@ == old(s)@ + decimal_digits(n as nat),
    decreases n,
{
    if n >= 10 {
        push_decimal(s, n / 10);
    }
    let d = (n % 10) as u8;
    push_char(s, (48u8 + d) as char);
    proof {
        assert(((48u8 + d) as char) == digit_char((n % 10) as int));
    }
}

/// The text of a whole percentage, as `format!("{pct:.0}%")` writes it.
pub open spec fn percent_text(pct: nat) -> Seq<char> {
    decimal_digits(pct) + seq!['%']
}

/// `pct` followed by a percent sign, e.g. `72%`.
pub fn percent(pct: u32) -> (r: String)
    ensures
        r@ == percent_text(pct as nat),
{
    let mut s = String::new();
    push_decimal(&mut s, pct);
    push_char(&mut s, '%');
    s
}

/// The decimal text of a number reads back as that number.
pub proof fn lemma_decimal_round_trip(n: u32)
    ensures
        crate::parse::decimal_u32(decimal_digits(n as nat)) == Some(n),
{
    lemma_decimal_digits_value(n as nat);
    let d = decimal_digits(n as nat);
    assert(d[0] != '+') by {
        lemma_decimal_digits_value(n as nat);
    }
}

proof fn lemma_decimal_digits_value(n: nat)
    ensures
        crate::parse::all_digits(decimal_digits(n)),
        crate::parse::digits_value(decimal_digits(n)) == n,
        decimal_digits(n).len() > 0,
    decreases n,
{
    if n >= 10 {
        lemma_decimal_digits_value(n / 10);
        let a = decimal_digits(n / 10);
        let t = a + seq![digit_char((n % 10) as int)];
        assert(t.drop_last() == a);
        assert forall|i: int| 0 <= i < t.len() implies crate::parse::is_digit(#[trigger] t[i]) by {
            if i < a.len() {
                assert(t[i] == a[i]);
            }
        }
        assert((n / 10) * 10 + n % 10 == n) by (nonlinear_arith);
        assert(digit_char((n % 10) as int) as int == 48 + n % 10);
        assert(t.last() == digit_char((n % 10) as int));
        assert(('0' as int) == 48);
        assert(decimal_digits(n) == t);
        assert(crate::parse::digits_value(t) == crate::parse::digits_value(a) * 10 + (n % 10));
    } else {
        let t = seq![digit_char(n as int)];
        assert(digit_char(n as int) as int == 48 + n);
        assert(t.drop_last() == Seq::<char>::empty());
        assert(crate::parse::is_digit(t[0]));
        assert(('0' as int) == 48);
        assert(decimal_digits(n) == t);
        assert(crate::parse::digits_value(t) == crate::parse::digits_value(Seq::<char>::empty()) * 10 + n);
    }
}

/// What the horizontal bar feedback shows.
pub struct BarFeedback {
    /// The text next to the bar.
    pub text: String,
    /// The color of that text.
    pub text_color: String,
    /// The fill color of the bar.
    pub bar_color: String,
    /// How full the bar is, in percent (0 to 100).
    pub value: u32,
}

/// The bar's text color and fill while no application is known.
pub open spec fn unknown_color() -> Seq<char> {
    "#eab308"@
}

/// The text color of the volume while not muted.
pub open spec fn volume_text_color() -> Seq<char> {
    "#ffffff"@
}

/// The horizontal bar of the original upstream layout for the rounded volume
/// `pct` (in percent): "n/a" on a full yellow bar when no application is
/// known, "muted" in the mute color, else the percentage in white. The bar
/// fills at 100%; the text goes on showing boosted volume.
pub fn bar_feedback(known: bool, muted: bool, pct: u32, colors: &BarColors) -> (r: BarFeedback)
    ensures
        !known ==> r.text@ == "n/a"@ && r.text_color@ == unknown_color() && r.bar_color@
            == unknown_color() && r.value == 100,
        known && muted ==> r.text@ == "muted"@ && r.text_color@ == color_or(
            colors.mute_color,
            default_mute(),
        ) && r.bar_color@ == color_or(colors.mute_color, default_mute()),
        known && !muted ==> r.text@ == percent_text(pct as nat) && r.text_color@
            == volume_text_color() && r.bar_color@ == color_or(colors.unmute_color, default_active()),
        known ==> r.value == if pct < 100 {
            pct
        } else {
            100
        },
{
    let capped = if pct < 100 {
        pct
    } else {
        100
    };
    if !known {
        BarFeedback {
            text: "n/a".to_owned(),
            text_color: "#eab308".to_owned(),
            bar_color: "#eab308".to_owned(),
            value: 100,
        }
    } else if muted {
        BarFeedback {
            text: "muted".to_owned(),
            text_color: colors.mute().to_owned(),
            bar_color: colors.mute().to_owned(),
            value: capped,
        }
    } else {
        BarFeedback {
            text: percent(pct),
            text_color: "#ffffff".to_owned(),
            bar_color: colors.active().to_owned(),
            value: capped,
        }
    }
}

/// One colored arc of the gauge, from `start` to `end` percent.
pub struct GaugeSection {
    pub start: u32,
    pub end: u32,
    pub color: String,
}

/// The grey of the gauge while no application is known or it is muted.
pub open spec fn inactive_gauge_color() -> Seq<char> {
    "#555555"@
}

/// The arcs of the gauge: red 0-40%, yellow 40-80%, green 80-110%, yellow
/// 110-130%, red 130-150% (each color configurable) for a known, unmuted
/// application; a single grey arc otherwise.
pub fn gauge_sections(known: bool, muted: bool, colors: &BarColors) -> (r: Vec<GaugeSection>)
    ensures
        known && !muted ==> {
            &&& r@.len() == 5
            &&& r@[0].start == 0 && r@[0].end == 40 && r@[0].color@ == color_or(colors.gauge_low_color, crate::color::default_red())
            &&& r@[1].start == 40 && r@[1].end == 80 && r@[1].color@ == color_or(colors.gauge_lower_mid_color, crate::color::default_yellow())
            &&& r@[2].start == 80 && r@[2].end == 110 && r@[2].color@ == color_or(colors.gauge_normal_color, crate::color::default_green())
            &&& r@[3].start == 110 && r@[3].end == 130 && r@[3].color@ == color_or(colors.gauge_boost_color, crate::color::default_yellow())
            &&& r@[4].start == 130 && r@[4].end == 150 && r@[4].color@ == color_or(colors.gauge_high_color, crate::color::default_red())
        },
        !(known && !muted) ==> r@.len() == 1 && r@[0].start == 0 && r@[0].end == 150
            && r@[0].color@ == inactive_gauge_color(),
{
    let mut r: Vec<GaugeSection> = Vec::new();
    if known && !muted {
        r.push(GaugeSection { start: 0, end: 40, color: colors.gauge_low_color().to_owned() });
        r.push(GaugeSection { start: 40, end: 80, color: colors.gauge_lower_mid_color().to_owned() });
        r.push(GaugeSection { start: 80, end: 110, color: colors.gauge_normal_color().to_owned() });
        r.push(GaugeSection { start: 110, end: 130, color: colors.gauge_boost_color().to_owned() });
        r.push(GaugeSection { start: 130, end: 150, color: colors.gauge_high_color().to_owned() });
    } else {
        r.push(GaugeSection { start: 0, end: 150, color: "#555555".to_owned() });
    }
    r
}

/// The tick marks of the gauge, in percent: every color transition and the
/// 100% reference.
pub fn gauge_marks() -> (r: Vec<u32>)
    ensures
        r@ == seq![40u32, 80, 100, 110, 130],
{
    let mut r: Vec<u32> = Vec::new();
    r.push(40);
    r.push(80);
    r.push(100);
    r.push(110);
    r.push(130);
    r
}

} // verus!
