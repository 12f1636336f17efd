//! The level meter: what the tray icon and its tooltip show.

use vstd::prelude::*;

use crate::text;

verus! {

/// Side of the tray icon in pixels.
pub const ICON_SIZE: u32 = 64;

/// Coarse output levels, which the tray icon tells apart by color.
#[derive(Copy, Clone, Debug, PartialEq, Eq, Structural)]
pub enum LevelBucket {
    /// The pipeline is not running.
    Idle,
    /// Running, below -40 dB.
    Silent,
    /// From -40 to -20 dB.
    Low,
    /// From -20 to -3 dB.
    Mid,
    /// From -3 dB on.
    Clip,
}

/// The level of a peak amplitude; `None` where the pipeline is stopped.  The
/// bounds are one hundredth, one tenth and seven tenths of full scale, 32768.
pub open spec fn bucket_of(peak: Option<u16>) -> LevelBucket {
    match peak {
        None => LevelBucket::Idle,
        Some(p) => if 100 * p < 32768 {
            LevelBucket::Silent
        } else if 10 * p < 32768 {
            LevelBucket::Low
        } else if 10 * p < 7 * 32768 {
            LevelBucket::Mid
        } else {
            LevelBucket::Clip
        },
    }
}

/// The color of a level: grey, dim green, green, amber, red.
pub open spec fn color_of(bucket: LevelBucket) -> (u8, u8, u8) {
    match bucket {
        LevelBucket::Idle => (128, 128, 128),
        LevelBucket::Silent => (30, 90, 30),
        LevelBucket::Low => (0, 200, 0),
        LevelBucket::Mid => (230, 190, 0),
        LevelBucket::Clip => (220, 40, 40),
    }
}

impl LevelBucket {
    /// Maps a peak amplitude (0 to 32768) to a level.  `None` means that the
    /// pipeline is stopped.
    pub fn from_peak(peak: Option<u16>) -> (bucket: Self)
        ensures
            bucket == bucket_of(peak),
    {
        match peak {
            None => LevelBucket::Idle,
            Some(p) => if p <= 327 {
                LevelBucket::Silent
            } else if p <= 3276 {
                LevelBucket::Low
            } else if p <= 22937 {
                LevelBucket::Mid
            } else {
                LevelBucket::Clip
            },
        }
    }

    /// The color of the level, as red, green and blue.
    pub fn color(self) -> (rgb: (u8, u8, u8))
        ensures
            rgb == color_of(self),
    {
        match self {
            LevelBucket::Idle => (128, 128, 128),
            LevelBucket::Silent => (30, 90, 30),
            LevelBucket::Low => (0, 200, 0),
            LevelBucket::Mid => (230, 190, 0),
            LevelBucket::Clip => (220, 40, 40),
        }
    }
}

/// How loud a level is, compared with the others.
pub open spec fn rank(bucket: LevelBucket) -> int {
    match bucket {
        LevelBucket::Idle => 0,
        LevelBucket::Silent => 1,
        LevelBucket::Low => 2,
        LevelBucket::Mid => 3,
        LevelBucket::Clip => 4,
    }
}

/// A louder peak never shows as a quieter level, and a running pipeline never
/// shows as idle.
pub proof fn law_level_grows_with_peak(quiet: u16, loud: u16)
    requires
        quiet <= loud,
    ensures
        0 < rank(bucket_of(Some(quiet))) <= rank(bucket_of(Some(loud))),
{
}

/// Every level has a color of its own.
pub proof fn law_colors_are_distinct(a: LevelBucket, b: LevelBucket)
    requires
        color_of(a) == color_of(b),
    ensures
        a == b,
{
}

/// The pixel in column `x` and row `y` lies in the circle that fills the icon
/// but for a margin of two pixels.
pub open spec fn in_circle(x: int, y: int) -> bool {
    (x - 32) * (x - 32) + (y - 32) * (y - 32) <= 30 * 30
}

/// Byte `k` of the icon: row by row, four bytes per pixel, opaque in the given
/// color inside the circle and transparent outside.
pub open spec fn icon_byte(r: u8, g: u8, b: u8, k: int) -> u8 {
    let pixel = k / 4;
    if in_circle(pixel % 64, pixel / 64) {
        if k % 4 == 0 {
            r
        } else if k % 4 == 1 {
            g
        } else if k % 4 == 2 {
            b
        } else {
            255
        }
    } else {
        0
    }
}

/// Creates the RGBA bytes of an icon that shows a filled circle in the given
/// color.
pub fn create_icon_rgb(r: u8, g: u8, b: u8) -> (rgba: Vec<u8>)
    ensures
        rgba@ == Seq::new(64 * 64 * 4, |k: int| icon_byte(r, g, b, k)),
{
    let count: u32 = ICON_SIZE * ICON_SIZE;
    let mut rgba: Vec<u8> = Vec::with_capacity(16384);
    let mut pixel: u32 = 0;
    while pixel < count
        invariant
            pixel <= count == 64 * 64,
            rgba@ =~= Seq::new((4 * pixel) as nat, |k: int| icon_byte(r, g, b, k)),
        decreases count - pixel,
    {
        let dx: i32 = (pixel % ICON_SIZE) as i32 - 32;
        let dy: i32 = (pixel / ICON_SIZE) as i32 - 32;
        assert(0 <= dx * dx <= 1024 && 0 <= dy * dy <= 1024) by (nonlinear_arith)
            requires
                -32 <= dx <= 32,
                -32 <= dy <= 32,
        ;
        let inside: bool = dx * dx + dy * dy <= 900;
        let ghost at = 4 * pixel as int;
        assert(at / 4 == pixel && (at + 1) / 4 == pixel && (at + 2) / 4 == pixel && (at + 3) / 4
            == pixel);
        assert(at % 4 == 0 && (at + 1) % 4 == 1 && (at + 2) % 4 == 2 && (at + 3) % 4 == 3);
        if inside {
            rgba.push(r);
            rgba.push(g);
            rgba.push(b);
            rgba.push(255);
        } else {
            rgba.push(0);
            rgba.push(0);
            rgba.push(0);
            rgba.push(0);
        }
        pixel = pixel + 1;
    }
    rgba
}

/// Creates the RGBA bytes of the icon for a level.
pub fn icon_for(bucket: LevelBucket) -> (rgba: Vec<u8>)
    ensures
        ({
            let (r, g, b) = color_of(bucket);
            rgba@ == Seq::new(64 * 64 * 4, |k: int| icon_byte(r, g, b, k))
        }),
{
    let (r, g, b) = bucket.color();
    create_icon_rgb(r, g, b)
}

/// Trims the trailing vendor tag from a device name:
/// `CABLE Input (VB-Audio Virtual Cable)` becomes `CABLE Input`.
pub fn shorten_cable_name(name: &str) -> (short: String)
    ensures
        short@ == text::before_first(name@, " ("@),
{
    text::cut_before(name, " (")
}

/// What the tooltip says about the destination.
pub open spec fn destination_hint(name: Option<Seq<char>>) -> Seq<char> {
    match name {
        Some(n) => " → "@ + text::before_first(n, " ("@),
        None => " · VB-Cable not installed"@,
    }
}

/// The tooltip of an application that does not mix.
pub open spec fn idle_tooltip(name: Option<Seq<char>>) -> Seq<char> {
    match name {
        Some(_) => "wasamix — idle (click to start"@ + destination_hint(name) + ")"@,
        None => "wasamix — VB-Audio Cable not installed"@,
    }
}

/// The tooltip of an application that mixes.  With the level meter on it tells
/// the level, in whole decibels as given, or that there is silence.
pub open spec fn mixing_tooltip(
    name: Option<Seq<char>>,
    show_level_meter: bool,
    peak: u16,
    decibels: Seq<char>,
) -> Seq<char> {
    if !show_level_meter {
        "wasamix"@ + destination_hint(name) + " — MIXING"@
    } else if peak == 0 {
        "wasamix"@ + destination_hint(name) + " — MIXING (silent)"@
    } else {
        "wasamix"@ + destination_hint(name) + " — MIXING ("@ + decibels + " dBFS)"@
    }
}

/// The name, if there is one, by its characters.
pub open spec fn name_view(name: Option<String>) -> Option<Seq<char>> {
    match name {
        Some(s) => Some(s@),
        None => None,
    }
}

fn hint(name: &Option<String>) -> (text: String)
    ensures
        text@ == destination_hint(name_view(*name)),
{
    match name {
        Some(n) => {
            let short = shorten_cable_name(n.as_str());
            let mut text = " → ".to_owned();
            text.append(short.as_str());
            text
        },
        None => " · VB-Cable not installed".to_owned(),
    }
}

/// Writes the tooltip of an application that does not mix.
pub fn write_idle_tooltip(name: &Option<String>) -> (tooltip: String)
    ensures
        tooltip@ == idle_tooltip(name_view(*name)),
{
    if name.is_none() {
        return "wasamix — VB-Audio Cable not installed".to_owned();
    }
    let destination = hint(name);
    let mut tooltip = "wasamix — idle (click to start".to_owned();
    tooltip.append(destination.as_str());
    tooltip.append(")");
    tooltip
}

/// Writes the tooltip of an application that mixes.
pub fn write_mixing_tooltip(
    name: &Option<String>,
    show_level_meter: bool,
    peak: u16,
    decibels: &str,
) -> (tooltip: String)
    ensures
        tooltip@ == mixing_tooltip(name_view(*name), show_level_meter, peak, decibels@),
{
    let destination = hint(name);
    let mut tooltip = "wasamix".to_owned();
    tooltip.append(destination.as_str());
    if !show_level_meter {
        tooltip.append(" — MIXING");
    } else if peak == 0 {
        tooltip.append(" — MIXING (silent)");
    } else {
        tooltip.append(" — MIXING (");
        tooltip.append(decibels);
        tooltip.append(" dBFS)");
    }
    tooltip
}

/// The levels change at -40, -20 and -3 dB: at peaks of 328, 3277 and 22938.
pub proof fn law_level_bounds(peak: u16)
    ensures
        bucket_of(None) == LevelBucket::Idle,
        bucket_of(Some(peak)) == LevelBucket::Silent <==> peak <= 327,
        bucket_of(Some(peak)) == LevelBucket::Low <==> 328 <= peak <= 3276,
        bucket_of(Some(peak)) == LevelBucket::Mid <==> 3277 <= peak <= 22937,
        bucket_of(Some(peak)) == LevelBucket::Clip <==> 22938 <= peak,
{
}

/// Idle is grey, silence a dim green, a low level green, a medium one amber, and
/// a loud one red.
pub proof fn law_colors_tell_the_level(bucket: LevelBucket)
    ensures
        ({
            let (r, g, b) = color_of(bucket);
            &&& bucket is Idle <==> r == g && g == b
            &&& bucket is Silent || bucket is Low <==> g > r && g > b
            &&& bucket is Mid || bucket is Clip <==> r > g && r > b
            &&& bucket is Idle ==> r == 128
            &&& bucket is Silent ==> (r, g, b) == (30u8, 90u8, 30u8)
            &&& bucket is Low ==> (r, g, b) == (0u8, 200u8, 0u8)
            &&& bucket is Mid ==> (r, g, b) == (230u8, 190u8, 0u8)
            &&& bucket is Clip ==> (r, g, b) == (220u8, 40u8, 40u8)
        }),
{
}

/// The pixel in column `x` and row `y` has four bytes, row by row: the color,
/// opaque, where it is at most 30 pixels from the center, and else nothing.
pub proof fn law_icon_is_a_disc(r: u8, g: u8, b: u8, x: int, y: int)
    requires
        0 <= x < 64,
        0 <= y < 64,
    ensures
        ({
            let k = 4 * (64 * y + x);
            let bytes = (
                icon_byte(r, g, b, k),
                icon_byte(r, g, b, k + 1),
                icon_byte(r, g, b, k + 2),
                icon_byte(r, g, b, k + 3),
            );
            if (x - 32) * (x - 32) + (y - 32) * (y - 32) <= 900 {
                bytes == (r, g, b, 255u8)
            } else {
                bytes == (0u8, 0u8, 0u8, 0u8)
            }
        }),
{
    let p = 64 * y + x;
    assert((4 * p) / 4 == p && (4 * p + 1) / 4 == p && (4 * p + 2) / 4 == p && (4 * p + 3) / 4
        == p);
    assert(p % 64 == x && p / 64 == y);
}

/// The tooltips name the destination without the vendor in brackets, tell idle
/// from mixing, and tell the level where the meter is on.
pub proof fn law_tooltips(
    name: Seq<char>,
    head: Seq<char>,
    tail: Seq<char>,
    peak: u16,
    decibels: Seq<char>,
)
    requires
        name == head + " ("@ + tail,
        forall|i: int| 0 <= i < head.len() ==> #[trigger] name.subrange(i, i + 2) != " ("@,
    ensures
        idle_tooltip(Some(name)) == "wasamix — idle (click to start → "@ + head + ")"@,
        mixing_tooltip(Some(name), false, peak, decibels) == "wasamix → "@ + head + " — MIXING"@,
        mixing_tooltip(Some(name), true, 0, decibels) == "wasamix → "@ + head
            + " — MIXING (silent)"@,
        peak > 0 ==> mixing_tooltip(Some(name), true, peak, decibels) == "wasamix → "@ + head
            + " — MIXING ("@ + decibels + " dBFS)"@,
        idle_tooltip(None) == "wasamix — VB-Audio Cable not installed"@,
        mixing_tooltip(None, false, peak, decibels)
            == "wasamix · VB-Cable not installed — MIXING"@,
        mixing_tooltip(None, true, 0, decibels)
            == "wasamix · VB-Cable not installed — MIXING (silent)"@,
        peak > 0 ==> mixing_tooltip(None, true, peak, decibels)
            == "wasamix · VB-Cable not installed — MIXING ("@ + decibels + " dBFS)"@,
{
    reveal_strlit(" (");
    assert(" ("@.len() == 2);
    text::law_cut_at_pattern(name, head, " ("@, tail);
    lemma_tooltip_pieces();
    let hint = " → "@ + head;
    assert(destination_hint(Some(name)) == hint);
    assert("wasamix — idle (click to start"@ + hint =~= "wasamix — idle (click to start"@ + " → "@
        + head);
    assert("wasamix"@ + hint =~= "wasamix"@ + " → "@ + head);
}

/// A name without a bracket stands in the tooltips as it is.
pub proof fn law_tooltips_keep_plain_names(name: Seq<char>, peak: u16, decibels: Seq<char>)
    requires
        forall|i: int|
            0 <= i <= name.len() - 2 ==> #[trigger] name.subrange(i, i + 2) != " ("@,
    ensures
        idle_tooltip(Some(name)) == "wasamix — idle (click to start → "@ + name + ")"@,
        mixing_tooltip(Some(name), false, peak, decibels) == "wasamix → "@ + name + " — MIXING"@,
        mixing_tooltip(Some(name), true, 0, decibels) == "wasamix → "@ + name
            + " — MIXING (silent)"@,
        peak > 0 ==> mixing_tooltip(Some(name), true, peak, decibels) == "wasamix → "@ + name
            + " — MIXING ("@ + decibels + " dBFS)"@,
{
    reveal_strlit(" (");
    assert(" ("@.len() == 2);
    text::law_cut_without_pattern(name, " ("@);
    lemma_tooltip_pieces();
    let hint = " → "@ + name;
    assert(destination_hint(Some(name)) == hint);
    assert("wasamix — idle (click to start"@ + hint =~= "wasamix — idle (click to start"@ + " → "@
        + name);
    assert("wasamix"@ + hint =~= "wasamix"@ + " → "@ + name);
}

proof fn lemma_tooltip_pieces()
    ensures
        "wasamix — idle (click to start"@ + " → "@ == "wasamix — idle (click to start → "@,
        "wasamix"@ + " → "@ == "wasamix → "@,
        "wasamix"@ + " · VB-Cable not installed"@ + " — MIXING"@
            == "wasamix · VB-Cable not installed — MIXING"@,
        "wasamix"@ + " · VB-Cable not installed"@ + " — MIXING (silent)"@
            == "wasamix · VB-Cable not installed — MIXING (silent)"@,
        "wasamix"@ + " · VB-Cable not installed"@ + " — MIXING ("@
            == "wasamix · VB-Cable not installed — MIXING ("@,
{
    reveal_strlit("wasamix — idle (click to start");
    reveal_strlit(" → ");
    reveal_strlit("wasamix — idle (click to start → ");
    reveal_strlit("wasamix");
    reveal_strlit("wasamix → ");
    reveal_strlit(" · VB-Cable not installed");
    reveal_strlit(" — MIXING");
    reveal_strlit(" — MIXING (silent)");
    reveal_strlit(" — MIXING (");
    reveal_strlit("wasamix · VB-Cable not installed — MIXING");
    reveal_strlit("wasamix · VB-Cable not installed — MIXING (silent)");
    reveal_strlit("wasamix · VB-Cable not installed — MIXING (");
    assert("wasamix"@ + " · VB-Cable not installed"@ + " — MIXING (silent)"@
        =~= "wasamix · VB-Cable not installed — MIXING (silent)"@);
    assert("wasamix"@ + " · VB-Cable not installed"@ + " — MIXING ("@
        =~= "wasamix · VB-Cable not installed — MIXING ("@);
    assert("wasamix — idle (click to start"@ + " → "@ =~= "wasamix — idle (click to start → "@);
    assert("wasamix"@ + " → "@ =~= "wasamix → "@);
    assert("wasamix"@ + " · VB-Cable not installed"@ + " — MIXING"@
        =~= "wasamix · VB-Cable not installed — MIXING"@);
}

/// A name is told by its characters.
pub proof fn law_name_view(s: String)
    ensures
        name_view(Some(s)) == Some(s@),
        name_view(None) is None,
{
}

} // verus!
