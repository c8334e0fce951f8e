//! Styling of NWS watch, warning and advisory polygons.

use vstd::prelude::*;

use crate::text::{chars_of, contains_chars, has_chars, lowercase, to_lower};

verus! {

/// Renders NWS watch/warning/advisory polygons on the map.
pub struct WarningRenderer;

/// The kinds of alert that get their own style.
#[derive(Debug, Clone, Copy, PartialEq, Eq, Structural)]
pub enum WarningKind {
    TornadoWarning,
    SevereThunderstormWarning,
    TornadoWatch,
    SevereThunderstormWatch,
    FlashFloodWarning,
    Other,
}

/// How an alert polygon is drawn: outline colour, outline width in pixels, and the
/// opacity of the fill (0: no fill).
#[derive(Debug, Clone, Copy)]
pub struct WarningStyle {
    pub stroke_rgb: (u8, u8, u8),
    pub stroke_width: u8,
    pub fill_alpha: u8,
}

/// The kind of an alert by its lower-cased event name, the first rule that
/// matches: tornado warning, severe thunderstorm warning, tornado watch, severe
/// thunderstorm watch, flash flood warning.
pub open spec fn kind_of_lower(e: Seq<char>) -> WarningKind {
    if contains_chars(e, "tornado"@) && contains_chars(e, "warning"@) {
        WarningKind::TornadoWarning
    } else if contains_chars(e, "severe thunderstorm"@) && contains_chars(e, "warning"@) {
        WarningKind::SevereThunderstormWarning
    } else if contains_chars(e, "tornado"@) && contains_chars(e, "watch"@) {
        WarningKind::TornadoWatch
    } else if contains_chars(e, "severe thunderstorm"@) && contains_chars(e, "watch"@) {
        WarningKind::SevereThunderstormWatch
    } else if contains_chars(e, "flash flood"@) && contains_chars(e, "warning"@) {
        WarningKind::FlashFloodWarning
    } else {
        WarningKind::Other
    }
}

/// The style of each kind.
pub open spec fn style_of(k: WarningKind) -> WarningStyle {
    match k {
        WarningKind::TornadoWarning => WarningStyle {
            stroke_rgb: (0xFF, 0x00, 0x00),
            stroke_width: 3,
            fill_alpha: 40,
        },
        WarningKind::SevereThunderstormWarning => WarningStyle {
            stroke_rgb: (0xFF, 0xA5, 0x00),
            stroke_width: 3,
            fill_alpha: 40,
        },
        WarningKind::TornadoWatch => WarningStyle {
            stroke_rgb: (0xFF, 0xFF, 0x00),
            stroke_width: 2,
            fill_alpha: 0,
        },
        WarningKind::SevereThunderstormWatch => WarningStyle {
            stroke_rgb: (0xCC, 0xCC, 0x00),
            stroke_width: 2,
            fill_alpha: 0,
        },
        WarningKind::FlashFloodWarning => WarningStyle {
            stroke_rgb: (0x00, 0xFF, 0x00),
            stroke_width: 2,
            fill_alpha: 40,
        },
        WarningKind::Other => WarningStyle {
            stroke_rgb: (0xFF, 0xFF, 0xFF),
            stroke_width: 1,
            fill_alpha: 0,
        },
    }
}

impl WarningRenderer {
    /// The kind of alert an event name describes, matched case-insensitively.
    pub fn kind_for_event(event: &str) -> (k: WarningKind)
        ensures
            k == kind_of_lower(lowercase(event@)),
    {
        let lower = to_lower(event);
        let e = chars_of(lower.as_str());
        let tornado = has_chars(&e, &chars_of("tornado"));
        let warning = has_chars(&e, &chars_of("warning"));
        let watch = has_chars(&e, &chars_of("watch"));
        let severe = has_chars(&e, &chars_of("severe thunderstorm"));
        let flood = has_chars(&e, &chars_of("flash flood"));
        if tornado && warning {
            WarningKind::TornadoWarning
        } else if severe && warning {
            WarningKind::SevereThunderstormWarning
        } else if tornado && watch {
            WarningKind::TornadoWatch
        } else if severe && watch {
            WarningKind::SevereThunderstormWatch
        } else if flood && warning {
            WarningKind::FlashFloodWarning
        } else {
            WarningKind::Other
        }
    }

    /// The style of a kind of alert.
    pub fn style_for_kind(k: WarningKind) -> (s: WarningStyle)
        ensures
            s == style_of(k),
    {
        match k {
            WarningKind::TornadoWarning => WarningStyle {
                stroke_rgb: (0xFF, 0x00, 0x00),
                stroke_width: 3,
                fill_alpha: 40,
            },
            WarningKind::SevereThunderstormWarning => WarningStyle {
                stroke_rgb: (0xFF, 0xA5, 0x00),
                stroke_width: 3,
                fill_alpha: 40,
            },
            WarningKind::TornadoWatch => WarningStyle {
                stroke_rgb: (0xFF, 0xFF, 0x00),
                stroke_width: 2,
                fill_alpha: 0,
            },
            WarningKind::SevereThunderstormWatch => WarningStyle {
                stroke_rgb: (0xCC, 0xCC, 0x00),
                stroke_width: 2,
                fill_alpha: 0,
            },
            WarningKind::FlashFloodWarning => WarningStyle {
                stroke_rgb: (0x00, 0xFF, 0x00),
                stroke_width: 2,
                fill_alpha: 40,
            },
            WarningKind::Other => WarningStyle {
                stroke_rgb: (0xFF, 0xFF, 0xFF),
                stroke_width: 1,
                fill_alpha: 0,
            },
        }
    }

    /// The style of an alert polygon by its event name.
    pub fn style_for_event(event: &str) -> (s: WarningStyle)
        ensures
            s == style_of(kind_of_lower(lowercase(event@))),
    {
        Self::style_for_kind(Self::kind_for_event(event))
    }
}

/// What each kind of alert means: an event name is given a kind only when its
/// lower-cased text names that kind (a flash flood warning names "flash flood" and
/// "warning"; a plain flood warning is no flash flood warning), a tornado warning
/// always wins, and a name that names none of the kinds is `Other`.
pub proof fn law_event_kinds(e: Seq<char>)
    ensures
        (kind_of_lower(e) == WarningKind::TornadoWarning)
            <==> (contains_chars(e, "tornado"@) && contains_chars(e, "warning"@)),
        kind_of_lower(e) == WarningKind::SevereThunderstormWarning
            ==> contains_chars(e, "severe thunderstorm"@) && contains_chars(e, "warning"@),
        kind_of_lower(e) == WarningKind::TornadoWatch
            ==> contains_chars(e, "tornado"@) && contains_chars(e, "watch"@),
        kind_of_lower(e) == WarningKind::SevereThunderstormWatch
            ==> contains_chars(e, "severe thunderstorm"@) && contains_chars(e, "watch"@),
        kind_of_lower(e) == WarningKind::FlashFloodWarning
            ==> contains_chars(e, "flash flood"@) && contains_chars(e, "warning"@),
        !contains_chars(e, "flash flood"@) ==> kind_of_lower(e) != WarningKind::FlashFloodWarning,
        contains_chars(e, "flash flood"@) && contains_chars(e, "warning"@) && !contains_chars(e, "tornado"@)
            && !contains_chars(e, "severe thunderstorm"@) ==> kind_of_lower(e) == WarningKind::FlashFloodWarning,
        (kind_of_lower(e) == WarningKind::Other) <==> !(
            (contains_chars(e, "tornado"@) && contains_chars(e, "warning"@))
            || (contains_chars(e, "severe thunderstorm"@) && contains_chars(e, "warning"@))
            || (contains_chars(e, "tornado"@) && contains_chars(e, "watch"@))
            || (contains_chars(e, "severe thunderstorm"@) && contains_chars(e, "watch"@))
            || (contains_chars(e, "flash flood"@) && contains_chars(e, "warning"@))),
{
}

} // verus!
