//! Interaction preferences surfaced by the settings dialog: what a bare mouse
//! wheel does and whether touch mode is forced, each with a stable persisted tag.
use vstd::prelude::*;
use crate::text::{chars_eq_str, chars_of, lemma_trim_of_trimmed, lower, lower_chars, trim, trim_chars};

verus! {

/// What an unmodified mouse-wheel scroll does over the canvas.
#[derive(Clone, Copy, PartialEq, Eq, Debug, Default, Structural)]
pub enum WheelBehavior {
    /// A bare wheel zooms toward the cursor (the default).
    #[default]
    Zoom,
    /// A bare wheel pans the view.
    Pan,
}

/// The stable tag of a wheel behavior.
pub open spec fn wheel_tag(w: WheelBehavior) -> Seq<char> {
    match w {
        WheelBehavior::Zoom => "zoom"@,
        WheelBehavior::Pan => "pan"@,
    }
}

/// The normalized form a persisted tag is matched in: trimmed, ASCII lowercase.
pub open spec fn normalized_tag(tag: Seq<char>) -> Seq<char> {
    lower(trim(tag))
}

/// The wheel behavior a persisted tag selects: `pan` after normalizing, else zoom.
pub open spec fn wheel_from_tag(tag: Seq<char>) -> WheelBehavior {
    if normalized_tag(tag) == "pan"@ {
        WheelBehavior::Pan
    } else {
        WheelBehavior::Zoom
    }
}

impl WheelBehavior {
    /// The stable text tag used when persisting the preference.
    pub fn tag(self) -> (r: &'static str)
        ensures
            r@ == wheel_tag(self),
    {
        match self {
            Self::Zoom => "zoom",
            Self::Pan => "pan",
        }
    }

    /// Parses a persisted tag: `pan` (any case, surrounding whitespace ignored)
    /// is [`WheelBehavior::Pan`]; anything else is [`WheelBehavior::Zoom`].
    pub fn from_tag(tag: &str) -> (r: Self)
        ensures
            r == wheel_from_tag(tag@),
    {
        let v = chars_of(tag);
        let t = trim_chars(&v);
        let l = lower_chars(&t);
        if chars_eq_str(&l, "pan") {
            Self::Pan
        } else {
            Self::Zoom
        }
    }

    /// A short human label for the dialog's segmented control.
    pub fn label(self) -> (r: &'static str)
        ensures
            r@ == (match self {
                WheelBehavior::Zoom => "Zoom"@,
                WheelBehavior::Pan => "Pan"@,
            }),
    {
        match self {
            Self::Zoom => "Zoom",
            Self::Pan => "Pan",
        }
    }

    /// The two behaviors in dialog order.
    pub fn all() -> (r: [Self; 2])
        ensures
            r@ == seq![WheelBehavior::Zoom, WheelBehavior::Pan],
    {
        let r = [Self::Zoom, Self::Pan];
        assert(r@ =~= seq![WheelBehavior::Zoom, WheelBehavior::Pan]);
        r
    }
}

/// Whether the enlarged touch targets are forced on, forced off, or automatic.
#[derive(Clone, Copy, PartialEq, Eq, Debug, Default, Structural)]
pub enum TouchMode {
    /// Follow the platform coarse-pointer detection (the default).
    #[default]
    Auto,
    /// Always use the enlarged touch targets.
    On,
    /// Never use them.
    Off,
}

/// The stable tag of a touch mode.
pub open spec fn touch_tag(m: TouchMode) -> Seq<char> {
    match m {
        TouchMode::Auto => "auto"@,
        TouchMode::On => "on"@,
        TouchMode::Off => "off"@,
    }
}

/// The touch mode a persisted tag selects: `on` or `off` after normalizing,
/// else automatic.
pub open spec fn touch_from_tag(tag: Seq<char>) -> TouchMode {
    if normalized_tag(tag) == "on"@ {
        TouchMode::On
    } else if normalized_tag(tag) == "off"@ {
        TouchMode::Off
    } else {
        TouchMode::Auto
    }
}

impl TouchMode {
    /// The stable text tag used when persisting the preference.
    pub fn tag(self) -> (r: &'static str)
        ensures
            r@ == touch_tag(self),
    {
        match self {
            Self::Auto => "auto",
            Self::On => "on",
            Self::Off => "off",
        }
    }

    /// Parses a persisted tag: `on` and `off` (any case, surrounding whitespace
    /// ignored) select those modes; anything else is [`TouchMode::Auto`].
    pub fn from_tag(tag: &str) -> (r: Self)
        ensures
            r == touch_from_tag(tag@),
    {
        let v = chars_of(tag);
        let t = trim_chars(&v);
        let l = lower_chars(&t);
        if chars_eq_str(&l, "on") {
            Self::On
        } else if chars_eq_str(&l, "off") {
            Self::Off
        } else {
            Self::Auto
        }
    }

    /// A short human label for the dialog's segmented control.
    pub fn label(self) -> (r: &'static str)
        ensures
            r@ == (match self {
                TouchMode::Auto => "Auto"@,
                TouchMode::On => "On"@,
                TouchMode::Off => "Off"@,
            }),
    {
        match self {
            Self::Auto => "Auto",
            Self::On => "On",
            Self::Off => "Off",
        }
    }

    /// The three modes in dialog order.
    pub fn all() -> (r: [Self; 3])
        ensures
            r@ == seq![TouchMode::Auto, TouchMode::On, TouchMode::Off],
    {
        let r = [Self::Auto, Self::On, Self::Off];
        assert(r@ =~= seq![TouchMode::Auto, TouchMode::On, TouchMode::Off]);
        r
    }
}

/// A tag made only of lowercase ASCII letters is its own normalized form.
proof fn lemma_lowercase_tag_normalized(t: Seq<char>)
    requires
        t.len() > 0,
        forall|i: int| 0 <= i < t.len() ==> 'a' <= #[trigger] t[i] && t[i] <= 'z',
    ensures
        normalized_tag(t) == t,
{
    lemma_trim_of_trimmed(t);
    assert(lower(t) =~= t);
}

/// Reading back the tag a wheel behavior is stored under gives that behavior.
pub proof fn lemma_wheel_tag_round_trip(w: WheelBehavior)
    ensures
        wheel_from_tag(wheel_tag(w)) == w,
{
    reveal_strlit("zoom");
    reveal_strlit("pan");
    lemma_lowercase_tag_normalized(wheel_tag(w));
}

/// Reading back the tag a touch mode is stored under gives that mode.
pub proof fn lemma_touch_tag_round_trip(m: TouchMode)
    ensures
        touch_from_tag(touch_tag(m)) == m,
{
    reveal_strlit("auto");
    reveal_strlit("on");
    reveal_strlit("off");
    lemma_lowercase_tag_normalized(touch_tag(m));
}

} // verus!
