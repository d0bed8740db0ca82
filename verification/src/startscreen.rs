//! The Start-screen model: the example-chip gallery and the pinning of the
//! recent-files list.
use vstd::prelude::*;
use crate::open::DocFormat;
use crate::text::{chars_eq, chars_of, lower, lower_chars, string_of, trim, trim_chars};

verus! {

/// One design offered in the Start-screen gallery.
#[derive(Clone, Copy, PartialEq, Eq, Debug, Hash, Structural)]
pub enum ExampleChip {
    /// The minimized real Tiny Tapeout 03 sample. Apache-2.0.
    TinyTapeoutMin,
    /// A single real SkyWater SKY130 standard cell, the `inv_1` inverter.
    Sky130Inverter,
}

/// The chip an `?e2e-example=` id names (already trimmed and lowercased).
pub open spec fn chip_of_id(id: Seq<char>) -> Option<ExampleChip> {
    if id == "tt03"@ || id == "tinytapeout"@ {
        Some(ExampleChip::TinyTapeoutMin)
    } else if id == "sky130"@ || id == "inv"@ || id == "inv1"@ {
        Some(ExampleChip::Sky130Inverter)
    } else {
        None
    }
}

impl ExampleChip {
    /// Every gallery chip, in the order the Start screen offers them.
    pub const ALL: [ExampleChip; 2] = [ExampleChip::TinyTapeoutMin, ExampleChip::Sky130Inverter];

    /// Maps an `?e2e-example=<id>` value to a chip: `tt03`/`tinytapeout` for
    /// the Tiny Tapeout sample, `sky130`/`inv`/`inv1` for the inverter, after
    /// trimming and case-insensitively; `None` for anything else.
    pub fn from_e2e_id(id: &str) -> (r: Option<ExampleChip>)
        ensures
            r == chip_of_id(lower(trim(id@))),
    {
        let iv = chars_of(id);
        let t = trim_chars(&iv);
        let l = lower_chars(&t);
        let tt03 = chars_of("tt03");
        let tiny = chars_of("tinytapeout");
        let sky = chars_of("sky130");
        let inv = chars_of("inv");
        let inv1 = chars_of("inv1");
        if chars_eq(&l, &tt03) || chars_eq(&l, &tiny) {
            Some(ExampleChip::TinyTapeoutMin)
        } else if chars_eq(&l, &sky) || chars_eq(&l, &inv) || chars_eq(&l, &inv1) {
            Some(ExampleChip::Sky130Inverter)
        } else {
            None
        }
    }

    /// A short title for the gallery card.
    pub fn title(self) -> (r: &'static str)
        ensures
            r@ == (match self {
                ExampleChip::TinyTapeoutMin => "Tiny Tapeout sample"@,
                ExampleChip::Sky130Inverter => "SKY130 inverter cell"@,
            }),
    {
        match self {
            ExampleChip::TinyTapeoutMin => "Tiny Tapeout sample",
            ExampleChip::Sky130Inverter => "SKY130 inverter cell",
        }
    }

    /// A one-line description of the design.
    pub fn description(self) -> (r: &'static str)
        ensures
            r@ == (match self {
                ExampleChip::TinyTapeoutMin =>
                    "A real Tiny Tapeout 03 design: a few SkyWater standard cells under a small top. Apache-2.0."@,
                ExampleChip::Sky130Inverter =>
                    "A single real SkyWater SKY130 standard cell, the inv_1 inverter, straight from its GDSII."@,
            }),
    {
        match self {
            ExampleChip::TinyTapeoutMin =>
                "A real Tiny Tapeout 03 design: a few SkyWater standard cells under a small top. Apache-2.0.",
            ExampleChip::Sky130Inverter =>
                "A single real SkyWater SKY130 standard cell, the inv_1 inverter, straight from its GDSII.",
        }
    }

    /// A short license/provenance tag shown on the card.
    pub fn attribution(self) -> (r: &'static str)
        ensures
            r@ == (match self {
                ExampleChip::TinyTapeoutMin => "Tiny Tapeout 03, Apache-2.0"@,
                ExampleChip::Sky130Inverter => "SkyWater SKY130, Apache-2.0"@,
            }),
    {
        match self {
            ExampleChip::TinyTapeoutMin => "Tiny Tapeout 03, Apache-2.0",
            ExampleChip::Sky130Inverter => "SkyWater SKY130, Apache-2.0",
        }
    }

    /// The format the design's bytes are in: GDSII for every bundled example.
    pub fn format(self) -> (r: DocFormat)
        ensures
            r == DocFormat::Gds,
    {
        DocFormat::Gds
    }
}

/// One notable feature of a gallery design, listed in the card's landmarks.
#[derive(Clone, Copy, Debug)]
pub struct Landmark {
    /// The landmark's short name.
    pub name: &'static str,
    /// A one-line "what it is".
    pub detail: &'static str,
}

/// How a gallery card's primary action opens its design.
#[derive(Clone, Copy, Debug)]
pub enum GalleryAction {
    /// Open a compiled-in example through the document-open seam.
    Example(ExampleChip),
    /// Open a served `.rtla` archive by URL (web only).
    Archive(&'static str),
}

/// A Start-screen gallery card.
#[derive(Clone, Copy, Debug)]
pub struct GalleryCard {
    /// The card title.
    pub title: &'static str,
    /// A one-line description under the title.
    pub description: &'static str,
    /// The process/technology badge.
    pub technology: &'static str,
    /// A human size label.
    pub size: &'static str,
    /// The design's source/provenance.
    pub source: &'static str,
    /// The redistribution license.
    pub license: &'static str,
    /// Whether this design streams from a served archive.
    pub streaming: bool,
    /// The notable landmarks listed in the card's dropdown.
    pub landmarks: [Landmark; 2],
    /// How the card's primary action opens the design.
    pub action: GalleryAction,
}

/// The URL of the served `.rtla` demo archive the streaming card opens.
pub const DEMO_ARCHIVE_URL: &'static str = "https://reticle-archive.josefdean.workers.dev/f04af90fbb06786c.rtla";

/// The Start-screen gallery, in display order: the two compiled-in examples,
/// then the streaming served-archive demo.
pub fn gallery() -> (r: [GalleryCard; 3])
    ensures
        !r[0].streaming && r[0].action == GalleryAction::Example(ExampleChip::TinyTapeoutMin),
        !r[1].streaming && r[1].action == GalleryAction::Example(ExampleChip::Sky130Inverter),
        r[2].streaming && r[2].action == GalleryAction::Archive(DEMO_ARCHIVE_URL),
{
    [
        GalleryCard {
            title: "Tiny Tapeout sample",
            description: "A real Tiny Tapeout 03 design: a few SkyWater standard cells under a small top.",
            technology: "SkyWater SKY130",
            size: "4 cells",
            source: "Tiny Tapeout 03",
            license: "Apache-2.0",
            streaming: false,
            landmarks: [
                Landmark {
                    name: "TT_MIN_TOP",
                    detail: "the synthesized top cell tying the standard cells together",
                },
                Landmark {
                    name: "SkyWater standard cells",
                    detail: "a few real published SKY130 cells from a Tiny Tapeout 03 design",
                },
            ],
            action: GalleryAction::Example(ExampleChip::TinyTapeoutMin),
        },
        GalleryCard {
            title: "SKY130 inverter cell",
            description: "A single real SkyWater SKY130 standard cell, the inv_1 inverter.",
            technology: "SkyWater SKY130",
            size: "1 cell",
            source: "SkyWater SKY130 PDK",
            license: "Apache-2.0",
            streaming: false,
            landmarks: [
                Landmark {
                    name: "sky130_fd_sc_hd__inv_1",
                    detail: "the single inverter standard cell, straight from its GDSII",
                },
                Landmark {
                    name: "diffusion, poly, and metal1",
                    detail: "the transistor layers you can toggle in the Layers panel",
                },
            ],
            action: GalleryAction::Example(ExampleChip::Sky130Inverter),
        },
        GalleryCard {
            title: "Streamed die (served archive)",
            description: "A larger die streamed tile by tile over HTTP Range, showing progressive residency.",
            technology: "SkyWater SKY130",
            size: "streamed",
            source: "Reticle demo archive",
            license: "Apache-2.0",
            streaming: true,
            landmarks: [
                Landmark {
                    name: "progressive residency",
                    detail: "coarse cell boxes fill in to full geometry as tiles stream over HTTP",
                },
                Landmark {
                    name: "streaming HUD",
                    detail: "the top-left overlay reports fetched tiles and residency live",
                },
            ],
            action: GalleryAction::Archive(DEMO_ARCHIVE_URL),
        },
    ]
}

/// One entry of the recent-files list: a display name, a byte size, and the
/// URL it was fetched from, if any.
#[derive(Clone, PartialEq, Eq, Debug)]
pub struct RecentFile {
    /// The display name.
    pub name: String,
    /// The size in bytes.
    pub size: u64,
    /// The source URL, for a remote file.
    pub url: Option<String>,
}

impl RecentFile {
    /// A file opened from the local machine.
    pub fn local(name: &str, size: u64) -> (r: RecentFile)
        ensures
            r.name@ == name@,
            r.size == size,
            r.url is None,
    {
        RecentFile { name: name.to_owned(), size, url: None }
    }

    /// A file fetched from `url`.
    pub fn remote(name: &str, size: u64, url: &str) -> (r: RecentFile)
        ensures
            r.name@ == name@,
            r.size == size,
            r.url matches Some(u) && u@ == url@,
    {
        RecentFile { name: name.to_owned(), size, url: Some(url.to_owned()) }
    }
}

/// The identity a recent file is pinned by: its URL when it has one, else its
/// name.
pub open spec fn key_of(f: RecentFile) -> Seq<char> {
    match f.url {
        Some(u) => u@,
        None => f.name@,
    }
}

/// The identity a recent file is pinned by.
pub fn recent_key(recent: &RecentFile) -> (r: &str)
    ensures
        r@ == key_of(*recent),
{
    match &recent.url {
        Some(u) => u.as_str(),
        None => recent.name.as_str(),
    }
}

/// The pinned keys of the recent-files list.
#[derive(Clone, Default, Debug, PartialEq, Eq)]
pub struct RecentPins {
    pinned: Vec<String>,
}

/// Whether some string of `s` is `k`.
pub open spec fn has_key(s: Seq<String>, k: Seq<char>) -> bool {
    exists|i: int| 0 <= i < s.len() && #[trigger] s[i]@ == k
}

impl View for RecentPins {
    type V = Set<Seq<char>>;

    closed spec fn view(&self) -> Set<Seq<char>> {
        Set::new(|k: Seq<char>| has_key(self.pinned@, k))
    }
}

/// `recent`'s entries whose pinned state is `pinned`, in order.
pub open spec fn with_pin_state(recent: Seq<RecentFile>, pins: Set<Seq<char>>, pinned: bool) -> Seq<
    RecentFile,
>
    decreases recent.len(),
{
    if recent.len() == 0 {
        recent
    } else {
        let rest = with_pin_state(recent.drop_last(), pins, pinned);
        if pins.contains(key_of(recent.last())) == pinned {
            rest.push(recent.last())
        } else {
            rest
        }
    }
}

fn str_eq(a: &str, b: &str) -> (r: bool)
    ensures
        r == (a@ == b@),
{
    let av = chars_of(a);
    let bv = chars_of(b);
    chars_eq(&av, &bv)
}

/// `pins` with `key` flipped: unpinned when pinned, pinned when not.
pub open spec fn pin_toggled(pins: Set<Seq<char>>, key: Seq<char>) -> Set<Seq<char>> {
    if pins.contains(key) {
        pins.remove(key)
    } else {
        pins.insert(key)
    }
}

/// Toggling the same pin twice leaves the pins as they were.
pub proof fn lemma_pin_toggle_twice(pins: Set<Seq<char>>, key: Seq<char>)
    ensures
        pin_toggled(pin_toggled(pins, key), key) == pins,
{
    assert(pin_toggled(pin_toggled(pins, key), key) =~= pins);
}

impl RecentPins {
    /// An empty pin set.
    pub fn new() -> (r: RecentPins)
        ensures
            r@ == Set::<Seq<char>>::empty(),
    {
        let r = RecentPins { pinned: Vec::new() };
        assert(r@ =~= Set::<Seq<char>>::empty());
        r
    }

    /// Whether `key` is pinned.
    pub fn is_pinned(&self, key: &str) -> (r: bool)
        ensures
            r == self@.contains(key@),
    {
        let mut i: usize = 0;
        while i < self.pinned.len()
            invariant
                i <= self.pinned@.len(),
                forall|j: int| 0 <= j < i ==> self.pinned@[j]@ != key@,
            decreases self.pinned@.len() - i,
        {
            if str_eq(self.pinned[i].as_str(), key) {
                return true;
            }
            i = i + 1;
        }
        false
    }

    /// Toggles the pin for `key`, returning the new pinned state.
    pub fn toggle(&mut self, key: &str) -> (r: bool)
        ensures
            r == !old(self)@.contains(key@),
            final(self)@ == pin_toggled(old(self)@, key@),
    {
        if self.is_pinned(key) {
            let mut kept: Vec<String> = Vec::new();
            let mut i: usize = 0;
            while i < self.pinned.len()
                invariant
                    i <= self.pinned@.len(),
                    self@ == old(self)@,
                    old(self)@.contains(key@),
                    !has_key(kept@, key@),
                    forall|k: Seq<char>|
                        k != key@ ==> (#[trigger] has_key(kept@, k) <==> has_key(
                            self.pinned@.subrange(0, i as int),
                            k,
                        )),
                decreases self.pinned@.len() - i,
            {
                let ghost before = kept@;
                let ghost pre = self.pinned@.subrange(0, i as int);
                let ghost post = self.pinned@.subrange(0, i + 1);
                assert(post =~= pre.push(self.pinned@[i as int]));
                if !str_eq(self.pinned[i].as_str(), key) {
                    kept.push(self.pinned[i].clone());
                    assert(kept@ =~= before.push(self.pinned@[i as int]));
                }
                assert forall|k: Seq<char>| k != key@ implies (#[trigger] has_key(kept@, k) <==> has_key(post, k)) by {
                    if has_key(post, k) {
                        let j = choose|j: int| 0 <= j < post.len() && #[trigger] post[j]@ == k;
                        if j == i {
                            assert(kept@[kept@.len() - 1]@ == k);
                        } else {
                            assert(pre[j]@ == k);
                            assert(has_key(before, k));
                            let m = choose|m: int| 0 <= m < before.len() && #[trigger] before[m]@ == k;
                            assert(kept@[m]@ == k);
                        }
                    }
                    if has_key(kept@, k) {
                        let j = choose|j: int| 0 <= j < kept@.len() && #[trigger] kept@[j]@ == k;
                        if j < before.len() {
                            assert(before[j]@ == k);
                            assert(has_key(before, k));
                            assert(has_key(pre, k));
                            let m = choose|m: int| 0 <= m < pre.len() && #[trigger] pre[m]@ == k;
                            assert(post[m]@ == k);
                        } else {
                            assert(post[i as int]@ == k);
                        }
                    }
                }
                proof {
                    if has_key(kept@, key@) {
                        let j = choose|j: int| 0 <= j < kept@.len() && #[trigger] kept@[j]@ == key@;
                        if j < before.len() {
                            assert(before[j]@ == key@);
                        }
                    }
                }
                i = i + 1;
            }
            let ghost old_view = old(self)@;
            assert(self.pinned@.subrange(0, self.pinned@.len() as int) =~= self.pinned@);
            self.pinned = kept;
            assert(self@ =~= old_view.remove(key@));
            false
        } else {
            let ghost before = self.pinned@;
            self.pinned.push(key.to_owned());
            assert forall|k: Seq<char>| #[trigger] has_key(self.pinned@, k) <==> (has_key(before, k) || k == key@) by {
                if has_key(before, k) {
                    let j = choose|j: int| 0 <= j < before.len() && #[trigger] before[j]@ == k;
                    assert(self.pinned@[j]@ == k);
                }
                if has_key(self.pinned@, k) {
                    let j = choose|j: int| 0 <= j < self.pinned@.len() && #[trigger] self.pinned@[j]@ == k;
                    if j < before.len() {
                        assert(before[j]@ == k);
                    }
                }
                if k == key@ {
                    assert(self.pinned@[before.len() as int]@ == k);
                }
            }
            assert(self@ =~= old(self)@.insert(key@));
            true
        }
    }

    /// Orders `recent` for display: pinned entries first, then the rest, each
    /// group keeping the input (most-recent-first) order.
    pub fn order<'a>(&self, recent: &'a [RecentFile]) -> (r: Vec<&'a RecentFile>)
        ensures
            r@.map_values(|f: &RecentFile| *f) == with_pin_state(recent@, self@, true)
                + with_pin_state(recent@, self@, false),
    {
        let mut pinned: Vec<&'a RecentFile> = Vec::new();
        let mut rest: Vec<&'a RecentFile> = Vec::new();
        let mut i: usize = 0;
        while i < recent.len()
            invariant
                i <= recent@.len(),
                pinned@.map_values(|f: &RecentFile| *f) == with_pin_state(
                    recent@.subrange(0, i as int),
                    self@,
                    true,
                ),
                rest@.map_values(|f: &RecentFile| *f) == with_pin_state(
                    recent@.subrange(0, i as int),
                    self@,
                    false,
                ),
            decreases recent@.len() - i,
        {
            assert(recent@.subrange(0, i + 1).drop_last() =~= recent@.subrange(0, i as int));
            let f = &recent[i];
            if self.is_pinned(recent_key(f)) {
                pinned.push(f);
                assert(pinned@.map_values(|f: &RecentFile| *f) =~= with_pin_state(
                    recent@.subrange(0, i as int),
                    self@,
                    true,
                ).push(recent@[i as int]));
            } else {
                rest.push(f);
                assert(rest@.map_values(|f: &RecentFile| *f) =~= with_pin_state(
                    recent@.subrange(0, i as int),
                    self@,
                    false,
                ).push(recent@[i as int]));
            }
            i = i + 1;
        }
        assert(recent@.subrange(0, recent@.len() as int) =~= recent@);
        let ghost p = pinned@;
        let mut j: usize = 0;
        while j < rest.len()
            invariant
                j <= rest@.len(),
                pinned@ == p + rest@.subrange(0, j as int),
            decreases rest@.len() - j,
        {
            pinned.push(rest[j]);
            j = j + 1;
            assert(pinned@ =~= p + rest@.subrange(0, j as int));
        }
        assert(rest@.subrange(0, rest@.len() as int) =~= rest@);
        assert(pinned@.map_values(|f: &RecentFile| *f) =~= p.map_values(|f: &RecentFile| *f)
            + rest@.map_values(|f: &RecentFile| *f));
        pinned
    }
}

} // verus!
