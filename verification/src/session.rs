//! The persisted view/UI session: a small `key=value` line format.
//!
//! A session file records the camera center and zoom, the active tool, the
//! grid switches and step, the theme and UI density tags, the reduced-motion
//! and tour-seen flags, and the hidden layers. Writing it is
//! [`session_text`]; reading it back is [`parse_session_text`], which skips
//! malformed lines and unknown keys and keeps a default for every field the
//! file does not (validly) set. The zoom, theme and density are carried as the
//! text the file stores for them; interpreting that text is the caller's.
use vstd::prelude::*;
use crate::share::{layer_csv, layer_items, layers_text, parse_layer_csv};
use crate::text::{
    is_digit, lemma_decimal_digits, lemma_join_chars, lemma_split_at_first, lemma_split_join,
    lemma_trim_of_trimmed, chars_eq_str, chars_of, decimal, extend_chars, extend_str, is_ws, join,
    parse_signed,
    parse_signed_chars, push_signed_decimal, signed_decimal, split, split_chars, split_once,
    split_once_chars, string_of, trim, trim_chars,
};

verus! {

/// The canvas tool a session restores.
#[derive(Clone, Copy, PartialEq, Eq, Debug, Default, Structural)]
pub enum Tool {
    /// Pick and select shapes.
    #[default]
    Select,
    /// Drag the view.
    Pan,
    /// Measure a distance.
    Measure,
    /// Draw a cut line for a cross-section.
    CutLine,
    /// Draw a rectangle.
    DrawRect,
    /// Draw a polygon.
    DrawPolygon,
    /// Draw a path.
    DrawPath,
    /// Edit the vertices of a shape.
    EditVertex,
}

/// The stable text tag of a tool.
pub open spec fn tool_tag_of(tool: Tool) -> Seq<char> {
    match tool {
        Tool::Select => "select"@,
        Tool::Pan => "pan"@,
        Tool::Measure => "measure"@,
        Tool::CutLine => "cutline"@,
        Tool::DrawRect => "drawrect"@,
        Tool::DrawPolygon => "drawpolygon"@,
        Tool::DrawPath => "drawpath"@,
        Tool::EditVertex => "editvertex"@,
    }
}

/// The tool a tag names; anything unrecognized is [`Tool::Select`].
pub open spec fn tool_of_tag(tag: Seq<char>) -> Tool {
    if tag == "pan"@ {
        Tool::Pan
    } else if tag == "measure"@ {
        Tool::Measure
    } else if tag == "cutline"@ {
        Tool::CutLine
    } else if tag == "drawrect"@ {
        Tool::DrawRect
    } else if tag == "drawpolygon"@ {
        Tool::DrawPolygon
    } else if tag == "drawpath"@ {
        Tool::DrawPath
    } else if tag == "editvertex"@ {
        Tool::EditVertex
    } else {
        Tool::Select
    }
}

impl Tool {
    /// The stable text tag used when persisting the tool.
    pub fn tag(self) -> (r: &'static str)
        ensures
            r@ == tool_tag_of(self),
    {
        match self {
            Tool::Select => "select",
            Tool::Pan => "pan",
            Tool::Measure => "measure",
            Tool::CutLine => "cutline",
            Tool::DrawRect => "drawrect",
            Tool::DrawPolygon => "drawpolygon",
            Tool::DrawPath => "drawpath",
            Tool::EditVertex => "editvertex",
        }
    }

    /// Parses a tool tag, defaulting to [`Tool::Select`] for anything
    /// unrecognized.
    pub fn from_tag(tag: &str) -> (r: Tool)
        ensures
            r == tool_of_tag(tag@),
    {
        let v = chars_of(tag);
        tool_from_chars(&v)
    }
}

fn tool_from_chars(v: &[char]) -> (r: Tool)
    ensures
        r == tool_of_tag(v@),
{
    if chars_eq_str(v, "pan") {
        Tool::Pan
    } else if chars_eq_str(v, "measure") {
        Tool::Measure
    } else if chars_eq_str(v, "cutline") {
        Tool::CutLine
    } else if chars_eq_str(v, "drawrect") {
        Tool::DrawRect
    } else if chars_eq_str(v, "drawpolygon") {
        Tool::DrawPolygon
    } else if chars_eq_str(v, "drawpath") {
        Tool::DrawPath
    } else if chars_eq_str(v, "editvertex") {
        Tool::EditVertex
    } else {
        Tool::Select
    }
}

/// A session snapshot to write: the view and UI state, with the zoom (pixels
/// per DBU), the theme and the UI density given as the text stored for them.
#[derive(Clone, PartialEq, Eq, Debug)]
pub struct SessionRecord {
    /// Camera center x, in DBU.
    pub center_x: i32,
    /// Camera center y, in DBU.
    pub center_y: i32,
    /// The zoom, as decimal text.
    pub zoom: String,
    /// The active tool.
    pub tool: Tool,
    /// Whether the grid is drawn.
    pub grid_visible: bool,
    /// Whether snapping is on.
    pub snap_enabled: bool,
    /// Base grid step, in DBU.
    pub grid_step: i32,
    /// The theme tag.
    pub theme: String,
    /// The UI density tag.
    pub ui_density: String,
    /// Whether functional motion is suppressed.
    pub reduced_motion: bool,
    /// The `(layer, datatype)` pairs of the hidden layers.
    pub hidden_layers: Vec<(u16, u16)>,
    /// Whether the first-run tour has been shown.
    pub tour_seen: bool,
}

/// `true` or `false`, as the file writes a flag.
pub open spec fn bool_text(b: bool) -> Seq<char> {
    if b {
        "true"@
    } else {
        "false"@
    }
}

/// One `key=value` line (without its line break).
pub open spec fn line(key: Seq<char>, value: Seq<char>) -> Seq<char> {
    key + "="@ + value
}

/// The lines of a session file, in the order they are written.
pub open spec fn record_lines(r: SessionRecord) -> Seq<Seq<char>> {
    seq![
        line("center_x"@, signed_decimal(r.center_x as int)),
        line("center_y"@, signed_decimal(r.center_y as int)),
        line("ppd"@, r.zoom@),
        line("tool"@, tool_tag_of(r.tool)),
        line("grid_visible"@, bool_text(r.grid_visible)),
        line("snap"@, bool_text(r.snap_enabled)),
        line("grid_step"@, signed_decimal(r.grid_step as int)),
        line("theme"@, r.theme@),
        line("ui_density"@, r.ui_density@),
        line("reduced_motion"@, bool_text(r.reduced_motion)),
        line("hidden"@, join(layer_items(r.hidden_layers@), ',')),
        line("tour_seen"@, bool_text(r.tour_seen)),
    ]
}

/// The text of a session file: every line followed by a line break.
pub open spec fn spec_session_text(r: SessionRecord) -> Seq<char> {
    join(record_lines(r).push(Seq::empty()), '\n')
}

fn push_line(lines: &mut Vec<Vec<char>>, key: &str, value: &[char])
    ensures
        final(lines)@.map_values(|v: Vec<char>| v@) == old(lines)@.map_values(|v: Vec<char>| v@).push(
            line(key@, value@),
        ),
{
    let mut l: Vec<char> = Vec::new();
    extend_str(&mut l, key);
    extend_str(&mut l, "=");
    extend_chars(&mut l, value);
    let ghost before = lines@.map_values(|v: Vec<char>| v@);
    lines.push(l);
    assert(lines@.map_values(|v: Vec<char>| v@) =~= before.push(line(key@, value@)));
}

fn signed_text_of(v: i32) -> (r: Vec<char>)
    ensures
        r@ == signed_decimal(v as int),
{
    let mut out: Vec<char> = Vec::new();
    push_signed_decimal(&mut out, v as i64);
    assert(out@ =~= signed_decimal(v as int));
    out
}

fn bool_chars(b: bool) -> (r: Vec<char>)
    ensures
        r@ == bool_text(b),
{
    if b {
        chars_of("true")
    } else {
        chars_of("false")
    }
}

/// Serializes a session snapshot to its `key=value` text, one line per field,
/// each followed by a line break.
pub fn session_text(r: &SessionRecord) -> (t: String)
    ensures
        t@ == spec_session_text(*r),
{
    let mut lines: Vec<Vec<char>> = Vec::new();
    push_line(&mut lines, "center_x", &signed_text_of(r.center_x));
    push_line(&mut lines, "center_y", &signed_text_of(r.center_y));
    push_line(&mut lines, "ppd", &chars_of(r.zoom.as_str()));
    push_line(&mut lines, "tool", &chars_of(r.tool.tag()));
    push_line(&mut lines, "grid_visible", &bool_chars(r.grid_visible));
    push_line(&mut lines, "snap", &bool_chars(r.snap_enabled));
    push_line(&mut lines, "grid_step", &signed_text_of(r.grid_step));
    push_line(&mut lines, "theme", &chars_of(r.theme.as_str()));
    push_line(&mut lines, "ui_density", &chars_of(r.ui_density.as_str()));
    push_line(&mut lines, "reduced_motion", &bool_chars(r.reduced_motion));
    push_line(&mut lines, "hidden", &layers_text(r.hidden_layers.as_slice()));
    push_line(&mut lines, "tour_seen", &bool_chars(r.tour_seen));
    let ghost before = lines@.map_values(|v: Vec<char>| v@);
    lines.push(Vec::new());
    assert(lines@.map_values(|v: Vec<char>| v@) =~= before.push(Seq::empty()));
    assert(before =~= record_lines(*r));
    let text = crate::text::join_chars(&lines, '\n');
    string_of(&text)
}

/// What a session file says, field by field: the default for every field it
/// does not validly set, the last valid setting otherwise; every `ppd` value
/// in order, and the last `theme` and `ui_density` values, as text.
#[derive(Clone, PartialEq, Eq, Debug)]
pub struct SessionFile {
    /// Camera center x, in DBU (0 by default).
    pub center_x: i32,
    /// Camera center y, in DBU (0 by default).
    pub center_y: i32,
    /// Every `ppd` value, in order.
    pub zooms: Vec<String>,
    /// The active tool ([`Tool::Select`] by default).
    pub tool: Tool,
    /// Whether the grid is drawn (on by default).
    pub grid_visible: bool,
    /// Whether snapping is on (on by default).
    pub snap_enabled: bool,
    /// Base grid step, in DBU (100 by default).
    pub grid_step: i32,
    /// The last theme tag, if any.
    pub theme: Option<String>,
    /// The last UI density tag, if any.
    pub ui_density: Option<String>,
    /// Whether functional motion is suppressed (off by default).
    pub reduced_motion: bool,
    /// The hidden layers (none by default).
    pub hidden_layers: Vec<(u16, u16)>,
    /// Whether the first-run tour has been shown (not by default).
    pub tour_seen: bool,
}

/// A session file as plain values.
#[verifier::ext_equal]
pub struct SessionModel {
    /// Camera center x.
    pub center_x: i32,
    /// Camera center y.
    pub center_y: i32,
    /// The `ppd` values.
    pub zooms: Seq<Seq<char>>,
    /// The tool.
    pub tool: Tool,
    /// Grid drawn.
    pub grid_visible: bool,
    /// Snapping on.
    pub snap_enabled: bool,
    /// Grid step.
    pub grid_step: i32,
    /// The theme tag.
    pub theme: Option<Seq<char>>,
    /// The density tag.
    pub ui_density: Option<Seq<char>>,
    /// Reduced motion.
    pub reduced_motion: bool,
    /// Hidden layers.
    pub hidden_layers: Seq<(u16, u16)>,
    /// Tour seen.
    pub tour_seen: bool,
}

/// The text of an optional string.
pub open spec fn opt_text(o: Option<String>) -> Option<Seq<char>> {
    match o {
        Some(s) => Some(s@),
        None => None,
    }
}

impl View for SessionFile {
    type V = SessionModel;

    open spec fn view(&self) -> SessionModel {
        SessionModel {
            center_x: self.center_x,
            center_y: self.center_y,
            zooms: self.zooms@.map_values(|z: String| z@),
            tool: self.tool,
            grid_visible: self.grid_visible,
            snap_enabled: self.snap_enabled,
            grid_step: self.grid_step,
            theme: opt_text(self.theme),
            ui_density: opt_text(self.ui_density),
            reduced_motion: self.reduced_motion,
            hidden_layers: self.hidden_layers@,
            tour_seen: self.tour_seen,
        }
    }
}

/// The defaults a session file starts from.
pub open spec fn default_session() -> SessionModel {
    SessionModel {
        center_x: 0,
        center_y: 0,
        zooms: Seq::empty(),
        tool: Tool::Select,
        grid_visible: true,
        snap_enabled: true,
        grid_step: 100,
        theme: None,
        ui_density: None,
        reduced_motion: false,
        hidden_layers: Seq::empty(),
        tour_seen: false,
    }
}

/// `v` read as an `i32`, if it is one.
pub open spec fn i32_value(v: Seq<char>) -> Option<i32> {
    match parse_signed(v, i32::MIN as int, i32::MAX as int) {
        Some(x) => Some(x as i32),
        None => None,
    }
}

/// What one line changes: a line without `=` changes nothing; otherwise its
/// key and value are trimmed and a known key sets its field (a number only
/// when the value is one), every `ppd` value is kept, and unknown keys are
/// ignored.
pub open spec fn session_step(m: SessionModel, l: Seq<char>) -> SessionModel {
    match split_once(l, '=') {
        None => m,
        Some((k0, v0)) => session_set(m, trim(k0), trim(v0)),
    }
}

/// What a line with key `k` and value `v` (both trimmed) changes.
pub open spec fn session_set(m: SessionModel, k: Seq<char>, v: Seq<char>) -> SessionModel {
    if k == "center_x"@ {
        match i32_value(v) {
            Some(x) => SessionModel { center_x: x, ..m },
            None => m,
        }
    } else if k == "center_y"@ {
        match i32_value(v) {
            Some(y) => SessionModel { center_y: y, ..m },
            None => m,
        }
    } else if k == "ppd"@ {
        SessionModel { zooms: m.zooms.push(v), ..m }
    } else if k == "tool"@ {
        SessionModel { tool: tool_of_tag(v), ..m }
    } else if k == "grid_visible"@ {
        SessionModel { grid_visible: v == "true"@, ..m }
    } else if k == "snap"@ {
        SessionModel { snap_enabled: v == "true"@, ..m }
    } else if k == "grid_step"@ {
        match i32_value(v) {
            Some(g) => SessionModel { grid_step: g, ..m },
            None => m,
        }
    } else if k == "theme"@ {
        SessionModel { theme: Some(v), ..m }
    } else if k == "ui_density"@ {
        SessionModel { ui_density: Some(v), ..m }
    } else if k == "reduced_motion"@ {
        SessionModel { reduced_motion: v == "true"@, ..m }
    } else if k == "hidden"@ {
        SessionModel { hidden_layers: layer_csv(split(v, ',')), ..m }
    } else if k == "tour_seen"@ {
        SessionModel { tour_seen: v == "true"@, ..m }
    } else {
        m
    }
}

/// The session the lines `ls` describe, read in order from `start`.
pub open spec fn session_from(start: SessionModel, ls: Seq<Seq<char>>) -> SessionModel
    decreases ls.len(),
{
    if ls.len() == 0 {
        start
    } else {
        session_step(session_from(start, ls.drop_last()), ls.last())
    }
}

/// What a session text reads as: `None` for a blank text, else its lines
/// (split at line breaks) read in order from the defaults.
pub open spec fn spec_parse_session(text: Seq<char>) -> Option<SessionModel> {
    if trim(text).len() == 0 {
        None
    } else {
        Some(session_from(default_session(), split(text, '\n')))
    }
}

fn i32_of(v: &[char]) -> (r: Option<i32>)
    ensures
        match r {
            Some(x) => i32_value(v@) == Some(x),
            None => i32_value(v@) is None,
        },
{
    match parse_signed_chars(v, 0x8000_0000, 0x7fff_ffff) {
        Some(x) => Some(x as i32),
        None => None,
    }
}

/// Parses a session from its `key=value` text. Malformed lines, unknown keys
/// and invalid numbers are skipped, so a partial or slightly corrupt file
/// restores what it can; `None` only for a blank text.
pub fn parse_session_text(text: &str) -> (r: Option<SessionFile>)
    ensures
        match r {
            Some(f) => spec_parse_session(text@) == Some(f@),
            None => spec_parse_session(text@) is None,
        },
{
    let tv = chars_of(text);
    let t = trim_chars(&tv);
    if t.len() == 0 {
        return None;
    }
    let lines = split_chars(&tv, '\n');
    let ghost all = lines@.map_values(|v: Vec<char>| v@);
    let mut f = SessionFile {
        center_x: 0,
        center_y: 0,
        zooms: Vec::new(),
        tool: Tool::Select,
        grid_visible: true,
        snap_enabled: true,
        grid_step: 100,
        theme: None,
        ui_density: None,
        reduced_motion: false,
        hidden_layers: Vec::new(),
        tour_seen: false,
    };
    assert(f@ =~= default_session());
    for i in 0..lines.len()
        invariant
            all == lines@.map_values(|v: Vec<char>| v@),
            all == split(text@, '\n'),
            f@ == session_from(default_session(), all.take(i as int)),
    {
        assert(all.take(i + 1).drop_last() =~= all.take(i as int));
        assert(all.take(i + 1).last() == lines@[i as int]@);
        match split_once_chars(&lines[i], '=') {
            None => {},
            Some((k0, v0)) => {
                let k = trim_chars(&k0);
                let v = trim_chars(&v0);
                if chars_eq_str(&k, "center_x") {
                    match i32_of(&v) {
                        Some(x) => f.center_x = x,
                        None => {},
                    }
                } else if chars_eq_str(&k, "center_y") {
                    match i32_of(&v) {
                        Some(y) => f.center_y = y,
                        None => {},
                    }
                } else if chars_eq_str(&k, "ppd") {
                    let ghost before = f@;
                    f.zooms.push(string_of(&v));
                    assert(f@.zooms =~= before.zooms.push(v@));
                } else if chars_eq_str(&k, "tool") {
                    f.tool = tool_from_chars(&v);
                } else if chars_eq_str(&k, "grid_visible") {
                    f.grid_visible = chars_eq_str(&v, "true");
                } else if chars_eq_str(&k, "snap") {
                    f.snap_enabled = chars_eq_str(&v, "true");
                } else if chars_eq_str(&k, "grid_step") {
                    match i32_of(&v) {
                        Some(g) => f.grid_step = g,
                        None => {},
                    }
                } else if chars_eq_str(&k, "theme") {
                    f.theme = Some(string_of(&v));
                } else if chars_eq_str(&k, "ui_density") {
                    f.ui_density = Some(string_of(&v));
                } else if chars_eq_str(&k, "reduced_motion") {
                    f.reduced_motion = chars_eq_str(&v, "true");
                } else if chars_eq_str(&k, "hidden") {
                    let vs = string_of(&v);
                    f.hidden_layers = parse_layer_csv(vs.as_str());
                } else if chars_eq_str(&k, "tour_seen") {
                    f.tour_seen = chars_eq_str(&v, "true");
                }
            },
        }
    }
    assert(all.take(lines@.len() as int) =~= all);
    Some(f)
}

/// Text that a session line can carry and read back unchanged: no line break,
/// and no whitespace at either end.
pub open spec fn clean_text(t: Seq<char>) -> bool {
    trim(t) == t && forall|k: int| 0 <= k < t.len() ==> #[trigger] t[k] != '\n'
}

proof fn lemma_key_line(key: Seq<char>, v: Seq<char>)
    requires
        key.len() > 0,
        forall|k: int| 0 <= k < key.len() ==> #[trigger] key[k] != '=' && !is_ws(key[k]),
    ensures
        split_once(line(key, v), '=') == Some((key, v)),
        trim(key) == key,
{
    reveal_strlit("=");
    assert(line(key, v) =~= key + seq!['='] + v);
    lemma_split_at_first(key, '=', v);
    lemma_trim_of_trimmed(key);
}

proof fn lemma_signed_decimal_i32(x: i32)
    ensures
        i32_value(signed_decimal(x as int)) == Some(x),
        clean_text(signed_decimal(x as int)),
{
    let t = signed_decimal(x as int);
    if x < 0 {
        let d = decimal((-x) as nat);
        lemma_decimal_digits((-x) as nat);
        assert(t.drop_first() =~= d);
        assert(t[0] == '-');
        assert(t.last() == d.last());
        assert(is_digit(d.last()));
        assert forall|k: int| 0 <= k < t.len() implies #[trigger] t[k] != '\n' by {
            if k > 0 {
                assert(t[k] == d[k - 1]);
                assert(is_digit(d[k - 1]));
            }
        }
    } else {
        lemma_decimal_digits(x as nat);
        assert(is_digit(t[0]));
        assert(is_digit(t.last()));
        assert forall|k: int| 0 <= k < t.len() implies #[trigger] t[k] != '\n' by {
            assert(is_digit(t[k]));
        }
    }
    lemma_trim_of_trimmed(t);
}

proof fn lemma_tool_tag(tool: Tool)
    ensures
        tool_of_tag(tool_tag_of(tool)) == tool,
        clean_text(tool_tag_of(tool)),
{
    reveal_strlit("select");
    reveal_strlit("pan");
    reveal_strlit("measure");
    reveal_strlit("cutline");
    reveal_strlit("drawrect");
    reveal_strlit("drawpolygon");
    reveal_strlit("drawpath");
    reveal_strlit("editvertex");
    let t = tool_tag_of(tool);
    assert("drawrect"@[4] != "drawpath"@[4]);
    assert(forall|k: int| 0 <= k < t.len() ==> 'a' <= #[trigger] t[k] <= 'z');
    lemma_trim_of_trimmed(t);
}

proof fn lemma_bool_text(b: bool)
    ensures
        (bool_text(b) == "true"@) == b,
        clean_text(bool_text(b)),
{
    reveal_strlit("true");
    reveal_strlit("false");
    let t = bool_text(b);
    assert(forall|k: int| 0 <= k < t.len() ==> 'a' <= #[trigger] t[k] <= 'z');
    lemma_trim_of_trimmed(t);
}

proof fn lemma_layers_line(ls: Seq<(u16, u16)>)
    ensures
        layer_csv(split(join(layer_items(ls), ','), ',')) == ls,
        clean_text(join(layer_items(ls), ',')),
{
    crate::share::lemma_layers_text(ls);
    let items = layer_items(ls);
    let t = join(items, ',');
    reveal_strlit("/");
    assert forall|i: int, k: int| 0 <= i < items.len() && 0 <= k < items[i].len() implies #[trigger] items[i][k]
        != '\n' && !is_ws(items[i][k]) by {
        let p = ls[i];
        let a = decimal(p.0 as nat);
        let b = decimal(p.1 as nat);
        lemma_decimal_digits(p.0 as nat);
        lemma_decimal_digits(p.1 as nat);
        assert(items[i] == a + "/"@ + b);
        assert(items[i] =~= a + seq!['/'] + b);
        if k < a.len() {
            assert(items[i][k] == a[k]);
            assert(is_digit(a[k]));
        } else if k > a.len() {
            assert(items[i][k] == b[k - a.len() - 1]);
            assert(is_digit(b[k - a.len() - 1]));
        }
    }
    lemma_join_chars(items, ',', '\n');
    if t.len() > 0 {
        lemma_join_ends(items, ',');
    }
    lemma_trim_of_trimmed(t);
}

/// A join's first and last characters come from its first and last pieces,
/// when those are non-empty.
proof fn lemma_join_ends(parts: Seq<Seq<char>>, c: char)
    requires
        join(parts, c).len() > 0,
        forall|i: int| 0 <= i < parts.len() ==> #[trigger] parts[i].len() > 0,
        forall|i: int, k: int| 0 <= i < parts.len() && 0 <= k < parts[i].len() ==> !is_ws(#[trigger] parts[i][k]),
    ensures
        !is_ws(join(parts, c)[0]),
        !is_ws(join(parts, c).last()),
    decreases parts.len(),
{
    if parts.len() == 1 {
        assert(!is_ws(parts[0][0]));
        assert(!is_ws(parts[0][parts[0].len() - 1]));
    } else {
        let rest = parts.drop_first();
        assert forall|i: int| 0 <= i < rest.len() implies #[trigger] rest[i].len() > 0 by {
            assert(rest[i] == parts[i + 1]);
        }
        assert forall|i: int, k: int| 0 <= i < rest.len() && 0 <= k < rest[i].len() implies !is_ws(#[trigger] rest[i][k]) by {
            assert(rest[i] == parts[i + 1]);
        }
        assert(parts[1].len() > 0);
        assert(rest[0] == parts[1]);
        lemma_join_nonempty(rest, c);
        lemma_join_ends(rest, c);
        let j = join(parts, c);
        assert(j == parts[0] + seq![c] + join(rest, c));
        assert(j[0] == parts[0][0]);
        assert(!is_ws(parts[0][0]));
        assert(j.last() == join(rest, c).last());
    }
}

proof fn lemma_join_nonempty(parts: Seq<Seq<char>>, c: char)
    requires
        parts.len() > 0,
        parts[0].len() > 0,
    ensures
        join(parts, c).len() > 0,
{
}

/// The session a record's text reads back as.
pub open spec fn record_session(r: SessionRecord) -> SessionModel {
    SessionModel {
        center_x: r.center_x,
        center_y: r.center_y,
        zooms: seq![r.zoom@],
        tool: r.tool,
        grid_visible: r.grid_visible,
        snap_enabled: r.snap_enabled,
        grid_step: r.grid_step,
        theme: Some(r.theme@),
        ui_density: Some(r.ui_density@),
        reduced_motion: r.reduced_motion,
        hidden_layers: r.hidden_layers@,
        tour_seen: r.tour_seen,
    }
}

proof fn lemma_trim_end_keeps(s: Seq<char>, i: int)
    requires
        0 <= i < s.len(),
        !is_ws(s[i]),
    ensures
        crate::text::trim_end(s).len() > i,
    decreases s.len(),
{
    if is_ws(s.last()) {
        lemma_trim_end_keeps(s.drop_last(), i);
    }
}

proof fn lemma_from_take(start: SessionModel, ls: Seq<Seq<char>>, k: int)
    requires
        0 <= k < ls.len(),
    ensures
        session_from(start, ls.take(k + 1)) == session_step(session_from(start, ls.take(k)), ls[k]),
{
    assert(ls.take(k + 1).drop_last() =~= ls.take(k));
}

proof fn lemma_line_step(m: SessionModel, key: Seq<char>, v: Seq<char>)
    requires
        key.len() > 0,
        forall|k: int| 0 <= k < key.len() ==> #[trigger] key[k] != '=' && !is_ws(key[k]),
        clean_text(v),
    ensures
        session_step(m, line(key, v)) == session_set(m, key, v),
{
    lemma_key_line(key, v);
}

proof fn lemma_reveal_keys()
    ensures
        "center_x"@ == seq!['c', 'e', 'n', 't', 'e', 'r', '_', 'x'],
        "center_y"@ == seq!['c', 'e', 'n', 't', 'e', 'r', '_', 'y'],
        "ppd"@ == seq!['p', 'p', 'd'],
        "tool"@ == seq!['t', 'o', 'o', 'l'],
        "grid_visible"@ == seq!['g', 'r', 'i', 'd', '_', 'v', 'i', 's', 'i', 'b', 'l', 'e'],
        "snap"@ == seq!['s', 'n', 'a', 'p'],
        "grid_step"@ == seq!['g', 'r', 'i', 'd', '_', 's', 't', 'e', 'p'],
        "theme"@ == seq!['t', 'h', 'e', 'm', 'e'],
        "ui_density"@ == seq!['u', 'i', '_', 'd', 'e', 'n', 's', 'i', 't', 'y'],
        "reduced_motion"@ == seq!['r', 'e', 'd', 'u', 'c', 'e', 'd', '_', 'm', 'o', 't', 'i', 'o', 'n'],
        "hidden"@ == seq!['h', 'i', 'd', 'd', 'e', 'n'],
        "tour_seen"@ == seq!['t', 'o', 'u', 'r', '_', 's', 'e', 'e', 'n'],
{
    reveal_strlit("center_x");
    reveal_strlit("center_y");
    reveal_strlit("ppd");
    reveal_strlit("tool");
    reveal_strlit("grid_visible");
    reveal_strlit("snap");
    reveal_strlit("grid_step");
    reveal_strlit("theme");
    reveal_strlit("ui_density");
    reveal_strlit("reduced_motion");
    reveal_strlit("hidden");
    reveal_strlit("tour_seen");
}

/// The keys of a session file, in the order they are written.
pub open spec fn session_keys() -> Seq<Seq<char>> {
    seq![
        "center_x"@,
        "center_y"@,
        "ppd"@,
        "tool"@,
        "grid_visible"@,
        "snap"@,
        "grid_step"@,
        "theme"@,
        "ui_density"@,
        "reduced_motion"@,
        "hidden"@,
        "tour_seen"@,
    ]
}

/// The values of a record's lines, in the order they are written.
pub open spec fn record_values(r: SessionRecord) -> Seq<Seq<char>> {
    seq![
        signed_decimal(r.center_x as int),
        signed_decimal(r.center_y as int),
        r.zoom@,
        tool_tag_of(r.tool),
        bool_text(r.grid_visible),
        bool_text(r.snap_enabled),
        signed_decimal(r.grid_step as int),
        r.theme@,
        r.ui_density@,
        bool_text(r.reduced_motion),
        join(layer_items(r.hidden_layers@), ','),
        bool_text(r.tour_seen),
    ]
}

proof fn lemma_keys_plain()
    ensures
        forall|i: int| 0 <= i < 12 ==> (#[trigger] session_keys()[i]).len() > 0,
        forall|i: int, k: int|
            0 <= i < 12 && 0 <= k < session_keys()[i].len() ==> #[trigger] session_keys()[i][k]
                != '=' && !is_ws(session_keys()[i][k]) && session_keys()[i][k] != '\n',
{
    lemma_reveal_keys();
    let keys = session_keys();
    assert forall|i: int, k: int| 0 <= i < 12 && 0 <= k < keys[i].len() implies #[trigger] keys[i][k]
        != '=' && !is_ws(keys[i][k]) && keys[i][k] != '\n' by {
        assert('a' <= keys[i][k] <= 'z' || keys[i][k] == '_');
    }
}

proof fn lemma_values_clean(r: SessionRecord)
    requires
        clean_text(r.zoom@),
        clean_text(r.theme@),
        clean_text(r.ui_density@),
    ensures
        forall|i: int| 0 <= i < 12 ==> clean_text(#[trigger] record_values(r)[i]),
{
    lemma_signed_decimal_i32(r.center_x);
    lemma_signed_decimal_i32(r.center_y);
    lemma_signed_decimal_i32(r.grid_step);
    lemma_tool_tag(r.tool);
    lemma_bool_text(r.grid_visible);
    lemma_bool_text(r.snap_enabled);
    lemma_bool_text(r.reduced_motion);
    lemma_bool_text(r.tour_seen);
    lemma_layers_line(r.hidden_layers@);
}

/// A record's text splits back into its lines plus the empty piece after the
/// final line break, and is not blank.
#[verifier::spinoff_prover]
proof fn lemma_session_lines(r: SessionRecord)
    requires
        clean_text(r.zoom@),
        clean_text(r.theme@),
        clean_text(r.ui_density@),
    ensures
        split(spec_session_text(r), '\n') == record_lines(r).push(Seq::<char>::empty()),
        trim(spec_session_text(r)).len() > 0,
        forall|i: int| 0 <= i < 12 ==> #[trigger] record_lines(r)[i] == line(session_keys()[i], record_values(r)[i]),
{
    reveal_strlit("=");
    lemma_keys_plain();
    lemma_values_clean(r);
    let keys = session_keys();
    let values = record_values(r);
    let body = record_lines(r);
    let ls = body.push(Seq::<char>::empty());
    let text = spec_session_text(r);
    assert forall|i: int| 0 <= i < 12 implies #[trigger] body[i] == line(keys[i], values[i]) by {}
    assert forall|i: int, k: int| 0 <= i < ls.len() && 0 <= k < ls[i].len() implies #[trigger] ls[i][k]
        != '\n' by {
        if i < 12 {
            let key = keys[i];
            let v = values[i];
            assert(ls[i] == line(key, v));
            assert(line(key, v) =~= key + seq!['='] + v);
            assert(clean_text(values[i]));
            if k < key.len() {
                assert(ls[i][k] == key[k]);
            } else if k > key.len() {
                assert(ls[i][k] == v[k - key.len() - 1]);
            }
        }
    }
    lemma_split_join(ls, '\n');
    lemma_reveal_keys();
    assert(ls[0] == line(keys[0], values[0]));
    assert(ls[0] =~= keys[0] + seq!['='] + values[0]);
    assert(ls[0][0] == 'c');
    assert(text[0] == 'c');
    assert(crate::text::trim_start(text) == text);
    lemma_trim_end_keeps(text, 0);
}

/// The first six lines set the center, the zoom, the tool and the grid and
/// snap switches.
#[verifier::spinoff_prover]
proof fn lemma_session_first_lines(r: SessionRecord, ls: Seq<Seq<char>>)
    requires
        clean_text(r.zoom@),
        clean_text(r.theme@),
        clean_text(r.ui_density@),
        ls.len() == 13,
        forall|i: int| 0 <= i < 12 ==> #[trigger] ls[i] == line(session_keys()[i], record_values(r)[i]),
    ensures
        session_from(default_session(), ls.take(6)) == (SessionModel {
            center_x: r.center_x,
            center_y: r.center_y,
            zooms: seq![r.zoom@],
            tool: r.tool,
            grid_visible: r.grid_visible,
            snap_enabled: r.snap_enabled,
            ..default_session()
        }),
{
    lemma_reveal_keys();
    lemma_keys_plain();
    lemma_values_clean(r);
    lemma_signed_decimal_i32(r.center_x);
    lemma_signed_decimal_i32(r.center_y);
    lemma_tool_tag(r.tool);
    lemma_bool_text(r.grid_visible);
    lemma_bool_text(r.snap_enabled);
    let keys = session_keys();
    let values = record_values(r);
    let d = default_session();
    assert(ls.take(0) =~= Seq::<Seq<char>>::empty());
    lemma_from_take(d, ls, 0);
    lemma_line_step(d, keys[0], values[0]);
    let m1 = SessionModel { center_x: r.center_x, ..d };
    assert(session_from(d, ls.take(1)) == m1);
    lemma_from_take(d, ls, 1);
    lemma_line_step(m1, keys[1], values[1]);
    assert(keys[1][7] != keys[0][7]);
    let m2 = SessionModel { center_y: r.center_y, ..m1 };
    assert(session_from(d, ls.take(2)) == m2);
    lemma_from_take(d, ls, 2);
    lemma_line_step(m2, keys[2], values[2]);
    let m3 = SessionModel { zooms: seq![r.zoom@], ..m2 };
    assert(Seq::<Seq<char>>::empty().push(r.zoom@) =~= seq![r.zoom@]);
    assert(session_from(d, ls.take(3)) == m3);
    lemma_from_take(d, ls, 3);
    lemma_line_step(m3, keys[3], values[3]);
    let m4 = SessionModel { tool: r.tool, ..m3 };
    assert(session_from(d, ls.take(4)) == m4);
    lemma_from_take(d, ls, 4);
    lemma_line_step(m4, keys[4], values[4]);
    let m5 = SessionModel { grid_visible: r.grid_visible, ..m4 };
    assert(session_from(d, ls.take(5)) == m5);
    lemma_from_take(d, ls, 5);
    lemma_line_step(m5, keys[5], values[5]);
    assert(keys[5][0] != keys[3][0]);
}

/// The last six lines set the grid step, the theme and density tags, the
/// reduced-motion flag, the hidden layers and the tour flag; the empty piece
/// after the final line break changes nothing.
#[verifier::spinoff_prover]
proof fn lemma_session_last_lines(r: SessionRecord, ls: Seq<Seq<char>>)
    requires
        clean_text(r.zoom@),
        clean_text(r.theme@),
        clean_text(r.ui_density@),
        ls.len() == 13,
        forall|i: int| 0 <= i < 12 ==> #[trigger] ls[i] == line(session_keys()[i], record_values(r)[i]),
        ls[12] == Seq::<char>::empty(),
        session_from(default_session(), ls.take(6)) == (SessionModel {
            center_x: r.center_x,
            center_y: r.center_y,
            zooms: seq![r.zoom@],
            tool: r.tool,
            grid_visible: r.grid_visible,
            snap_enabled: r.snap_enabled,
            ..default_session()
        }),
    ensures
        session_from(default_session(), ls) == record_session(r),
{
    lemma_reveal_keys();
    lemma_keys_plain();
    lemma_values_clean(r);
    lemma_signed_decimal_i32(r.grid_step);
    lemma_bool_text(r.reduced_motion);
    lemma_bool_text(r.tour_seen);
    lemma_layers_line(r.hidden_layers@);
    let keys = session_keys();
    let values = record_values(r);
    let d = default_session();
    let m6 = session_from(d, ls.take(6));
    lemma_from_take(d, ls, 6);
    lemma_line_step(m6, keys[6], values[6]);
    let m7 = SessionModel { grid_step: r.grid_step, ..m6 };
    assert(session_from(d, ls.take(7)) == m7);
    lemma_from_take(d, ls, 7);
    lemma_line_step(m7, keys[7], values[7]);
    let m8 = SessionModel { theme: Some(r.theme@), ..m7 };
    assert(session_from(d, ls.take(8)) == m8);
    lemma_from_take(d, ls, 8);
    lemma_line_step(m8, keys[8], values[8]);
    let m9 = SessionModel { ui_density: Some(r.ui_density@), ..m8 };
    assert(session_from(d, ls.take(9)) == m9);
    lemma_from_take(d, ls, 9);
    lemma_line_step(m9, keys[9], values[9]);
    let m10 = SessionModel { reduced_motion: r.reduced_motion, ..m9 };
    assert(session_from(d, ls.take(10)) == m10);
    lemma_from_take(d, ls, 10);
    lemma_line_step(m10, keys[10], values[10]);
    let m11 = SessionModel { hidden_layers: r.hidden_layers@, ..m10 };
    assert(session_from(d, ls.take(11)) == m11);
    lemma_from_take(d, ls, 11);
    lemma_line_step(m11, keys[11], values[11]);
    assert(keys[11][0] != keys[6][0]);
    let m12 = SessionModel { tour_seen: r.tour_seen, ..m11 };
    assert(session_from(d, ls.take(12)) == m12);
    lemma_from_take(d, ls, 12);
    assert(split_once(Seq::<char>::empty(), '=') is None);
    assert(ls.take(13) =~= ls);
    assert(m12 == record_session(r));
}

/// A session's text reads back as the session it was written from, for every
/// record whose zoom, theme and density texts are clean (one line, no
/// surrounding whitespace).
pub proof fn lemma_session_round_trip(r: SessionRecord)
    requires
        clean_text(r.zoom@),
        clean_text(r.theme@),
        clean_text(r.ui_density@),
    ensures
        spec_parse_session(spec_session_text(r)) == Some(record_session(r)),
{
    let ls = record_lines(r).push(Seq::<char>::empty());
    lemma_session_lines(r);
    assert forall|i: int| 0 <= i < 12 implies #[trigger] ls[i] == line(session_keys()[i], record_values(r)[i]) by {
        assert(ls[i] == record_lines(r)[i]);
    }
    lemma_session_first_lines(r, ls);
    lemma_session_last_lines(r, ls);
}

} // verus!
