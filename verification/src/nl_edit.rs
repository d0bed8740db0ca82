//! The natural-language edit command bar's deterministic grammar parser.
//!
//! Four forms, matched case-insensitively on whitespace-separated tokens:
//! `add rect <layer> <x0> <y0> <x1> <y1>`, `delete selected`,
//! `array <cols>x<rows> pitch <px> <py>`, and `move <dx> <dy>`. Anything else is
//! rejected with an [`NlEditError`] naming the problem; [`parse`] never panics.
use vstd::prelude::*;
use crate::edit::{Edit, EditModel};
use crate::geom::{copy_shape, rect_of, DrawShape, KindModel, LayerId, Point, Rect, ShapeKind, ShapeModel};
use crate::productivity::{
    array_element_count, array_shapes, arrayed_shape, translate_shape, translated,
    MAX_ARRAY_ELEMENTS,
};
use crate::text::{
    chars_eq_str, chars_of, extend_chars, extend_str, lower, lower_chars, parse_signed,
    parse_signed_chars, parse_unsigned, parse_unsigned_chars, push_decimal, decimal,
    split_once, split_once_chars, string_of, words, words_chars,
};

verus! {

/// A short, human-readable summary of the supported grammar.
pub const GRAMMAR_HELP: &'static str = "add rect <layer> <x0> <y0> <x1> <y1> | delete selected | array <cols>x<rows> pitch <px> <py> | move <dx> <dy>";

/// A parsed, fully validated natural-language edit instruction.
#[derive(Clone, Copy, PartialEq, Eq, Debug, Structural)]
pub enum NlInstruction {
    /// Append a rectangle to the top cell.
    AddRect {
        /// The layer (and datatype) the rectangle is drawn on.
        layer: LayerId,
        /// The rectangle, normalized and non-degenerate.
        rect: Rect,
    },
    /// Remove every directly-owned selected shape.
    DeleteSelected,
    /// Stamp the selection into a grid.
    Array {
        /// Column count, at least 1.
        cols: u32,
        /// Row count, at least 1.
        rows: u32,
        /// Column pitch in DBU.
        pitch_x: i32,
        /// Row pitch in DBU.
        pitch_y: i32,
    },
    /// Translate every directly-owned selected shape.
    Move {
        /// X offset in DBU.
        dx: i32,
        /// Y offset in DBU.
        dy: i32,
    },
}

/// Why a natural-language instruction was rejected.
#[derive(Clone, PartialEq, Eq, Debug)]
pub enum NlEditError {
    /// The input was empty or all whitespace.
    Empty,
    /// The first word did not name any known instruction.
    UnknownVerb {
        /// The unrecognized leading word, as typed.
        verb: String,
    },
    /// The rest of the instruction did not match its grammar.
    Malformed {
        /// Which grammar form was being parsed.
        form: &'static str,
        /// A human-readable reason.
        reason: String,
    },
    /// A value violates a hard constraint.
    OutOfRange {
        /// Which grammar form was being validated.
        form: &'static str,
        /// A human-readable reason.
        reason: String,
    },
}

/// An error with its texts as character sequences.
pub enum NlErrorModel {
    /// Blank input.
    Empty,
    /// An unknown leading word.
    UnknownVerb(Seq<char>),
    /// A grammar mismatch: `(form, reason)`.
    Malformed(Seq<char>, Seq<char>),
    /// A violated constraint: `(form, reason)`.
    OutOfRange(Seq<char>, Seq<char>),
}

impl View for NlEditError {
    type V = NlErrorModel;

    open spec fn view(&self) -> NlErrorModel {
        match self {
            NlEditError::Empty => NlErrorModel::Empty,
            NlEditError::UnknownVerb { verb } => NlErrorModel::UnknownVerb(verb@),
            NlEditError::Malformed { form, reason } => NlErrorModel::Malformed(form@, reason@),
            NlEditError::OutOfRange { form, reason } => NlErrorModel::OutOfRange(form@, reason@),
        }
    }
}

/// The human-readable message for an error.
pub open spec fn nl_error_message(e: NlErrorModel) -> Seq<char> {
    match e {
        NlErrorModel::Empty =>
            "type an instruction, e.g. `add rect 4 0 0 1000 500`, `delete selected`, `array 3x4 pitch 1000 1000`, or `move 100 -50`"@,
        NlErrorModel::UnknownVerb(verb) => "unknown instruction `"@ + verb
            + "`; try `add rect`, `delete selected`, `array`, or `move`"@,
        NlErrorModel::Malformed(form, reason) => form + ": "@ + reason,
        NlErrorModel::OutOfRange(form, reason) => form + ": "@ + reason,
    }
}

impl NlEditError {
    /// The message shown to the user for this error.
    pub fn message(&self) -> (r: String)
        ensures
            r@ == nl_error_message(self@),
    {
        let mut out: Vec<char> = Vec::new();
        match self {
            NlEditError::Empty => extend_str(
                &mut out,
                "type an instruction, e.g. `add rect 4 0 0 1000 500`, `delete selected`, `array 3x4 pitch 1000 1000`, or `move 100 -50`",
            ),
            NlEditError::UnknownVerb { verb } => {
                extend_str(&mut out, "unknown instruction `");
                extend_str(&mut out, verb.as_str());
                extend_str(&mut out, "`; try `add rect`, `delete selected`, `array`, or `move`");
            },
            NlEditError::Malformed { form, reason } | NlEditError::OutOfRange { form, reason } => {
                extend_str(&mut out, form);
                extend_str(&mut out, ": ");
                extend_str(&mut out, reason.as_str());
            },
        }
        string_of(&out)
    }
}

/// The reason text for a token that is not a whole number.
pub open spec fn not_whole(token: Seq<char>) -> Seq<char> {
    "`"@ + token + "` is not a whole number"@
}

/// A DBU integer token (`i32`), or the malformed error for `form`.
pub open spec fn spec_dbu(token: Seq<char>, form: Seq<char>) -> Result<int, NlErrorModel> {
    match parse_signed(token, -0x8000_0000, 0x7fff_ffff) {
        Some(v) => Ok(v),
        None => Err(NlErrorModel::Malformed(form, not_whole(token))),
    }
}

/// A layer token: `L` (datatype 0) or `L/D`, each a `u16`.
pub open spec fn spec_layer(token: Seq<char>) -> Result<LayerId, NlErrorModel> {
    let (l, d) = match split_once(token, '/') {
        Some((a, b)) => (a, b),
        None => (token, "0"@),
    };
    match (parse_unsigned(l, 65535), parse_unsigned(d, 65535)) {
        (Some(a), Some(b)) => Ok(LayerId { layer: a as u16, datatype: b as u16 }),
        _ => Err(
            NlErrorModel::Malformed(
                "add rect"@,
                "`"@ + token
                    + "` is not a valid layer (expected a layer number or layer/datatype, e.g. `4` or `4/2`)"@,
            ),
        ),
    }
}

/// A `<cols>x<rows>` token, case-insensitive on the separator.
pub open spec fn spec_cols_by_rows(token: Seq<char>) -> Result<(u32, u32), NlErrorModel> {
    let bad = NlErrorModel::Malformed(
        "array"@,
        "`"@ + token + "` is not `<cols>x<rows>` (e.g. `3x4`)"@,
    );
    match split_once(lower(token), 'x') {
        Some((c, r)) => match (parse_unsigned(c, 0xffff_ffff), parse_unsigned(r, 0xffff_ffff)) {
            (Some(a), Some(b)) => Ok((a as u32, b as u32)),
            _ => Err(bad),
        },
        None => Err(bad),
    }
}

/// The reason an array past the element cap is refused.
pub open spec fn cap_reason(count: nat) -> Seq<char> {
    decimal(count) + " elements exceeds the "@ + decimal(MAX_ARRAY_ELEMENTS as nat) + " cap"@
}

/// `add rect <layer> <x0> <y0> <x1> <y1>` (tokens include the verb).
pub open spec fn spec_add_rect(ts: Seq<Seq<char>>) -> Result<NlInstruction, NlErrorModel> {
    if ts.len() != 7 || lower(ts[1]) != "rect"@ {
        Err(
            NlErrorModel::Malformed(
                "add rect"@,
                "expected `add rect <layer> <x0> <y0> <x1> <y1>`"@,
            ),
        )
    } else {
        match spec_layer(ts[2]) {
            Err(e) => Err(e),
            Ok(layer) => match spec_dbu(ts[3], "add rect"@) {
                Err(e) => Err(e),
                Ok(x0) => match spec_dbu(ts[4], "add rect"@) {
                    Err(e) => Err(e),
                    Ok(y0) => match spec_dbu(ts[5], "add rect"@) {
                        Err(e) => Err(e),
                        Ok(x1) => match spec_dbu(ts[6], "add rect"@) {
                            Err(e) => Err(e),
                            Ok(y1) => if x0 == x1 || y0 == y1 {
                                Err(
                                    NlErrorModel::OutOfRange(
                                        "add rect"@,
                                        "the rectangle must have positive width and height (x0 must not equal x1, y0 must not equal y1)"@,
                                    ),
                                )
                            } else {
                                Ok(
                                    NlInstruction::AddRect {
                                        layer,
                                        rect: rect_of(
                                            Point { x: x0 as i32, y: y0 as i32 },
                                            Point { x: x1 as i32, y: y1 as i32 },
                                        ),
                                    },
                                )
                            },
                        },
                    },
                },
            },
        }
    }
}

/// `delete selected` (tokens include the verb).
pub open spec fn spec_delete(ts: Seq<Seq<char>>) -> Result<NlInstruction, NlErrorModel> {
    if ts.len() != 2 || lower(ts[1]) != "selected"@ {
        Err(NlErrorModel::Malformed("delete selected"@, "expected `delete selected`"@))
    } else {
        Ok(NlInstruction::DeleteSelected)
    }
}

/// `array <cols>x<rows> pitch <px> <py>` (tokens include the verb).
pub open spec fn spec_array(ts: Seq<Seq<char>>) -> Result<NlInstruction, NlErrorModel> {
    if ts.len() != 5 || lower(ts[2]) != "pitch"@ {
        Err(
            NlErrorModel::Malformed(
                "array"@,
                "expected `array <cols>x<rows> pitch <px> <py>`"@,
            ),
        )
    } else {
        match spec_cols_by_rows(ts[1]) {
            Err(e) => Err(e),
            Ok((cols, rows)) => match spec_dbu(ts[3], "array"@) {
                Err(e) => Err(e),
                Ok(px) => match spec_dbu(ts[4], "array"@) {
                    Err(e) => Err(e),
                    Ok(py) => if cols == 0 || rows == 0 {
                        Err(
                            NlErrorModel::OutOfRange(
                                "array"@,
                                "columns and rows must each be at least 1"@,
                            ),
                        )
                    } else if rows * cols > MAX_ARRAY_ELEMENTS {
                        Err(NlErrorModel::OutOfRange("array"@, cap_reason((rows * cols) as nat)))
                    } else {
                        Ok(
                            NlInstruction::Array {
                                cols,
                                rows,
                                pitch_x: px as i32,
                                pitch_y: py as i32,
                            },
                        )
                    },
                },
            },
        }
    }
}

/// `move <dx> <dy>` (tokens include the verb).
pub open spec fn spec_move(ts: Seq<Seq<char>>) -> Result<NlInstruction, NlErrorModel> {
    if ts.len() != 3 {
        Err(NlErrorModel::Malformed("move"@, "expected `move <dx> <dy>`"@))
    } else {
        match spec_dbu(ts[1], "move"@) {
            Err(e) => Err(e),
            Ok(dx) => match spec_dbu(ts[2], "move"@) {
                Err(e) => Err(e),
                Ok(dy) => Ok(NlInstruction::Move { dx: dx as i32, dy: dy as i32 }),
            },
        }
    }
}

/// What [`parse`] makes of `input`.
pub open spec fn spec_parse(input: Seq<char>) -> Result<NlInstruction, NlErrorModel> {
    let ts = words(input);
    if ts.len() == 0 {
        Err(NlErrorModel::Empty)
    } else if lower(ts[0]) == "add"@ {
        spec_add_rect(ts)
    } else if lower(ts[0]) == "delete"@ {
        spec_delete(ts)
    } else if lower(ts[0]) == "array"@ {
        spec_array(ts)
    } else if lower(ts[0]) == "move"@ {
        spec_move(ts)
    } else {
        Err(NlErrorModel::UnknownVerb(ts[0]))
    }
}

fn malformed(form: &'static str, reason: Vec<char>) -> (r: NlEditError)
    ensures
        r@ == NlErrorModel::Malformed(form@, reason@),
{
    NlEditError::Malformed { form, reason: string_of(&reason) }
}

fn out_of_range(form: &'static str, reason: Vec<char>) -> (r: NlEditError)
    ensures
        r@ == NlErrorModel::OutOfRange(form@, reason@),
{
    NlEditError::OutOfRange { form, reason: string_of(&reason) }
}

fn text(s: &str) -> (r: Vec<char>)
    ensures
        r@ == s@,
{
    chars_of(s)
}

fn parse_dbu(token: &[char], form: &'static str) -> (r: Result<i32, NlEditError>)
    ensures
        match r {
            Ok(v) => spec_dbu(token@, form@) == Ok::<int, NlErrorModel>(v as int),
            Err(e) => spec_dbu(token@, form@) == Err::<int, _>(e@),
        },
{
    match parse_signed_chars(token, 0x8000_0000, 0x7fff_ffff) {
        Some(v) => Ok(v as i32),
        None => {
            let mut reason = text("`");
            extend_chars(&mut reason, token);
            extend_str(&mut reason, "` is not a whole number");
            Err(malformed(form, reason))
        },
    }
}

fn parse_layer(token: &[char]) -> (r: Result<LayerId, NlEditError>)
    ensures
        match r {
            Ok(v) => spec_layer(token@) == Ok::<_, NlErrorModel>(v),
            Err(e) => spec_layer(token@) == Err::<LayerId, _>(e@),
        },
{
    let (l, d) = match split_once_chars(token, '/') {
        Some((a, b)) => (a, b),
        None => (crate::text::slice_chars(token, 0, token.len()), text("0")),
    };
    assert(token@.subrange(0, token@.len() as int) =~= token@);
    match (parse_unsigned_chars(&l, 65535), parse_unsigned_chars(&d, 65535)) {
        (Some(a), Some(b)) => Ok(LayerId { layer: a as u16, datatype: b as u16 }),
        _ => {
            let mut reason = text("`");
            extend_chars(&mut reason, token);
            extend_str(
                &mut reason,
                "` is not a valid layer (expected a layer number or layer/datatype, e.g. `4` or `4/2`)",
            );
            Err(malformed("add rect", reason))
        },
    }
}

/// Parses a `<cols>x<rows>` token (for example `3x4`), case-insensitive on the
/// separator.
pub fn parse_cols_by_rows(token: &str) -> (r: Result<(u32, u32), NlEditError>)
    ensures
        match r {
            Ok(v) => spec_cols_by_rows(token@) == Ok::<_, NlErrorModel>(v),
            Err(e) => spec_cols_by_rows(token@) == Err::<(u32, u32), _>(e@),
        },
{
    let tv = chars_of(token);
    cols_by_rows_chars(&tv)
}

fn cols_by_rows_chars(token: &[char]) -> (r: Result<(u32, u32), NlEditError>)
    ensures
        match r {
            Ok(v) => spec_cols_by_rows(token@) == Ok::<_, NlErrorModel>(v),
            Err(e) => spec_cols_by_rows(token@) == Err::<(u32, u32), _>(e@),
        },
{
    let mut reason = text("`");
    extend_chars(&mut reason, token);
    extend_str(&mut reason, "` is not `<cols>x<rows>` (e.g. `3x4`)");
    let l = lower_chars(token);
    match split_once_chars(&l, 'x') {
        Some((c, r)) => match (
            parse_unsigned_chars(&c, 0xffff_ffff),
            parse_unsigned_chars(&r, 0xffff_ffff),
        ) {
            (Some(a), Some(b)) => Ok((a as u32, b as u32)),
            _ => Err(malformed("array", reason)),
        },
        None => Err(malformed("array", reason)),
    }
}

fn is_word(t: &[char], w: &str) -> (r: bool)
    ensures
        r == (lower(t@) == w@),
{
    let l = lower_chars(t);
    chars_eq_str(&l, w)
}

fn parse_add_rect(ts: &Vec<Vec<char>>) -> (r: Result<NlInstruction, NlEditError>)
    ensures
        match r {
            Ok(v) => spec_add_rect(ts@.map_values(|t: Vec<char>| t@)) == Ok::<_, NlErrorModel>(v),
            Err(e) => spec_add_rect(ts@.map_values(|t: Vec<char>| t@)) == Err::<NlInstruction, _>(
                e@,
            ),
        },
{
    let ghost all = ts@.map_values(|t: Vec<char>| t@);
    if ts.len() != 7 || !is_word(&ts[1], "rect") {
        return Err(malformed("add rect", text("expected `add rect <layer> <x0> <y0> <x1> <y1>`")));
    }
    assert(all[1] == ts@[1]@ && all[2] == ts@[2]@ && all[3] == ts@[3]@ && all[4] == ts@[4]@
        && all[5] == ts@[5]@ && all[6] == ts@[6]@);
    let layer = match parse_layer(&ts[2]) {
        Ok(l) => l,
        Err(e) => return Err(e),
    };
    let x0 = match parse_dbu(&ts[3], "add rect") {
        Ok(v) => v,
        Err(e) => return Err(e),
    };
    let y0 = match parse_dbu(&ts[4], "add rect") {
        Ok(v) => v,
        Err(e) => return Err(e),
    };
    let x1 = match parse_dbu(&ts[5], "add rect") {
        Ok(v) => v,
        Err(e) => return Err(e),
    };
    let y1 = match parse_dbu(&ts[6], "add rect") {
        Ok(v) => v,
        Err(e) => return Err(e),
    };
    if x0 == x1 || y0 == y1 {
        return Err(
            out_of_range(
                "add rect",
                text(
                    "the rectangle must have positive width and height (x0 must not equal x1, y0 must not equal y1)",
                ),
            ),
        );
    }
    Ok(NlInstruction::AddRect { layer, rect: Rect::new(Point::new(x0, y0), Point::new(x1, y1)) })
}

fn parse_delete_selected(ts: &Vec<Vec<char>>) -> (r: Result<NlInstruction, NlEditError>)
    ensures
        match r {
            Ok(v) => spec_delete(ts@.map_values(|t: Vec<char>| t@)) == Ok::<_, NlErrorModel>(v),
            Err(e) => spec_delete(ts@.map_values(|t: Vec<char>| t@)) == Err::<NlInstruction, _>(
                e@,
            ),
        },
{
    let ghost all = ts@.map_values(|t: Vec<char>| t@);
    if ts.len() != 2 || !is_word(&ts[1], "selected") {
        return Err(malformed("delete selected", text("expected `delete selected`")));
    }
    assert(all[1] == ts@[1]@);
    Ok(NlInstruction::DeleteSelected)
}

fn parse_array(ts: &Vec<Vec<char>>) -> (r: Result<NlInstruction, NlEditError>)
    ensures
        match r {
            Ok(v) => spec_array(ts@.map_values(|t: Vec<char>| t@)) == Ok::<_, NlErrorModel>(v),
            Err(e) => spec_array(ts@.map_values(|t: Vec<char>| t@)) == Err::<NlInstruction, _>(
                e@,
            ),
        },
{
    let ghost all = ts@.map_values(|t: Vec<char>| t@);
    if ts.len() != 5 || !is_word(&ts[2], "pitch") {
        return Err(malformed("array", text("expected `array <cols>x<rows> pitch <px> <py>`")));
    }
    assert(all[1] == ts@[1]@ && all[2] == ts@[2]@ && all[3] == ts@[3]@ && all[4] == ts@[4]@);
    let (cols, rows) = match cols_by_rows_chars(&ts[1]) {
        Ok(v) => v,
        Err(e) => return Err(e),
    };
    let pitch_x = match parse_dbu(&ts[3], "array") {
        Ok(v) => v,
        Err(e) => return Err(e),
    };
    let pitch_y = match parse_dbu(&ts[4], "array") {
        Ok(v) => v,
        Err(e) => return Err(e),
    };
    if cols == 0 || rows == 0 {
        return Err(out_of_range("array", text("columns and rows must each be at least 1")));
    }
    let count = array_element_count(rows, cols);
    if count > MAX_ARRAY_ELEMENTS {
        let mut reason: Vec<char> = Vec::new();
        push_decimal(&mut reason, count);
        extend_str(&mut reason, " elements exceeds the ");
        push_decimal(&mut reason, MAX_ARRAY_ELEMENTS);
        extend_str(&mut reason, " cap");
        return Err(out_of_range("array", reason));
    }
    Ok(NlInstruction::Array { cols, rows, pitch_x, pitch_y })
}

fn parse_move(ts: &Vec<Vec<char>>) -> (r: Result<NlInstruction, NlEditError>)
    ensures
        match r {
            Ok(v) => spec_move(ts@.map_values(|t: Vec<char>| t@)) == Ok::<_, NlErrorModel>(v),
            Err(e) => spec_move(ts@.map_values(|t: Vec<char>| t@)) == Err::<NlInstruction, _>(e@),
        },
{
    let ghost all = ts@.map_values(|t: Vec<char>| t@);
    if ts.len() != 3 {
        return Err(malformed("move", text("expected `move <dx> <dy>`")));
    }
    assert(all[1] == ts@[1]@ && all[2] == ts@[2]@);
    let dx = match parse_dbu(&ts[1], "move") {
        Ok(v) => v,
        Err(e) => return Err(e),
    };
    let dy = match parse_dbu(&ts[2], "move") {
        Ok(v) => v,
        Err(e) => return Err(e),
    };
    Ok(NlInstruction::Move { dx, dy })
}

/// Parses `input` as a natural-language edit instruction: tokens split on
/// whitespace, keywords matched case-insensitively, every number range-checked
/// and every constraint (a non-degenerate rectangle, positive array dimensions,
/// the array element cap) checked, so an `Ok` result is fully validated.
pub fn parse(input: &str) -> (r: Result<NlInstruction, NlEditError>)
    ensures
        match r {
            Ok(v) => spec_parse(input@) == Ok::<_, NlErrorModel>(v),
            Err(e) => spec_parse(input@) == Err::<NlInstruction, _>(e@),
        },
{
    let v = chars_of(input);
    let ts = words_chars(&v);
    let ghost all = ts@.map_values(|t: Vec<char>| t@);
    if ts.len() == 0 {
        return Err(NlEditError::Empty);
    }
    assert(all[0] == ts@[0]@);
    if is_word(&ts[0], "add") {
        parse_add_rect(&ts)
    } else if is_word(&ts[0], "delete") {
        parse_delete_selected(&ts)
    } else if is_word(&ts[0], "array") {
        parse_array(&ts)
    } else if is_word(&ts[0], "move") {
        parse_move(&ts)
    } else {
        Err(NlEditError::UnknownVerb { verb: string_of(&ts[0]) })
    }
}

/// The edits that realize `instruction` on the cell `cell`, given the
/// directly-owned selected shapes (`(index, shape)`, index ascending) and the
/// full resolved selection, as plain values.
pub open spec fn built_edit(
    instruction: NlInstruction,
    cell: Seq<char>,
    direct: Seq<(usize, DrawShape)>,
    resolved: Seq<DrawShape>,
    k: int,
) -> EditModel {
    let n = direct.len() as int;
    match instruction {
        NlInstruction::AddRect { layer, rect } => EditModel::AddShape(
            cell,
            ShapeModel { layer, kind: KindModel::Rect(rect) },
        ),
        NlInstruction::DeleteSelected => EditModel::RemoveShape(cell, direct[n - 1 - k].0),
        NlInstruction::Move { dx, dy } => if k < n {
            EditModel::RemoveShape(cell, direct[n - 1 - k].0)
        } else {
            EditModel::AddShape(cell, translated(direct[k - n].1@, dx as int, dy as int))
        },
        NlInstruction::Array { cols, rows, pitch_x, pitch_y } => EditModel::AddShape(
            cell,
            arrayed_shape(resolved, k, cols as int, pitch_y, pitch_x),
        ),
    }
}

/// How many edits realize `instruction` for a selection of `direct` owned and
/// `resolved` total shapes.
pub open spec fn built_len(instruction: NlInstruction, direct: int, resolved: int) -> int {
    match instruction {
        NlInstruction::AddRect { .. } => 1,
        NlInstruction::DeleteSelected => direct,
        NlInstruction::Move { .. } => 2 * direct,
        NlInstruction::Array { cols, rows, .. } => rows * cols * resolved,
    }
}

/// Turns a validated instruction into the document edits that realize it on
/// the cell `top_cell`, in application order: `AddRect` appends one
/// rectangle; `DeleteSelected` removes the directly-owned selected shapes,
/// highest index first; `Move` removes them the same way and then re-adds
/// each translated copy in selection order; `Array` stamps the resolved
/// selection into the grid (columns at `pitch_x`, rows at `pitch_y`). An empty
/// selection gives no edits for the last three.
pub fn build_edits(
    instruction: &NlInstruction,
    top_cell: &str,
    selected_direct: &[(usize, DrawShape)],
    selected_resolved: &[DrawShape],
) -> (r: Vec<Edit>)
    requires
        selected_direct.len() * 2 <= usize::MAX,
        *instruction matches NlInstruction::Array { cols, rows, .. } ==> rows * cols
            * selected_resolved.len() <= usize::MAX,
    ensures
        r.len() == built_len(*instruction, selected_direct.len() as int, selected_resolved.len() as int),
        forall|k: int|
            0 <= k < r.len() ==> #[trigger] r@[k]@ == built_edit(
                *instruction,
                top_cell@,
                selected_direct@,
                selected_resolved@,
                k,
            ),
{
    let n = selected_direct.len();
    match instruction {
        NlInstruction::AddRect { layer, rect } => {
            let mut edits: Vec<Edit> = Vec::new();
            edits.push(
                Edit::AddShape {
                    cell: top_cell.to_owned(),
                    shape: DrawShape::new(*layer, ShapeKind::Rect(*rect)),
                },
            );
            edits
        },
        NlInstruction::DeleteSelected => {
            let mut edits: Vec<Edit> = Vec::new();
            let mut i: usize = n;
            while i > 0
                invariant
                    n == selected_direct.len(),
                    i <= n,
                    edits.len() == n - i,
                    *instruction == NlInstruction::DeleteSelected,
                    forall|k: int|
                        0 <= k < edits.len() ==> #[trigger] edits@[k]@ == built_edit(
                            *instruction,
                            top_cell@,
                            selected_direct@,
                            selected_resolved@,
                            k,
                        ),
                decreases i,
            {
                i = i - 1;
                edits.push(Edit::RemoveShape { cell: top_cell.to_owned(), index: selected_direct[i].0 });
            }
            edits
        },
        NlInstruction::Move { dx, dy } => {
            let mut edits: Vec<Edit> = Vec::new();
            let mut i: usize = n;
            while i > 0
                invariant
                    n == selected_direct.len(),
                    n * 2 <= usize::MAX,
                    i <= n,
                    edits.len() == n - i,
                    *instruction == (NlInstruction::Move { dx: *dx, dy: *dy }),
                    forall|k: int|
                        0 <= k < edits.len() ==> #[trigger] edits@[k]@ == built_edit(
                            *instruction,
                            top_cell@,
                            selected_direct@,
                            selected_resolved@,
                            k,
                        ),
                decreases i,
            {
                i = i - 1;
                edits.push(Edit::RemoveShape { cell: top_cell.to_owned(), index: selected_direct[i].0 });
            }
            let mut j: usize = 0;
            while j < n
                invariant
                    n == selected_direct.len(),
                    n * 2 <= usize::MAX,
                    j <= n,
                    edits.len() == n + j,
                    *instruction == (NlInstruction::Move { dx: *dx, dy: *dy }),
                    forall|k: int|
                        0 <= k < edits.len() ==> #[trigger] edits@[k]@ == built_edit(
                            *instruction,
                            top_cell@,
                            selected_direct@,
                            selected_resolved@,
                            k,
                        ),
                decreases n - j,
            {
                edits.push(
                    Edit::AddShape {
                        cell: top_cell.to_owned(),
                        shape: translate_shape(&selected_direct[j].1, *dx, *dy),
                    },
                );
                j = j + 1;
            }
            edits
        },
        NlInstruction::Array { cols, rows, pitch_x, pitch_y } => {
            let shapes = array_shapes(selected_resolved, *rows, *cols, *pitch_y, *pitch_x);
            let mut edits: Vec<Edit> = Vec::new();
            let mut i: usize = 0;
            while i < shapes.len()
                invariant
                    i <= shapes.len(),
                    shapes.len() == *rows * *cols * selected_resolved.len(),
                    edits.len() == i,
                    *instruction == (NlInstruction::Array {
                        cols: *cols,
                        rows: *rows,
                        pitch_x: *pitch_x,
                        pitch_y: *pitch_y,
                    }),
                    forall|k: int|
                        0 <= k < shapes.len() ==> #[trigger] shapes@[k]@ == arrayed_shape(
                            selected_resolved@,
                            k,
                            *cols as int,
                            *pitch_y,
                            *pitch_x,
                        ),
                    forall|k: int|
                        0 <= k < edits.len() ==> #[trigger] edits@[k]@ == built_edit(
                            *instruction,
                            top_cell@,
                            selected_direct@,
                            selected_resolved@,
                            k,
                        ),
                decreases shapes.len() - i,
            {
                edits.push(Edit::AddShape { cell: top_cell.to_owned(), shape: copy_shape(&shapes[i]) });
                i = i + 1;
            }
            edits
        },
    }
}

/// Whether an instruction meets the grammar's hard constraints: a rectangle
/// with positive width and height, an array of at least one column and one
/// row and at most [`MAX_ARRAY_ELEMENTS`] elements.
pub open spec fn instruction_valid(instruction: NlInstruction) -> bool {
    match instruction {
        NlInstruction::AddRect { rect, .. } => rect.min.x < rect.max.x && rect.min.y < rect.max.y,
        NlInstruction::Array { cols, rows, .. } => 1 <= cols && 1 <= rows && rows * cols
            <= MAX_ARRAY_ELEMENTS,
        _ => true,
    }
}

/// Every instruction the parser accepts is already fully validated.
pub proof fn lemma_parsed_instruction_valid(input: Seq<char>)
    ensures
        spec_parse(input) matches Ok(i) ==> instruction_valid(i),
{
    let ts = words(input);
    if ts.len() == 7 {
        match (
            parse_signed(ts[3], -0x8000_0000, 0x7fff_ffff),
            parse_signed(ts[4], -0x8000_0000, 0x7fff_ffff),
            parse_signed(ts[5], -0x8000_0000, 0x7fff_ffff),
            parse_signed(ts[6], -0x8000_0000, 0x7fff_ffff),
        ) {
            (Some(x0), Some(y0), Some(x1), Some(y1)) => {
                assert(-0x8000_0000 <= x0 <= 0x7fff_ffff);
                assert(-0x8000_0000 <= y0 <= 0x7fff_ffff);
                assert(-0x8000_0000 <= x1 <= 0x7fff_ffff);
                assert(-0x8000_0000 <= y1 <= 0x7fff_ffff);
            },
            _ => {},
        }
    }
}

} // verus!
