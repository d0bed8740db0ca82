//! The document-open seam's own logic: the format a file name names, which
//! reader a `.oas`/`.oasis` stream goes to (decided by its content, not its
//! name), and the errors a failed open reports.
use vstd::prelude::*;
use crate::text::{chars_eq_str, chars_of, extend_str, lower, lower_chars, split, split_chars, string_of};

verus! {

/// The layout file format to interpret bytes as.
#[derive(Clone, Copy, PartialEq, Eq, Debug, Structural)]
pub enum DocFormat {
    /// GDSII binary stream.
    Gds,
    /// A `.oas`/`.oasis` stream: the in-house container or a conformant
    /// (SEMI P39) OASIS stream, told apart by content.
    Oasis,
    /// CIF (Caltech Intermediate Format).
    Cif,
    /// DXF (Drawing Exchange Format).
    Dxf,
}

/// The label of a format.
pub open spec fn format_label(f: DocFormat) -> Seq<char> {
    match f {
        DocFormat::Gds => "GDSII"@,
        DocFormat::Oasis => "OASIS"@,
        DocFormat::Cif => "CIF"@,
        DocFormat::Dxf => "DXF"@,
    }
}

/// The format a (lowercased) file extension names.
pub open spec fn format_of_extension(ext: Seq<char>) -> Option<DocFormat> {
    if ext == "gds"@ || ext == "gdsii"@ || ext == "gds2"@ {
        Some(DocFormat::Gds)
    } else if ext == "oas"@ || ext == "oasis"@ {
        Some(DocFormat::Oasis)
    } else if ext == "cif"@ {
        Some(DocFormat::Cif)
    } else if ext == "dxf"@ {
        Some(DocFormat::Dxf)
    } else {
        None
    }
}

/// The extension of a file name: what follows its last `.`; `None` for a
/// name without one.
pub open spec fn extension(name: Seq<char>) -> Option<Seq<char>> {
    if name.contains('.') {
        Some(split(name, '.').last())
    } else {
        None
    }
}

/// The format a file name's extension names, case-insensitively.
pub open spec fn format_of_name(name: Seq<char>) -> Option<DocFormat> {
    match extension(name) {
        Some(e) => format_of_extension(lower(e)),
        None => None,
    }
}

impl DocFormat {
    /// A short, human-readable name for the format.
    pub fn label(self) -> (r: &'static str)
        ensures
            r@ == format_label(self),
    {
        match self {
            DocFormat::Gds => "GDSII",
            DocFormat::Oasis => "OASIS",
            DocFormat::Cif => "CIF",
            DocFormat::Dxf => "DXF",
        }
    }

    /// The format a file name's extension names, case-insensitively:
    /// `.gds`/`.gdsii`/`.gds2`, `.oas`/`.oasis`, `.cif`, `.dxf`; `None`
    /// otherwise, and for a name without an extension.
    pub fn from_extension(name: &str) -> (r: Option<DocFormat>)
        ensures
            r == format_of_name(name@),
    {
        let nv = chars_of(name);
        let mut k: usize = 0;
        while k < nv.len() && nv[k] != '.'
            invariant
                k <= nv@.len(),
                nv@ == name@,
                forall|j: int| 0 <= j < k ==> nv@[j] != '.',
            decreases nv@.len() - k,
        {
            k = k + 1;
        }
        if k == nv.len() {
            return None;
        }
        assert(name@.contains('.')) by {
            assert(name@[k as int] == '.');
        }
        let parts = split_chars(&nv, '.');
        assert(parts@.len() == split(name@, '.').len());
        assert(split(name@, '.').len() >= 1);
        let last = parts.len() - 1;
        assert(parts@[last as int]@ == split(name@, '.')[last as int]);
        let ext = lower_chars(&parts[last]);
        if chars_eq_str(&ext, "gds") || chars_eq_str(&ext, "gdsii") || chars_eq_str(&ext, "gds2") {
            Some(DocFormat::Gds)
        } else if chars_eq_str(&ext, "oas") || chars_eq_str(&ext, "oasis") {
            Some(DocFormat::Oasis)
        } else if chars_eq_str(&ext, "cif") {
            Some(DocFormat::Cif)
        } else if chars_eq_str(&ext, "dxf") {
            Some(DocFormat::Dxf)
        } else {
            None
        }
    }
}

/// The magic every conformant-OASIS stream begins with: `%SEMI-OASIS\r\n`.
pub open spec fn conformant_magic() -> Seq<u8> {
    seq![37u8, 83, 69, 77, 73, 45, 79, 65, 83, 73, 83, 13, 10]
}

/// Whether `bytes` begin with the conformant-OASIS magic, so a `.oas`/`.oasis`
/// stream goes to the conformant reader instead of the in-house container.
pub fn looks_like_conformant_oasis(bytes: &[u8]) -> (r: bool)
    ensures
        r == (bytes@.len() >= 13 && bytes@.subrange(0, 13) == conformant_magic()),
{
    let magic: [u8; 13] = [37, 83, 69, 77, 73, 45, 79, 65, 83, 73, 83, 13, 10];
    assert(magic@ == conformant_magic());
    if bytes.len() < 13 {
        return false;
    }
    let mut i: usize = 0;
    while i < 13
        invariant
            bytes@.len() >= 13,
            magic@ == conformant_magic(),
            i <= 13,
            forall|k: int| 0 <= k < i ==> bytes@[k] == magic@[k],
        decreases 13 - i,
    {
        if bytes[i] != magic[i] {
            assert(bytes@.subrange(0, 13)[i as int] != conformant_magic()[i as int]);
            return false;
        }
        i = i + 1;
    }
    assert(bytes@.subrange(0, 13) =~= conformant_magic());
    true
}

/// The importer a format hint and the bytes select.
#[derive(Clone, Copy, PartialEq, Eq, Debug, Structural)]
pub enum Reader {
    /// The GDSII reader.
    Gds,
    /// The in-house OASIS-inspired container reader.
    InHouseOasis,
    /// The conformant SEMI P39 OASIS reader.
    ConformantOasis,
    /// The CIF reader.
    Cif,
    /// The DXF reader.
    Dxf,
}

/// Picks the reader for `bytes` opened as `format`: the format's own reader,
/// except that an OASIS hint goes to the conformant reader exactly when the
/// bytes carry its magic, else to the in-house container.
pub fn reader_for(format: DocFormat, bytes: &[u8]) -> (r: Reader)
    ensures
        r == match format {
            DocFormat::Gds => Reader::Gds,
            DocFormat::Oasis => if bytes@.len() >= 13 && bytes@.subrange(0, 13)
                == conformant_magic() {
                Reader::ConformantOasis
            } else {
                Reader::InHouseOasis
            },
            DocFormat::Cif => Reader::Cif,
            DocFormat::Dxf => Reader::Dxf,
        },
{
    match format {
        DocFormat::Gds => Reader::Gds,
        DocFormat::Oasis => if looks_like_conformant_oasis(bytes) {
            Reader::ConformantOasis
        } else {
            Reader::InHouseOasis
        },
        DocFormat::Cif => Reader::Cif,
        DocFormat::Dxf => Reader::Dxf,
    }
}

/// A structured, non-fatal problem found while opening a document.
#[derive(Clone, PartialEq, Eq, Debug)]
pub struct OpenWarning {
    /// A short one-liner naming what happened.
    pub summary: String,
    /// A longer explanation of what was skipped, clamped, or defaulted.
    pub detail: String,
}

/// A hard failure that produced no usable document.
#[derive(Clone, PartialEq, Eq, Debug)]
pub enum OpenError {
    /// The importer rejected the bytes.
    Import {
        /// The format the bytes were interpreted as.
        format: DocFormat,
        /// A human-readable reason.
        reason: String,
    },
    /// The bytes imported but held no cells.
    Empty {
        /// The format the (empty) document was read as.
        format: DocFormat,
    },
}

/// The message for an open error.
pub open spec fn open_error_message(e: OpenError) -> Seq<char> {
    match e {
        OpenError::Import { format, reason } => "could not open "@ + format_label(format)
            + " file: "@ + reason@,
        OpenError::Empty { format } => "the "@ + format_label(format)
            + " file opened but contains no cells"@,
    }
}

impl OpenError {
    /// The message shown to the user for this error.
    pub fn message(&self) -> (r: String)
        ensures
            r@ == open_error_message(*self),
    {
        let mut out: Vec<char> = Vec::new();
        match self {
            OpenError::Import { format, reason } => {
                extend_str(&mut out, "could not open ");
                extend_str(&mut out, format.label());
                extend_str(&mut out, " file: ");
                extend_str(&mut out, reason.as_str());
            },
            OpenError::Empty { format } => {
                extend_str(&mut out, "the ");
                extend_str(&mut out, format.label());
                extend_str(&mut out, " file opened but contains no cells");
            },
        }
        string_of(&out)
    }
}

/// Whether `a` sorts strictly before `b`, character by character (the order
/// of `str`).
pub open spec fn text_lt(a: Seq<char>, b: Seq<char>) -> bool
    decreases a.len(),
{
    if a.len() == 0 {
        b.len() > 0
    } else if b.len() == 0 {
        false
    } else if a[0] != b[0] {
        a[0] < b[0]
    } else {
        text_lt(a.drop_first(), b.drop_first())
    }
}

/// The first of `names` in text order (the earliest among equal ones); `names`
/// must be non-empty.
pub open spec fn first_in_order(names: Seq<Seq<char>>) -> Seq<char>
    decreases names.len(),
{
    if names.len() <= 1 {
        names[0]
    } else {
        let m = first_in_order(names.drop_last());
        if text_lt(names.last(), m) {
            names.last()
        } else {
            m
        }
    }
}

/// The cell to frame when a document loads: its first declared top cell, else
/// the first of its cell names in text order, else nothing.
pub open spec fn top_cell_of(tops: Seq<Seq<char>>, names: Seq<Seq<char>>) -> Seq<char> {
    if tops.len() > 0 {
        tops[0]
    } else if names.len() > 0 {
        first_in_order(names)
    } else {
        Seq::empty()
    }
}

/// The text of each string.
pub open spec fn texts_of(v: Seq<String>) -> Seq<Seq<char>> {
    v.map_values(|s: String| s@)
}

pub(crate) fn text_lt_chars(a: &[char], b: &[char]) -> (r: bool)
    ensures
        r == text_lt(a@, b@),
{
    let mut i: usize = 0;
    assert(a@.skip(0) =~= a@);
    assert(b@.skip(0) =~= b@);
    while i < a.len() && i < b.len() && a[i] == b[i]
        invariant
            i <= a@.len(),
            i <= b@.len(),
            text_lt(a@, b@) == text_lt(a@.skip(i as int), b@.skip(i as int)),
        decreases a@.len() - i,
    {
        assert(a@.skip(i as int).drop_first() =~= a@.skip(i + 1));
        assert(b@.skip(i as int).drop_first() =~= b@.skip(i + 1));
        i = i + 1;
    }
    if i == a.len() {
        i < b.len()
    } else if i == b.len() {
        false
    } else {
        a[i] < b[i]
    }
}

/// Chooses the cell to frame on load: the first declared top cell, else the
/// first cell name in text order, else an empty name.
pub fn choose_top_cell(top_cells: &[String], cell_names: &[String]) -> (r: String)
    ensures
        r@ == top_cell_of(texts_of(top_cells@), texts_of(cell_names@)),
{
    if top_cells.len() > 0 {
        let t = chars_of(top_cells[0].as_str());
        return string_of(&t);
    }
    if cell_names.len() == 0 {
        return string_of(&Vec::new());
    }
    let ghost names = texts_of(cell_names@);
    let mut best = chars_of(cell_names[0].as_str());
    assert(names.take(1) =~= seq![names[0]]);
    let mut i: usize = 1;
    while i < cell_names.len()
        invariant
            1 <= i <= cell_names@.len(),
            names == texts_of(cell_names@),
            best@ == first_in_order(names.take(i as int)),
        decreases cell_names@.len() - i,
    {
        let c = chars_of(cell_names[i].as_str());
        assert(names.take(i + 1).drop_last() =~= names.take(i as int));
        assert(names.take(i + 1).last() == c@);
        if text_lt_chars(&c, &best) {
            best = c;
        }
        i = i + 1;
    }
    assert(names.take(cell_names@.len() as int) =~= names);
    string_of(&best)
}

/// What an importer made of the bytes, as plain values: the document's
/// declared top cells, its cell names, and the non-fatal warnings it found.
#[derive(Clone, PartialEq, Eq, Debug)]
pub struct Imported {
    /// The declared top cells, in order.
    pub top_cells: Vec<String>,
    /// Every cell's name.
    pub cell_names: Vec<String>,
    /// Non-fatal problems found while importing, in encounter order.
    pub warnings: Vec<OpenWarning>,
}

/// The successful open of a document: the cell to frame and the warnings.
#[derive(Clone, PartialEq, Eq, Debug)]
pub struct Opened {
    /// The cell the editor frames on load.
    pub top_cell: String,
    /// Non-fatal problems found while opening, in encounter order.
    pub warnings: Vec<OpenWarning>,
}

impl Opened {
    /// Whether the open produced any non-fatal warnings.
    pub fn has_warnings(&self) -> (r: bool)
        ensures
            r == (self.warnings@.len() > 0),
    {
        self.warnings.len() > 0
    }
}

/// Finishes opening a document as `format` from what its importer returned:
/// the importer's failure reason becomes [`OpenError::Import`], a document
/// without cells is [`OpenError::Empty`], and otherwise the open names the cell
/// to frame and passes the warnings on.
pub fn finish_open(format: DocFormat, imported: Result<Imported, String>) -> (r: Result<Opened, OpenError>)
    ensures
        match imported {
            Err(reason) => r == Err::<Opened, OpenError>(OpenError::Import { format, reason }),
            Ok(doc) => if doc.cell_names@.len() == 0 {
                r == Err::<Opened, OpenError>(OpenError::Empty { format })
            } else {
                r matches Ok(o) && o.top_cell@ == top_cell_of(
                    texts_of(doc.top_cells@),
                    texts_of(doc.cell_names@),
                ) && o.warnings@ == doc.warnings@
            },
        },
{
    match imported {
        Err(reason) => Err(OpenError::Import { format, reason }),
        Ok(doc) => {
            if doc.cell_names.len() == 0 {
                return Err(OpenError::Empty { format });
            }
            let top_cell = choose_top_cell(doc.top_cells.as_slice(), doc.cell_names.as_slice());
            Ok(Opened { top_cell, warnings: doc.warnings })
        },
    }
}

pub(crate) proof fn lemma_text_lt_irreflexive(a: Seq<char>)
    ensures
        !text_lt(a, a),
    decreases a.len(),
{
    if a.len() > 0 {
        lemma_text_lt_irreflexive(a.drop_first());
    }
}

pub(crate) proof fn lemma_text_lt_transitive(a: Seq<char>, b: Seq<char>, c: Seq<char>)
    requires
        text_lt(a, b),
        text_lt(b, c),
    ensures
        text_lt(a, c),
    decreases a.len(),
{
    if a.len() > 0 && b.len() > 0 && c.len() > 0 && a[0] == b[0] && b[0] == c[0] {
        lemma_text_lt_transitive(a.drop_first(), b.drop_first(), c.drop_first());
    }
}

pub(crate) proof fn lemma_text_lt_total(a: Seq<char>, b: Seq<char>)
    requires
        a != b,
    ensures
        text_lt(a, b) || text_lt(b, a),
    decreases a.len(),
{
    if a.len() > 0 && b.len() > 0 && a[0] == b[0] {
        if a.drop_first() == b.drop_first() {
            assert(a =~= seq![a[0]] + a.drop_first());
            assert(b =~= seq![b[0]] + b.drop_first());
        }
        lemma_text_lt_total(a.drop_first(), b.drop_first());
    } else if a.len() == 0 && b.len() == 0 {
        assert(a =~= b);
    }
}

/// With no declared top cell, the cell framed on load is one of the cell
/// names, and no name sorts before it.
pub proof fn lemma_top_cell_is_first_name(names: Seq<Seq<char>>)
    requires
        names.len() >= 1,
    ensures
        names.contains(first_in_order(names)),
        forall|j: int| 0 <= j < names.len() ==> !text_lt(#[trigger] names[j], first_in_order(names)),
    decreases names.len(),
{
    if names.len() == 1 {
        assert(names[0] == first_in_order(names));
        lemma_text_lt_irreflexive(names[0]);
    } else {
        let rest = names.drop_last();
        lemma_top_cell_is_first_name(rest);
        let m = first_in_order(rest);
        let last = names.last();
        lemma_text_lt_irreflexive(last);
        let k = choose|k: int| 0 <= k < rest.len() && rest[k] == m;
        assert(names[k] == m);
        assert forall|j: int| 0 <= j < names.len() implies !text_lt(#[trigger] names[j], first_in_order(names)) by {
            if j < rest.len() {
                assert(names[j] == rest[j]);
                assert(!text_lt(rest[j], m));
                if text_lt(last, m) && text_lt(names[j], last) {
                    lemma_text_lt_transitive(names[j], last, m);
                }
            }
        }
        if text_lt(last, m) {
            assert(names[names.len() - 1] == last);
        }
    }
}

} // verus!
