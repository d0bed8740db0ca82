//! A small filter language for the selection query bar.
//!
//! A query is a whitespace-separated list of predicates combined with a logical
//! and: `layer:NAME`, `cell:NAME`, or `area`/`width`/`height` followed by one of
//! `<`, `<=`, `>`, `>=`, `=`, `==` and an integer. [`Query::parse`] turns text
//! into predicates or the first error; [`Query::matches`] and [`Query::select`]
//! evaluate a parsed query against shapes.
use vstd::prelude::*;
use crate::geom::{LayerId, ShapeInfo};
use crate::text::{
    chars_eq, chars_of, has_prefix, lower, lower_chars, parse_signed, parse_signed_chars,
    slice_chars, starts_with, string_of, words, words_chars, extend_str, extend_chars,
};

verus! {

/// A comparison operator in a metric predicate.
#[derive(Clone, Copy, PartialEq, Eq, Debug, Structural)]
pub enum Comparator {
    /// `<`
    Lt,
    /// `<=`
    Le,
    /// `>`
    Gt,
    /// `>=`
    Ge,
    /// `=` or `==`
    Eq,
}

/// `lhs OP rhs`.
pub open spec fn compare(c: Comparator, lhs: int, rhs: int) -> bool {
    match c {
        Comparator::Lt => lhs < rhs,
        Comparator::Le => lhs <= rhs,
        Comparator::Gt => lhs > rhs,
        Comparator::Ge => lhs >= rhs,
        Comparator::Eq => lhs == rhs,
    }
}

impl Comparator {
    fn apply(self, lhs: i128, rhs: i64) -> (r: bool)
        ensures
            r == compare(self, lhs as int, rhs as int),
    {
        let rhs = rhs as i128;
        match self {
            Comparator::Lt => lhs < rhs,
            Comparator::Le => lhs <= rhs,
            Comparator::Gt => lhs > rhs,
            Comparator::Ge => lhs >= rhs,
            Comparator::Eq => lhs == rhs,
        }
    }
}

/// Which bounding-box metric a metric predicate compares.
#[derive(Clone, Copy, PartialEq, Eq, Debug, Structural)]
pub enum Metric {
    /// Bounding-box area in DBU squared.
    Area,
    /// Bounding-box width in DBU.
    Width,
    /// Bounding-box height in DBU.
    Height,
}

/// The keyword that names a metric in a query.
pub open spec fn metric_keyword(m: Metric) -> Seq<char> {
    match m {
        Metric::Area => "area"@,
        Metric::Width => "width"@,
        Metric::Height => "height"@,
    }
}

/// The metric's value on a shape.
pub open spec fn metric_value(m: Metric, s: ShapeInfo) -> int {
    match m {
        Metric::Area => (s.bbox.max.x - s.bbox.min.x) * (s.bbox.max.y - s.bbox.min.y),
        Metric::Width => s.bbox.max.x - s.bbox.min.x,
        Metric::Height => s.bbox.max.y - s.bbox.min.y,
    }
}

impl Metric {
    fn value_of(self, shape: &ShapeInfo) -> (r: i128)
        ensures
            r == metric_value(self, *shape),
    {
        match self {
            Metric::Area => shape.bbox.area(),
            Metric::Width => shape.bbox.width() as i128,
            Metric::Height => shape.bbox.height() as i128,
        }
    }

    fn keyword(self) -> (r: &'static str)
        ensures
            r@ == metric_keyword(self),
    {
        match self {
            Metric::Area => "area",
            Metric::Width => "width",
            Metric::Height => "height",
        }
    }
}

/// An `i64` as a mathematical integer.
pub open spec fn int_of(v: i64) -> int {
    v as int
}

/// One parsed predicate. A query is an implicit AND of these.
#[derive(Clone, PartialEq, Eq, Debug)]
pub enum Predicate {
    /// Match shapes on the named layer (case-insensitive).
    Layer(String),
    /// Match when the query's cell scope equals this name (case-insensitive).
    Cell(String),
    /// Compare a bounding-box metric against a constant.
    Metric {
        /// Which metric.
        metric: Metric,
        /// The comparison operator.
        cmp: Comparator,
        /// The right-hand constant.
        value: i64,
    },
}

/// A predicate with its names as character sequences.
pub enum PredicateModel {
    /// `layer:NAME`
    Layer(Seq<char>),
    /// `cell:NAME`
    Cell(Seq<char>),
    /// A metric comparison.
    Metric(Metric, Comparator, int),
}

impl View for Predicate {
    type V = PredicateModel;

    open spec fn view(&self) -> PredicateModel {
        match self {
            Predicate::Layer(n) => PredicateModel::Layer(n@),
            Predicate::Cell(n) => PredicateModel::Cell(n@),
            Predicate::Metric { metric, cmp, value } => PredicateModel::Metric(
                *metric,
                *cmp,
                int_of(*value),
            ),
        }
    }
}

/// Why a query string could not be parsed.
#[derive(Clone, PartialEq, Eq, Debug)]
pub enum ParseError {
    /// A `layer:`/`cell:` token had nothing after the colon.
    EmptyValue {
        /// The key whose value was missing.
        key: String,
    },
    /// A metric predicate had no comparator.
    MissingComparator {
        /// The offending token as typed.
        token: String,
    },
    /// A metric predicate's right-hand side was not an integer.
    NotANumber {
        /// The metric keyword.
        metric: String,
        /// The text that failed to parse as an integer.
        value: String,
    },
    /// The token matched no predicate form at all.
    UnknownToken {
        /// The offending token as typed.
        token: String,
    },
}

/// A parse error with its texts as character sequences.
pub enum ParseErrorModel {
    /// An empty `key:` value.
    EmptyValue(Seq<char>),
    /// A metric token without a comparator.
    MissingComparator(Seq<char>),
    /// A metric value that is not an integer: `(metric, value)`.
    NotANumber(Seq<char>, Seq<char>),
    /// A token of no known form.
    UnknownToken(Seq<char>),
}

impl View for ParseError {
    type V = ParseErrorModel;

    open spec fn view(&self) -> ParseErrorModel {
        match self {
            ParseError::EmptyValue { key } => ParseErrorModel::EmptyValue(key@),
            ParseError::MissingComparator { token } => ParseErrorModel::MissingComparator(
                token@,
            ),
            ParseError::NotANumber { metric, value } => ParseErrorModel::NotANumber(
                metric@,
                value@,
            ),
            ParseError::UnknownToken { token } => ParseErrorModel::UnknownToken(token@),
        }
    }
}

/// The human-readable message for a parse error.
pub open spec fn error_message(e: ParseErrorModel) -> Seq<char> {
    match e {
        ParseErrorModel::EmptyValue(key) => "'"@ + key + ":' needs a value, e.g. "@ + key
            + ":METAL1"@,
        ParseErrorModel::MissingComparator(token) => "'"@ + token
            + "' needs a comparator, e.g. width<400 or area>=1000"@,
        ParseErrorModel::NotANumber(metric, value) => "'"@ + metric + "' expects a number, got '"@
            + value + "'"@,
        ParseErrorModel::UnknownToken(token) => "unknown term '"@ + token + "'"@,
    }
}

impl ParseError {
    /// The one-line reason shown next to the query bar.
    pub fn message(&self) -> (r: String)
        ensures
            r@ == error_message(self@),
    {
        let mut out: Vec<char> = Vec::new();
        match self {
            ParseError::EmptyValue { key } => {
                extend_str(&mut out, "'");
                extend_str(&mut out, key.as_str());
                extend_str(&mut out, ":' needs a value, e.g. ");
                extend_str(&mut out, key.as_str());
                extend_str(&mut out, ":METAL1");
            },
            ParseError::MissingComparator { token } => {
                extend_str(&mut out, "'");
                extend_str(&mut out, token.as_str());
                extend_str(&mut out, "' needs a comparator, e.g. width<400 or area>=1000");
            },
            ParseError::NotANumber { metric, value } => {
                extend_str(&mut out, "'");
                extend_str(&mut out, metric.as_str());
                extend_str(&mut out, "' expects a number, got '");
                extend_str(&mut out, value.as_str());
                extend_str(&mut out, "'");
            },
            ParseError::UnknownToken { token } => {
                extend_str(&mut out, "unknown term '");
                extend_str(&mut out, token.as_str());
                extend_str(&mut out, "'");
            },
        }
        string_of(&out)
    }
}

/// The comparator at the front of `rest` and the text after it; two-character
/// operators are tried first.
pub open spec fn split_comparator(rest: Seq<char>) -> Option<(Comparator, Seq<char>)> {
    if has_prefix(rest, "<="@) {
        Some((Comparator::Le, rest.skip(2)))
    } else if has_prefix(rest, ">="@) {
        Some((Comparator::Ge, rest.skip(2)))
    } else if has_prefix(rest, "=="@) {
        Some((Comparator::Eq, rest.skip(2)))
    } else if has_prefix(rest, "<"@) {
        Some((Comparator::Lt, rest.skip(1)))
    } else if has_prefix(rest, ">"@) {
        Some((Comparator::Gt, rest.skip(1)))
    } else if has_prefix(rest, "="@) {
        Some((Comparator::Eq, rest.skip(1)))
    } else {
        None
    }
}

/// Each operator's text reads as that operator, whatever follows it: `<=`,
/// `>=` and `==` always, and `<`, `>` and `=` when the next character is not
/// `=`.
pub proof fn lemma_split_comparator_reads_operators(t: Seq<char>)
    ensures
        split_comparator("<="@ + t) == Some((Comparator::Le, t)),
        split_comparator(">="@ + t) == Some((Comparator::Ge, t)),
        split_comparator("=="@ + t) == Some((Comparator::Eq, t)),
        (t.len() == 0 || t[0] != '=') ==> split_comparator("<"@ + t) == Some((Comparator::Lt, t)),
        (t.len() == 0 || t[0] != '=') ==> split_comparator(">"@ + t) == Some((Comparator::Gt, t)),
        (t.len() == 0 || t[0] != '=') ==> split_comparator("="@ + t) == Some((Comparator::Eq, t)),
{
    reveal_strlit("<=");
    reveal_strlit(">=");
    reveal_strlit("==");
    reveal_strlit("<");
    reveal_strlit(">");
    reveal_strlit("=");
    assert("<="@[0] == '<' && ">="@[0] == '>' && "=="@[0] == '=');
    assert("<="@ != ">="@ && "<="@ != "=="@ && ">="@ != "=="@);
    assert(("<="@ + t).skip(2) =~= t);
    assert((">="@ + t).skip(2) =~= t);
    assert(("=="@ + t).skip(2) =~= t);
    assert(("<"@ + t).skip(1) =~= t);
    assert((">"@ + t).skip(1) =~= t);
    assert(("="@ + t).skip(1) =~= t);
    assert(("<="@ + t).take(2) =~= "<="@);
    assert((">="@ + t).take(2) =~= ">="@);
    assert(("=="@ + t).take(2) =~= "=="@);
    assert(("<"@ + t).take(1) =~= "<"@);
    assert((">"@ + t).take(1) =~= ">"@);
    assert(("="@ + t).take(1) =~= "="@);
    assert("<="@[1] == '=' && ">="@[1] == '=' && "=="@[1] == '=');
    assert("<"@[0] == '<' && ">"@[0] == '>' && "="@[0] == '=');
    if t.len() > 0 && t[0] != '=' {
        assert(("<"@ + t).take(2)[1] == t[0]);
        assert((">"@ + t).take(2)[1] == t[0]);
        assert(("="@ + t).take(2)[1] == t[0]);
        assert(("<"@ + t).take(2) != "<="@ && ("<"@ + t).take(2) != ">="@ && ("<"@ + t).take(2) != "=="@);
        assert((">"@ + t).take(2) != "<="@ && (">"@ + t).take(2) != ">="@ && (">"@ + t).take(2) != "=="@);
        assert(("="@ + t).take(2) != "<="@ && ("="@ + t).take(2) != ">="@ && ("="@ + t).take(2) != "=="@);
    }
}

/// The smallest and largest `i64`.
pub open spec fn i64_min() -> int {
    -0x8000_0000_0000_0000
}

/// The largest `i64`.
pub open spec fn i64_max() -> int {
    0x7fff_ffff_ffff_ffff
}

/// The `OP INT` tail of a metric predicate.
pub open spec fn parse_metric(metric: Metric, rest: Seq<char>, token: Seq<char>) -> Result<
    PredicateModel,
    ParseErrorModel,
> {
    match split_comparator(rest) {
        None => Err(ParseErrorModel::MissingComparator(token)),
        Some((c, num)) => match parse_signed(num, i64_min(), i64_max()) {
            Some(v) => Ok(PredicateModel::Metric(metric, c, v)),
            None => Err(ParseErrorModel::NotANumber(metric_keyword(metric), num)),
        },
    }
}

/// One whitespace-free token read as a predicate.
pub open spec fn parse_token(t: Seq<char>) -> Result<PredicateModel, ParseErrorModel> {
    if has_prefix(t, "layer:"@) {
        if t.skip(6).len() == 0 {
            Err(ParseErrorModel::EmptyValue("layer"@))
        } else {
            Ok(PredicateModel::Layer(t.skip(6)))
        }
    } else if has_prefix(t, "cell:"@) {
        if t.skip(5).len() == 0 {
            Err(ParseErrorModel::EmptyValue("cell"@))
        } else {
            Ok(PredicateModel::Cell(t.skip(5)))
        }
    } else if has_prefix(t, "area"@) {
        parse_metric(Metric::Area, t.skip(4), t)
    } else if has_prefix(t, "width"@) {
        parse_metric(Metric::Width, t.skip(5), t)
    } else if has_prefix(t, "height"@) {
        parse_metric(Metric::Height, t.skip(6), t)
    } else {
        Err(ParseErrorModel::UnknownToken(t))
    }
}

/// The predicates of all tokens in order, or the first token's error.
pub open spec fn parse_tokens(ts: Seq<Seq<char>>) -> Result<Seq<PredicateModel>, ParseErrorModel>
    decreases ts.len(),
{
    if ts.len() == 0 {
        Ok(Seq::empty())
    } else {
        match parse_token(ts[0]) {
            Err(e) => Err(e),
            Ok(p) => match parse_tokens(ts.drop_first()) {
                Ok(rest) => Ok(seq![p] + rest),
                Err(e) => Err(e),
            },
        }
    }
}

/// A query text read as predicates (split on whitespace), or the first error.
pub open spec fn spec_parse(input: Seq<char>) -> Result<Seq<PredicateModel>, ParseErrorModel> {
    parse_tokens(words(input))
}

proof fn lemma_literal_lengths()
    ensures
        "<="@.len() == 2,
        ">="@.len() == 2,
        "=="@.len() == 2,
        "<"@.len() == 1,
        ">"@.len() == 1,
        "="@.len() == 1,
        "layer:"@.len() == 6,
        "cell:"@.len() == 5,
        "area"@.len() == 4,
        "width"@.len() == 5,
        "height"@.len() == 6,
{
    reveal_strlit("<=");
    reveal_strlit(">=");
    reveal_strlit("==");
    reveal_strlit("<");
    reveal_strlit(">");
    reveal_strlit("=");
    reveal_strlit("layer:");
    reveal_strlit("cell:");
    reveal_strlit("area");
    reveal_strlit("width");
    reveal_strlit("height");
}

fn split_comparator_chars(rest: &[char]) -> (r: Option<(Comparator, Vec<char>)>)
    ensures
        match r {
            Some((c, n)) => split_comparator(rest@) == Some((c, n@)),
            None => split_comparator(rest@) is None,
        },
{
    proof {
        lemma_literal_lengths();
    }
    if starts_with(rest, "<=") {
        Some((Comparator::Le, slice_chars(rest, 2, rest.len())))
    } else if starts_with(rest, ">=") {
        Some((Comparator::Ge, slice_chars(rest, 2, rest.len())))
    } else if starts_with(rest, "==") {
        Some((Comparator::Eq, slice_chars(rest, 2, rest.len())))
    } else if starts_with(rest, "<") {
        Some((Comparator::Lt, slice_chars(rest, 1, rest.len())))
    } else if starts_with(rest, ">") {
        Some((Comparator::Gt, slice_chars(rest, 1, rest.len())))
    } else if starts_with(rest, "=") {
        Some((Comparator::Eq, slice_chars(rest, 1, rest.len())))
    } else {
        None
    }
}

fn parse_metric_chars(metric: Metric, rest: &[char], token: &[char]) -> (r: Result<
    Predicate,
    ParseError,
>)
    ensures
        match r {
            Ok(p) => parse_metric(metric, rest@, token@) == Ok::<_, ParseErrorModel>(p@),
            Err(e) => parse_metric(metric, rest@, token@) == Err::<PredicateModel, _>(e@),
        },
{
    match split_comparator_chars(rest) {
        None => Err(ParseError::MissingComparator { token: string_of(token) }),
        Some((cmp, num)) => match parse_signed_chars(&num, 0x8000_0000_0000_0000, 0x7fff_ffff_ffff_ffff) {
            Some(value) => Ok(Predicate::Metric { metric, cmp, value }),
            None => Err(
                ParseError::NotANumber {
                    metric: metric.keyword().to_owned(),
                    value: string_of(&num),
                },
            ),
        },
    }
}

fn parse_token_chars(t: &[char]) -> (r: Result<Predicate, ParseError>)
    ensures
        match r {
            Ok(p) => parse_token(t@) == Ok::<_, ParseErrorModel>(p@),
            Err(e) => parse_token(t@) == Err::<PredicateModel, _>(e@),
        },
{
    proof {
        lemma_literal_lengths();
    }
    if starts_with(t, "layer:") {
        let v = slice_chars(t, 6, t.len());
        assert(v@ =~= t@.skip(6));
        if v.len() == 0 {
            Err(ParseError::EmptyValue { key: "layer".to_owned() })
        } else {
            Ok(Predicate::Layer(string_of(&v)))
        }
    } else if starts_with(t, "cell:") {
        let v = slice_chars(t, 5, t.len());
        assert(v@ =~= t@.skip(5));
        if v.len() == 0 {
            Err(ParseError::EmptyValue { key: "cell".to_owned() })
        } else {
            Ok(Predicate::Cell(string_of(&v)))
        }
    } else if starts_with(t, "area") {
        let v = slice_chars(t, 4, t.len());
        assert(v@ =~= t@.skip(4));
        parse_metric_chars(Metric::Area, &v, t)
    } else if starts_with(t, "width") {
        let v = slice_chars(t, 5, t.len());
        assert(v@ =~= t@.skip(5));
        parse_metric_chars(Metric::Width, &v, t)
    } else if starts_with(t, "height") {
        let v = slice_chars(t, 6, t.len());
        assert(v@ =~= t@.skip(6));
        parse_metric_chars(Metric::Height, &v, t)
    } else {
        Err(ParseError::UnknownToken { token: string_of(t) })
    }
}

/// A parsed query: a conjunction of predicates. An empty query matches nothing.
#[derive(Clone, PartialEq, Eq, Debug, Default)]
pub struct Query {
    predicates: Vec<Predicate>,
}

impl View for Query {
    type V = Seq<PredicateModel>;

    /// The predicates, in the order they appeared.
    closed spec fn view(&self) -> Seq<PredicateModel> {
        self.predicates@.map_values(|p: Predicate| p@)
    }
}

impl Query {
    /// Parses a query string into a conjunction of predicates, or the first
    /// token's error. Tokens are split on whitespace.
    pub fn parse(input: &str) -> (r: Result<Self, ParseError>)
        ensures
            match r {
                Ok(q) => spec_parse(input@) == Ok::<_, ParseErrorModel>(q@),
                Err(e) => spec_parse(input@) == Err::<Seq<PredicateModel>, _>(e@),
            },
    {
        let v = chars_of(input);
        let tokens = words_chars(&v);
        let ghost ts = tokens@.map_values(|t: Vec<char>| t@);
        let mut predicates: Vec<Predicate> = Vec::new();
        assert(ts.skip(0) =~= ts);
        for i in 0..tokens.len()
            invariant
                ts == tokens@.map_values(|t: Vec<char>| t@),
                ts == words(v@),
                v@ == input@,
                parse_tokens(ts) == (match parse_tokens(ts.skip(i as int)) {
                    Ok(rest) => Ok(predicates@.map_values(|p: Predicate| p@) + rest),
                    Err(e) => Err(e),
                }),
        {
            assert(ts.skip(i as int)[0] == tokens@[i as int]@);
            assert(ts.skip(i as int).drop_first() =~= ts.skip(i + 1));
            match parse_token_chars(&tokens[i]) {
                Ok(p) => {
                    let ghost before = predicates@.map_values(|p: Predicate| p@);
                    predicates.push(p);
                    assert(predicates@.map_values(|p: Predicate| p@) =~= before.push(p@));
                    proof {
                        match parse_tokens(ts.skip(i + 1)) {
                            Ok(rest) => {
                                assert(before + (seq![p@] + rest) =~= before.push(p@) + rest);
                            },
                            Err(_) => {},
                        }
                    }
                },
                Err(e) => {
                    return Err(e);
                },
            }
        }
        assert(ts.skip(tokens@.len() as int) =~= Seq::<Seq<char>>::empty());
        assert(predicates@.map_values(|p: Predicate| p@) + Seq::<PredicateModel>::empty()
            =~= predicates@.map_values(|p: Predicate| p@));
        Ok(Query { predicates })
    }

    /// The parsed predicates, in the order they appeared.
    pub fn predicates(&self) -> (r: &[Predicate])
        ensures
            r@.map_values(|p: Predicate| p@) == self@,
    {
        self.predicates.as_slice()
    }

    /// Whether the query has no predicates.
    pub fn is_empty(&self) -> (r: bool)
        ensures
            r == (self@.len() == 0),
    {
        self.predicates.len() == 0
    }
}


/// Resolves a layer name to its [`LayerId`] for evaluating a `layer:` predicate.
/// Names are compared ASCII-case-insensitively; a later duplicate name wins.
#[derive(Clone, Debug, Default)]
pub struct LayerLookup {
    by_name: Vec<(Vec<char>, LayerId)>,
}

/// The id of the last entry whose (lowercased) name is `name`.
pub open spec fn lookup_last(entries: Seq<(Seq<char>, LayerId)>, name: Seq<char>) -> Option<
    LayerId,
>
    decreases entries.len(),
{
    if entries.len() == 0 {
        None
    } else if entries.last().0 == name {
        Some(entries.last().1)
    } else {
        lookup_last(entries.drop_last(), name)
    }
}

impl View for LayerLookup {
    type V = Seq<(Seq<char>, LayerId)>;

    /// The `(lowercased name, id)` entries in insertion order.
    closed spec fn view(&self) -> Seq<(Seq<char>, LayerId)> {
        self.by_name@.map_values(|e: (Vec<char>, LayerId)| (e.0@, e.1))
    }
}

impl LayerLookup {
    /// Builds a lookup from `(name, id)` pairs; names are lowercased.
    pub fn new(entries: &[(&str, LayerId)]) -> (r: Self)
        ensures
            r@ == entries@.map_values(|e: (&str, LayerId)| (lower(e.0@), e.1)),
    {
        let mut by_name: Vec<(Vec<char>, LayerId)> = Vec::new();
        for i in 0..entries.len()
            invariant
                by_name@.map_values(|e: (Vec<char>, LayerId)| (e.0@, e.1)) == entries@.take(
                    i as int,
                ).map_values(|e: (&str, LayerId)| (lower(e.0@), e.1)),
        {
            let (name, id) = entries[i];
            let v = chars_of(name);
            let l = lower_chars(&v);
            let ghost before = by_name@.map_values(|e: (Vec<char>, LayerId)| (e.0@, e.1));
            by_name.push((l, id));
            assert(by_name@.map_values(|e: (Vec<char>, LayerId)| (e.0@, e.1)) =~= before.push(
                (lower(name@), id),
            ));
            assert(entries@.take(i + 1).map_values(|e: (&str, LayerId)| (lower(e.0@), e.1))
                =~= entries@.take(i as int).map_values(|e: (&str, LayerId)| (lower(e.0@), e.1)).push(
                (lower(name@), id),
            ));
        }
        assert(entries@.take(entries@.len() as int) =~= entries@);
        LayerLookup { by_name }
    }

    fn resolve_chars(&self, name: &[char]) -> (r: Option<LayerId>)
        ensures
            r == lookup_last(self@, lower(name@)),
    {
        let l = lower_chars(name);
        let mut i = self.by_name.len();
        let ghost all = self@;
        assert(all.take(i as int) =~= all);
        while i > 0
            invariant
                i <= self.by_name@.len(),
                all == self@,
                all.len() == self.by_name@.len(),
                lookup_last(all, lower(name@)) == lookup_last(all.take(i as int), lower(name@)),
                l@ == lower(name@),
            decreases i,
        {
            let ghost pre = all.take(i as int);
            assert(pre.last() == (self.by_name@[i - 1].0@, self.by_name@[i - 1].1));
            if chars_eq(&self.by_name[i - 1].0, &l) {
                return Some(self.by_name[i - 1].1);
            }
            assert(pre.drop_last() =~= all.take(i - 1));
            i -= 1;
        }
        None
    }

    /// Resolves `name` (case-insensitively) to a layer id, if the table has it.
    pub fn resolve(&self, name: &str) -> (r: Option<LayerId>)
        ensures
            r == lookup_last(self@, lower(name@)),
    {
        let v = chars_of(name);
        self.resolve_chars(&v)
    }
}

/// Whether one predicate holds of `shape`, with `layers` resolving layer names
/// and `scope` naming the cell being queried.
pub open spec fn predicate_holds(
    p: PredicateModel,
    shape: ShapeInfo,
    layers: Seq<(Seq<char>, LayerId)>,
    scope: Seq<char>,
) -> bool {
    match p {
        PredicateModel::Layer(name) => lookup_last(layers, lower(name)) == Some(shape.layer),
        PredicateModel::Cell(name) => lower(name) == lower(scope),
        PredicateModel::Metric(m, c, v) => compare(c, metric_value(m, shape), v),
    }
}

/// The comparators are the integer order: `<` and `>` are strict and mirror
/// each other, `<=` and `>=` are their negations and hold of equal values,
/// and `=` is equality. So a metric predicate `metric>=v` or `metric<=v`
/// holds of a shape whose metric is exactly `v`, and `metric>v` or
/// `metric<v` does not.
pub proof fn lemma_comparators_are_the_integer_order(lhs: int, rhs: int, m: Metric, shape: ShapeInfo, layers: Seq<(Seq<char>, LayerId)>, scope: Seq<char>)
    ensures
        compare(Comparator::Lt, lhs, rhs) <==> lhs < rhs,
        compare(Comparator::Le, lhs, rhs) <==> lhs <= rhs,
        compare(Comparator::Gt, lhs, rhs) <==> lhs > rhs,
        compare(Comparator::Ge, lhs, rhs) <==> lhs >= rhs,
        compare(Comparator::Eq, lhs, rhs) <==> lhs == rhs,
        compare(Comparator::Ge, lhs, rhs) <==> !compare(Comparator::Lt, lhs, rhs),
        compare(Comparator::Le, lhs, rhs) <==> !compare(Comparator::Gt, lhs, rhs),
        compare(Comparator::Ge, lhs, rhs) <==> (compare(Comparator::Gt, lhs, rhs) || compare(Comparator::Eq, lhs, rhs)),
        compare(Comparator::Le, lhs, rhs) <==> (compare(Comparator::Lt, lhs, rhs) || compare(Comparator::Eq, lhs, rhs)),
        compare(Comparator::Gt, lhs, rhs) <==> compare(Comparator::Lt, rhs, lhs),
        compare(Comparator::Ge, lhs, lhs) && compare(Comparator::Le, lhs, lhs) && compare(Comparator::Eq, lhs, lhs),
        !compare(Comparator::Gt, lhs, lhs) && !compare(Comparator::Lt, lhs, lhs),
        predicate_holds(PredicateModel::Metric(m, Comparator::Ge, metric_value(m, shape)), shape, layers, scope),
        predicate_holds(PredicateModel::Metric(m, Comparator::Le, metric_value(m, shape)), shape, layers, scope),
        predicate_holds(PredicateModel::Metric(m, Comparator::Eq, metric_value(m, shape)), shape, layers, scope),
        !predicate_holds(PredicateModel::Metric(m, Comparator::Gt, metric_value(m, shape)), shape, layers, scope),
        !predicate_holds(PredicateModel::Metric(m, Comparator::Lt, metric_value(m, shape)), shape, layers, scope),
{
}

/// Whether a query matches `shape`: it has predicates and all of them hold.
pub open spec fn query_matches(
    q: Seq<PredicateModel>,
    shape: ShapeInfo,
    layers: Seq<(Seq<char>, LayerId)>,
    scope: Seq<char>,
) -> bool {
    q.len() > 0 && forall|i: int| 0 <= i < q.len() ==> predicate_holds(q[i], shape, layers, scope)
}

fn predicate_matches(p: &Predicate, shape: &ShapeInfo, layers: &LayerLookup, scope: &[char]) -> (r:
    bool)
    ensures
        r == predicate_holds(p@, *shape, layers@, scope@),
{
    match p {
        Predicate::Layer(name) => match layers.resolve(name.as_str()) {
            Some(id) => id == shape.layer,
            None => false,
        },
        Predicate::Cell(name) => {
            let nv = chars_of(name.as_str());
            let a = lower_chars(&nv);
            let b = lower_chars(scope);
            chars_eq(&a, &b)
        },
        Predicate::Metric { metric, cmp, value } => {
            let lhs = metric.value_of(shape);
            cmp.apply(lhs, *value)
        },
    }
}

impl Query {
    fn matches_chars(&self, shape: &ShapeInfo, layers: &LayerLookup, scope: &[char]) -> (r: bool)
        ensures
            r == query_matches(self@, *shape, layers@, scope@),
    {
        if self.predicates.len() == 0 {
            return false;
        }
        for i in 0..self.predicates.len()
            invariant
                self@ == self.predicates@.map_values(|p: Predicate| p@),
                forall|k: int| 0 <= k < i ==> predicate_holds(self@[k], *shape, layers@, scope@),
        {
            if !predicate_matches(&self.predicates[i], shape, layers, scope) {
                assert(self@[i as int] == self.predicates@[i as int]@);
                return false;
            }
        }
        true
    }

    /// Evaluates the query against one shape: an empty query matches nothing; a
    /// `layer:` predicate naming an unknown layer never matches; a `cell:`
    /// predicate compares its name with `scope`.
    pub fn matches(&self, shape: &ShapeInfo, layers: &LayerLookup, scope: &str) -> (r: bool)
        ensures
            r == query_matches(self@, *shape, layers@, scope@),
    {
        let sv = chars_of(scope);
        self.matches_chars(shape, layers, &sv)
    }

    /// Runs the query over `shapes` and collects the matching indices in order.
    pub fn select(&self, shapes: &[ShapeInfo], layers: &LayerLookup, scope: &str) -> (r: Vec<
        usize,
    >)
        ensures
            r@ == crate::selection::indices_where(
                shapes@.len(),
                |i: int| query_matches(self@, shapes@[i], layers@, scope@),
            ),
    {
        let sv = chars_of(scope);
        let mut out: Vec<usize> = Vec::new();
        for i in 0..shapes.len()
            invariant
                sv@ == scope@,
                out@ == crate::selection::indices_where(
                    i as nat,
                    |k: int| query_matches(self@, shapes@[k], layers@, scope@),
                ),
        {
            if self.matches_chars(&shapes[i], layers, &sv) {
                out.push(i);
            }
        }
        out
    }
}

} // verus!
