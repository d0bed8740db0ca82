//! Share-this-session room links, read-only viewer links, and the page-query
//! flags the web bundle reads on boot.
//!
//! A shared session is a relay room: [`room_id`] sanitizes a free-form name into
//! a URL path segment, [`room_link`] composes the WebSocket join URL, and
//! [`viewer_link`] / [`parse_viewer_query`] compose and recover the read-only
//! viewer page URL. The percent-encoding helpers used by every link live here
//! too, each specified byte for byte.
use vstd::prelude::*;
use crate::text::{
    decimal, join, join_chars, push_decimal, ascii_lower, chars_eq_str, chars_of, extend_chars, extend_str, has_prefix,
    lemma_strip_end_shape, lemma_strip_start_shape, lower_char, parse_unsigned,
    parse_unsigned_chars, slice_chars, split, split_chars, split_once, split_once_chars,
    starts_with, string_of, strip_end, strip_end_chars, strip_start, strip_start_chars, trim,
    trim_chars,
};

verus! {

/// The relay address used when the user leaves the server field empty.
pub const DEFAULT_SERVER: &'static str = "127.0.0.1:3030";

/// The room name used when sanitizing leaves nothing.
pub const FALLBACK_ROOM: &'static str = "layout";

/// The `?view=` query value that opens the web bundle as a read-only viewer.
pub const VIEWER_VIEW: &'static str = "viewer";

/// The query key that opens a served `.rtla` archive in the browser build.
pub const ARCHIVE_KEY: &'static str = "archive";

// ---------------------------------------------------------------------------
// Room ids
// ---------------------------------------------------------------------------

/// The characters a room id keeps: `a-z`, `0-9`, `_` and `-`.
pub open spec fn is_room_char(c: char) -> bool {
    ('a' <= c && c <= 'z') || ('0' <= c && c <= '9') || c == '_' || c == '-'
}

/// One step of the sanitizing scan: the id built so far and whether a run of
/// dropped characters is pending (to become a single `-`).
pub open spec fn room_step(st: (Seq<char>, bool), c: char) -> (Seq<char>, bool) {
    let l = lower_char(c);
    if is_room_char(l) {
        let id = if st.1 && st.0.len() > 0 {
            st.0.push('-')
        } else {
            st.0
        };
        (id.push(l), false)
    } else {
        (st.0, true)
    }
}

/// The sanitizing scan over all of `s`, left to right.
pub open spec fn room_scan(s: Seq<char>) -> (Seq<char>, bool)
    decreases s.len(),
{
    if s.len() == 0 {
        (Seq::empty(), false)
    } else {
        room_step(room_scan(s.drop_last()), s.last())
    }
}

/// The room id for `name`: lowercased, runs of other characters collapsed to one
/// `-` between kept characters, edge dashes trimmed, and `"layout"` when nothing
/// is left.
pub open spec fn spec_room_id(name: Seq<char>) -> Seq<char> {
    let t = strip_end(strip_start(room_scan(name).0, '-'), '-');
    if t.len() == 0 {
        FALLBACK_ROOM@
    } else {
        t
    }
}

proof fn lemma_room_scan_room_chars(s: Seq<char>)
    ensures
        forall|i: int| 0 <= i < room_scan(s).0.len() ==> is_room_char(#[trigger] room_scan(s).0[i]),
    decreases s.len(),
{
    if s.len() > 0 {
        lemma_room_scan_room_chars(s.drop_last());
        let st = room_scan(s.drop_last());
        let l = lower_char(s.last());
        if is_room_char(l) {
            let id = if st.1 && st.0.len() > 0 {
                st.0.push('-')
            } else {
                st.0
            };
            assert forall|i: int| 0 <= i < id.len() implies is_room_char(#[trigger] id[i]) by {
                if i < st.0.len() {
                    assert(id[i] == st.0[i]);
                }
            }
            assert forall|i: int| 0 <= i < id.push(l).len() implies is_room_char(
                #[trigger] id.push(l)[i],
            ) by {
                if i < id.len() {
                    assert(id.push(l)[i] == id[i]);
                }
            }
        }
    }
}

proof fn lemma_room_scan_of_room_chars(t: Seq<char>)
    requires
        forall|i: int| 0 <= i < t.len() ==> is_room_char(#[trigger] t[i]),
    ensures
        room_scan(t) == (t, false),
    decreases t.len(),
{
    if t.len() > 0 {
        lemma_room_scan_of_room_chars(t.drop_last());
        assert(t.drop_last().push(t.last()) =~= t);
    }
}

/// Every room id is non-empty, made of `a-z`, `0-9`, `_` and `-`, and
/// neither starts nor ends with `-`.
pub proof fn lemma_room_id_shape(name: Seq<char>)
    ensures
        spec_room_id(name).len() > 0,
        spec_room_id(name)[0] != '-',
        spec_room_id(name).last() != '-',
        forall|i: int|
            0 <= i < spec_room_id(name).len() ==> is_room_char(#[trigger] spec_room_id(name)[i]),
{
    let scanned = room_scan(name).0;
    lemma_room_scan_room_chars(name);
    let a = strip_start(scanned, '-');
    lemma_strip_start_shape(scanned, '-');
    let t = strip_end(a, '-');
    lemma_strip_end_shape(a, '-');
    let ka = choose|k: int| 0 <= k <= scanned.len() && a == scanned.skip(k);
    let kt = choose|k: int| 0 <= k <= a.len() && t == a.take(k);
    assert forall|i: int| 0 <= i < t.len() implies is_room_char(#[trigger] t[i]) by {
        assert(t[i] == a[i]);
        assert(a[i] == scanned[i + ka]);
    }
    if t.len() == 0 {
        reveal_strlit("layout");
    } else {
        assert(t[0] == a[0]);
    }
}

/// Sanitizing a room id again changes nothing: `room_id(room_id(s)) ==
/// room_id(s)` for every `s`.
pub proof fn lemma_room_id_idempotent(name: Seq<char>)
    ensures
        spec_room_id(spec_room_id(name)) == spec_room_id(name),
{
    let t = spec_room_id(name);
    lemma_room_id_shape(name);
    lemma_room_scan_of_room_chars(t);
    assert(strip_start(t, '-') == t);
    assert(strip_end(t, '-') == t);
}

pub(crate) fn room_id_chars(name: &[char]) -> (r: Vec<char>)
    ensures
        r@ == spec_room_id(name@),
{
    let mut id: Vec<char> = Vec::new();
    let mut pending = false;
    for i in 0..name.len()
        invariant
            (id@, pending) == room_scan(name@.subrange(0, i as int)),
    {
        let c = ascii_lower(name[i]);
        assert(name@.subrange(0, i + 1).drop_last() =~= name@.subrange(0, i as int));
        if ('a' <= c && c <= 'z') || ('0' <= c && c <= '9') || c == '_' || c == '-' {
            if pending && id.len() > 0 {
                id.push('-');
            }
            pending = false;
            id.push(c);
        } else {
            pending = true;
        }
    }
    assert(name@.subrange(0, name@.len() as int) =~= name@);
    let a = strip_start_chars(&id, '-');
    let t = strip_end_chars(&a, '-');
    if t.len() == 0 {
        chars_of(FALLBACK_ROOM)
    } else {
        t
    }
}

/// Sanitizes a free-form name into a relay room id, safe as a URL path segment.
///
/// Lowercases ASCII, keeps `a-z`, `0-9`, `-`, and `_`, and collapses every run of
/// anything else into a single `-`, trimming stray dashes from the ends. A name
/// with nothing usable in it becomes `"layout"`.
pub fn room_id(name: &str) -> (r: String)
    ensures
        r@ == spec_room_id(name@),
{
    let v = chars_of(name);
    let r = room_id_chars(&v);
    string_of(&r)
}

// ---------------------------------------------------------------------------
// Relay links
// ---------------------------------------------------------------------------

/// The relay spec the user typed, trimmed, or the default relay when empty.
pub open spec fn relay_or_default(server: Seq<char>) -> Seq<char> {
    if trim(server).len() == 0 {
        DEFAULT_SERVER@
    } else {
        trim(server)
    }
}

/// The WebSocket base for a relay spec: `ws://`/`wss://` kept, `http`/`https`
/// mapped to `ws`/`wss`, a bare host given `ws://`, trailing slashes dropped.
pub open spec fn ws_base(spec: Seq<char>) -> Seq<char> {
    let with_scheme = if has_prefix(spec, "ws://"@) || has_prefix(spec, "wss://"@) {
        spec
    } else if has_prefix(spec, "https://"@) {
        "wss://"@ + spec.skip("https://"@.len() as int)
    } else if has_prefix(spec, "http://"@) {
        "ws://"@ + spec.skip("http://"@.len() as int)
    } else {
        "ws://"@ + spec
    };
    strip_end(with_scheme, '/')
}

/// The relay join link for `room` on `server`.
pub open spec fn spec_room_link(server: Seq<char>, room: Seq<char>) -> Seq<char> {
    ws_base(relay_or_default(server)) + "/ws/"@ + spec_room_id(room)
}

pub(crate) fn relay_or_default_chars(server: &[char]) -> (r: Vec<char>)
    ensures
        r@ == relay_or_default(server@),
{
    let t = trim_chars(server);
    if t.len() == 0 {
        chars_of(DEFAULT_SERVER)
    } else {
        t
    }
}

pub(crate) fn ws_base_chars(spec: &[char]) -> (r: Vec<char>)
    ensures
        r@ == ws_base(spec@),
{
    let mut with_scheme: Vec<char> = Vec::new();
    if starts_with(spec, "ws://") || starts_with(spec, "wss://") {
        extend_chars(&mut with_scheme, spec);
    } else if starts_with(spec, "https://") {
        let n = chars_of("https://").len();
        extend_str(&mut with_scheme, "wss://");
        let rest = slice_chars(spec, n, spec.len());
        extend_chars(&mut with_scheme, &rest);
    } else if starts_with(spec, "http://") {
        let n = chars_of("http://").len();
        extend_str(&mut with_scheme, "ws://");
        let rest = slice_chars(spec, n, spec.len());
        extend_chars(&mut with_scheme, &rest);
    } else {
        extend_str(&mut with_scheme, "ws://");
        extend_chars(&mut with_scheme, spec);
    }
    assert(spec@.skip("https://"@.len() as int) =~= spec@.subrange(
        "https://"@.len() as int,
        spec@.len() as int,
    ));
    assert(spec@.skip("http://"@.len() as int) =~= spec@.subrange(
        "http://"@.len() as int,
        spec@.len() as int,
    ));
    strip_end_chars(&with_scheme, '/')
}

/// Composes the WebSocket join link for `room` on `server`.
///
/// A bare `host:port` gets the `ws://` scheme, `http`/`https` map to `ws`/`wss`,
/// and an explicit `ws://` or `wss://` is kept. Trailing slashes are dropped
/// before the `/ws/{room}` route is appended; the room goes through [`room_id`].
/// An empty server spec falls back to [`DEFAULT_SERVER`].
pub fn room_link(server: &str, room: &str) -> (r: String)
    ensures
        r@ == spec_room_link(server@, room@),
{
    let sv = chars_of(server);
    let spec = relay_or_default_chars(&sv);
    let mut out = ws_base_chars(&spec);
    extend_str(&mut out, "/ws/");
    let rv = chars_of(room);
    let id = room_id_chars(&rv);
    extend_chars(&mut out, &id);
    string_of(&out)
}

/// Composes the read-only WebSocket link a viewer page dials: [`room_link`]
/// with `?mode=view` appended.
pub fn viewer_ws_link(relay: &str, room: &str) -> (r: String)
    ensures
        r@ == spec_room_link(relay@, room@) + "?mode=view"@,
{
    let base = room_link(relay, room);
    let mut out = chars_of(base.as_str());
    extend_str(&mut out, "?mode=view");
    string_of(&out)
}

// ---------------------------------------------------------------------------
// Query-component encoding
// ---------------------------------------------------------------------------

/// How one character of a relay spec is written into a query value.
pub open spec fn enc_char(c: char) -> Seq<char> {
    if c == '&' {
        "%26"@
    } else if c == '=' {
        "%3D"@
    } else if c == '%' {
        "%25"@
    } else if c == '#' {
        "%23"@
    } else if c == '?' {
        "%3F"@
    } else if c == ' ' {
        "%20"@
    } else {
        seq![c]
    }
}

/// Percent-encodes the characters that would break a query component.
pub open spec fn encode_query(s: Seq<char>) -> Seq<char>
    decreases s.len(),
{
    if s.len() == 0 {
        Seq::empty()
    } else {
        encode_query(s.drop_last()) + enc_char(s.last())
    }
}

pub(crate) fn encode_query_chars(s: &[char]) -> (r: Vec<char>)
    ensures
        r@ == encode_query(s@),
{
    let mut out: Vec<char> = Vec::new();
    for i in 0..s.len()
        invariant
            out@ == encode_query(s@.subrange(0, i as int)),
    {
        let c = s[i];
        assert(s@.subrange(0, i + 1).drop_last() =~= s@.subrange(0, i as int));
        if c == '&' {
            extend_str(&mut out, "%26");
        } else if c == '=' {
            extend_str(&mut out, "%3D");
        } else if c == '%' {
            extend_str(&mut out, "%25");
        } else if c == '#' {
            extend_str(&mut out, "%23");
        } else if c == '?' {
            extend_str(&mut out, "%3F");
        } else if c == ' ' {
            extend_str(&mut out, "%20");
        } else {
            out.push(c);
        }
    }
    assert(s@.subrange(0, s@.len() as int) =~= s@);
    out
}

/// Whether `b` is an ASCII hex digit.
pub open spec fn is_hex(b: u8) -> bool {
    (48 <= b <= 57) || (97 <= b <= 102) || (65 <= b <= 70)
}

/// The value of the ASCII hex digit `b`.
pub open spec fn hex_value(b: u8) -> u8 {
    if 48 <= b <= 57 {
        (b - 48) as u8
    } else if 97 <= b <= 102 {
        (b - 87) as u8
    } else {
        (b - 55) as u8
    }
}

/// The value of a single ASCII hex digit, or `None`.
pub fn hex_val(b: u8) -> (r: Option<u8>)
    ensures
        r == (if is_hex(b) {
            Some(hex_value(b))
        } else {
            None
        }),
{
    if 48 <= b && b <= 57 {
        Some(b - 48)
    } else if 97 <= b && b <= 102 {
        Some(b - 87)
    } else if 65 <= b && b <= 70 {
        Some(b - 55)
    } else {
        None
    }
}

/// Whether `b` starts with a `%XX` escape.
pub open spec fn starts_escape(b: Seq<u8>) -> bool {
    b.len() >= 3 && b[0] == 37 && is_hex(b[1]) && is_hex(b[2])
}

/// Decodes every `%XX` escape of `b` into its byte; every other byte (including a
/// `%` without two hex digits after it) is kept verbatim.
pub open spec fn pct_decode(b: Seq<u8>) -> Seq<u8>
    decreases b.len(),
{
    if b.len() == 0 {
        Seq::empty()
    } else if starts_escape(b) {
        seq![(hex_value(b[1]) * 16 + hex_value(b[2])) as u8] + pct_decode(b.skip(3))
    } else {
        seq![b[0]] + pct_decode(b.drop_first())
    }
}

/// A query value `s` decoded: escapes to bytes, then the bytes read as
/// UTF-8.
pub open spec fn decode_query(s: Seq<char>) -> Seq<char> {
    read_utf8(pct_decode(vstd::utf8::encode_utf8(s)))
}

/// The bytes of an ASCII character sequence.
pub open spec fn ascii_bytes(s: Seq<char>) -> Seq<u8> {
    s.map_values(|c: char| c as u8)
}

proof fn lemma_utf8_of_ascii(s: Seq<char>)
    requires
        vstd::utf8::is_ascii_chars(s),
    ensures
        vstd::utf8::encode_utf8(s) == ascii_bytes(s),
{
    vstd::utf8::is_ascii_chars_encode_utf8(s);
    assert(vstd::utf8::encode_utf8(s) =~= ascii_bytes(s));
}

proof fn lemma_encode_query_front(s: Seq<char>)
    requires
        s.len() > 0,
    ensures
        encode_query(s) == enc_char(s[0]) + encode_query(s.drop_first()),
    decreases s.len(),
{
    if s.len() == 1 {
        assert(s.drop_last() =~= Seq::<char>::empty());
        assert(s.drop_first() =~= Seq::<char>::empty());
        assert(encode_query(s) =~= enc_char(s[0]) + encode_query(s.drop_first()));
    } else {
        lemma_encode_query_front(s.drop_last());
        assert(s.drop_last().drop_first() =~= s.drop_first().drop_last());
        assert(s.drop_first().last() == s.last());
        assert(encode_query(s) =~= enc_char(s[0]) + encode_query(s.drop_first()));
    }
}

proof fn lemma_enc_char_shape(c: char)
    requires
        '\0' <= c <= '\u{7f}',
    ensures
        vstd::utf8::is_ascii_chars(enc_char(c)),
        forall|i: int| 0 <= i < enc_char(c).len() ==> enc_char(c)[i] != '&',
        forall|rest: Seq<u8>|
            pct_decode(#[trigger] (ascii_bytes(enc_char(c)) + rest)) == seq![c as u8] + pct_decode(
                rest,
            ),
{
    reveal_strlit("%26");
    reveal_strlit("%3D");
    reveal_strlit("%25");
    reveal_strlit("%23");
    reveal_strlit("%3F");
    reveal_strlit("%20");
    assert forall|rest: Seq<u8>|
        pct_decode(#[trigger] (ascii_bytes(enc_char(c)) + rest)) == seq![c as u8] + pct_decode(
            rest,
        ) by {
        let b = ascii_bytes(enc_char(c)) + rest;
        if enc_char(c).len() == 3 {
            assert(b.skip(3) =~= rest);
            assert(starts_escape(b));
        } else {
            assert(enc_char(c) == seq![c]);
            assert(b.drop_first() =~= rest);
            assert(b[0] == c as u8);
            assert(c != '%');
            let v = c as u32;
            assert(v < 128);
            assert(b[0] != 37);
        }
    }
}

proof fn lemma_utf8_concat(a: Seq<char>, b: Seq<char>)
    ensures
        vstd::utf8::encode_utf8(a + b) == vstd::utf8::encode_utf8(a) + vstd::utf8::encode_utf8(b),
    decreases a.len(),
{
    if a.len() == 0 {
        assert(a + b =~= b);
        assert(vstd::utf8::encode_utf8(a) + vstd::utf8::encode_utf8(b) =~= vstd::utf8::encode_utf8(b));
    } else {
        assert((a + b).drop_first() =~= a.drop_first() + b);
        assert((a + b)[0] == a[0]);
        lemma_utf8_concat(a.drop_first(), b);
        assert(vstd::utf8::encode_utf8(a + b) =~= vstd::utf8::encode_utf8(a) + vstd::utf8::encode_utf8(b));
    }
}

/// No byte of the UTF-8 encoding of a character other than `%` is `%`.
proof fn lemma_utf8_no_percent(c: char)
    requires
        c != '%',
    ensures
        forall|i: int| 0 <= i < vstd::utf8::encode_utf8(seq![c]).len() ==> vstd::utf8::encode_utf8(seq![c])[i] != 37,
{
    let one = seq![c];
    assert(one.drop_first() =~= Seq::<char>::empty());
    let v = c as u32;
    vstd::utf8::char_is_scalar(c);
    let e = vstd::utf8::encode_scalar(v);
    assert(one[0] == c);
    assert(vstd::utf8::encode_utf8(one.drop_first()) =~= Seq::<u8>::empty());
    assert(vstd::utf8::encode_utf8(one) == e + vstd::utf8::encode_utf8(one.drop_first()));
    assert(vstd::utf8::encode_utf8(one) =~= e);
    if vstd::utf8::has_width_1_encoding(v) {
        assert(v != 37);
        assert(vstd::utf8::leading_byte_width_1(v) != 37u8) by (bit_vector)
            requires
                v <= 0x7f,
                v != 37,
        ;
    } else if vstd::utf8::has_width_2_encoding(v) {
        assert(vstd::utf8::leading_byte_width_2(v) != 37u8) by (bit_vector);
        assert(vstd::utf8::last_continuation_byte(v) != 37u8) by (bit_vector);
    } else if vstd::utf8::has_width_3_encoding(v) {
        assert(vstd::utf8::leading_byte_width_3(v) != 37u8) by (bit_vector);
        assert(vstd::utf8::second_last_continuation_byte(v) != 37u8) by (bit_vector);
        assert(vstd::utf8::last_continuation_byte(v) != 37u8) by (bit_vector);
    } else {
        assert(vstd::utf8::leading_byte_width_4(v) != 37u8) by (bit_vector);
        assert(vstd::utf8::third_last_continuation_byte(v) != 37u8) by (bit_vector);
        assert(vstd::utf8::second_last_continuation_byte(v) != 37u8) by (bit_vector);
        assert(vstd::utf8::last_continuation_byte(v) != 37u8) by (bit_vector);
    }
}

/// Bytes without a `%` pass through percent-decoding unchanged.
proof fn lemma_pct_decode_keeps(e: Seq<u8>, t: Seq<u8>)
    requires
        forall|i: int| 0 <= i < e.len() ==> e[i] != 37,
    ensures
        pct_decode(e + t) == e + pct_decode(t),
    decreases e.len(),
{
    if e.len() == 0 {
        assert(e + t =~= t);
        assert(e + pct_decode(t) =~= pct_decode(t));
    } else {
        let b = e + t;
        assert(b[0] == e[0]);
        assert(!starts_escape(b));
        assert(b.drop_first() =~= e.drop_first() + t);
        lemma_pct_decode_keeps(e.drop_first(), t);
        assert(pct_decode(b) =~= e + pct_decode(t));
    }
}

proof fn lemma_pct_decode_encode_query(s: Seq<char>)
    ensures
        pct_decode(vstd::utf8::encode_utf8(encode_query(s))) == vstd::utf8::encode_utf8(s),
    decreases s.len(),
{
    if s.len() == 0 {
        assert(pct_decode(vstd::utf8::encode_utf8(encode_query(s))) =~= vstd::utf8::encode_utf8(s));
    } else {
        let c = s[0];
        let rest = s.drop_first();
        lemma_pct_decode_encode_query(rest);
        lemma_encode_query_front(s);
        let e = enc_char(c);
        let r = encode_query(rest);
        lemma_utf8_concat(e, r);
        assert(s =~= seq![c] + rest);
        lemma_utf8_concat(seq![c], rest);
        let tail = vstd::utf8::encode_utf8(r);
        if '\0' <= c <= '\u{7f}' {
            lemma_enc_char_shape(c);
            lemma_utf8_of_ascii(e);
            lemma_utf8_of_ascii(seq![c]);
            assert(ascii_bytes(seq![c]) =~= seq![c as u8]);
            assert(pct_decode(ascii_bytes(e) + tail) == seq![c as u8] + pct_decode(tail));
        } else {
            assert(e == seq![c]);
            lemma_utf8_no_percent(c);
            lemma_pct_decode_keeps(vstd::utf8::encode_utf8(seq![c]), tail);
        }
    }
}

/// Decoding a query value undoes its encoding, for every string.
pub proof fn lemma_decode_encode_query(s: Seq<char>)
    ensures
        decode_query(encode_query(s)) == s,
{
    lemma_pct_decode_encode_query(s);
    vstd::utf8::encode_utf8_valid_utf8(s);
    vstd::utf8::encode_utf8_decode_utf8(s);
}

/// The encoding of a query value never holds a `&`, so it never splits a
/// query apart.
pub proof fn lemma_encode_query_no_amp(s: Seq<char>)
    ensures
        forall|i: int| 0 <= i < encode_query(s).len() ==> encode_query(s)[i] != '&',
    decreases s.len(),
{
    reveal_strlit("%26");
    reveal_strlit("%3D");
    reveal_strlit("%25");
    reveal_strlit("%23");
    reveal_strlit("%3F");
    reveal_strlit("%20");
    if s.len() > 0 {
        lemma_encode_query_no_amp(s.drop_last());
        let p = encode_query(s.drop_last());
        let e = enc_char(s.last());
        assert forall|i: int| 0 <= i < (p + e).len() implies (p + e)[i] != '&' by {
            if i < p.len() {
                assert((p + e)[i] == p[i]);
            } else {
                assert((p + e)[i] == e[i - p.len()]);
            }
        }
    }
}

/// Percent-decodes the bytes `b`.
pub fn pct_decode_bytes(b: &[u8]) -> (r: Vec<u8>)
    ensures
        r@ == pct_decode(b@),
{
    let mut out: Vec<u8> = Vec::new();
    let mut i: usize = 0;
    assert(b@.skip(0) =~= b@);
    while i < b.len()
        invariant
            i <= b@.len(),
            out@ + pct_decode(b@.skip(i as int)) == pct_decode(b@),
        decreases b.len() - i,
    {
        let ghost rest = b@.skip(i as int);
        if b[i] == 37 && b.len() - i > 2 {
            let h = hex_val(b[i + 1]);
            let l = hex_val(b[i + 2]);
            if h.is_some() && l.is_some() {
                let hv = h.unwrap();
                let lv = l.unwrap();
                let v: u8 = hv * 16 + lv;
                assert(starts_escape(rest));
                assert(rest.skip(3) =~= b@.skip(i + 3));
                let ghost before = out@;
                out.push(v);
                assert(out@ + pct_decode(b@.skip(i + 3)) =~= before + pct_decode(rest));
                i = i + 3;
                continue;
            }
        }
        assert(!starts_escape(rest));
        assert(rest.drop_first() =~= b@.skip(i + 1));
        let ghost before = out@;
        out.push(b[i]);
        assert(out@ + pct_decode(b@.skip(i + 1)) =~= before + pct_decode(rest));
        i = i + 1;
    }
    assert(b@.skip(i as int) =~= Seq::<u8>::empty());
    assert(out@ + pct_decode(b@.skip(i as int)) =~= out@);
    out
}

/// The UTF-8 bytes of the characters `s`.
pub fn utf8_bytes(s: &[char]) -> (r: Vec<u8>)
    ensures
        r@ == vstd::utf8::encode_utf8(s@),
{
    let st = string_of(s);
    let b = st.as_str().as_bytes();
    vstd::slice::slice_to_vec(b)
}

pub(crate) fn decode_query_chars(s: &[char]) -> (r: Vec<char>)
    ensures
        r@ == decode_query(s@),
{
    let b = utf8_bytes(s);
    let d = pct_decode_bytes(&b);
    let text = lossy_string(d.as_slice());
    chars_of(text.as_str())
}

// ---------------------------------------------------------------------------
// Page queries
// ---------------------------------------------------------------------------

/// The `key=value` pairs of a page query (a leading `?` is tolerated).
pub open spec fn query_pairs(q: Seq<char>) -> Seq<Seq<char>> {
    split(strip_start(q, '?'), '&')
}

/// The key of one query pair: everything before the first `=` (or the whole pair).
pub open spec fn pair_key(p: Seq<char>) -> Seq<char> {
    match split_once(p, '=') {
        Some((k, _)) => k,
        None => p,
    }
}

/// The raw value of one query pair: everything after the first `=` (or empty).
pub open spec fn pair_value(p: Seq<char>) -> Seq<char> {
    match split_once(p, '=') {
        Some((_, v)) => v,
        None => Seq::empty(),
    }
}

/// The raw value of the last non-empty pair whose key is `key`.
pub open spec fn last_value(pairs: Seq<Seq<char>>, key: Seq<char>) -> Option<Seq<char>>
    decreases pairs.len(),
{
    if pairs.len() == 0 {
        None
    } else if pairs.last().len() > 0 && pair_key(pairs.last()) == key {
        Some(pair_value(pairs.last()))
    } else {
        last_value(pairs.drop_last(), key)
    }
}

/// The raw value of the first pair whose key is `key`.
pub open spec fn first_value(pairs: Seq<Seq<char>>, key: Seq<char>) -> Option<Seq<char>>
    decreases pairs.len(),
{
    if pairs.len() == 0 {
        None
    } else if pair_key(pairs[0]) == key {
        Some(pair_value(pairs[0]))
    } else {
        first_value(pairs.drop_first(), key)
    }
}

pub(crate) fn query_pairs_chars(q: &[char]) -> (r: Vec<Vec<char>>)
    ensures
        r@.map_values(|v: Vec<char>| v@) == query_pairs(q@),
{
    let body = strip_start_chars(q, '?');
    split_chars(&body, '&')
}

pub(crate) fn key_value(p: &[char]) -> (r: (Vec<char>, Vec<char>))
    ensures
        r.0@ == pair_key(p@),
        r.1@ == pair_value(p@),
{
    match split_once_chars(p, '=') {
        Some((k, v)) => (k, v),
        None => (slice_chars(p, 0, p.len()), Vec::new()),
    }
}

pub(crate) fn last_value_of(pairs: &Vec<Vec<char>>, key: &str) -> (r: Option<Vec<char>>)
    ensures
        match r {
            Some(v) => last_value(pairs@.map_values(|v: Vec<char>| v@), key@) == Some(v@),
            None => last_value(pairs@.map_values(|v: Vec<char>| v@), key@) is None,
        },
{
    let ghost all = pairs@.map_values(|v: Vec<char>| v@);
    let mut found: Option<Vec<char>> = None;
    for i in 0..pairs.len()
        invariant
            all == pairs@.map_values(|v: Vec<char>| v@),
            match found {
                Some(v) => last_value(all.take(i as int), key@) == Some(v@),
                None => last_value(all.take(i as int), key@) is None,
            },
    {
        let (k, v) = key_value(&pairs[i]);
        assert(all.take(i + 1).drop_last() =~= all.take(i as int));
        assert(all.take(i + 1).last() == pairs@[i as int]@);
        if pairs[i].len() > 0 && chars_eq_str(&k, key) {
            found = Some(v);
        }
    }
    assert(all.take(pairs@.len() as int) =~= all);
    found
}

pub(crate) fn first_value_of(pairs: &Vec<Vec<char>>, key: &str) -> (r: Option<Vec<char>>)
    ensures
        match r {
            Some(v) => first_value(pairs@.map_values(|v: Vec<char>| v@), key@) == Some(v@),
            None => first_value(pairs@.map_values(|v: Vec<char>| v@), key@) is None,
        },
{
    let ghost all = pairs@.map_values(|v: Vec<char>| v@);
    assert(all.skip(0) =~= all);
    for i in 0..pairs.len()
        invariant
            all == pairs@.map_values(|v: Vec<char>| v@),
            first_value(all, key@) == first_value(all.skip(i as int), key@),
    {
        let (k, v) = key_value(&pairs[i]);
        assert(all.skip(i as int)[0] == pairs@[i as int]@);
        if chars_eq_str(&k, key) {
            return Some(v);
        }
        assert(all.skip(i as int).drop_first() =~= all.skip(i + 1));
    }
    assert(all.skip(pairs@.len() as int) =~= Seq::<Seq<char>>::empty());
    None
}

// ---------------------------------------------------------------------------
// Read-only viewer links
// ---------------------------------------------------------------------------

/// A page origin with whitespace and trailing slashes removed.
pub open spec fn page_base(page: Seq<char>) -> Seq<char> {
    strip_end(trim(page), '/')
}

/// Joins a page origin and a query: `?query` for an empty origin, else
/// `origin/?query`.
pub open spec fn join_page(page: Seq<char>, query: Seq<char>) -> Seq<char> {
    if page_base(page).len() == 0 {
        "?"@ + query
    } else {
        page_base(page) + "/?"@ + query
    }
}

/// The query a viewer link carries.
pub open spec fn viewer_query(relay: Seq<char>, room: Seq<char>) -> Seq<char> {
    "view="@ + VIEWER_VIEW@ + "&room="@ + spec_room_id(room) + "&relay="@ + encode_query(
        relay_or_default(relay),
    )
}

/// The read-only viewer page link.
pub open spec fn spec_viewer_link(page: Seq<char>, relay: Seq<char>, room: Seq<char>) -> Seq<
    char,
> {
    join_page(page, viewer_query(relay, room))
}

pub(crate) fn join_page_chars(page: &str, query: &[char]) -> (r: Vec<char>)
    ensures
        r@ == join_page(page@, query@),
{
    let pv = chars_of(page);
    let t = trim_chars(&pv);
    let base = strip_end_chars(&t, '/');
    let mut out: Vec<char> = Vec::new();
    if base.len() == 0 {
        extend_str(&mut out, "?");
        extend_chars(&mut out, query);
    } else {
        extend_chars(&mut out, &base);
        extend_str(&mut out, "/?");
        extend_chars(&mut out, query);
    }
    out
}

/// Whether a character is rewritten by the query encoding.
pub open spec fn is_reserved(c: char) -> bool {
    c == '&' || c == '=' || c == '%' || c == '#' || c == '?' || c == ' '
}

proof fn lemma_encode_query_plain(t: Seq<char>)
    requires
        forall|i: int| 0 <= i < t.len() ==> !is_reserved(#[trigger] t[i]),
    ensures
        encode_query(t) == t,
    decreases t.len(),
{
    if t.len() > 0 {
        lemma_encode_query_plain(t.drop_last());
        assert(encode_query(t) =~= t);
    }
}

/// An ASCII string that the encoding leaves alone decodes to itself.
pub proof fn lemma_decode_plain(t: Seq<char>)
    requires
        vstd::utf8::is_ascii_chars(t),
        forall|i: int| 0 <= i < t.len() ==> !is_reserved(#[trigger] t[i]),
    ensures
        decode_query(t) == t,
{
    lemma_encode_query_plain(t);
    lemma_decode_encode_query(t);
}

pub proof fn lemma_room_id_plain(name: Seq<char>)
    ensures
        vstd::utf8::is_ascii_chars(spec_room_id(name)),
        forall|i: int| 0 <= i < spec_room_id(name).len() ==> !is_reserved(#[trigger] spec_room_id(name)[i]),
        decode_query(spec_room_id(name)) == spec_room_id(name),
{
    lemma_room_id_shape(name);
    let t = spec_room_id(name);
    assert forall|i: int| 0 <= i < t.len() implies '\0' <= #[trigger] t[i] <= '\u{7f}' by {
        assert(is_room_char(t[i]));
    }
    assert forall|i: int| 0 <= i < t.len() implies !is_reserved(#[trigger] t[i]) by {
        assert(is_room_char(t[i]));
    }
    lemma_decode_plain(t);
}

/// Resolving a relay spec twice changes nothing.
pub proof fn lemma_relay_or_default_idempotent(relay: Seq<char>)
    ensures
        relay_or_default(relay_or_default(relay)) == relay_or_default(relay),
{
    reveal_strlit("127.0.0.1:3030");
    crate::text::lemma_trim_idempotent(relay);
    if trim(relay).len() == 0 {
        let d = DEFAULT_SERVER@;
        assert(!crate::text::is_ws(d[0]) && !crate::text::is_ws(d.last()));
        crate::text::lemma_trim_of_trimmed(d);
    }
}

/// A viewer link's query reads back as the room it was made for (sanitized)
/// and the relay it names (trimmed, or the default relay), for every room
/// name and every relay spec: parsing is the inverse of making the link.
#[verifier::rlimit(40)]
pub proof fn lemma_viewer_query_round_trip(relay: Seq<char>, room: Seq<char>)
    ensures
        spec_parse_viewer_query(viewer_query(relay, room)) == Some(
            (spec_room_id(room), relay_or_default(relay)),
        ),
{
    reveal_strlit("view=");
    reveal_strlit("viewer");
    reveal_strlit("&room=");
    reveal_strlit("&relay=");
    reveal_strlit("view");
    reveal_strlit("room");
    reveal_strlit("relay");
    let id = spec_room_id(room);
    let spec = relay_or_default(relay);
    lemma_relay_or_default_idempotent(relay);
    lemma_encode_query_no_amp(spec);
    let enc = encode_query(spec);
    lemma_room_id_plain(room);
    lemma_room_id_idempotent(room);
    let p0 = "view=viewer"@;
    reveal_strlit("view=viewer");
    let p1 = "room="@ + id;
    reveal_strlit("room=");
    let p2 = "relay="@ + enc;
    reveal_strlit("relay=");
    let q = viewer_query(relay, room);
    assert(q =~= p0 + seq!['&'] + (p1 + seq!['&'] + p2));
    assert(strip_start(q, '?') == q);
    assert forall|k: int| 0 <= k < p0.len() implies p0[k] != '&' by {}
    assert forall|k: int| 0 <= k < p1.len() implies p1[k] != '&' by {
        if k >= 5 {
            assert(p1[k] == id[k - 5]);
            assert(!is_reserved(id[k - 5]));
        }
    }
    assert forall|k: int| 0 <= k < p2.len() implies p2[k] != '&' by {
        if k >= 6 {
            assert(p2[k] == enc[k - 6]);
        }
    }
    crate::text::lemma_split_at_first(p0, '&', p1 + seq!['&'] + p2);
    crate::text::lemma_split_at_first(p1, '&', p2);
    crate::text::lemma_split_whole(p2, '&');
    let pairs = query_pairs(q);
    assert(pairs =~= seq![p0, p1, p2]);
    crate::text::lemma_split_at_first("view"@, '=', "viewer"@);
    assert(p0 =~= "view"@ + seq!['='] + "viewer"@);
    crate::text::lemma_split_at_first("room"@, '=', id);
    assert(p1 =~= "room"@ + seq!['='] + id);
    crate::text::lemma_split_at_first("relay"@, '=', enc);
    assert(p2 =~= "relay"@ + seq!['='] + enc);
    assert(pair_key(p2) == "relay"@ && pair_value(p2) == enc);
    assert(pair_key(p1) == "room"@ && pair_value(p1) == id);
    assert(pair_key(p0) == "view"@ && pair_value(p0) == "viewer"@);
    assert(pairs.drop_last() =~= seq![p0, p1]);
    assert(pairs.drop_last().drop_last() =~= seq![p0]);
    assert("room"@[0] != "view"@[0]);
    assert("relay"@.len() != "view"@.len() && "relay"@.len() != "room"@.len());
    let d1 = pairs.drop_last();
    let d0 = d1.drop_last();
    assert(last_value(d0, "view"@) == Some("viewer"@));
    assert(last_value(d1, "view"@) == Some("viewer"@));
    assert(last_value(pairs, "view"@) == Some("viewer"@));
    assert(last_value(d1, "room"@) == Some(id));
    assert(last_value(pairs, "room"@) == Some(id));
    assert(last_value(pairs, "relay"@) == Some(enc));
    assert forall|k: int| 0 <= k < "viewer"@.len() implies '\0' <= #[trigger] "viewer"@[k] <= '\u{7f}' && !is_reserved("viewer"@[k]) by {}
    lemma_decode_plain("viewer"@);
    lemma_decode_encode_query(spec);
}

/// Composes the read-only viewer page link for `room` on `relay`, hosted at the
/// page origin `page`: the query carries `view=viewer`, the sanitized room, and
/// the (percent-encoded) relay. An empty `page` yields a relative `?...` query;
/// an empty `relay` falls back to [`DEFAULT_SERVER`].
pub fn viewer_link(page: &str, relay: &str, room: &str) -> (r: String)
    ensures
        r@ == spec_viewer_link(page@, relay@, room@),
{
    let rv = chars_of(room);
    let id = room_id_chars(&rv);
    let relv = chars_of(relay);
    let spec = relay_or_default_chars(&relv);
    let enc = encode_query_chars(&spec);
    let mut q: Vec<char> = Vec::new();
    extend_str(&mut q, "view=");
    extend_str(&mut q, VIEWER_VIEW);
    extend_str(&mut q, "&room=");
    extend_chars(&mut q, &id);
    extend_str(&mut q, "&relay=");
    extend_chars(&mut q, &enc);
    let out = join_page_chars(page, &q);
    string_of(&out)
}

/// The room and relay recovered from a viewer page's query string.
#[derive(Clone, PartialEq, Eq, Debug)]
pub struct ViewerTarget {
    /// The sanitized relay room the viewer joins read-only.
    pub room: String,
    /// The relay host the viewer connects to (as the sharer specified it).
    pub relay: String,
}

/// The relay a parsed query names: its decoded value trimmed, or the default
/// relay when absent or blank.
pub open spec fn relay_of(raw: Option<Seq<char>>) -> Seq<char> {
    match raw {
        Some(r) => relay_or_default(decode_query(r)),
        None => DEFAULT_SERVER@,
    }
}

/// The `(room, relay)` a viewer query names, or `None` when it is not a viewer
/// link (no `view=viewer`, or no `room` key).
pub open spec fn spec_parse_viewer_query(q: Seq<char>) -> Option<(Seq<char>, Seq<char>)> {
    let pairs = query_pairs(q);
    match (last_value(pairs, "view"@), last_value(pairs, "room"@)) {
        (Some(v), Some(r)) => if decode_query(v) == VIEWER_VIEW@ {
            Some((spec_room_id(decode_query(r)), relay_of(last_value(pairs, "relay"@))))
        } else {
            None
        },
        _ => None,
    }
}

/// Parses a viewer page's query string into a [`ViewerTarget`], or `None` if it
/// is not a viewer link. A leading `?` is tolerated; a missing or blank relay
/// falls back to [`DEFAULT_SERVER`]; the room goes through [`room_id`].
pub fn parse_viewer_query(query: &str) -> (r: Option<ViewerTarget>)
    ensures
        match r {
            Some(t) => spec_parse_viewer_query(query@) == Some((t.room@, t.relay@)),
            None => spec_parse_viewer_query(query@) is None,
        },
{
    let qv = chars_of(query);
    let pairs = query_pairs_chars(&qv);
    let view = last_value_of(&pairs, "view");
    let room = last_value_of(&pairs, "room");
    let relay = last_value_of(&pairs, "relay");
    let view = match view {
        Some(v) => v,
        None => return None,
    };
    let room = match room {
        Some(v) => v,
        None => return None,
    };
    let dv = decode_query_chars(&view);
    if !chars_eq_str(&dv, VIEWER_VIEW) {
        return None;
    }
    let dr = decode_query_chars(&room);
    let id = room_id_chars(&dr);
    let relay_chars = match relay {
        Some(r) => {
            let d = decode_query_chars(&r);
            relay_or_default_chars(&d)
        },
        None => chars_of(DEFAULT_SERVER),
    };
    Some(ViewerTarget { room: string_of(&id), relay: string_of(&relay_chars) })
}

// ---------------------------------------------------------------------------
// Boolean page flags
// ---------------------------------------------------------------------------

/// Whether the first `key` pair of the query has the value `1` or `true`.
pub open spec fn flag_set(q: Seq<char>, key: Seq<char>) -> bool {
    match first_value(query_pairs(q), key) {
        Some(v) => v == "1"@ || v == "true"@,
        None => false,
    }
}

fn read_flag(query: &str, key: &str) -> (r: bool)
    ensures
        r == flag_set(query@, key@),
{
    let qv = chars_of(query);
    let pairs = query_pairs_chars(&qv);
    match first_value_of(&pairs, key) {
        Some(v) => chars_eq_str(&v, "1") || chars_eq_str(&v, "true"),
        None => false,
    }
}

/// Whether the page query requests the e2e edit-script mode (`?e2e-edit=1`):
/// the first `e2e-edit` key decides, with `1` or `true` meaning yes.
pub fn parse_e2e_edit(query: &str) -> (r: bool)
    ensures
        r == flag_set(query@, "e2e-edit"@),
{
    read_flag(query, "e2e-edit")
}

/// Whether the page URL asks the replay theater to start playing on boot
/// (`?e2e-autoplay=1`).
pub fn parse_e2e_replay_autoplay(query: &str) -> (r: bool)
    ensures
        r == flag_set(query@, "e2e-autoplay"@),
{
    read_flag(query, "e2e-autoplay")
}

/// Whether the page URL requests embed mode (`?embed=1`).
pub fn parse_embed(query: &str) -> (r: bool)
    ensures
        r == flag_set(query@, "embed"@),
{
    read_flag(query, "embed")
}

// ---------------------------------------------------------------------------
// Permalink values
// ---------------------------------------------------------------------------

/// The unreserved URL bytes kept verbatim in a permalink value: `A-Za-z0-9-_.~`.
pub open spec fn is_unreserved(b: u8) -> bool {
    (65 <= b <= 90) || (97 <= b <= 122) || (48 <= b <= 57) || b == 45 || b == 95 || b == 46
        || b == 126
}

/// The uppercase ASCII hex digit for a nibble in `0..=15`.
pub open spec fn hex_digit_of(n: u8) -> u8 {
    if n <= 9 {
        (48 + n) as u8
    } else {
        (55 + n) as u8
    }
}

/// How one byte is written into a permalink value.
pub open spec fn enc_byte(b: u8) -> Seq<char> {
    if is_unreserved(b) {
        seq![b as char]
    } else {
        seq!['%', hex_digit_of(b / 16) as char, hex_digit_of(b % 16) as char]
    }
}

/// The full RFC 3986 component encoding of the bytes `b`.
pub open spec fn encode_bytes(b: Seq<u8>) -> Seq<char>
    decreases b.len(),
{
    if b.len() == 0 {
        Seq::empty()
    } else {
        encode_bytes(b.drop_last()) + enc_byte(b.last())
    }
}

/// The permalink encoding of the string `s`: each byte of its UTF-8 form.
pub open spec fn encode_value(s: Seq<char>) -> Seq<char> {
    encode_bytes(vstd::utf8::encode_utf8(s))
}

/// What `String::from_utf8_lossy` makes of the bytes `b`.
pub uninterp spec fn utf8_lossy(b: Seq<u8>) -> Seq<char>;

/// `String::from_utf8_lossy`: the bytes read as UTF-8, with every invalid
/// sequence replaced. The contract names the result and, as the standard library
/// documents, says that valid UTF-8 is decoded exactly; the replacement of
/// invalid sequences is left to the name.
#[verifier::external_body]
fn lossy_string(b: &[u8]) -> (r: String)
    ensures
        r@ == utf8_lossy(b@),
        vstd::utf8::valid_utf8(b@) ==> r@ == vstd::utf8::decode_utf8(b@),
{
    String::from_utf8_lossy(b).into_owned()
}

/// Bytes read as UTF-8: decoded exactly when valid, otherwise what
/// `String::from_utf8_lossy` makes of them.
pub open spec fn read_utf8(b: Seq<u8>) -> Seq<char> {
    if vstd::utf8::valid_utf8(b) {
        vstd::utf8::decode_utf8(b)
    } else {
        utf8_lossy(b)
    }
}

/// A permalink value decoded: escapes to bytes, then the bytes read as UTF-8.
pub open spec fn decode_value(s: Seq<char>) -> Seq<char> {
    read_utf8(pct_decode(vstd::utf8::encode_utf8(s)))
}

proof fn lemma_encode_bytes_front(b: Seq<u8>)
    requires
        b.len() > 0,
    ensures
        encode_bytes(b) == enc_byte(b[0]) + encode_bytes(b.drop_first()),
    decreases b.len(),
{
    if b.len() == 1 {
        assert(b.drop_last() =~= Seq::<u8>::empty());
        assert(b.drop_first() =~= Seq::<u8>::empty());
        assert(encode_bytes(b) =~= enc_byte(b[0]) + encode_bytes(b.drop_first()));
    } else {
        lemma_encode_bytes_front(b.drop_last());
        assert(b.drop_last().drop_first() =~= b.drop_first().drop_last());
        assert(b.drop_first().last() == b.last());
        assert(encode_bytes(b) =~= enc_byte(b[0]) + encode_bytes(b.drop_first()));
    }
}

proof fn lemma_hex_digit_round_trip(n: u8)
    requires
        n <= 15,
    ensures
        is_hex(hex_digit_of(n)),
        hex_value(hex_digit_of(n)) == n,
        hex_digit_of(n) < 128,
{
}

proof fn lemma_enc_byte_shape(x: u8)
    ensures
        vstd::utf8::is_ascii_chars(enc_byte(x)),
        forall|i: int| 0 <= i < enc_byte(x).len() ==> enc_byte(x)[i] != '&',
        forall|rest: Seq<u8>|
            pct_decode(#[trigger] (ascii_bytes(enc_byte(x)) + rest)) == seq![x] + pct_decode(rest),
{
    let hi = x / 16;
    let lo = x % 16;
    lemma_hex_digit_round_trip(hi);
    lemma_hex_digit_round_trip(lo);
    if is_unreserved(x) {
        let c = x as char;
        assert(c as u8 == x);
    } else {
        let e = enc_byte(x);
        assert(e[1] as u8 == hex_digit_of(hi));
        assert(e[2] as u8 == hex_digit_of(lo));
    }
    assert forall|rest: Seq<u8>|
        pct_decode(#[trigger] (ascii_bytes(enc_byte(x)) + rest)) == seq![x] + pct_decode(rest) by {
        let b = ascii_bytes(enc_byte(x)) + rest;
        if is_unreserved(x) {
            assert(b.drop_first() =~= rest);
            assert(b[0] == x);
            assert(b[0] != 37);
        } else {
            assert(b.skip(3) =~= rest);
            assert(b[0] == 37);
            assert(b[1] == hex_digit_of(hi));
            assert(b[2] == hex_digit_of(lo));
            assert(starts_escape(b));
            assert((hex_value(b[1]) * 16 + hex_value(b[2])) as u8 == x);
        }
    }
}

proof fn lemma_encode_bytes_decodes(b: Seq<u8>)
    ensures
        vstd::utf8::is_ascii_chars(encode_bytes(b)),
        forall|i: int| 0 <= i < encode_bytes(b).len() ==> encode_bytes(b)[i] != '&',
        pct_decode(ascii_bytes(encode_bytes(b))) == b,
    decreases b.len(),
{
    if b.len() == 0 {
        assert(pct_decode(ascii_bytes(encode_bytes(b))) =~= b);
    } else {
        let rest = b.drop_first();
        lemma_encode_bytes_decodes(rest);
        lemma_encode_bytes_front(b);
        lemma_enc_byte_shape(b[0]);
        let e = enc_byte(b[0]);
        let r = encode_bytes(rest);
        assert(ascii_bytes(e + r) =~= ascii_bytes(e) + ascii_bytes(r));
        assert(pct_decode(ascii_bytes(e) + ascii_bytes(r)) == seq![b[0]] + pct_decode(
            ascii_bytes(r),
        ));
        assert(b =~= seq![b[0]] + rest);
        assert forall|i: int| 0 <= i < (e + r).len() implies '\0' <= #[trigger] (e + r)[i]
            <= '\u{7f}' by {
            if i < e.len() {
                assert((e + r)[i] == e[i]);
            } else {
                assert((e + r)[i] == r[i - e.len()]);
            }
        }
        assert forall|i: int| 0 <= i < (e + r).len() implies #[trigger] (e + r)[i] != '&' by {
            if i < e.len() {
                assert((e + r)[i] == e[i]);
            } else {
                assert((e + r)[i] == r[i - e.len()]);
            }
        }
    }
}

/// Decoding a permalink value undoes its encoding, for every string.
pub proof fn lemma_decode_encode_value(s: Seq<char>)
    ensures
        decode_value(encode_value(s)) == s,
        forall|i: int| 0 <= i < encode_value(s).len() ==> encode_value(s)[i] != '&',
{
    let b = vstd::utf8::encode_utf8(s);
    lemma_encode_bytes_decodes(b);
    lemma_utf8_of_ascii(encode_bytes(b));
    vstd::utf8::encode_utf8_valid_utf8(s);
    vstd::utf8::encode_utf8_decode_utf8(s);
}

fn hex_digit(n: u8) -> (r: u8)
    requires
        n <= 15,
    ensures
        r == hex_digit_of(n),
{
    if n <= 9 {
        48 + n
    } else {
        55 + n
    }
}

/// Percent-encodes `s` as a permalink query-component value, byte by byte: the
/// unreserved characters are kept and every other byte becomes `%XX`.
pub fn encode_permalink_value(s: &str) -> (r: Vec<char>)
    ensures
        r@ == encode_value(s@),
{
    let b = s.as_bytes();
    let mut out: Vec<char> = Vec::new();
    for i in 0..b.len()
        invariant
            b@ == vstd::utf8::encode_utf8(s@),
            out@ == encode_bytes(b@.subrange(0, i as int)),
    {
        let x = b[i];
        assert(b@.subrange(0, i + 1).drop_last() =~= b@.subrange(0, i as int));
        if (65 <= x && x <= 90) || (97 <= x && x <= 122) || (48 <= x && x <= 57) || x == 45 || x
            == 95 || x == 46 || x == 126 {
            out.push(x as char);
        } else {
            out.push('%');
            out.push(hex_digit(x / 16) as char);
            out.push(hex_digit(x % 16) as char);
        }
    }
    assert(b@.subrange(0, b@.len() as int) =~= b@);
    out
}

/// Reverses [`encode_permalink_value`]: decodes `%XX` escapes and rebuilds the
/// UTF-8 string from the resulting bytes (lossily, so the result is always a
/// valid string). Invalid or truncated escapes are left verbatim.
pub fn decode_permalink_value(s: &[char]) -> (r: String)
    ensures
        r@ == decode_value(s@),
{
    let b = utf8_bytes(s);
    let d = pct_decode_bytes(&b);
    lossy_string(d.as_slice())
}

/// Parses a `layers=` CSV of `layer/datatype` specs into `(layer, datatype)`
/// pairs; an entry that is blank or not two `u16`s split by `/` is skipped.
pub open spec fn layer_spec(entry: Seq<char>) -> Option<(u16, u16)> {
    let t = trim(entry);
    match split_once(t, '/') {
        Some((l, d)) => match (
            parse_unsigned(trim(l), 65535),
            parse_unsigned(trim(d), 65535),
        ) {
            (Some(a), Some(b)) => Some((a as u16, b as u16)),
            _ => None,
        },
        None => None,
    }
}

/// The layer pairs a `layers=` value lists, in order, malformed entries skipped.
pub open spec fn layer_csv(entries: Seq<Seq<char>>) -> Seq<(u16, u16)>
    decreases entries.len(),
{
    if entries.len() == 0 {
        Seq::empty()
    } else {
        let rest = layer_csv(entries.drop_last());
        match layer_spec(entries.last()) {
            Some(p) => rest.push(p),
            None => rest,
        }
    }
}

fn layer_spec_chars(entry: &[char]) -> (r: Option<(u16, u16)>)
    ensures
        r == layer_spec(entry@),
{
    let t = trim_chars(entry);
    match split_once_chars(&t, '/') {
        Some((l, d)) => {
            let lt = trim_chars(&l);
            let dt = trim_chars(&d);
            let a = parse_unsigned_chars(&lt, 65535);
            let b = parse_unsigned_chars(&dt, 65535);
            match (a, b) {
                (Some(a), Some(b)) => Some((a as u16, b as u16)),
                _ => None,
            }
        },
        None => None,
    }
}

/// Parses a `layers=` CSV of `layer/datatype` specs, skipping any entry that is
/// not two `u16`s split by `/`. An empty value yields an empty list.
pub fn parse_layer_csv(value: &str) -> (r: Vec<(u16, u16)>)
    ensures
        r@ == layer_csv(split(value@, ',')),
{
    let v = chars_of(value);
    let entries = split_chars(&v, ',');
    let ghost all = entries@.map_values(|e: Vec<char>| e@);
    let mut out: Vec<(u16, u16)> = Vec::new();
    for i in 0..entries.len()
        invariant
            all == entries@.map_values(|e: Vec<char>| e@),
            all == split(v@, ','),
            out@ == layer_csv(all.take(i as int)),
    {
        assert(all.take(i + 1).drop_last() =~= all.take(i as int));
        assert(all.take(i + 1).last() == entries@[i as int]@);
        match layer_spec_chars(&entries[i]) {
            Some(p) => out.push(p),
            None => {},
        }
    }
    assert(all.take(entries@.len() as int) =~= all);
    out
}

// ---------------------------------------------------------------------------
// Archive links
// ---------------------------------------------------------------------------

/// The archive URL a page query names, or `None` when the `archive` key is
/// absent or its decoded value is blank.
pub open spec fn spec_archive_url(q: Seq<char>) -> Option<Seq<char>> {
    match first_value(query_pairs(q), ARCHIVE_KEY@) {
        Some(v) => if trim(decode_value(v)).len() == 0 {
            None
        } else {
            Some(trim(decode_value(v)))
        },
        None => None,
    }
}

/// Extracts the `?archive=<url>` target from a page query string, or `None` when
/// the parameter is absent or empty. The first `archive` key decides; its value
/// is percent-decoded and trimmed.
pub fn archive_url_from_query(query: &str) -> (r: Option<String>)
    ensures
        match r {
            Some(u) => spec_archive_url(query@) == Some(u@),
            None => spec_archive_url(query@) is None,
        },
{
    let qv = chars_of(query);
    let pairs = query_pairs_chars(&qv);
    match first_value_of(&pairs, ARCHIVE_KEY) {
        Some(v) => {
            let decoded = decode_permalink_value(&v);
            let dv = chars_of(decoded.as_str());
            let t = trim_chars(&dv);
            if t.len() == 0 {
                None
            } else {
                Some(string_of(&t))
            }
        },
        None => None,
    }
}

/// An archive link's query reads back as the archive URL it was made for,
/// trimmed, for every URL (`None` when the URL is blank).
pub proof fn lemma_archive_query_round_trip(url: Seq<char>)
    ensures
        spec_archive_url(ARCHIVE_KEY@ + "="@ + encode_value(url)) == if trim(url).len() == 0 {
            None
        } else {
            Some(trim(url))
        },
{
    reveal_strlit("archive");
    reveal_strlit("=");
    let enc = encode_value(url);
    lemma_decode_encode_value(url);
    let p = ARCHIVE_KEY@ + "="@ + enc;
    assert(p =~= "archive"@ + seq!['='] + enc);
    assert(strip_start(p, '?') == p);
    assert forall|k: int| 0 <= k < p.len() implies p[k] != '&' by {
        if k >= 8 {
            assert(p[k] == enc[k - 8]);
        }
    }
    crate::text::lemma_split_whole(p, '&');
    crate::text::lemma_split_at_first("archive"@, '=', enc);
    let pairs = query_pairs(p);
    assert(pairs =~= seq![p]);
    assert(pair_key(p) == "archive"@ && pair_value(p) == enc);
    assert(first_value(pairs, ARCHIVE_KEY@) == Some(enc));
}

/// The page link that opens the served archive at `url`.
pub open spec fn spec_archive_link(page: Seq<char>, url: Seq<char>) -> Seq<char> {
    join_page(page, ARCHIVE_KEY@ + "="@ + encode_value(url))
}

/// Composes a page URL that opens the served archive at `archive_url`, hosted at
/// page origin `base_page`. The URL is fully percent-encoded.
pub fn emit_archive_link(base_page: &str, archive_url: &str) -> (r: String)
    ensures
        r@ == spec_archive_link(base_page@, archive_url@),
{
    let mut q: Vec<char> = Vec::new();
    extend_str(&mut q, ARCHIVE_KEY);
    extend_str(&mut q, "=");
    let enc = encode_permalink_value(archive_url);
    extend_chars(&mut q, &enc);
    let out = join_page_chars(base_page, &q);
    string_of(&out)
}

// ---------------------------------------------------------------------------
// View-state permalinks
// ---------------------------------------------------------------------------

/// The permalink key naming the cell to focus.
pub const CELL_KEY: &'static str = "cell";

/// The permalink key carrying a camera spec (shared with the start-view
/// selector, whose keyword values are not camera specs).
pub const CAMERA_KEY: &'static str = "view";

/// The permalink key listing the layers to show.
pub const LAYERS_KEY: &'static str = "layers";

/// The page key naming the layout file to open.
pub const GDS_KEY: &'static str = "gds";

/// The view-state params a permalink query carries: the focus cell
/// (URL-decoded), the raw text of every `view` value in order (a camera spec
/// is three comma-separated numbers, which the caller reads), and the layers
/// to show.
#[derive(Clone, Debug, PartialEq, Eq, Default)]
pub struct PermalinkParams {
    /// The cell to focus, if the link names a non-empty one.
    pub cell: Option<String>,
    /// The raw value of each `view` key, in order.
    pub views: Vec<String>,
    /// The layers to show, `Some(empty)` meaning "hide everything"; `None`
    /// when the link carries no `layers` key.
    pub layers: Option<Vec<(u16, u16)>>,
}

/// Permalink params as plain values.
#[verifier::ext_equal]
pub struct PermalinkModel {
    /// The focus cell.
    pub cell: Option<Seq<char>>,
    /// The raw `view` values.
    pub views: Seq<Seq<char>>,
    /// The layers to show.
    pub layers: Option<Seq<(u16, u16)>>,
}

impl View for PermalinkParams {
    type V = PermalinkModel;

    open spec fn view(&self) -> PermalinkModel {
        PermalinkModel {
            cell: match self.cell {
                Some(c) => Some(c@),
                None => None,
            },
            views: self.views@.map_values(|v: String| v@),
            layers: match self.layers {
                Some(l) => Some(l@),
                None => None,
            },
        }
    }
}

/// No permalink params at all.
pub open spec fn empty_permalink() -> PermalinkModel {
    PermalinkModel { cell: None, views: Seq::empty(), layers: None }
}

/// What one query pair adds to the params read so far: a non-empty decoded
/// `cell`, one more `view` text, or a `layers` list replacing the last; empty
/// pairs and other keys change nothing.
pub open spec fn permalink_step(m: PermalinkModel, pair: Seq<char>) -> PermalinkModel {
    let key = pair_key(pair);
    let value = pair_value(pair);
    if pair.len() == 0 {
        m
    } else if key == CELL_KEY@ {
        if decode_value(value).len() > 0 {
            PermalinkModel { cell: Some(decode_value(value)), views: m.views, layers: m.layers }
        } else {
            m
        }
    } else if key == CAMERA_KEY@ {
        PermalinkModel { cell: m.cell, views: m.views.push(value), layers: m.layers }
    } else if key == LAYERS_KEY@ {
        PermalinkModel { cell: m.cell, views: m.views, layers: Some(layer_csv(split(value, ','))) }
    } else {
        m
    }
}

/// The params read from `pairs`, in order, on top of `start`.
pub open spec fn permalink_from(start: PermalinkModel, pairs: Seq<Seq<char>>) -> PermalinkModel
    decreases pairs.len(),
{
    if pairs.len() == 0 {
        start
    } else {
        permalink_step(permalink_from(start, pairs.drop_last()), pairs.last())
    }
}

/// The view-state params of a page query (a leading `?` is tolerated).
pub open spec fn spec_permalink_params(q: Seq<char>) -> PermalinkModel {
    permalink_from(empty_permalink(), query_pairs(q))
}

/// Parses the view-state params out of a page query string: `cell=<name>`
/// (URL-decoded, ignored when empty), every `view=<value>` as raw text, and
/// `layers=<csv>` of `layer/datatype` specs (malformed entries skipped, an
/// empty value meaning "hide everything"). Unknown keys and empty pairs are
/// ignored; nothing is ever refused.
pub fn parse_permalink_params(query: &str) -> (r: PermalinkParams)
    ensures
        r@ == spec_permalink_params(query@),
{
    let qv = chars_of(query);
    let pairs = query_pairs_chars(&qv);
    let ghost all = pairs@.map_values(|v: Vec<char>| v@);
    let mut out = PermalinkParams { cell: None, views: Vec::new(), layers: None };
    assert(out@.views =~= Seq::<Seq<char>>::empty());
    for i in 0..pairs.len()
        invariant
            all == pairs@.map_values(|v: Vec<char>| v@),
            all == query_pairs(query@),
            out@ == permalink_from(empty_permalink(), all.take(i as int)),
    {
        assert(all.take(i + 1).drop_last() =~= all.take(i as int));
        assert(all.take(i + 1).last() == pairs@[i as int]@);
        let p = &pairs[i];
        if p.len() > 0 {
            let (k, v) = key_value(p);
            if chars_eq_str(&k, CELL_KEY) {
                let name = decode_permalink_value(&v);
                let nv = chars_of(name.as_str());
                if nv.len() > 0 {
                    out.cell = Some(name);
                }
            } else if chars_eq_str(&k, CAMERA_KEY) {
                let ghost before = out.views@;
                out.views.push(string_of(&v));
                assert(out.views@.map_values(|x: String| x@) =~= before.map_values(|x: String| x@).push(v@));
            } else if chars_eq_str(&k, LAYERS_KEY) {
                let vs = string_of(&v);
                out.layers = Some(parse_layer_csv(vs.as_str()));
            }
        }
    }
    assert(all.take(pairs@.len() as int) =~= all);
    out
}

/// One `layer/datatype` entry of a `layers=` list.
pub open spec fn layer_item(p: (u16, u16)) -> Seq<char> {
    decimal(p.0 as nat) + "/"@ + decimal(p.1 as nat)
}

/// The entries of a `layers=` list.
pub open spec fn layer_items(ls: Seq<(u16, u16)>) -> Seq<Seq<char>> {
    ls.map_values(|p: (u16, u16)| layer_item(p))
}

/// One `key=value` pair.
pub open spec fn key_part(key: Seq<char>, value: Seq<char>) -> Seq<char> {
    key + "="@ + value
}

/// The pairs a permalink query is made of, in order: `gds` (when given),
/// `cell`, each `view` text, and `layers`; the `gds` and `cell` values are
/// percent-encoded. Absent fields emit no pair at all.
pub open spec fn permalink_parts(gds: Option<Seq<char>>, m: PermalinkModel) -> Seq<Seq<char>> {
    (match gds {
        Some(g) => seq![key_part(GDS_KEY@, encode_value(g))],
        None => Seq::empty(),
    }) + (match m.cell {
        Some(c) => seq![key_part(CELL_KEY@, encode_value(c))],
        None => Seq::empty(),
    }) + m.views.map_values(|t: Seq<char>| key_part(CAMERA_KEY@, t)) + (match m.layers {
        Some(ls) => seq![key_part(LAYERS_KEY@, join(layer_items(ls), ','))],
        None => Seq::empty(),
    })
}

/// The query of a permalink: its pairs joined by `&`.
pub open spec fn permalink_query(gds: Option<Seq<char>>, m: PermalinkModel) -> Seq<char> {
    join(permalink_parts(gds, m), '&')
}

/// A permalink page URL: `?query` for an empty page origin, `origin/?query`
/// otherwise, the bare origin (or nothing) when there is no query.
pub open spec fn spec_emit_permalink(page: Seq<char>, gds: Option<Seq<char>>, m: PermalinkModel) -> Seq<
    char,
> {
    let q = permalink_query(gds, m);
    let base = page_base(page);
    if base.len() == 0 {
        if q.len() == 0 {
            Seq::empty()
        } else {
            "?"@ + q
        }
    } else if q.len() == 0 {
        base
    } else {
        base + "/?"@ + q
    }
}

/// The optional text of an optional string.
pub open spec fn opt_chars(s: Option<&str>) -> Option<Seq<char>> {
    match s {
        Some(t) => Some(t@),
        None => None,
    }
}

fn push_pair(parts: &mut Vec<Vec<char>>, key: &str, value: &[char])
    ensures
        final(parts)@.map_values(|v: Vec<char>| v@) == old(parts)@.map_values(|v: Vec<char>| v@).push(
            key_part(key@, value@),
        ),
{
    let mut pair: Vec<char> = Vec::new();
    extend_str(&mut pair, key);
    extend_str(&mut pair, "=");
    extend_chars(&mut pair, value);
    let ghost before = parts@;
    parts.push(pair);
    assert(parts@.map_values(|v: Vec<char>| v@) =~= before.map_values(|v: Vec<char>| v@).push(
        key_part(key@, value@),
    ));
}

pub(crate) fn layers_text(ls: &[(u16, u16)]) -> (r: Vec<char>)
    ensures
        r@ == join(layer_items(ls@), ','),
{
    let mut items: Vec<Vec<char>> = Vec::new();
    for i in 0..ls.len()
        invariant
            items@.map_values(|v: Vec<char>| v@) == layer_items(ls@.take(i as int)),
    {
        let (l, d) = ls[i];
        let mut item: Vec<char> = Vec::new();
        push_decimal(&mut item, l as u64);
        extend_str(&mut item, "/");
        push_decimal(&mut item, d as u64);
        assert(item@ == layer_item(ls@[i as int]));
        let ghost before = items@.map_values(|v: Vec<char>| v@);
        items.push(item);
        assert(items@.map_values(|v: Vec<char>| v@) =~= before.push(layer_item(ls@[i as int])));
        assert(layer_items(ls@.take(i + 1)) =~= layer_items(ls@.take(i as int)).push(
            layer_item(ls@[i as int]),
        ));
    }
    assert(ls@.take(ls@.len() as int) =~= ls@);
    join_chars(&items, ',')
}

/// Emits a shareable page URL carrying `gds` (when given) and the view-state
/// params `p`, hosted at page origin `base_page`: the `gds` URL and the cell
/// name are percent-encoded, each `view` text is written as given, and the
/// layers as a `layer/datatype` list. Absent fields emit no key at all.
pub fn emit_permalink_params(base_page: &str, gds: Option<&str>, p: &PermalinkParams) -> (r: String)
    ensures
        r@ == spec_emit_permalink(base_page@, opt_chars(gds), p@),
{
    let mut parts: Vec<Vec<char>> = Vec::new();
    assert(parts@.map_values(|v: Vec<char>| v@) =~= Seq::<Seq<char>>::empty());
    match gds {
        Some(g) => {
            let enc = encode_permalink_value(g);
            push_pair(&mut parts, GDS_KEY, &enc);
        },
        None => {},
    }
    match &p.cell {
        Some(c) => {
            let enc = encode_permalink_value(c.as_str());
            push_pair(&mut parts, CELL_KEY, &enc);
        },
        None => {},
    }
    let ghost head = parts@.map_values(|v: Vec<char>| v@);
    let ghost views = p@.views;
    for i in 0..p.views.len()
        invariant
            views == p@.views,
            views == p.views@.map_values(|v: String| v@),
            parts@.map_values(|v: Vec<char>| v@) == head + views.take(i as int).map_values(
                |t: Seq<char>| key_part(CAMERA_KEY@, t),
            ),
    {
        let t = chars_of(p.views[i].as_str());
        push_pair(&mut parts, CAMERA_KEY, &t);
        assert(views.take(i + 1).map_values(|t: Seq<char>| key_part(CAMERA_KEY@, t)) =~= views.take(
            i as int,
        ).map_values(|t: Seq<char>| key_part(CAMERA_KEY@, t)).push(key_part(CAMERA_KEY@, t@)));
    }
    assert(views.take(views.len() as int) =~= views);
    match &p.layers {
        Some(ls) => {
            let text = layers_text(ls.as_slice());
            push_pair(&mut parts, LAYERS_KEY, &text);
        },
        None => {},
    }
    assert(parts@.map_values(|v: Vec<char>| v@) =~= permalink_parts(opt_chars(gds), p@));
    let q = join_chars(&parts, '&');
    let pv = chars_of(base_page);
    let t = trim_chars(&pv);
    let base = strip_end_chars(&t, '/');
    let mut out: Vec<char> = Vec::new();
    if base.len() == 0 {
        if q.len() > 0 {
            extend_str(&mut out, "?");
            extend_chars(&mut out, &q);
        }
    } else {
        extend_chars(&mut out, &base);
        if q.len() > 0 {
            extend_str(&mut out, "/?");
            extend_chars(&mut out, &q);
        }
    }
    string_of(&out)
}

proof fn lemma_permalink_from_append(start: PermalinkModel, a: Seq<Seq<char>>, b: Seq<Seq<char>>)
    ensures
        permalink_from(start, a + b) == permalink_from(permalink_from(start, a), b),
    decreases b.len(),
{
    if b.len() == 0 {
        assert(a + b =~= a);
    } else {
        lemma_permalink_from_append(start, a, b.drop_last());
        assert((a + b).drop_last() =~= a + b.drop_last());
        assert((a + b).last() == b.last());
    }
}

proof fn lemma_key_part(key: Seq<char>, value: Seq<char>)
    requires
        forall|k: int| 0 <= k < key.len() ==> key[k] != '=',
    ensures
        pair_key(key_part(key, value)) == key,
        pair_value(key_part(key, value)) == value,
        key_part(key, value).len() > key.len(),
{
    reveal_strlit("=");
    assert(key_part(key, value) =~= key + seq!['='] + value);
    crate::text::lemma_split_at_first(key, '=', value);
}

proof fn lemma_keys()
    ensures
        GDS_KEY@ == seq!['g', 'd', 's'],
        CELL_KEY@ == seq!['c', 'e', 'l', 'l'],
        CAMERA_KEY@ == seq!['v', 'i', 'e', 'w'],
        LAYERS_KEY@ == seq!['l', 'a', 'y', 'e', 'r', 's'],
{
    reveal_strlit("gds");
    reveal_strlit("cell");
    reveal_strlit("view");
    reveal_strlit("layers");
}

proof fn lemma_views_fold(start: PermalinkModel, views: Seq<Seq<char>>)
    ensures
        permalink_from(start, views.map_values(|t: Seq<char>| key_part(CAMERA_KEY@, t))) == (
        PermalinkModel { cell: start.cell, views: start.views + views, layers: start.layers }),
    decreases views.len(),
{
    let parts = views.map_values(|t: Seq<char>| key_part(CAMERA_KEY@, t));
    if views.len() == 0 {
        assert(start.views + views =~= start.views);
    } else {
        lemma_views_fold(start, views.drop_last());
        assert(parts.drop_last() =~= views.drop_last().map_values(
            |t: Seq<char>| key_part(CAMERA_KEY@, t),
        ));
        lemma_keys();
        lemma_key_part(CAMERA_KEY@, views.last());
        assert(parts.last() == key_part(CAMERA_KEY@, views.last()));
        assert(start.views + views =~= (start.views + views.drop_last()).push(views.last()));
    }
}

proof fn lemma_layer_spec_item(p: (u16, u16))
    ensures
        layer_spec(layer_item(p)) == Some(p),
        forall|k: int|
            0 <= k < layer_item(p).len() ==> #[trigger] layer_item(p)[k] != '&' && layer_item(p)[k]
                != ',',
{
    reveal_strlit("/");
    let a = decimal(p.0 as nat);
    let b = decimal(p.1 as nat);
    crate::text::lemma_decimal_digits(p.0 as nat);
    crate::text::lemma_decimal_digits(p.1 as nat);
    let item = layer_item(p);
    assert(item =~= a + seq!['/'] + b);
    assert forall|k: int| 0 <= k < a.len() implies a[k] != '/' by {
        assert(crate::text::is_digit(a[k]));
    }
    crate::text::lemma_split_at_first(a, '/', b);
    assert(item[0] == a[0]);
    assert(item.last() == b.last());
    assert(crate::text::is_digit(a[0]));
    assert(crate::text::is_digit(b.last()));
    crate::text::lemma_trim_of_trimmed(item);
    crate::text::lemma_trim_of_trimmed(a);
    crate::text::lemma_trim_of_trimmed(b);
    crate::text::lemma_parse_decimal(p.0 as nat, 65535);
    crate::text::lemma_parse_decimal(p.1 as nat, 65535);
    assert forall|k: int| 0 <= k < item.len() implies #[trigger] item[k] != '&' && item[k] != ',' by {
        if k < a.len() {
            assert(item[k] == a[k]);
            assert(crate::text::is_digit(a[k]));
        } else if k > a.len() {
            assert(item[k] == b[k - a.len() - 1]);
            assert(crate::text::is_digit(b[k - a.len() - 1]));
        }
    }
}

proof fn lemma_layer_csv_items(ls: Seq<(u16, u16)>)
    ensures
        layer_csv(layer_items(ls)) == ls,
    decreases ls.len(),
{
    if ls.len() > 0 {
        lemma_layer_csv_items(ls.drop_last());
        assert(layer_items(ls).drop_last() =~= layer_items(ls.drop_last()));
        lemma_layer_spec_item(ls.last());
        assert(ls.drop_last().push(ls.last()) =~= ls);
    }
}

pub(crate) proof fn lemma_layers_text(ls: Seq<(u16, u16)>)
    ensures
        layer_csv(split(join(layer_items(ls), ','), ',')) == ls,
        forall|k: int|
            0 <= k < join(layer_items(ls), ',').len() ==> #[trigger] join(layer_items(ls), ',')[k]
                != '&',
{
    let items = layer_items(ls);
    assert forall|i: int, k: int| 0 <= i < items.len() && 0 <= k < items[i].len() implies #[trigger] items[i][k]
        != '&' && items[i][k] != ',' by {
        lemma_layer_spec_item(ls[i]);
        assert(items[i] == layer_item(ls[i]));
    }
    crate::text::lemma_join_chars(items, ',', '&');
    if ls.len() == 0 {
        let e = Seq::<char>::empty();
        assert(items =~= Seq::<Seq<char>>::empty());
        assert(join(items, ',') == e);
        assert(split(e, ',') == seq![e]);
        assert(trim(e) =~= e);
        assert(split_once(e, '/') is None);
        assert(layer_spec(e) is None);
        assert(seq![e].drop_last() =~= Seq::<Seq<char>>::empty());
        assert(seq![e].last() == e);
        assert(layer_csv(Seq::<Seq<char>>::empty()) =~= Seq::<(u16, u16)>::empty());
        assert(layer_csv(seq![e]) =~= Seq::<(u16, u16)>::empty());
        assert(ls =~= Seq::<(u16, u16)>::empty());
    } else {
        crate::text::lemma_split_join(items, ',');
        lemma_layer_csv_items(ls);
    }
}

proof fn lemma_join_first(parts: Seq<Seq<char>>, c: char)
    requires
        parts.len() >= 1,
        parts[0].len() >= 1,
    ensures
        join(parts, c).len() >= 1,
        join(parts, c)[0] == parts[0][0],
{
}

proof fn lemma_permalink_pairs_read_back(gds: Option<Seq<char>>, m: PermalinkModel)
    requires
        m.cell matches Some(c) ==> c.len() > 0,
    ensures
        permalink_from(empty_permalink(), permalink_parts(gds, m)) == m,
{
    lemma_keys();
    let gp: Seq<Seq<char>> = match gds {
        Some(g) => seq![key_part(GDS_KEY@, encode_value(g))],
        None => Seq::empty(),
    };
    let cp: Seq<Seq<char>> = match m.cell {
        Some(c) => seq![key_part(CELL_KEY@, encode_value(c))],
        None => Seq::empty(),
    };
    let vp = m.views.map_values(|t: Seq<char>| key_part(CAMERA_KEY@, t));
    let lp: Seq<Seq<char>> = match m.layers {
        Some(ls) => seq![key_part(LAYERS_KEY@, join(layer_items(ls), ','))],
        None => Seq::empty(),
    };
    assert(permalink_parts(gds, m) == gp + cp + vp + lp);
    let e = empty_permalink();
    let s1 = permalink_from(e, gp);
    match gds {
        Some(g) => {
            lemma_key_part(GDS_KEY@, encode_value(g));
            assert(gp.drop_last() =~= Seq::<Seq<char>>::empty());
            assert(permalink_from(e, gp.drop_last()) == e);
            assert(gp.last() == key_part(GDS_KEY@, encode_value(g)));
        },
        None => {},
    }
    assert(s1 == e);
    let s2 = permalink_from(s1, cp);
    match m.cell {
        Some(c) => {
            lemma_key_part(CELL_KEY@, encode_value(c));
            lemma_decode_encode_value(c);
            assert(cp.drop_last() =~= Seq::<Seq<char>>::empty());
            assert(permalink_from(s1, cp.drop_last()) == s1);
            assert(cp.last() == key_part(CELL_KEY@, encode_value(c)));
        },
        None => {},
    }
    assert(s2 == (PermalinkModel { cell: m.cell, views: Seq::empty(), layers: None }));
    let s3 = permalink_from(s2, vp);
    lemma_views_fold(s2, m.views);
    assert(Seq::<Seq<char>>::empty() + m.views =~= m.views);
    assert(s3 == (PermalinkModel { cell: m.cell, views: m.views, layers: None }));
    let s4 = permalink_from(s3, lp);
    match m.layers {
        Some(ls) => {
            lemma_key_part(LAYERS_KEY@, join(layer_items(ls), ','));
            lemma_layers_text(ls);
            assert(lp.drop_last() =~= Seq::<Seq<char>>::empty());
            assert(permalink_from(s3, lp.drop_last()) == s3);
            assert(lp.last() == key_part(LAYERS_KEY@, join(layer_items(ls), ',')));
        },
        None => {},
    }
    assert(s4 == m);
    lemma_permalink_from_append(e, gp, cp);
    lemma_permalink_from_append(e, gp + cp, vp);
    lemma_permalink_from_append(e, gp + cp + vp, lp);
}

proof fn lemma_permalink_parts_plain(gds: Option<Seq<char>>, m: PermalinkModel)
    requires
        forall|i: int, k: int|
            0 <= i < m.views.len() && 0 <= k < m.views[i].len() ==> #[trigger] m.views[i][k] != '&',
    ensures
        forall|i: int, k: int|
            0 <= i < permalink_parts(gds, m).len() && 0 <= k < permalink_parts(gds, m)[i].len()
                ==> #[trigger] permalink_parts(gds, m)[i][k] != '&',
        permalink_parts(gds, m).len() > 0 ==> permalink_parts(gds, m)[0].len() > 0
            && permalink_parts(gds, m)[0][0] != '?',
{
    lemma_keys();
    reveal_strlit("=");
    let gp: Seq<Seq<char>> = match gds {
        Some(g) => seq![key_part(GDS_KEY@, encode_value(g))],
        None => Seq::empty(),
    };
    let cp: Seq<Seq<char>> = match m.cell {
        Some(c) => seq![key_part(CELL_KEY@, encode_value(c))],
        None => Seq::empty(),
    };
    let vp = m.views.map_values(|t: Seq<char>| key_part(CAMERA_KEY@, t));
    let lp: Seq<Seq<char>> = match m.layers {
        Some(ls) => seq![key_part(LAYERS_KEY@, join(layer_items(ls), ','))],
        None => Seq::empty(),
    };
    let parts = permalink_parts(gds, m);
    let gc = gp + cp;
    let gcv = gc + vp;
    assert(parts == gcv + lp);
    assert forall|i: int, k: int| 0 <= i < parts.len() && 0 <= k < parts[i].len() implies #[trigger] parts[i][k]
        != '&' by {
        let pi = parts[i];
        if i < gp.len() {
            assert(pi == gc[i]);
            assert(pi == gp[i]);
            let g = gds->0;
            lemma_decode_encode_value(g);
            assert(pi == key_part(GDS_KEY@, encode_value(g)));
            if k >= 4 {
                assert(pi[k] == encode_value(g)[k - 4]);
            }
        } else if i < gc.len() {
            assert(pi == gc[i]);
            assert(gc[i] == cp[i - gp.len()]);
            let c = m.cell->0;
            lemma_decode_encode_value(c);
            assert(pi == key_part(CELL_KEY@, encode_value(c)));
            if k >= 5 {
                assert(pi[k] == encode_value(c)[k - 5]);
            }
        } else if i < gcv.len() {
            let j = i - gc.len();
            assert(pi == gcv[i]);
            assert(gcv[i] == vp[j]);
            assert(pi == key_part(CAMERA_KEY@, m.views[j]));
            if k >= 5 {
                assert(pi[k] == m.views[j][k - 5]);
            }
        } else {
            assert(pi == lp[i - gcv.len()]);
            let ls = m.layers->0;
            lemma_layers_text(ls);
            assert(pi == key_part(LAYERS_KEY@, join(layer_items(ls), ',')));
            if k >= 7 {
                assert(pi[k] == join(layer_items(ls), ',')[k - 7]);
            }
        }
    }
    if parts.len() > 0 {
        if gp.len() > 0 {
            assert(parts[0] == gp[0]);
        } else if cp.len() > 0 {
            assert(parts[0] == cp[0]);
        } else if vp.len() > 0 {
            assert(parts[0] == vp[0]);
        } else {
            assert(parts[0] == lp[0]);
        }
    }
}

/// Reading back a permalink's query gives the params it was made from, for
/// every layout URL, every non-empty cell name, every camera text without an
/// `&`, and every layer list; so does reading back the whole link emitted for
/// an empty page origin.
pub proof fn lemma_permalink_round_trip(gds: Option<Seq<char>>, m: PermalinkModel)
    requires
        m.cell matches Some(c) ==> c.len() > 0,
        forall|i: int, k: int|
            0 <= i < m.views.len() && 0 <= k < m.views[i].len() ==> #[trigger] m.views[i][k] != '&',
    ensures
        spec_permalink_params(permalink_query(gds, m)) == m,
        spec_permalink_params(spec_emit_permalink(""@, gds, m)) == m,
{
    reveal_strlit("");
    reveal_strlit("?");
    let parts = permalink_parts(gds, m);
    let q = permalink_query(gds, m);
    lemma_permalink_pairs_read_back(gds, m);
    lemma_permalink_parts_plain(gds, m);
    assert(page_base(""@) =~= Seq::<char>::empty());
    if parts.len() == 0 {
        assert(q == Seq::<char>::empty());
        assert(strip_start(q, '?') == q);
        assert(split(q, '&') == seq![q]);
        assert(seq![q].drop_last() =~= Seq::<Seq<char>>::empty());
        assert(seq![q].last() == q);
        assert(m.views =~= Seq::<Seq<char>>::empty());
    } else {
        crate::text::lemma_split_join(parts, '&');
        lemma_join_first(parts, '&');
        assert(strip_start(q, '?') == q);
        let link = "?"@ + q;
        assert(link.drop_first() =~= q);
        assert(strip_start(link, '?') == strip_start(q, '?'));
    }
}

// ---------------------------------------------------------------------------
// Minted room ids
// ---------------------------------------------------------------------------

/// The suffix alphabet of minted room ids.
pub open spec fn base36_digit(d: nat) -> char {
    if d < 26 {
        ((97 + d) as u32) as char
    } else {
        ((22 + d) as u32) as char
    }
}

/// The `k` base-36 digits of `n`, least significant first.
pub open spec fn base36_suffix(n: nat, k: nat) -> Seq<char>
    decreases k,
{
    if k == 0 {
        Seq::empty()
    } else {
        seq![base36_digit(n % 36)] + base36_suffix(n / 36, (k - 1) as nat)
    }
}

/// The room id minted from `base` and `seed`.
pub open spec fn spec_minted_room_id(base: Seq<char>, seed: nat) -> Seq<char> {
    spec_room_id(base + "-"@ + base36_suffix(seed, 6))
}

/// Mints a fresh, shareable room id from a human-readable `base` name and a
/// `seed`: six base-36 characters of the seed appended to the base, the whole
/// sanitized with [`room_id`]. Deterministic in `(base, seed)`.
pub fn minted_room_id(base: &str, seed: u64) -> (r: String)
    ensures
        r@ == spec_minted_room_id(base@, seed as nat),
{
    let mut n = seed;
    let mut suffix: Vec<char> = Vec::new();
    let mut k: usize = 0;
    while k < 6
        invariant
            k <= 6,
            base36_suffix(seed as nat, 6) == suffix@ + base36_suffix(n as nat, (6 - k) as nat),
        decreases 6 - k,
    {
        let d = n % 36;
        let c = if d < 26 {
            ((97 + d) as u8) as char
        } else {
            ((22 + d) as u8) as char
        };
        assert(c == base36_digit(d as nat));
        let ghost before = suffix@;
        suffix.push(c);
        assert(suffix@ + base36_suffix((n / 36) as nat, (6 - k - 1) as nat) =~= before
            + base36_suffix(n as nat, (6 - k) as nat));
        n = n / 36;
        k += 1;
    }
    assert(base36_suffix(n as nat, 0) =~= Seq::<char>::empty());
    assert(suffix@ =~= base36_suffix(seed as nat, 6));
    let mut full = chars_of(base);
    extend_str(&mut full, "-");
    extend_chars(&mut full, &suffix);
    let r = room_id_chars(&full);
    string_of(&r)
}


/// Whether some character of `name` lowercases to a letter, digit or `_`.
pub open spec fn has_id_char(name: Seq<char>) -> bool {
    exists|i: int| 0 <= i < name.len() && is_room_char(lower_char(#[trigger] name[i])) && lower_char(name[i]) != '-'
}

proof fn lemma_room_scan_dashes(s: Seq<char>)
    requires
        !has_id_char(s),
    ensures
        forall|j: int| 0 <= j < room_scan(s).0.len() ==> #[trigger] room_scan(s).0[j] == '-',
    decreases s.len(),
{
    if s.len() > 0 {
        let d = s.drop_last();
        assert(!has_id_char(d)) by {
            if has_id_char(d) {
                let i = choose|i: int| 0 <= i < d.len() && is_room_char(lower_char(#[trigger] d[i])) && lower_char(d[i]) != '-';
                assert(s[i] == d[i]);
            }
        }
        lemma_room_scan_dashes(d);
        let st = room_scan(d);
        let l = lower_char(s.last());
        assert(s.last() == s[s.len() - 1]);
        if is_room_char(l) {
            assert(l == '-');
            let id = if st.1 && st.0.len() > 0 { st.0.push('-') } else { st.0 };
            assert forall|j: int| 0 <= j < id.push(l).len() implies #[trigger] id.push(l)[j] == '-' by {
                if j < st.0.len() {
                    assert(id.push(l)[j] == st.0[j]);
                }
            }
        }
    }
}

/// A name with no letter, digit or `_` gets the fallback room `layout`.
pub proof fn lemma_room_id_fallback(name: Seq<char>)
    requires
        !has_id_char(name),
    ensures
        spec_room_id(name) == FALLBACK_ROOM@,
{
    let scanned = room_scan(name).0;
    lemma_room_scan_dashes(name);
    let a = strip_start(scanned, '-');
    lemma_strip_start_shape(scanned, '-');
    let ka = choose|k: int| 0 <= k <= scanned.len() && a == scanned.skip(k);
    let t = strip_end(a, '-');
    lemma_strip_end_shape(a, '-');
    let kt = choose|k: int| 0 <= k <= a.len() && t == a.take(k);
    if t.len() > 0 {
        assert(t[0] == a[0]);
        assert(a[0] == scanned[ka]);
    }
}

proof fn lemma_base36_chars(n: nat, k: nat)
    ensures
        base36_suffix(n, k).len() == k,
        forall|j: int| 0 <= j < k ==> {
            let c = #[trigger] base36_suffix(n, k)[j];
            is_room_char(c) && c != '-' && lower_char(c) == c
        },
    decreases k,
{
    if k > 0 {
        lemma_base36_chars(n / 36, (k - 1) as nat);
        let c0 = base36_digit(n % 36);
        let d = n % 36;
        assert(is_room_char(c0) && c0 != '-' && lower_char(c0) == c0) by {
            if d < 26 {
                assert(((97 + d) as u32) as char == c0);
            } else {
                assert(((22 + d) as u32) as char == c0);
            }
        }
        let r = base36_suffix(n / 36, (k - 1) as nat);
        assert forall|j: int| 0 <= j < k implies {
            let c = #[trigger] base36_suffix(n, k)[j];
            is_room_char(c) && c != '-' && lower_char(c) == c
        } by {
            if j > 0 {
                assert(base36_suffix(n, k)[j] == r[j - 1]);
            }
        }
    }
}

proof fn lemma_room_scan_keeps(s: Seq<char>, t: Seq<char>)
    requires
        forall|j: int| 0 <= j < t.len() ==> {
            let c = #[trigger] t[j];
            is_room_char(c) && c != '-' && lower_char(c) == c
        },
    ensures
        exists|p: Seq<char>| room_scan(s + t).0 == p + t,
        t.len() > 0 ==> !room_scan(s + t).1,
    decreases t.len(),
{
    if t.len() == 0 {
        assert(s + t =~= s);
        assert(room_scan(s).0 =~= room_scan(s).0 + t);
    } else {
        let tp = t.drop_last();
        let c = t.last();
        assert(c == t[t.len() - 1]);
        assert forall|j: int| 0 <= j < tp.len() implies {
            let x = #[trigger] tp[j];
            is_room_char(x) && x != '-' && lower_char(x) == x
        } by {
            assert(tp[j] == t[j]);
        }
        lemma_room_scan_keeps(s, tp);
        let p = choose|p: Seq<char>| room_scan(s + tp).0 == p + tp;
        assert((s + t).drop_last() =~= s + tp);
        assert((s + t).last() == c);
        let st = room_scan(s + tp);
        let id = if st.1 && st.0.len() > 0 { st.0.push('-') } else { st.0 };
        if tp.len() > 0 {
            assert(id == p + tp);
            assert(id.push(c) =~= p + t);
        } else {
            assert(id.push(c) =~= id + t);
        }
    }
}

proof fn lemma_strip_start_keeps(p: Seq<char>, t: Seq<char>, c: char)
    requires
        t.len() > 0,
        t[0] != c,
    ensures
        exists|q: Seq<char>| strip_start(p + t, c) == q + t,
    decreases p.len(),
{
    if p.len() == 0 {
        assert(p + t =~= t);
        assert(strip_start(t, c) =~= Seq::<char>::empty() + t);
    } else if p[0] == c {
        assert((p + t).drop_first() =~= p.drop_first() + t);
        lemma_strip_start_keeps(p.drop_first(), t, c);
    } else {
        assert((p + t)[0] == p[0]);
    }
}

/// A minted room id ends with the seed's six base-36 characters: sanitizing
/// the base never eats into the suffix.
pub proof fn lemma_minted_suffix_survives(base: Seq<char>, seed: nat)
    ensures
        exists|q: Seq<char>| spec_minted_room_id(base, seed) == q + base36_suffix(seed, 6),
{
    reveal_strlit("-");
    let suf = base36_suffix(seed, 6);
    lemma_base36_chars(seed, 6);
    let s = base + "-"@;
    lemma_room_scan_keeps(s, suf);
    let p = choose|p: Seq<char>| room_scan(s + suf).0 == p + suf;
    assert(suf[0] != '-');
    lemma_strip_start_keeps(p, suf, '-');
    let q = choose|q: Seq<char>| strip_start(p + suf, '-') == q + suf;
    assert((q + suf).last() == suf.last());
    assert(suf.last() == suf[5]);
    assert(strip_end(q + suf, '-') == q + suf);
    assert((q + suf).len() > 0);
}

/// Splitting a page link at its first `?` gives back the query it carries, for
/// every page origin without a `?`.
proof fn lemma_join_page_split(page: Seq<char>, q: Seq<char>)
    requires
        forall|k: int| 0 <= k < page.len() ==> page[k] != '?',
    ensures
        split_once(join_page(page, q), '?') matches Some((_, r)) && r == q,
{
    reveal_strlit("?");
    reveal_strlit("/?");
    let a0 = crate::text::trim_start(page);
    crate::text::lemma_trim_start_shape_pub(page);
    let k0 = choose|k: int| 0 <= k <= page.len() && a0 == page.skip(k);
    let a1 = trim(page);
    crate::text::lemma_trim_end_shape_pub(a0);
    let k1 = choose|k: int| 0 <= k <= a0.len() && a1 == a0.take(k);
    let pb = page_base(page);
    lemma_strip_end_shape(a1, '/');
    let k2 = choose|k: int| 0 <= k <= a1.len() && pb == a1.take(k);
    assert forall|k: int| 0 <= k < pb.len() implies pb[k] != '?' by {
        assert(pb[k] == a1[k]);
        assert(a1[k] == a0[k]);
        assert(a0[k] == page[k + k0]);
    }
    if pb.len() == 0 {
        assert("?"@ + q =~= Seq::<char>::empty() + seq!['?'] + q);
        crate::text::lemma_split_at_first(Seq::<char>::empty(), '?', q);
    } else {
        let a = pb + seq!['/'];
        assert(pb + "/?"@ + q =~= a + seq!['?'] + q);
        assert forall|k: int| 0 <= k < a.len() implies a[k] != '?' by {
            if k < pb.len() {
                assert(a[k] == pb[k]);
            }
        }
        crate::text::lemma_split_at_first(a, '?', q);
    }
}

/// Splitting an archive link at its first `?` gives back the archive query,
/// which reads back as the archive it was made for (trimmed), for every page
/// origin without a `?`.
pub proof fn lemma_archive_link_split(page: Seq<char>, url: Seq<char>)
    requires
        forall|k: int| 0 <= k < page.len() ==> page[k] != '?',
    ensures
        split_once(spec_archive_link(page, url), '?') matches Some((_, q)) && spec_archive_url(q)
            == (if trim(url).len() == 0 {
            None
        } else {
            Some(trim(url))
        }),
{
    lemma_archive_query_round_trip(url);
    lemma_join_page_split(page, ARCHIVE_KEY@ + "="@ + encode_value(url));
}

/// Splitting a viewer link at its first `?` gives back its query, which reads
/// back as the room it was made for (sanitized) and the relay it names
/// (trimmed, or the default relay), for every page origin without a `?`,
/// every relay spec and every room name.
pub proof fn lemma_viewer_link_split(page: Seq<char>, relay: Seq<char>, room: Seq<char>)
    requires
        forall|k: int| 0 <= k < page.len() ==> page[k] != '?',
    ensures
        split_once(spec_viewer_link(page, relay, room), '?') matches Some((_, q))
            && spec_parse_viewer_query(q) == Some((spec_room_id(room), relay_or_default(relay))),
{
    lemma_viewer_query_round_trip(relay, room);
    lemma_join_page_split(page, viewer_query(relay, room));
}

/// `36` to the power `k`: how many distinct `k`-digit base-36 suffixes there are.
pub open spec fn pow36(k: nat) -> nat
    decreases k,
{
    if k == 0 {
        1
    } else {
        36 * pow36((k - 1) as nat)
    }
}

proof fn lemma_base36_suffix_injective(n: nat, m: nat, k: nat)
    requires
        base36_suffix(n, k) == base36_suffix(m, k),
    ensures
        n % pow36(k) == m % pow36(k),
    decreases k,
{
    if k == 0 {
        assert(n % 1 == 0 && m % 1 == 0) by (nonlinear_arith);
    } else {
        let sn = base36_suffix(n, k);
        let sm = base36_suffix(m, k);
        assert(sn[0] == base36_digit(n % 36));
        assert(sm[0] == base36_digit(m % 36));
        assert(n % 36 == m % 36);
        assert(sn.skip(1) =~= base36_suffix(n / 36, (k - 1) as nat));
        assert(sm.skip(1) =~= base36_suffix(m / 36, (k - 1) as nat));
        lemma_base36_suffix_injective(n / 36, m / 36, (k - 1) as nat);
        let p = pow36((k - 1) as nat);
        assert(p > 0) by {
            lemma_pow36_positive((k - 1) as nat);
        }
        vstd::arithmetic::div_mod::lemma_mod_breakdown(n as int, 36, p as int);
        vstd::arithmetic::div_mod::lemma_mod_breakdown(m as int, 36, p as int);
    }
}

proof fn lemma_pow36_positive(k: nat)
    ensures
        pow36(k) > 0,
    decreases k,
{
    if k > 0 {
        lemma_pow36_positive((k - 1) as nat);
    }
}

/// For one base, seeds that differ modulo `36^6` mint different room ids: the
/// six-character suffix tells them apart.
pub proof fn lemma_minted_seeds_differ(base: Seq<char>, a: nat, b: nat)
    requires
        a % pow36(6) != b % pow36(6),
    ensures
        spec_minted_room_id(base, a) != spec_minted_room_id(base, b),
{
    let sa = base36_suffix(a, 6);
    let sb = base36_suffix(b, 6);
    lemma_base36_chars(a, 6);
    lemma_base36_chars(b, 6);
    lemma_minted_suffix_survives(base, a);
    lemma_minted_suffix_survives(base, b);
    let qa = choose|q: Seq<char>| spec_minted_room_id(base, a) == q + sa;
    let qb = choose|q: Seq<char>| spec_minted_room_id(base, b) == q + sb;
    if spec_minted_room_id(base, a) == spec_minted_room_id(base, b) {
        let r = spec_minted_room_id(base, a);
        assert(r.skip(r.len() - 6) =~= sa);
        assert(r.skip(r.len() - 6) =~= sb);
        lemma_base36_suffix_injective(a, b, 6);
    }
}
} // verus!
