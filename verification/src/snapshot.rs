//! Immutable snapshot permalinks: a link that names a relay, a room and a
//! revision (a prefix length of the room's append-only update log), so opening
//! it always shows the geometry as it stood at capture time.
//!
//! This module composes and parses those links; the transport that replays the
//! frozen frames is platform glue outside it.
use vstd::prelude::*;
use crate::share::{
    is_reserved, lemma_decode_encode_query, lemma_decode_plain, lemma_encode_query_no_amp,
    lemma_relay_or_default_idempotent, lemma_room_id_idempotent, lemma_room_id_plain, pair_key,
    pair_value, decode_query, decode_query_chars, encode_query, encode_query_chars, join_page,
    join_page_chars, last_value, last_value_of, query_pairs, query_pairs_chars, relay_of,
    relay_or_default, relay_or_default_chars, room_id_chars, spec_room_id, ws_base, ws_base_chars,
};
use crate::text::{
    is_digit, is_ws, lemma_decimal_digits, lemma_parse_decimal, lemma_split_at_first,
    lemma_split_whole, lemma_trim_of_trimmed, strip_start, chars_eq_str, chars_of, decimal, extend_chars, extend_str, parse_unsigned,
    parse_unsigned_chars, push_decimal, string_of, trim, trim_chars,
};

verus! {

/// The `?view=` value that opens a page as a snapshot permalink.
pub const SNAPSHOT_VIEW: &'static str = "snapshot";

/// The relay address used when none is given.
pub const DEFAULT_SERVER: &'static str = "127.0.0.1:3030";

/// The actor id a snapshot mirror uses; a snapshot never publishes.
pub const SNAPSHOT_ACTOR: &'static str = "snapshot";

/// Sanitizes a free-form room name into a URL path segment: lowercase ASCII,
/// `[a-z0-9_-]` kept, every other run collapsed to one `-`, leading and
/// trailing dashes dropped, `layout` when nothing survives.
pub fn room_id(name: &str) -> (r: String)
    ensures
        r@ == spec_room_id(name@),
{
    crate::share::room_id(name)
}

/// The WebSocket base of a relay spec (blank means [`DEFAULT_SERVER`]).
pub open spec fn relay_ws_base(relay: Seq<char>) -> Seq<char> {
    ws_base(relay_or_default(relay))
}

fn relay_ws_base_chars(relay: &str) -> (r: Vec<char>)
    ensures
        r@ == relay_ws_base(relay@),
{
    let rv = chars_of(relay);
    let spec = relay_or_default_chars(&rv);
    ws_base_chars(&spec)
}

/// The capture route for `room` on `relay`.
pub open spec fn spec_revision_ws_link(relay: Seq<char>, room: Seq<char>) -> Seq<char> {
    relay_ws_base(relay) + "/snapshot/"@ + spec_room_id(room)
}

/// The WebSocket URL for `room`'s current revision on `relay` (the capture
/// step).
pub fn snapshot_revision_ws_link(relay: &str, room: &str) -> (r: String)
    ensures
        r@ == spec_revision_ws_link(relay@, room@),
{
    let mut out = relay_ws_base_chars(relay);
    extend_str(&mut out, "/snapshot/");
    let rv = chars_of(room);
    let id = room_id_chars(&rv);
    extend_chars(&mut out, &id);
    string_of(&out)
}

/// The replay route for the snapshot of `room` at `revision` on `relay`.
pub open spec fn spec_snapshot_ws_link(relay: Seq<char>, room: Seq<char>, revision: nat) -> Seq<
    char,
> {
    spec_revision_ws_link(relay, room) + "/at/"@ + decimal(revision)
}

/// The WebSocket URL that opens the immutable snapshot of `room` at
/// `revision` on `relay`.
pub fn snapshot_ws_link(relay: &str, room: &str, revision: u64) -> (r: String)
    ensures
        r@ == spec_snapshot_ws_link(relay@, room@, revision as nat),
{
    let mut out = relay_ws_base_chars(relay);
    extend_str(&mut out, "/snapshot/");
    let rv = chars_of(room);
    let id = room_id_chars(&rv);
    extend_chars(&mut out, &id);
    extend_str(&mut out, "/at/");
    push_decimal(&mut out, revision);
    string_of(&out)
}

/// The room, relay, and revision recovered from a snapshot page's query.
#[derive(Clone, PartialEq, Eq, Debug)]
pub struct SnapshotTarget {
    /// The sanitized relay room the snapshot was captured from.
    pub room: String,
    /// The relay host to dial for the frozen frames.
    pub relay: String,
    /// The captured revision: the log prefix length to replay.
    pub revision: u64,
}

/// The query a snapshot page link carries.
pub open spec fn snapshot_query(relay: Seq<char>, room: Seq<char>, revision: nat) -> Seq<char> {
    "view="@ + SNAPSHOT_VIEW@ + "&room="@ + spec_room_id(room) + "&relay="@ + encode_query(
        relay_or_default(relay),
    ) + "&rev="@ + decimal(revision)
}

/// The shareable page link for the snapshot of `room` at `revision` on `relay`.
pub open spec fn spec_snapshot_link(page: Seq<char>, relay: Seq<char>, room: Seq<char>, revision: nat) -> Seq<char> {
    join_page(page, snapshot_query(relay, room, revision))
}

/// Composes the shareable page URL for the snapshot of `room` at `revision` on
/// `relay`, hosted at `page`. An empty `page` yields a relative `?...` query;
/// an empty `relay` falls back to [`DEFAULT_SERVER`]. The inverse is
/// [`parse_snapshot_query`].
pub fn emit_snapshot_link(page: &str, relay: &str, room: &str, revision: u64) -> (r: String)
    ensures
        r@ == spec_snapshot_link(page@, relay@, room@, revision as nat),
{
    let rv = chars_of(room);
    let id = room_id_chars(&rv);
    let relv = chars_of(relay);
    let spec = relay_or_default_chars(&relv);
    let enc = encode_query_chars(&spec);
    let mut q: Vec<char> = Vec::new();
    extend_str(&mut q, "view=");
    extend_str(&mut q, SNAPSHOT_VIEW);
    extend_str(&mut q, "&room=");
    extend_chars(&mut q, &id);
    extend_str(&mut q, "&relay=");
    extend_chars(&mut q, &enc);
    extend_str(&mut q, "&rev=");
    push_decimal(&mut q, revision);
    let out = join_page_chars(page, &q);
    string_of(&out)
}

/// The revision a raw `rev` value names: decoded, trimmed, read as a `u64`.
pub open spec fn revision_of(raw: Seq<char>) -> Option<nat> {
    parse_unsigned(trim(decode_query(raw)), u64::MAX as nat)
}

/// The `(room, relay, revision)` a snapshot query names, or `None` when it is
/// not a snapshot link (no `view=snapshot`, no `room`, or a missing or
/// non-numeric `rev`).
pub open spec fn spec_parse_snapshot_query(q: Seq<char>) -> Option<(Seq<char>, Seq<char>, nat)> {
    let pairs = query_pairs(q);
    match (last_value(pairs, "view"@), last_value(pairs, "room"@), last_value(pairs, "rev"@)) {
        (Some(v), Some(r), Some(raw)) => if decode_query(v) == SNAPSHOT_VIEW@ {
            match revision_of(raw) {
                Some(n) => Some(
                    (spec_room_id(decode_query(r)), relay_of(last_value(pairs, "relay"@)), n),
                ),
                None => None,
            }
        } else {
            None
        },
        _ => None,
    }
}

/// Parses a page query string into a [`SnapshotTarget`], or `None` if it does
/// not name a snapshot. A leading `?` is tolerated; a missing or blank relay
/// falls back to [`DEFAULT_SERVER`]; the room goes through [`room_id`].
pub fn parse_snapshot_query(query: &str) -> (r: Option<SnapshotTarget>)
    ensures
        match r {
            Some(t) => spec_parse_snapshot_query(query@) == Some(
                (t.room@, t.relay@, t.revision as nat),
            ),
            None => spec_parse_snapshot_query(query@) is None,
        },
{
    let qv = chars_of(query);
    let pairs = query_pairs_chars(&qv);
    let view = last_value_of(&pairs, "view");
    let room = last_value_of(&pairs, "room");
    let relay = last_value_of(&pairs, "relay");
    let rev = last_value_of(&pairs, "rev");
    let view = match view {
        Some(v) => v,
        None => return None,
    };
    let room = match room {
        Some(v) => v,
        None => return None,
    };
    let rev = match rev {
        Some(v) => v,
        None => return None,
    };
    let dv = decode_query_chars(&view);
    if !chars_eq_str(&dv, SNAPSHOT_VIEW) {
        return None;
    }
    let drev = decode_query_chars(&rev);
    let trev = trim_chars(&drev);
    let revision = match parse_unsigned_chars(&trev, u64::MAX) {
        Some(n) => n,
        None => return None,
    };
    let dr = decode_query_chars(&room);
    let id = room_id_chars(&dr);
    let relay_chars = match relay {
        Some(r) => {
            let d = decode_query_chars(&r);
            relay_or_default_chars(&d)
        },
        None => chars_of(DEFAULT_SERVER),
    };
    Some(SnapshotTarget { room: string_of(&id), relay: string_of(&relay_chars), revision })
}

/// A snapshot link's query reads back as the room it was made for
/// (sanitized), the relay it names (trimmed, or the default relay) and its
/// revision, for every room name, every relay spec and every revision.
#[verifier::rlimit(60)]
pub proof fn lemma_snapshot_query_round_trip(relay: Seq<char>, room: Seq<char>, revision: u64)
    ensures
        spec_parse_snapshot_query(snapshot_query(relay, room, revision as nat)) == Some(
            (spec_room_id(room), relay_or_default(relay), revision as nat),
        ),
{
    reveal_strlit("view=");
    reveal_strlit("snapshot");
    reveal_strlit("&room=");
    reveal_strlit("&relay=");
    reveal_strlit("&rev=");
    reveal_strlit("view");
    reveal_strlit("room");
    reveal_strlit("relay");
    reveal_strlit("rev");
    reveal_strlit("room=");
    reveal_strlit("relay=");
    reveal_strlit("rev=");
    reveal_strlit("view=snapshot");
    let id = spec_room_id(room);
    let spec = relay_or_default(relay);
    lemma_relay_or_default_idempotent(relay);
    lemma_encode_query_no_amp(spec);
    let enc = encode_query(spec);
    lemma_room_id_plain(room);
    lemma_room_id_idempotent(room);
    let digits = decimal(revision as nat);
    lemma_decimal_digits(revision as nat);
    let p0 = "view=snapshot"@;
    let p1 = "room="@ + id;
    let p2 = "relay="@ + enc;
    let p3 = "rev="@ + digits;
    let q = snapshot_query(relay, room, revision as nat);
    assert(q =~= p0 + seq!['&'] + (p1 + seq!['&'] + (p2 + seq!['&'] + p3)));
    assert(strip_start(q, '?') == q);
    assert forall|k: int| 0 <= k < p0.len() implies p0[k] != '&' by {}
    assert forall|k: int| 0 <= k < p1.len() implies p1[k] != '&' by {
        if k >= 5 {
            assert(p1[k] == id[k - 5]);
            assert(!is_reserved(id[k - 5]));
        }
    }
    assert forall|k: int| 0 <= k < p2.len() implies p2[k] != '&' by {
        if k >= 6 {
            assert(p2[k] == enc[k - 6]);
        }
    }
    assert forall|k: int| 0 <= k < p3.len() implies p3[k] != '&' by {
        if k >= 4 {
            assert(p3[k] == digits[k - 4]);
            assert(is_digit(digits[k - 4]));
        }
    }
    lemma_split_at_first(p0, '&', p1 + seq!['&'] + (p2 + seq!['&'] + p3));
    lemma_split_at_first(p1, '&', p2 + seq!['&'] + p3);
    lemma_split_at_first(p2, '&', p3);
    lemma_split_whole(p3, '&');
    let pairs = query_pairs(q);
    assert(pairs =~= seq![p0, p1, p2, p3]);
    lemma_split_at_first("view"@, '=', "snapshot"@);
    assert(p0 =~= "view"@ + seq!['='] + "snapshot"@);
    lemma_split_at_first("room"@, '=', id);
    assert(p1 =~= "room"@ + seq!['='] + id);
    lemma_split_at_first("relay"@, '=', enc);
    assert(p2 =~= "relay"@ + seq!['='] + enc);
    lemma_split_at_first("rev"@, '=', digits);
    assert(p3 =~= "rev"@ + seq!['='] + digits);
    assert(pair_key(p3) == "rev"@ && pair_value(p3) == digits);
    assert(pair_key(p2) == "relay"@ && pair_value(p2) == enc);
    assert(pair_key(p1) == "room"@ && pair_value(p1) == id);
    assert(pair_key(p0) == "view"@ && pair_value(p0) == "snapshot"@);
    assert("room"@[0] != "view"@[0]);
    assert("rev"@.len() != "view"@.len() && "rev"@.len() != "room"@.len() && "rev"@.len()
        != "relay"@.len());
    assert("relay"@.len() != "view"@.len() && "relay"@.len() != "room"@.len());
    let d2 = pairs.drop_last();
    let d1 = d2.drop_last();
    let d0 = d1.drop_last();
    assert(d2 =~= seq![p0, p1, p2]);
    assert(d1 =~= seq![p0, p1]);
    assert(d0 =~= seq![p0]);
    assert(last_value(d0, "view"@) == Some("snapshot"@));
    assert(last_value(d1, "view"@) == Some("snapshot"@));
    assert(last_value(d2, "view"@) == Some("snapshot"@));
    assert(last_value(pairs, "view"@) == Some("snapshot"@));
    assert(last_value(d1, "room"@) == Some(id));
    assert(last_value(d2, "room"@) == Some(id));
    assert(last_value(pairs, "room"@) == Some(id));
    assert(last_value(d2, "relay"@) == Some(enc));
    assert(last_value(pairs, "relay"@) == Some(enc));
    assert(last_value(pairs, "rev"@) == Some(digits));
    assert forall|k: int| 0 <= k < "snapshot"@.len() implies '\0' <= #[trigger] "snapshot"@[k]
        <= '\u{7f}' && !is_reserved("snapshot"@[k]) by {}
    lemma_decode_plain("snapshot"@);
    lemma_decode_encode_query(spec);
    assert forall|k: int| 0 <= k < digits.len() implies '\0' <= #[trigger] digits[k] <= '\u{7f}'
        && !is_reserved(digits[k]) by {
        assert(is_digit(digits[k]));
    }
    lemma_decode_plain(digits);
    assert(!is_ws(digits[0]) && !is_ws(digits.last())) by {
        assert(is_digit(digits[0]));
        assert(is_digit(digits[digits.len() - 1]));
    }
    lemma_trim_of_trimmed(digits);
    lemma_parse_decimal(revision as nat, u64::MAX as nat);
}

} // verus!
