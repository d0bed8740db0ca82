//! The design-review panel's state and the text it produces: the id a
//! review-action comment carries, and a thread row's one-line title.
use vstd::prelude::*;
use crate::text::{chars_of, decimal, is_digit, lemma_decimal_digits, extend_str, push_decimal, push_signed_decimal, signed_decimal, string_of};

verus! {

/// The id of the review-action comment number `seq` on thread `thread_index`
/// at `now_ms`.
pub open spec fn spec_review_action_id(seq: nat, thread_index: nat, now_ms: int) -> Seq<char> {
    "review-"@ + decimal(seq) + "-"@ + decimal(thread_index) + "-"@ + signed_decimal(now_ms)
}

/// A per-session-unique id for a produced review-action comment:
/// `review-{seq}-{thread_index}-{now_ms}`.
pub fn review_action_id(seq: u64, thread_index: usize, now_ms: i64) -> (r: String)
    ensures
        r@ == spec_review_action_id(seq as nat, thread_index as nat, now_ms as int),
{
    let mut out: Vec<char> = Vec::new();
    extend_str(&mut out, "review-");
    push_decimal(&mut out, seq);
    extend_str(&mut out, "-");
    push_decimal(&mut out, thread_index as u64);
    extend_str(&mut out, "-");
    push_signed_decimal(&mut out, now_ms);
    string_of(&out)
}

/// Review-action ids with different sequence numbers differ, whatever their
/// threads and timestamps: a session that numbers its actions one by one never
/// reuses an id.
pub proof fn lemma_review_ids_distinct(
    seq1: nat,
    seq2: nat,
    thread1: nat,
    thread2: nat,
    now1: int,
    now2: int,
)
    requires
        seq1 != seq2,
    ensures
        spec_review_action_id(seq1, thread1, now1) != spec_review_action_id(seq2, thread2, now2),
{
    reveal_strlit("review-");
    reveal_strlit("-");
    lemma_decimal_digits(seq1);
    lemma_decimal_digits(seq2);
    let d1 = decimal(seq1);
    let d2 = decimal(seq2);
    let id1 = spec_review_action_id(seq1, thread1, now1);
    let id2 = spec_review_action_id(seq2, thread2, now2);
    let p1 = "review-"@ + d1 + "-"@;
    let p2 = "review-"@ + d2 + "-"@;
    assert(id1 == p1 + (decimal(thread1) + "-"@ + signed_decimal(now1))) by {
        assert(id1 =~= p1 + (decimal(thread1) + "-"@ + signed_decimal(now1)));
    }
    assert(id2 == p2 + (decimal(thread2) + "-"@ + signed_decimal(now2))) by {
        assert(id2 =~= p2 + (decimal(thread2) + "-"@ + signed_decimal(now2)));
    }
    if id1 == id2 {
        if d1.len() == d2.len() {
            assert forall|i: int| 0 <= i < d1.len() implies d1[i] == d2[i] by {
                assert(id1[7 + i] == p1[7 + i]);
                assert(id2[7 + i] == p2[7 + i]);
            }
            assert(d1 =~= d2);
        } else if d1.len() < d2.len() {
            let k: int = 7 + d1.len() as int;
            assert(id1[k] == p1[k]);
            assert(id2[k] == p2[k]);
            assert(is_digit(d2[d1.len() as int]));
        } else {
            let k: int = 7 + d2.len() as int;
            assert(id1[k] == p1[k]);
            assert(id2[k] == p2[k]);
            assert(is_digit(d1[d2.len() as int]));
        }
    }
}


/// `body` on one line: every newline becomes a space.
pub open spec fn one_line(body: Seq<char>) -> Seq<char> {
    body.map_values(|c: char| if c == '\n' { ' ' } else { c })
}

/// A one-line title for a thread's row: `@{anchor}  {body}`, the root
/// comment's body with newlines collapsed to spaces.
pub fn thread_title(anchor: &str, body: &str) -> (r: String)
    ensures
        r@ == "@"@ + anchor@ + "  "@ + one_line(body@),
{
    let mut out: Vec<char> = Vec::new();
    extend_str(&mut out, "@");
    extend_str(&mut out, anchor);
    extend_str(&mut out, "  ");
    let ghost head = out@;
    let b = chars_of(body);
    let mut i: usize = 0;
    while i < b.len()
        invariant
            i <= b@.len(),
            b@ == body@,
            out@ == head + one_line(b@.take(i as int)),
        decreases b@.len() - i,
    {
        let c = b[i];
        out.push(if c == '\n' { ' ' } else { c });
        assert(one_line(b@.take(i + 1)) =~= one_line(b@.take(i as int)).push(if c == '\n' { ' ' } else { c }));
        i = i + 1;
    }
    assert(b@.take(b@.len() as int) =~= b@);
    string_of(&out)
}

/// The review panel's state: whether its window is shown, the actor recorded
/// as the author of produced review actions, and a per-session id counter.
#[derive(Clone, Debug)]
pub struct ReviewPanel {
    /// Whether the floating review window is shown.
    pub open: bool,
    author: String,
    seq: u64,
}

impl ReviewPanel {
    /// The author recorded on produced review actions.
    pub closed spec fn author_spec(&self) -> Seq<char> {
        self.author@
    }

    /// Whether the window is shown.
    pub closed spec fn shown(&self) -> bool {
        self.open
    }

    /// The sequence number the next produced action's id carries.
    pub closed spec fn seq_spec(&self) -> u64 {
        self.seq
    }

    /// Creates a closed review panel whose actions are authored by `you`.
    pub fn new() -> (r: ReviewPanel)
        ensures
            !r.shown(),
            r.author_spec() == "you"@,
            r.seq_spec() == 0,
    {
        let a = chars_of("you");
        ReviewPanel { open: false, author: string_of(&a), seq: 0 }
    }

    /// Shows or hides the panel window.
    pub fn toggle(&mut self)
        ensures
            final(self).shown() == !old(self).shown(),
            final(self).author_spec() == old(self).author_spec(),
            final(self).seq_spec() == old(self).seq_spec(),
    {
        self.open = !self.open;
    }

    /// The author recorded on produced review actions.
    pub fn author(&self) -> (r: &str)
        ensures
            r@ == self.author_spec(),
    {
        self.author.as_str()
    }

    /// The id for the review action just taken on thread
    /// `thread_index` at `now_ms`; the next action gets the next sequence
    /// number, so ids within a session never repeat.
    pub fn next_action_id(&mut self, thread_index: usize, now_ms: i64) -> (r: String)
        ensures
            r@ == spec_review_action_id(old(self).seq_spec() as nat, thread_index as nat, now_ms as int),
            final(self).seq_spec() == (if old(self).seq_spec() == u64::MAX {
                0
            } else {
                (old(self).seq_spec() + 1) as u64
            }),
            final(self).shown() == old(self).shown(),
            final(self).author_spec() == old(self).author_spec(),
    {
        let id = review_action_id(self.seq, thread_index, now_ms);
        self.seq = if self.seq == u64::MAX {
            0
        } else {
            self.seq + 1
        };
        id
    }
}

impl Default for ReviewPanel {
    fn default() -> (r: ReviewPanel)
        ensures
            !r.shown(),
            r.author_spec() == "you"@,
            r.seq_spec() == 0,
    {
        ReviewPanel::new()
    }
}

} // verus!
