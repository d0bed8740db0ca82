//! The live share transport's pure half: the connection status state machine
//! and the capped, jittered reconnect backoff schedule.
use vstd::prelude::*;
use core::time::Duration;
use crate::text::{decimal, extend_str, push_decimal, string_of};

verus! {

/// The connection status of a live transport.
#[derive(Clone, PartialEq, Eq, Debug, Default)]
pub enum LiveStatus {
    /// The socket is opening; no frames have flowed yet.
    #[default]
    Connecting,
    /// The socket is open and delivering frames.
    Open,
    /// The socket dropped and a redial is scheduled.
    Reconnecting {
        /// The 1-based reconnect attempt this backoff wait belongs to.
        attempt: u32,
    },
    /// The socket closed cleanly.
    Closed,
    /// The socket failed with a human-readable reason.
    Failed {
        /// The reason to show, already phrased for a person.
        reason: String,
    },
}

/// The status-line text for a status.
pub open spec fn status_label(s: LiveStatus) -> Seq<char> {
    match s {
        LiveStatus::Connecting => "connecting to the shared session..."@,
        LiveStatus::Open => "connected to the shared session"@,
        LiveStatus::Reconnecting { attempt } => "reconnecting to the shared session (attempt "@
            + decimal(attempt as nat) + ")..."@,
        LiveStatus::Closed => "the shared session ended"@,
        LiveStatus::Failed { reason } => "could not join the shared session: "@ + reason@,
    }
}

impl LiveStatus {
    /// Whether the socket is currently open and carrying frames.
    pub fn is_open(&self) -> (r: bool)
        ensures
            r == (*self is Open),
    {
        match self {
            LiveStatus::Open => true,
            _ => false,
        }
    }

    /// Whether this is a terminal status (closed or failed).
    pub fn is_terminal(&self) -> (r: bool)
        ensures
            r == (*self is Closed || *self is Failed),
    {
        match self {
            LiveStatus::Closed | LiveStatus::Failed { .. } => true,
            _ => false,
        }
    }

    /// Whether the transport is waiting on a backoff timer to redial.
    pub fn is_reconnecting(&self) -> (r: bool)
        ensures
            r == (*self is Reconnecting),
    {
        match self {
            LiveStatus::Reconnecting { .. } => true,
            _ => false,
        }
    }

    /// The failure reason, if this status is `Failed`.
    pub fn failure_reason(&self) -> (r: Option<&str>)
        ensures
            match r {
                Some(s) => *self is Failed && s@ == self->reason@,
                None => !(*self is Failed),
            },
    {
        match self {
            LiveStatus::Failed { reason } => Some(reason.as_str()),
            _ => None,
        }
    }

    /// A short, human-readable label for the status line.
    pub fn label(&self) -> (r: String)
        ensures
            r@ == status_label(*self),
    {
        let mut out: Vec<char> = Vec::new();
        match self {
            LiveStatus::Connecting => extend_str(&mut out, "connecting to the shared session..."),
            LiveStatus::Open => extend_str(&mut out, "connected to the shared session"),
            LiveStatus::Reconnecting { attempt } => {
                extend_str(&mut out, "reconnecting to the shared session (attempt ");
                push_decimal(&mut out, *attempt as u64);
                extend_str(&mut out, ")...");
            },
            LiveStatus::Closed => extend_str(&mut out, "the shared session ended"),
            LiveStatus::Failed { reason } => {
                extend_str(&mut out, "could not join the shared session: ");
                extend_str(&mut out, reason.as_str());
            },
        }
        string_of(&out)
    }
}

/// Base reconnect delay in milliseconds (attempt 1's ceiling before jitter).
pub const BASE_MS: u64 = 500;

/// Backoff ceiling in milliseconds.
pub const CAP_MS: u64 = 30_000;

/// The un-jittered wait ceiling for reconnect `attempt`: `BASE * 2^(attempt-1)`
/// (the exponent saturating at 20) clamped to the cap.
pub open spec fn backoff_ceiling(attempt: u32) -> nat {
    let shift: nat = if attempt <= 1 {
        0
    } else if attempt - 1 > 20 {
        20
    } else {
        (attempt - 1) as nat
    };
    let raw = BASE_MS as nat * vstd::arithmetic::power2::pow2(shift);
    if raw < CAP_MS {
        raw
    } else {
        CAP_MS as nat
    }
}

/// A splitmix64-style mix of `(attempt, seed)`, the deterministic jitter source.
pub open spec fn jitter_mix(attempt: u32, seed: u64) -> u64 {
    let x0 = vstd::wrapping::u64_specs::wrapping_add(
        seed,
        vstd::wrapping::u64_specs::wrapping_mul(attempt as u64, 0x9E37_79B9_7F4A_7C15),
    );
    let x1 = vstd::wrapping::u64_specs::wrapping_mul(x0 ^ (x0 >> 30u64), 0xBF58_476D_1CE4_E5B9);
    let x2 = vstd::wrapping::u64_specs::wrapping_mul(x1 ^ (x1 >> 27u64), 0x94D0_49BB_1331_11EB);
    x2 ^ (x2 >> 31u64)
}

/// The wait in milliseconds before reconnect `attempt` with jitter `seed`: half
/// the ceiling plus `jitter_mix(attempt, seed) mod (half + 1)`.
pub open spec fn backoff_wait(attempt: u32, seed: u64) -> nat {
    let half = backoff_ceiling(attempt) / 2;
    half + (jitter_mix(attempt, seed) as nat) % (half + 1)
}

/// A deterministic pseudo-random value from `(attempt, seed)` for backoff jitter.
fn jitter_amount(attempt: u32, seed: u64) -> (r: u64)
    ensures
        r == jitter_mix(attempt, seed),
{
    let mut x = seed.wrapping_add((attempt as u64).wrapping_mul(0x9E37_79B9_7F4A_7C15));
    x = (x ^ (x >> 30u64)).wrapping_mul(0xBF58_476D_1CE4_E5B9);
    x = (x ^ (x >> 27u64)).wrapping_mul(0x94D0_49BB_1331_11EB);
    x ^ (x >> 31u64)
}

/// The backoff wait in milliseconds before reconnect `attempt` (1-based), with
/// deterministic jitter from `seed`.
///
/// The wait always lands in `[ceiling/2, ceiling]`, where the ceiling is
/// `500 * 2^(attempt-1)` ms clamped to 30 000 ms: never zero, never above the
/// cap, and the same for the same `(attempt, seed)`.
pub fn backoff_millis(attempt: u32, seed: u64) -> (r: u64)
    ensures
        r == backoff_wait(attempt, seed),
        backoff_ceiling(attempt) / 2 <= r <= backoff_ceiling(attempt),
        250 <= r <= CAP_MS,
{
    let shift: u32 = if attempt <= 1 {
        0
    } else if attempt - 1 > 20 {
        20
    } else {
        attempt - 1
    };
    let mut pow: u64 = 1;
    let mut k: u32 = 0;
    proof {
        vstd::arithmetic::power2::lemma2_to64();
    }
    while k < shift
        invariant
            k <= shift <= 20,
            pow == vstd::arithmetic::power2::pow2(k as nat),
            pow <= 0x10_0000,
        decreases shift - k,
    {
        proof {
            vstd::arithmetic::power2::lemma_pow2_adds(k as nat, 1);
            vstd::arithmetic::power2::lemma_pow2_strictly_increases(k as nat, 20);
            vstd::arithmetic::power2::lemma2_to64();
            assert(vstd::arithmetic::power2::pow2(20) == 0x10_0000) by {
                vstd::arithmetic::power2::lemma2_to64();
            }
            if k + 1 < 20 {
                vstd::arithmetic::power2::lemma_pow2_strictly_increases((k + 1) as nat, 20);
            }
        }
        pow = pow * 2;
        k += 1;
    }
    let raw = BASE_MS * pow;
    let ceiling = if raw < CAP_MS {
        raw
    } else {
        CAP_MS
    };
    assert(ceiling == backoff_ceiling(attempt));
    proof {
        vstd::arithmetic::power2::lemma_pow2_pos(shift as nat);
    }
    let half = ceiling / 2;
    let jitter = jitter_amount(attempt, seed) % (half + 1);
    half + jitter
}

/// What `Duration::from_millis` returns for `ms`.
pub uninterp spec fn duration_of_millis(ms: u64) -> Duration;

/// `Duration::from_millis`: a duration of `ms` milliseconds. The contract names
/// the result; what a `Duration` holds inside is not modeled.
#[verifier::external_body]
fn millis_duration(ms: u64) -> (d: Duration)
    ensures
        d == duration_of_millis(ms),
{
    Duration::from_millis(ms)
}

/// The backoff wait before reconnect `attempt` (1-based), with deterministic
/// jitter: [`backoff_millis`] as a `Duration`.
pub fn next_backoff_seeded(attempt: u32, seed: u64) -> (r: Duration)
    ensures
        r == duration_of_millis(backoff_wait(attempt, seed) as u64),
{
    millis_duration(backoff_millis(attempt, seed))
}

/// The backoff wait before reconnect `attempt`, using the zero jitter seed.
pub fn next_backoff(attempt: u32) -> (r: Duration)
    ensures
        r == duration_of_millis(backoff_wait(attempt, 0) as u64),
{
    next_backoff_seeded(attempt, 0)
}

// ---------------------------------------------------------------------------
// The reconnect loop
// ---------------------------------------------------------------------------

/// What the reconnect loop of a live socket is told happened.
#[derive(Clone, PartialEq, Eq, Debug)]
pub enum LinkEvent {
    /// The transport was asked to dial (at start, or when a redial timer fired).
    Dial,
    /// A socket to the relay was constructed.
    Created,
    /// A socket could not be constructed; a malformed relay URL cannot be fixed
    /// by retrying.
    Refused {
        /// The reason, phrased for a person.
        reason: String,
    },
    /// The socket of generation `generation` opened.
    Opened {
        /// The generation the socket's handlers were wired with.
        generation: u64,
    },
    /// The socket of generation `generation` closed or errored.
    Dropped {
        /// The generation the socket's handlers were wired with.
        generation: u64,
    },
    /// The transport was dropped by its owner.
    Cancel,
}

/// What the reconnect loop asks the transport to do next.
#[derive(Clone, PartialEq, Eq, Debug)]
pub enum LinkAction {
    /// Nothing: the event was stale or the loop is cancelled.
    Nothing,
    /// Construct a socket to the relay URL.
    Connect,
    /// Wire the new socket's handlers with this generation.
    Wire {
        /// The generation the handlers report back.
        generation: u64,
    },
    /// Post this status to the app.
    Post {
        /// The status to post.
        status: LiveStatus,
    },
    /// Post [`LiveStatus::Reconnecting`] for `attempt` and dial again after
    /// `delay_millis`.
    Retry {
        /// The 1-based reconnect attempt.
        attempt: u32,
        /// The backoff wait in milliseconds.
        delay_millis: u64,
    },
    /// Clear any pending redial and close the socket.
    Teardown,
}

/// The reconnect loop's bookkeeping for one live socket.
#[derive(Clone, Copy, PartialEq, Eq, Debug)]
pub struct Link {
    attempt: u32,
    generation: u64,
    cancelled: bool,
    seed: u64,
}

/// A link's bookkeeping as plain values.
pub struct LinkModel {
    /// Reconnect attempts since the last successful open.
    pub attempt: u32,
    /// Bumped on every new socket and every socket loss; handlers report it.
    pub generation: u64,
    /// Whether the owner dropped the transport.
    pub cancelled: bool,
    /// The per-session jitter seed.
    pub seed: u64,
}

impl View for Link {
    type V = LinkModel;

    closed spec fn view(&self) -> LinkModel {
        LinkModel {
            attempt: self.attempt,
            generation: self.generation,
            cancelled: self.cancelled,
            seed: self.seed,
        }
    }
}

/// `g + 1`, wrapping.
pub open spec fn next_generation(g: u64) -> u64 {
    if g == u64::MAX {
        0
    } else {
        (g + 1) as u64
    }
}

/// The loop's next bookkeeping and action for `event`. Once cancelled it only
/// tears down. A dial asks for a socket; a constructed socket gets a fresh
/// generation; a refused one fails the link. An open or a drop reported by a
/// socket of an older generation is ignored; an open of the current socket
/// resets the attempt count, and its drop retires the generation (so the
/// sibling close-after-error is stale) and schedules the next attempt after
/// its backoff wait.
pub open spec fn link_step(s: LinkModel, e: LinkEvent) -> (LinkModel, LinkAction) {
    if s.cancelled {
        match e {
            LinkEvent::Cancel => (s, LinkAction::Teardown),
            _ => (s, LinkAction::Nothing),
        }
    } else {
        match e {
            LinkEvent::Dial => (s, LinkAction::Connect),
            LinkEvent::Created => (
                LinkModel { generation: next_generation(s.generation), ..s },
                LinkAction::Wire { generation: next_generation(s.generation) },
            ),
            LinkEvent::Refused { reason } => (
                s,
                LinkAction::Post { status: LiveStatus::Failed { reason } },
            ),
            LinkEvent::Opened { generation } => if generation != s.generation {
                (s, LinkAction::Nothing)
            } else {
                (LinkModel { attempt: 0, ..s }, LinkAction::Post { status: LiveStatus::Open })
            },
            LinkEvent::Dropped { generation } => if generation != s.generation {
                (s, LinkAction::Nothing)
            } else {
                let a: u32 = if s.attempt == u32::MAX {
                    s.attempt
                } else {
                    (s.attempt + 1) as u32
                };
                (
                    LinkModel { attempt: a, generation: next_generation(s.generation), ..s },
                    LinkAction::Retry { attempt: a, delay_millis: backoff_wait(a, s.seed) as u64 },
                )
            },
            LinkEvent::Cancel => (LinkModel { cancelled: true, ..s }, LinkAction::Teardown),
        }
    }
}

impl Link {
    /// A fresh link, not yet dialed, with backoff jitter from `seed`.
    pub fn new(seed: u64) -> (r: Link)
        ensures
            r@ == (LinkModel { attempt: 0, generation: 0, cancelled: false, seed }),
    {
        Link { attempt: 0, generation: 0, cancelled: false, seed }
    }

    /// Reconnect attempts since the last successful open.
    pub fn attempt(&self) -> (r: u32)
        ensures
            r == self@.attempt,
    {
        self.attempt
    }

    /// Whether the owner dropped the transport.
    pub fn is_cancelled(&self) -> (r: bool)
        ensures
            r == self@.cancelled,
    {
        self.cancelled
    }

    /// Feeds one event to the loop and returns what the transport must do.
    pub fn step(&mut self, event: LinkEvent) -> (r: LinkAction)
        ensures
            (final(self)@, r) == link_step(old(self)@, event),
            r matches LinkAction::Retry { delay_millis, .. } ==> 250 <= delay_millis <= CAP_MS,
    {
        if self.cancelled {
            return match event {
                LinkEvent::Cancel => LinkAction::Teardown,
                _ => LinkAction::Nothing,
            };
        }
        match event {
            LinkEvent::Dial => LinkAction::Connect,
            LinkEvent::Created => {
                self.generation = self.generation.wrapping_add(1);
                LinkAction::Wire { generation: self.generation }
            },
            LinkEvent::Refused { reason } => LinkAction::Post { status: LiveStatus::Failed { reason } },
            LinkEvent::Opened { generation } => {
                if generation != self.generation {
                    LinkAction::Nothing
                } else {
                    self.attempt = 0;
                    LinkAction::Post { status: LiveStatus::Open }
                }
            },
            LinkEvent::Dropped { generation } => {
                if generation != self.generation {
                    LinkAction::Nothing
                } else {
                    self.generation = self.generation.wrapping_add(1);
                    if self.attempt < u32::MAX {
                        self.attempt = self.attempt + 1;
                    }
                    let delay = backoff_millis(self.attempt, self.seed);
                    LinkAction::Retry { attempt: self.attempt, delay_millis: delay }
                }
            },
            LinkEvent::Cancel => {
                self.cancelled = true;
                LinkAction::Teardown
            },
        }
    }
}

/// A report from a socket the loop has already moved past is ignored: the
/// bookkeeping stays as it was and nothing is done.
pub proof fn lemma_stale_reports_ignored(s: LinkModel, generation: u64)
    requires
        generation != s.generation,
    ensures
        link_step(s, LinkEvent::Opened { generation }) == (s, LinkAction::Nothing),
        link_step(s, LinkEvent::Dropped { generation }) == (s, LinkAction::Nothing),
{
}

/// Once cancelled, the loop never dials, posts or retries again: every event
/// leaves it as it is, and only a cancel asks for a teardown.
pub proof fn lemma_cancelled_link_is_inert(s: LinkModel, e: LinkEvent)
    requires
        s.cancelled,
    ensures
        link_step(s, e).0 == s,
        link_step(s, e).1 == LinkAction::Nothing || link_step(s, e).1 == LinkAction::Teardown,
{
}

/// A socket's loss schedules exactly one redial: the same socket reporting its
/// loss again (a close after an error) is ignored.
pub proof fn lemma_one_retry_per_socket(s: LinkModel)
    requires
        !s.cancelled,
    ensures
        link_step(s, LinkEvent::Dropped { generation: s.generation }).1 is Retry,
        link_step(
            link_step(s, LinkEvent::Dropped { generation: s.generation }).0,
            LinkEvent::Dropped { generation: s.generation },
        ) == (link_step(s, LinkEvent::Dropped { generation: s.generation }).0, LinkAction::Nothing),
{
}

/// Opening the current socket resets the reconnect count and announces the
/// link open.
pub proof fn lemma_open_resets_attempts(s: LinkModel)
    requires
        !s.cancelled,
    ensures
        link_step(s, LinkEvent::Opened { generation: s.generation }).0.attempt == 0,
        link_step(s, LinkEvent::Opened { generation: s.generation }).1 == (LinkAction::Post {
            status: LiveStatus::Open,
        }),
{
}

} // verus!
