//! Keeping a restored entry from being recorded again.
use vstd::prelude::*;

use crate::outside::{elapsed_nanos, instant_now, DURATION_MAX_NANOS};
use crate::text::same_text;
use crate::time::Moment;

verus! {

/// How long a restored entry is waited for, in nanoseconds.
pub const SUPPRESS_TTL: u128 = 5_000_000_000;

/// What is waited for: the hash of a restored entry, and the last moment at which it counts.
pub type SuppressView = Option<(Seq<char>, u128)>;

/// The hash of the entry that was restored last, until it has been seen or has expired.
#[derive(Debug)]
pub struct SuppressState {
    pending: Option<PendingHash>,
    started: std::time::Instant,
}

#[derive(Debug)]
struct PendingHash {
    hash: String,
    expires_at: u128,
}

impl View for SuppressState {
    type V = SuppressView;

    closed spec fn view(&self) -> SuppressView {
        match self.pending {
            Some(pending) => Some((pending.hash@, pending.expires_at)),
            None => None,
        }
    }
}

/// The state after an entry was restored.
pub open spec fn armed(hash: Seq<char>, now: Moment) -> SuppressView {
    Some((hash, (now.nanos + SUPPRESS_TTL) as u128))
}

/// Whether an offer with the given hash is the restored entry.
pub open spec fn suppresses(state: SuppressView, hash: Seq<char>, now: Moment) -> bool {
    state matches Some((pending, expires_at)) && now.nanos <= expires_at && pending == hash
}

/// The state after an offer was seen: the restored entry is waited for no longer once it has been
/// seen or has expired.
pub open spec fn after_offer(state: SuppressView, hash: Seq<char>, now: Moment) -> SuppressView {
    match state {
        Some((pending, expires_at)) => if now.nanos > expires_at || pending == hash {
            None
        } else {
            state
        },
        None => None,
    }
}

impl Default for SuppressState {
    fn default() -> (r: Self)
        ensures
            r@ is None,
    {
        SuppressState { pending: None, started: instant_now() }
    }
}

impl SuppressState {
    /// The current moment.
    pub fn now(&self) -> (now: Moment)
        ensures
            now.nanos <= DURATION_MAX_NANOS,
    {
        Moment { nanos: elapsed_nanos(&self.started) }
    }

    /// Waits for an entry that is being restored.
    pub fn arm(&mut self, hash: String)
        ensures
            exists|now: Moment|
                now.nanos <= DURATION_MAX_NANOS && final(self)@ == armed(hash@, now),
    {
        let now = self.now();
        self.arm_at(hash, now);
    }

    /// Tells whether an offer is the entry that is waited for, which it then no longer is.
    pub fn should_suppress(&mut self, hash: &str) -> (r: bool)
        ensures
            exists|now: Moment|
                {
                    &&& now.nanos <= DURATION_MAX_NANOS
                    &&& r == suppresses(old(self)@, hash@, now)
                    &&& final(self)@ == after_offer(old(self)@, hash@, now)
                },
    {
        let now = self.now();
        self.should_suppress_at(hash, now)
    }

    /// Waits from `now` on for an entry that is being restored.
    pub fn arm_at(&mut self, hash: String, now: Moment)
        requires
            now.nanos + SUPPRESS_TTL <= u128::MAX,
        ensures
            final(self)@ == armed(hash@, now),
    {
        self.pending = Some(PendingHash { hash, expires_at: now.nanos + SUPPRESS_TTL });
    }

    /// Tells whether an offer seen at `now` is the entry that is waited for, which it then no
    /// longer is.
    pub fn should_suppress_at(&mut self, hash: &str, now: Moment) -> (r: bool)
        ensures
            r == suppresses(old(self)@, hash@, now),
            final(self)@ == after_offer(old(self)@, hash@, now),
    {
        let (expired, matches) = match &self.pending {
            Some(pending) => (
                now.nanos > pending.expires_at,
                same_text(pending.hash.as_str(), hash),
            ),
            None => (false, false),
        };
        if expired {
            self.pending = None;
            false
        } else if matches {
            self.pending = None;
            true
        } else {
            false
        }
    }
}

/// A restored entry is suppressed when it is seen within the time allowed, and only then.
pub proof fn law_suppressed_in_time(hash: Seq<char>, restored: Moment, seen: Moment)
    requires
        restored.nanos + SUPPRESS_TTL <= u128::MAX,
    ensures
        suppresses(armed(hash, restored), hash, seen) <==> seen.nanos <= restored.nanos
            + SUPPRESS_TTL,
{
}

/// A restored entry is suppressed once: after that, nothing is until another one is restored.
pub proof fn law_suppressed_once(
    state: SuppressView,
    hash: Seq<char>,
    seen: Moment,
    other: Seq<char>,
    later: Moment,
)
    requires
        suppresses(state, hash, seen),
    ensures
        !suppresses(after_offer(state, hash, seen), other, later),
        after_offer(after_offer(state, hash, seen), other, later) is None,
{
}

/// Another offer that is seen in time does not keep the restored entry from being suppressed.
pub proof fn law_mismatch_keeps_waiting(
    hash: Seq<char>,
    other: Seq<char>,
    restored: Moment,
    seen: Moment,
    later: Moment,
)
    requires
        other != hash,
        restored.nanos + SUPPRESS_TTL <= u128::MAX,
        seen.nanos <= restored.nanos + SUPPRESS_TTL,
    ensures
        !suppresses(armed(hash, restored), other, seen),
        after_offer(armed(hash, restored), other, seen) == armed(hash, restored),
        suppresses(after_offer(armed(hash, restored), other, seen), hash, later)
            <==> later.nanos <= restored.nanos + SUPPRESS_TTL,
{
}

/// What is seen too late suppresses nothing and ends the wait.
pub proof fn law_expired_is_cleared(
    hash: Seq<char>,
    restored: Moment,
    seen: Moment,
    other: Seq<char>,
)
    requires
        restored.nanos + SUPPRESS_TTL < seen.nanos,
    ensures
        !suppresses(armed(hash, restored), other, seen),
        after_offer(armed(hash, restored), other, seen) is None,
{
}

} // verus!
