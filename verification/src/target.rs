//! Per-target scrape bookkeeping: the change detection that decides when the
//! output file is written, and the count of consecutive errors.
use vstd::prelude::*;

use crate::digest::{sha256, sha256_hex};

verus! {

/// What is remembered of one scrape target between iterations.
pub struct TargetState {
    /// Iterations in a row that failed.
    pub consecutive_errors: u32,
    /// Fingerprint of the last JSON written, none until the first write.
    pub last_hash: Option<String>,
    /// While backing off, the time (in seconds on the caller's clock) from
    /// which the target is scraped again.
    pub resume_at: Option<u64>,
}

pub struct TargetStateView {
    pub consecutive_errors: u32,
    pub last_hash: Option<Seq<char>>,
    pub resume_at: Option<u64>,
}

impl View for TargetState {
    type V = TargetStateView;

    open spec fn view(&self) -> TargetStateView {
        TargetStateView {
            consecutive_errors: self.consecutive_errors,
            last_hash: match self.last_hash {
                Some(h) => Some(h@),
                None => None,
            },
            resume_at: self.resume_at,
        }
    }
}

/// Whether content with fingerprint `hash` must be written: it differs from
/// what was last written, or nothing was written yet.
pub open spec fn must_write(st: TargetStateView, hash: Seq<char>) -> bool {
    st.last_hash != Some(hash)
}

/// `2^e`.
pub open spec fn pow2(e: nat) -> nat
    decreases e,
{
    if e == 0 {
        1
    } else {
        2 * pow2((e - 1) as nat)
    }
}

/// The back-off after `errors` consecutive failures: `2^min(errors, 5)` seconds.
pub open spec fn backoff_secs(errors: u32) -> nat {
    pow2(if errors < 5 { errors as nat } else { 5 })
}

/// `2^min(errors, 5)`.
pub fn backoff_seconds(errors: u32) -> (s: u64)
    ensures
        s == backoff_secs(errors),
{
    let e = if errors < 5 { errors } else { 5 };
    let mut s: u64 = 1;
    let mut i: u32 = 0;
    while i < e
        invariant
            e <= 5,
            i <= e,
            s == pow2(i as nat),
            e == if errors < 5 { errors } else { 5 },
        decreases e - i,
    {
        assert(pow2(i as nat) <= 16) by {
            assert(pow2(0) == 1);
            assert(pow2(1) == 2);
            assert(pow2(2) == 4);
            assert(pow2(3) == 8);
            assert(pow2(4) == 16);
        }
        s = s * 2;
        i = i + 1;
    }
    s
}

impl TargetState {
    /// A target that has neither failed nor written yet.
    pub fn new() -> (st: TargetState)
        ensures
            st@.consecutive_errors == 0,
            st@.last_hash is None,
            st@.resume_at is None,
    {
        TargetState { consecutive_errors: 0, last_hash: None, resume_at: None }
    }

    /// Whether the target is scraped at time `now`: it is, unless it is backing
    /// off and its back-off has not run out.
    pub fn should_scrape(&self, now: u64) -> (r: bool)
        ensures
            r == may_scrape(self@, now),
    {
        match self.resume_at {
            Some(t) => now >= t,
            None => true,
        }
    }

    /// The fingerprint of `json` when it must be written, none when the file
    /// already holds it.
    pub fn plan_write(&self, json: &str) -> (h: Option<String>)
        ensures
            match h {
                Some(s) => s@ == sha256_hex(json@) && must_write(self@, sha256_hex(json@)),
                None => !must_write(self@, sha256_hex(json@)),
            },
    {
        let hash = sha256(json);
        let same = match &self.last_hash {
            Some(last) => *last == hash,
            None => false,
        };
        if same {
            None
        } else {
            Some(hash)
        }
    }

    /// Remembers that content with fingerprint `hash` was written.
    pub fn record_write(&mut self, hash: String)
        ensures
            final(self)@.last_hash == Some(hash@),
            final(self)@.consecutive_errors == old(self)@.consecutive_errors,
            final(self)@.resume_at == old(self)@.resume_at,
    {
        self.last_hash = Some(hash);
    }

    /// Records an iteration that succeeded, which ends any back-off.
    pub fn record_success(&mut self)
        ensures
            final(self)@.consecutive_errors == 0,
            final(self)@.last_hash == old(self)@.last_hash,
            final(self)@.resume_at is None,
    {
        self.consecutive_errors = 0;
        self.resume_at = None;
    }

    /// Records an iteration that failed at time `now`. From the second failure
    /// in a row on, the target backs off: it is not scraped again for the next
    /// `2^min(errors, 5)` seconds, which are returned.
    pub fn record_failure(&mut self, now: u64) -> (backoff: Option<u64>)
        requires
            old(self)@.consecutive_errors < u32::MAX,
        ensures
            final(self)@.consecutive_errors == old(self)@.consecutive_errors + 1,
            final(self)@.last_hash == old(self)@.last_hash,
            match backoff {
                Some(s) => {
                    &&& final(self)@.consecutive_errors > 1
                    &&& s == backoff_secs(final(self)@.consecutive_errors)
                    &&& final(self)@.resume_at == Some(sat_add(now, s))
                },
                None => final(self)@.consecutive_errors <= 1 && final(self)@.resume_at is None,
            },
    {
        self.consecutive_errors = self.consecutive_errors + 1;
        if self.consecutive_errors > 1 {
            let secs = backoff_seconds(self.consecutive_errors);
            self.resume_at = Some(now.saturating_add(secs));
            Some(secs)
        } else {
            self.resume_at = None;
            None
        }
    }
}

/// `a + b`, or `u64::MAX` when that does not fit.
pub open spec fn sat_add(a: u64, b: u64) -> u64 {
    if a + b <= u64::MAX {
        (a + b) as u64
    } else {
        u64::MAX
    }
}

/// Whether a target in state `st` is scraped at time `now`.
pub open spec fn may_scrape(st: TargetStateView, now: u64) -> bool {
    match st.resume_at {
        Some(t) => now >= t,
        None => true,
    }
}

/// Nanoseconds in a second.
pub const NANOS_PER_SEC: u128 = 1_000_000_000;

/// The wait that keeps iterations `interval_secs` apart after one that took
/// `elapsed_nanos`: what is left of the interval, or nothing once it has passed
/// (`Duration::saturating_sub`).
pub fn remaining_wait_nanos(interval_secs: u64, elapsed_nanos: u128) -> (w: u128)
    ensures
        w == if interval_secs * NANOS_PER_SEC > elapsed_nanos {
            interval_secs * NANOS_PER_SEC - elapsed_nanos
        } else {
            0
        },
{
    let interval = interval_secs as u128 * NANOS_PER_SEC;
    if interval > elapsed_nanos {
        interval - elapsed_nanos
    } else {
        0
    }
}

} // verus!
