//! A token-bucket throttle for backup and restore copy traffic.
//!
//! The bucket holds at most `bytes_per_refill` tokens, one per byte of copy
//! I/O. The caller refills it once per window from its clock; copy work
//! drains it. A zero `bytes_per_refill` means unlimited: the bucket is
//! never consulted and `try_request` always grants.
//!
//! The limiter only accounts and throttles; it never changes what an
//! operation computes, so waiting for tokens is the caller's loop:
//! `try_request` until granted, refilling as the window elapses.

use vstd::prelude::*;

verus! {

/// A token bucket: `available` bytes may still be copied in this window.
pub struct RateLimiter {
    pub bytes_per_refill: u64,
    pub available: u64,
}

impl RateLimiter {
    /// The bucket never holds more than one window's worth of tokens.
    pub open spec fn wf(self) -> bool {
        self.available <= self.bytes_per_refill
    }

    /// True when this limiter imposes no limit at all.
    pub open spec fn is_unlimited(self) -> bool {
        self.bytes_per_refill == 0
    }

    /// A full bucket over a window of `bytes_per_refill` bytes; zero means
    /// unlimited.
    pub fn new(bytes_per_refill: u64) -> (r: RateLimiter)
        ensures
            r.wf(),
            r.bytes_per_refill == bytes_per_refill,
            r.available == bytes_per_refill,
    {
        RateLimiter { bytes_per_refill, available: bytes_per_refill }
    }

    /// Refill the bucket at the start of a new window.
    pub fn refill(&mut self)
        ensures
            final(self).wf(),
            final(self).bytes_per_refill == old(self).bytes_per_refill,
            final(self).available == old(self).bytes_per_refill,
    {
        self.available = self.bytes_per_refill;
    }

    /// Ask for `bytes` tokens. Granted exactly when the limiter is
    /// unlimited or the bucket still holds that many; a grant drains them.
    pub fn try_request(&mut self, bytes: u64) -> (granted: bool)
        requires
            old(self).wf(),
        ensures
            final(self).wf(),
            final(self).bytes_per_refill == old(self).bytes_per_refill,
            granted == (old(self).is_unlimited() || bytes <= old(self).available),
            old(self).is_unlimited() ==> final(self).available == old(self).available,
            granted && !old(self).is_unlimited() ==> final(self).available == old(
                self,
            ).available - bytes,
            !granted ==> final(self).available == old(self).available,
    {
        if self.bytes_per_refill == 0 {
            true
        } else if bytes <= self.available {
            self.available = self.available - bytes;
            true
        } else {
            false
        }
    }

    /// Drain up to `bytes` tokens without blocking, for work that must
    /// proceed regardless; the bucket saturates at empty.
    pub fn consume_saturating(&mut self, bytes: u64)
        requires
            old(self).wf(),
        ensures
            final(self).wf(),
            final(self).bytes_per_refill == old(self).bytes_per_refill,
            final(self).available == if bytes <= old(self).available {
                (old(self).available - bytes) as u64
            } else {
                0u64
            },
    {
        if bytes <= self.available {
            self.available = self.available - bytes;
        } else {
            self.available = 0;
        }
    }
}

} // verus!
