//! Per-client sliding-window rate limiting of the API.
//!
//! Every client address keeps the instants of its admitted requests that
//! still lie within the window. A request is admitted while fewer than
//! `max_requests` of them remain.
//!
//! Instants are nanoseconds counted from a fixed origin that lies at or
//! before every instant the limiter is given (the caller picks it, for
//! example when the server starts).

use std::collections::HashMap;
use std::collections::VecDeque;
use vstd::prelude::*;
use vstd::std_specs::hash::obeys_key_model;

verus! {

broadcast use {
    vstd::std_specs::hash::group_hash_axioms,
    vstd::std_specs::vecdeque::group_vec_dequeue_axioms,
};

/// A client address.
#[derive(Debug, Clone, Copy, PartialEq, Eq)]
pub enum ClientIp {
    /// An IPv4 address, as its 32 bits.
    V4(u32),
    /// An IPv6 address, as its 128 bits.
    V6(u128),
}

/// Sliding-window limiter: at most `max_requests` admitted requests per
/// client within any window of `window` length.
pub struct RateLimiter {
    window_nanos: u128,
    max_requests: u32,
    hits_v4: HashMap<u32, VecDeque<u128>>,
    hits_v6: HashMap<u128, VecDeque<u128>>,
}

/// Nanoseconds in a second.
pub const NANOS_PER_SEC: u128 = 1_000_000_000;

/// The oldest instant still inside the window that ends at `now`.
pub open spec fn cutoff(now: u128, window: u128) -> u128 {
    if now >= window {
        (now - window) as u128
    } else {
        0
    }
}

/// `q` without its leading instants that lie before `cutoff`, which is what
/// expiring a queue of instants does.
pub open spec fn drop_expired(q: Seq<u128>, cutoff: u128) -> Seq<u128>
    decreases q.len(),
{
    if q.len() > 0 && q[0] < cutoff {
        drop_expired(q.drop_first(), cutoff)
    } else {
        q
    }
}

/// The instants of `q` ascend.
pub open spec fn ascending(q: Seq<u128>) -> bool {
    forall|i: int, j: int| 0 <= i <= j < q.len() ==> q[i] <= q[j]
}

/// The instants of `q` that are not before `cutoff`.
pub open spec fn within(q: Seq<u128>, cutoff: u128) -> Seq<u128> {
    q.filter(|t: u128| t >= cutoff)
}

impl RateLimiter {
    /// Window length, in nanoseconds.
    pub closed spec fn window(&self) -> u128 {
        self.window_nanos
    }

    /// Admitted requests allowed per window.
    pub closed spec fn max_requests(&self) -> u32 {
        self.max_requests
    }

    /// Instants of the admitted requests of `ip` that are still kept,
    /// oldest first.
    pub closed spec fn hits(&self, ip: ClientIp) -> Seq<u128> {
        match ip {
            ClientIp::V4(a) => if self.hits_v4@.contains_key(a) {
                self.hits_v4@[a]@
            } else {
                Seq::empty()
            },
            ClientIp::V6(a) => if self.hits_v6@.contains_key(a) {
                self.hits_v6@[a]@
            } else {
                Seq::empty()
            },
        }
    }

    /// No client keeps more than `max_requests` instants.
    pub closed spec fn wf(&self) -> bool {
        forall|ip: ClientIp| (#[trigger] self.hits(ip)).len() <= self.max_requests
    }

    /// A limiter with a window of `window_secs` seconds that admits
    /// `max_requests` requests per client within a window.
    pub fn new(window_secs: u64, max_requests: u32) -> (r: Self)
        ensures
            r.wf(),
            r.window() == window_secs * NANOS_PER_SEC,
            r.max_requests() == max_requests,
            forall|ip: ClientIp| (#[trigger] r.hits(ip)) == Seq::<u128>::empty(),
    {
        let r = RateLimiter {
            window_nanos: (window_secs as u128) * NANOS_PER_SEC,
            max_requests,
            hits_v4: HashMap::new(),
            hits_v6: HashMap::new(),
        };
        assert forall|ip: ClientIp| (#[trigger] r.hits(ip)) == Seq::<u128>::empty() by {}
        r
    }

    /// Expires the instants of `q` before `cutoff`, then admits the request
    /// at `now` when fewer than `max` remain.
    fn record(q: &mut VecDeque<u128>, cutoff: u128, now: u128, max: u32) -> (r: bool)
        ensures
            r == (drop_expired(old(q)@, cutoff).len() < max),
            r ==> final(q)@ == drop_expired(old(q)@, cutoff).push(now),
            !r ==> final(q)@ == drop_expired(old(q)@, cutoff),
    {
        loop
            invariant
                drop_expired(q@, cutoff) == drop_expired(old(q)@, cutoff),
            ensures
                drop_expired(q@, cutoff) == drop_expired(old(q)@, cutoff),
                q@.len() == 0 || q@[0] >= cutoff,
            decreases q@.len(),
        {
            if q.len() > 0 && q[0] < cutoff {
                let ghost before = q@;
                let _ = q.pop_front();
                assert(q@ =~= before.drop_first());
            } else {
                break;
            }
        }
        if q.len() >= max as usize {
            false
        } else {
            q.push_back(now);
            true
        }
    }

    /// Admits or refuses a request of `ip` at instant `now` (nanoseconds
    /// from the limiter's origin): expired instants are dropped first, then
    /// the request is admitted, and recorded, when fewer than
    /// `max_requests` instants remain.
    pub fn allow(&mut self, ip: ClientIp, now: u128) -> (r: bool)
        requires
            old(self).wf(),
        ensures
            final(self).wf(),
            final(self).window() == old(self).window(),
            final(self).max_requests() == old(self).max_requests(),
            ({
                let kept = drop_expired(old(self).hits(ip), cutoff(now, old(self).window()));
                &&& r == (kept.len() < old(self).max_requests())
                &&& r ==> final(self).hits(ip) == kept.push(now)
                &&& !r ==> final(self).hits(ip) == kept
            }),
            forall|other: ClientIp|
                other != ip ==> #[trigger] final(self).hits(other) == old(self).hits(other),
    {
        let cut = if now >= self.window_nanos {
            now - self.window_nanos
        } else {
            0
        };
        let max = self.max_requests;
        let ghost pre = *self;
        proof {
            assert(obeys_key_model::<u32>());
            assert(obeys_key_model::<u128>());
        }
        let r = match ip {
            ClientIp::V4(a) => {
                let mut q = match self.hits_v4.remove(&a) {
                    Some(q) => q,
                    None => VecDeque::new(),
                };
                assert(q@ == pre.hits(ip));
                let r = Self::record(&mut q, cut, now, max);
                self.hits_v4.insert(a, q);
                r
            },
            ClientIp::V6(a) => {
                let mut q = match self.hits_v6.remove(&a) {
                    Some(q) => q,
                    None => VecDeque::new(),
                };
                assert(q@ == pre.hits(ip));
                let r = Self::record(&mut q, cut, now, max);
                self.hits_v6.insert(a, q);
                r
            },
        };
        proof {
            assert forall|other: ClientIp| other != ip implies #[trigger] self.hits(other) == pre.hits(
                other,
            ) by {}
            lemma_drop_expired_shrinks(pre.hits(ip), cut);
            assert forall|o: ClientIp| (#[trigger] self.hits(o)).len() <= self.max_requests by {
                if o != ip {
                    assert(self.hits(o) == pre.hits(o));
                    assert(pre.hits(o).len() <= pre.max_requests);
                }
            }
        }
        r
    }

    /// Forgets every recorded request.
    pub fn clear(&mut self)
        requires
            old(self).wf(),
        ensures
            final(self).wf(),
            final(self).window() == old(self).window(),
            final(self).max_requests() == old(self).max_requests(),
            forall|ip: ClientIp| (#[trigger] final(self).hits(ip)) == Seq::<u128>::empty(),
    {
        self.hits_v4.clear();
        self.hits_v6.clear();
        assert forall|ip: ClientIp| (#[trigger] self.hits(ip)) == Seq::<u128>::empty() by {}
    }
}

/// Expiring only removes instants.
pub proof fn lemma_drop_expired_shrinks(q: Seq<u128>, c: u128)
    ensures
        drop_expired(q, c).len() <= q.len(),
        exists|k: int| 0 <= k <= q.len() && drop_expired(q, c) == q.subrange(k, q.len() as int),
    decreases q.len(),
{
    if q.len() > 0 && q[0] < c {
        lemma_drop_expired_shrinks(q.drop_first(), c);
        let k = choose|k: int|
            0 <= k <= q.drop_first().len() && drop_expired(q.drop_first(), c)
                == q.drop_first().subrange(k, q.drop_first().len() as int);
        assert(q.drop_first().subrange(k, q.drop_first().len() as int) =~= q.subrange(
            k + 1,
            q.len() as int,
        ));
    } else {
        assert(q.subrange(0, q.len() as int) =~= q);
    }
}

/// For ascending instants, expiring keeps exactly the instants inside the
/// window: a client is admitted iff fewer than `max_requests` of its
/// admitted requests lie within the window that ends now.
pub proof fn law_expire_keeps_window(q: Seq<u128>, c: u128)
    requires
        ascending(q),
    ensures
        drop_expired(q, c) == within(q, c),
    decreases q.len(),
{
    if q.len() == 0 {
        reveal(Seq::filter);
        assert(within(q, c) =~= Seq::<u128>::empty());
    } else {
        let t = q.drop_first();
        assert(ascending(t));
        law_expire_keeps_window(t, c);
        assert(q =~= seq![q[0]] + t);
        t.lemma_filter_prepend(q[0], |x: u128| x >= c);
        if q[0] < c {
            assert(within(q, c) =~= within(t, c));
        } else {
            if t.len() > 0 {
                assert(t[0] == q[1]);
                assert(q[0] <= q[1]);
            }
            assert(drop_expired(t, c) == t);
            assert(within(q, c) =~= q);
        }
    }
}

/// Recording an instant no earlier than any kept instant keeps the
/// instants ascending.
pub proof fn law_recording_keeps_order(q: Seq<u128>, c: u128, now: u128)
    requires
        ascending(q),
        forall|i: int| 0 <= i < q.len() ==> q[i] <= now,
    ensures
        ascending(drop_expired(q, c)),
        ascending(drop_expired(q, c).push(now)),
{
    lemma_drop_expired_shrinks(q, c);
    let k = choose|k: int| 0 <= k <= q.len() && drop_expired(q, c) == q.subrange(k, q.len() as int);
    let d = drop_expired(q, c);
    assert(ascending(d));
    assert forall|i: int, j: int| 0 <= i <= j < d.push(now).len() implies d.push(now)[i] <= d.push(
        now,
    )[j] by {
        if j == d.len() {
            if i < d.len() {
                assert(d[i] == q[i + k]);
            }
        }
    }
}

} // verus!
