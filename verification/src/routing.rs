//! Choosing the backend that takes the next connection.

use vstd::prelude::*;
use crate::backend::Backend;

verus! {

/// A way of choosing the next backend among those of a pool.
pub trait RoutingStrategy {
    /// The index of the backend that takes the next connection, if any
    /// backend can take it.
    fn next(&mut self, backends: &[Backend]) -> Option<usize>;
}

/// Builds the routing strategy that the configuration names. Round robin is
/// the only strategy, and it is also what an unknown name falls back to.
pub fn init(name: &str) -> (r: RoundRobin)
    ensures
        r.counter() == 0,
{
    RoundRobin::new()
}

/// Round robin over the healthy backends: the `k`-th call takes the
/// `k`-th healthy backend (modulo their number), in the pool's order, so
/// the healthy backends take turns one after the other.
pub struct RoundRobin {
    counter: usize,
}

/// The indices of the healthy backends, in increasing order.
pub open spec fn healthy_indices(b: Seq<Backend>) -> Seq<int>
    decreases b.len(),
{
    if b.len() == 0 {
        seq![]
    } else if b.last().health {
        healthy_indices(b.drop_last()).push(b.len() - 1)
    } else {
        healthy_indices(b.drop_last())
    }
}

/// The backend that round robin picks when its counter stands at `start`:
/// the healthy backend at position `start` modulo their number.
pub open spec fn round_robin_choice(b: Seq<Backend>, start: int) -> Option<int> {
    let h = healthy_indices(b);
    if h.len() == 0 {
        None
    } else {
        Some(h[start % (h.len() as int)])
    }
}

/// The counter after one step: it wraps round at the largest `usize`.
pub open spec fn counter_after(c: usize) -> usize {
    if c == usize::MAX { 0 } else { (c + 1) as usize }
}

proof fn lemma_rotated_index(start: int, i: int, len: int)
    requires
        len > 0,
        start >= 0,
        0 <= i < len,
    ensures
        (start + i) % len == if start % len + i < len {
            start % len + i
        } else {
            start % len + i - len
        },
{
    let q = start / len;
    let s = start % len;
    vstd::arithmetic::div_mod::lemma_fundamental_div_mod(start, len);
    assert(start == q * len + s) by (nonlinear_arith)
        requires start == len * q + s;
    if s + i < len {
        vstd::arithmetic::div_mod::lemma_fundamental_div_mod_converse(start + i, len, q, s + i);
    } else {
        assert(start + i == (q + 1) * len + (s + i - len)) by (nonlinear_arith)
            requires start == q * len + s;
        vstd::arithmetic::div_mod::lemma_fundamental_div_mod_converse(
            start + i,
            len,
            q + 1,
            s + i - len,
        );
    }
}

/// The healthy backends of a prefix of the pool come first among those of
/// the whole pool.
proof fn lemma_healthy_indices_prefix(b: Seq<Backend>, i: int)
    requires
        0 <= i <= b.len(),
    ensures
        healthy_indices(b.take(i)).len() <= healthy_indices(b).len(),
        forall|k: int|
            0 <= k < healthy_indices(b.take(i)).len() ==> #[trigger] healthy_indices(b.take(i))[k]
                == healthy_indices(b)[k],
    decreases b.len(),
{
    if i == b.len() {
        assert(b.take(i) =~= b);
    } else {
        let d = b.drop_last();
        assert(b.take(i) =~= d.take(i));
        lemma_healthy_indices_prefix(d, i);
        let h = healthy_indices(d);
        if b.last().health {
            assert(healthy_indices(b) == h.push(b.len() - 1));
        } else {
            assert(healthy_indices(b) == h);
        }
    }
}

/// The healthy indices are the healthy backends, each once, in increasing
/// order.
pub proof fn lemma_healthy_indices_exact(b: Seq<Backend>)
    ensures
        forall|k: int|
            0 <= k < healthy_indices(b).len() ==> 0 <= #[trigger] healthy_indices(b)[k] < b.len()
                && b[healthy_indices(b)[k]].health,
        forall|k1: int, k2: int|
            0 <= k1 < k2 < healthy_indices(b).len() ==> #[trigger] healthy_indices(b)[k1]
                < #[trigger] healthy_indices(b)[k2],
        forall|i: int| 0 <= i < b.len() && (#[trigger] b[i]).health ==> healthy_indices(b).contains(i),
    decreases b.len(),
{
    if b.len() > 0 {
        let d = b.drop_last();
        lemma_healthy_indices_exact(d);
        let prev = healthy_indices(d);
        assert forall|k: int| 0 <= k < prev.len() implies b[#[trigger] prev[k]] == d[prev[k]] by {}
        if b.last().health {
            assert(healthy_indices(b) == prev.push(b.len() - 1));
        } else {
            assert(healthy_indices(b) == prev);
        }
        let u = healthy_indices(b);
        assert forall|i: int| 0 <= i < b.len() && (#[trigger] b[i]).health implies u.contains(i) by {
            if i < b.len() - 1 {
                assert(d[i] == b[i]);
                assert(prev.contains(i));
                let k = choose|k: int| 0 <= k < prev.len() && prev[k] == i;
                assert(u[k] == i);
            } else {
                assert(u[u.len() - 1] == i);
            }
        }
    }
}

impl RoundRobin {
    /// The number of choices made so far, wrapping round at the largest `usize`.
    pub closed spec fn counter(&self) -> usize {
        self.counter
    }

    /// A round robin whose first choice is the first healthy backend.
    pub fn new() -> (r: Self)
        ensures
            r.counter() == 0,
    {
        RoundRobin { counter: 0 }
    }
}

impl RoutingStrategy for RoundRobin {
    /// Picks the healthy backend at the counter's position among the healthy
    /// ones. An empty pool leaves the counter as it was; otherwise the
    /// counter moves on by one, whether or not a backend was found.
    fn next(&mut self, backends: &[Backend]) -> (r: Option<usize>)
        ensures
            backends@.len() == 0 ==> r is None && final(self).counter() == old(self).counter(),
            backends@.len() > 0 ==> final(self).counter() == counter_after(old(self).counter()),
            match r {
                Some(i) => round_robin_choice(backends@, old(self).counter() as int) == Some(
                    i as int,
                ),
                None => round_robin_choice(backends@, old(self).counter() as int) is None,
            },
    {
        let len = backends.len();
        if len == 0 {
            return None;
        }
        let start = self.counter;
        self.counter = start.wrapping_add(1);
        assert(self.counter == counter_after(start));
        let mut healthy: usize = 0;
        let mut i: usize = 0;
        while i < len
            invariant
                len == backends@.len(),
                i <= len,
                healthy <= i,
                healthy == healthy_indices(backends@.take(i as int)).len(),
            decreases len - i,
        {
            proof {
                let t = backends@.take(i + 1);
                assert(t.drop_last() =~= backends@.take(i as int));
                assert(t.last() == backends@[i as int]);
            }
            if backends[i].health {
                healthy = healthy + 1;
            }
            i = i + 1;
        }
        assert(backends@.take(len as int) =~= backends@);
        if healthy == 0 {
            return None;
        }
        let target = start % healthy;
        let mut seen: usize = 0;
        let mut j: usize = 0;
        while j < len
            invariant
                len == backends@.len(),
                j <= len,
                healthy == healthy_indices(backends@).len(),
                target < healthy,
                target == start % healthy,
                seen <= target,
                seen == healthy_indices(backends@.take(j as int)).len(),
                start == old(self).counter(),
                self.counter == counter_after(start),
            decreases len - j,
        {
            proof {
                let t = backends@.take(j + 1);
                assert(t.drop_last() =~= backends@.take(j as int));
                assert(t.last() == backends@[j as int]);
                lemma_healthy_indices_prefix(backends@, j + 1);
            }
            if backends[j].health {
                if seen == target {
                    assert(healthy_indices(backends@.take(j + 1))[seen as int] == j);
                    return Some(j);
                }
                seen = seen + 1;
            }
            j = j + 1;
        }
        assert(backends@.take(len as int) =~= backends@);
        None
    }
}

/// Round robin never routes to an unhealthy backend, and it finds a backend
/// whenever the pool holds a healthy one.
pub proof fn lemma_round_robin_picks_healthy(b: Seq<Backend>, start: usize)
    ensures
        round_robin_choice(b, start as int) matches Some(k) ==> 0 <= k < b.len() && b[k].health,
        round_robin_choice(b, start as int) is None <==> forall|k: int|
            0 <= k < b.len() ==> !(#[trigger] b[k]).health,
{
    lemma_healthy_indices_exact(b);
    let h = healthy_indices(b);
    if h.len() > 0 {
        vstd::arithmetic::div_mod::lemma_mod_bound(start as int, h.len() as int);
        assert(0 <= h[0] < b.len() && b[h[0]].health);
    }
}

proof fn lemma_healthy_indices_all(b: Seq<Backend>)
    requires
        forall|k: int| 0 <= k < b.len() ==> (#[trigger] b[k]).health,
    ensures
        healthy_indices(b).len() == b.len(),
        forall|k: int| 0 <= k < b.len() ==> #[trigger] healthy_indices(b)[k] == k,
    decreases b.len(),
{
    if b.len() > 0 {
        let d = b.drop_last();
        assert forall|k: int| 0 <= k < d.len() implies (#[trigger] d[k]).health by {
            assert(d[k] == b[k]);
        }
        lemma_healthy_indices_all(d);
        assert(b.last().health);
        assert(healthy_indices(b) == healthy_indices(d).push(b.len() - 1));
    }
}

/// With every backend healthy, the pick is the counter's position in the pool.
pub proof fn lemma_round_robin_all_healthy(b: Seq<Backend>, start: usize)
    requires
        b.len() > 0,
        forall|k: int| 0 <= k < b.len() ==> (#[trigger] b[k]).health,
    ensures
        round_robin_choice(b, start as int) == Some((start as int) % (b.len() as int)),
{
    lemma_healthy_indices_all(b);
    vstd::arithmetic::div_mod::lemma_mod_bound(start as int, b.len() as int);
}

/// Some counter value among `start, .., start + h - 1`, `h` being the number
/// of healthy backends, picks backend `k`.
pub open spec fn picked_within_round(b: Seq<Backend>, start: int, k: int) -> bool {
    exists|j: int|
        0 <= j < healthy_indices(b).len() && #[trigger] round_robin_choice(b, start + j) == Some(k)
}

/// Even distribution among the healthy backends: with `h` of them, the
/// picks of `h` consecutive counter values are `h` different backends, so
/// each healthy backend takes exactly one of them.
pub proof fn lemma_round_robin_even(b: Seq<Backend>, start: usize)
    requires
        healthy_indices(b).len() > 0,
        start + healthy_indices(b).len() - 1 <= usize::MAX,
    ensures
        forall|j1: int, j2: int|
            0 <= j1 < j2 < healthy_indices(b).len() ==> #[trigger] round_robin_choice(b, start + j1)
                != #[trigger] round_robin_choice(b, start + j2),
        forall|k: int|
            0 <= k < b.len() && (#[trigger] b[k]).health ==> picked_within_round(b, start as int, k),
{
    let h = healthy_indices(b);
    let n = h.len() as int;
    let s = (start as int) % n;
    lemma_healthy_indices_exact(b);
    assert forall|j1: int, j2: int|
        0 <= j1 < j2 < n implies #[trigger] round_robin_choice(b, start + j1)
            != #[trigger] round_robin_choice(b, start + j2) by {
        lemma_rotated_index(start as int, j1, n);
        lemma_rotated_index(start as int, j2, n);
        let p1 = (start + j1) % n;
        let p2 = (start + j2) % n;
        assert(p1 != p2);
        if p1 < p2 {
            assert(h[p1] < h[p2]);
        } else {
            assert(h[p2] < h[p1]);
        }
    }
    assert forall|k: int| 0 <= k < b.len() && (#[trigger] b[k]).health implies picked_within_round(
        b,
        start as int,
        k,
    ) by {
        assert(h.contains(k));
        let m = choose|m: int| 0 <= m < n && h[m] == k;
        let j = if m >= s { m - s } else { m - s + n };
        lemma_rotated_index(start as int, j, n);
        assert((start + j) % n == m);
        assert(round_robin_choice(b, start + j) == Some(k));
    }
}

/// Two consecutive picks are neighbours among the healthy backends: the
/// next pick is the next healthy backend, the last one being followed by
/// the first.
pub proof fn lemma_round_robin_consecutive(b: Seq<Backend>, start: usize)
    requires
        healthy_indices(b).len() > 0,
        start < usize::MAX,
    ensures
        ({
            let h = healthy_indices(b);
            let n = h.len() as int;
            &&& round_robin_choice(b, start as int) == Some(h[(start as int) % n])
            &&& round_robin_choice(b, counter_after(start) as int) == Some(
                h[((start as int) % n + 1) % n],
            )
        }),
{
    let n = healthy_indices(b).len() as int;
    vstd::arithmetic::div_mod::lemma_add_mod_noop(start as int, 1, n);
    if n > 1 {
        vstd::arithmetic::div_mod::lemma_small_mod(1, n as nat);
    }
}

} // verus!
