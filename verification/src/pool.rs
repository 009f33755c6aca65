//! The backend pool: the backends of the configuration with their health,
//! the routing strategy that picks among the healthy ones, and the rate
//! limiter that admits clients.

use vstd::prelude::*;
use crate::backend::Backend;
use crate::config::{BackendConfig, Config};
use crate::routing::{
    self, counter_after, round_robin_choice, RoundRobin, RoutingStrategy,
    lemma_round_robin_picks_healthy,
};
use crate::limiting::{
    limiter_built_from, limiter_settings_valid, limiter_step, names_basic_counter,
    names_no_limiting, LimitingStrategy, LimitingStrategyFactory, RateLimiter,
};
use crate::text::{address_string, address_text};

verus! {

/// A backend's address.
pub open spec fn host_port(b: Backend) -> (Seq<char>, u16) {
    (b.host@, b.port)
}

/// The servers of one backend machine, in the order of its ports.
pub open spec fn machine_servers(c: BackendConfig) -> Seq<(Seq<char>, u16)> {
    c.ports@.map_values(|p: u16| (c.backend_host@, p))
}

/// The servers that the configuration lists: machine by machine, and on
/// each machine port by port.
pub open spec fn configured_servers(cs: Seq<BackendConfig>) -> Seq<(Seq<char>, u16)>
    decreases cs.len(),
{
    if cs.len() == 0 {
        seq![]
    } else {
        configured_servers(cs.drop_last()) + machine_servers(cs.last())
    }
}

/// The addresses of the backends, in the pool's order.
pub open spec fn pool_servers(b: Seq<Backend>) -> Seq<(Seq<char>, u16)> {
    b.map_values(|x: Backend| host_port(x))
}

/// The same backend with the given health.
pub open spec fn with_health(b: Backend, health: bool) -> Backend {
    Backend { host: b.host, port: b.port, health }
}

/// The first backend at or after `from` that has this host and port.
pub open spec fn first_match(b: Seq<Backend>, host: Seq<char>, port: u16, from: int) -> Option<int>
    decreases b.len() - from,
{
    if from < 0 || from >= b.len() {
        None
    } else if b[from].host@ == host && b[from].port == port {
        Some(from)
    } else {
        first_match(b, host, port, from + 1)
    }
}

/// Whether backend `i` has this host and port, and no backend before it does.
pub open spec fn is_first_server(b: Seq<Backend>, host: Seq<char>, port: u16, i: int) -> bool {
    &&& b[i].host@ == host
    &&& b[i].port == port
    &&& forall|j: int| 0 <= j < i ==> !((#[trigger] b[j]).host@ == host && b[j].port == port)
}

/// The backends after the first one with this host and port is marked
/// unhealthy; unchanged where none has them.
pub open spec fn marked_unhealthy(b: Seq<Backend>, host: Seq<char>, port: u16) -> Seq<Backend> {
    match first_match(b, host, port, 0) {
        Some(i) => b.update(i, with_health(b[i], false)),
        None => b,
    }
}

/// The indices of the unhealthy backends, in increasing order.
pub open spec fn unhealthy_indices(b: Seq<Backend>) -> Seq<int>
    decreases b.len(),
{
    if b.len() == 0 {
        seq![]
    } else if !b.last().health {
        unhealthy_indices(b.drop_last()).push(b.len() - 1)
    } else {
        unhealthy_indices(b.drop_last())
    }
}

/// What the proxy does with a new client connection.
#[derive(Clone, Copy, Debug)]
pub enum Route {
    /// The client is over its rate limit: answer 429 Too Many Requests.
    TooManyRequests,
    /// No backend is healthy: answer 503 Service Unavailable.
    ServiceUnavailable,
    /// Tunnel the connection to the backend at this index of the pool.
    Forward(usize),
}

/// The pool of backends, with its routing strategy and its rate limiter.
pub struct BackendPool {
    backends: Vec<Backend>,
    strategy: RoundRobin,
    rate_limiter: RateLimiter,
    limit_rate: u32,
}

impl BackendPool {
    /// The backends, in the order of the configuration.
    pub closed spec fn backends(&self) -> Seq<Backend> {
        self.backends@
    }

    /// The round robin's counter.
    pub closed spec fn counter(&self) -> usize {
        self.strategy.counter()
    }

    /// The rate limiter.
    pub closed spec fn rate_limiter(&self) -> RateLimiter {
        self.rate_limiter
    }

    /// The number of requests a client may make per window.
    pub closed spec fn limit_rate(&self) -> u32 {
        self.limit_rate
    }

    /// A pool with one healthy backend per port of each configured machine,
    /// machine by machine, with the configured routing strategy and rate
    /// limiter.
    pub fn init(config: &Config) -> (r: Self)
        requires
            limiter_settings_valid(
                config.limiting.strategy@,
                config.limiting.window_secs,
                config.limiting.memory_budget_mb,
            ),
        ensures
            pool_servers(r.backends()) == configured_servers(config.backend@),
            forall|i: int| 0 <= i < r.backends().len() ==> (#[trigger] r.backends()[i]).health,
            r.counter() == 0,
            r.limit_rate() == config.limiting.rate,
            limiter_built_from(
                r.rate_limiter(),
                config.limiting.strategy@,
                config.limiting.window_secs,
                config.limiting.memory_budget_mb,
            ),
            r.rate_limiter().can_check() == (names_no_limiting(config.limiting.strategy@)
                || names_basic_counter(config.limiting.strategy@) || config.limiting.window_secs > 0),
    {
        let mut backends: Vec<Backend> = Vec::new();
        let n = config.backend.len();
        let mut i: usize = 0;
        while i < n
            invariant
                n == config.backend@.len(),
                i <= n,
                pool_servers(backends@) == configured_servers(config.backend@.take(i as int)),
                forall|k: int| 0 <= k < backends@.len() ==> (#[trigger] backends@[k]).health,
            decreases n - i,
        {
            let b_config = &config.backend[i];
            let m = b_config.ports.len();
            let mut j: usize = 0;
            while j < m
                invariant
                    m == b_config.ports@.len(),
                    j <= m,
                    pool_servers(backends@) == configured_servers(config.backend@.take(i as int))
                        + machine_servers(*b_config).take(j as int),
                    forall|k: int| 0 <= k < backends@.len() ==> (#[trigger] backends@[k]).health,
                decreases m - j,
            {
                let ghost before = backends@;
                backends.push(
                    Backend { host: b_config.backend_host.clone(), port: b_config.ports[j], health: true },
                );
                assert(pool_servers(backends@) =~= pool_servers(before).push(
                    (b_config.backend_host@, b_config.ports@[j as int]),
                ));
                assert(machine_servers(*b_config).take(j + 1) =~= machine_servers(*b_config).take(
                    j as int,
                ).push((b_config.backend_host@, b_config.ports@[j as int])));
                j += 1;
            }
            assert(config.backend@.take(i + 1).drop_last() =~= config.backend@.take(i as int));
            assert(config.backend@.take(i + 1).last() == *b_config);
            assert(machine_servers(*b_config).take(m as int) =~= machine_servers(*b_config));
            i += 1;
        }
        assert(config.backend@.take(n as int) =~= config.backend@);
        let strategy = routing::init(config.load_balancing.strategy.as_str());
        let rate_limiter = LimitingStrategyFactory::init(
            config.limiting.strategy.as_str(),
            config.limiting.window_secs,
            config.limiting.memory_budget_mb,
        );
        BackendPool { backends, strategy, rate_limiter, limit_rate: config.limiting.rate }
    }

    /// The index of the backend that takes the next connection, as round
    /// robin picks it; `None` where no backend is healthy.
    pub fn next_backend(&mut self) -> (r: Option<usize>)
        ensures
            final(self).backends() == old(self).backends(),
            final(self).rate_limiter() == old(self).rate_limiter(),
            final(self).limit_rate() == old(self).limit_rate(),
            old(self).backends().len() == 0 ==> final(self).counter() == old(self).counter(),
            old(self).backends().len() > 0 ==> final(self).counter() == counter_after(
                old(self).counter(),
            ),
            match r {
                Some(i) => round_robin_choice(old(self).backends(), old(self).counter() as int)
                    == Some(i as int),
                None => round_robin_choice(old(self).backends(), old(self).counter() as int) is None,
            },
    {
        self.strategy.next(self.backends.as_slice())
    }

    /// Marks the first backend with this host and port unhealthy, so that
    /// it takes no connection until a health check finds it back.
    pub fn mark_unhealthy(&mut self, host: &str, port: u16)
        ensures
            final(self).backends() == marked_unhealthy(old(self).backends(), host@, port),
            final(self).backends().len() == old(self).backends().len(),
            forall|i: int|
                0 <= i < old(self).backends().len() ==> is_first_server(old(self).backends(), host@, port, i)
                    ==> !(#[trigger] final(self).backends()[i]).health,
            forall|i: int|
                0 <= i < old(self).backends().len() && !is_first_server(old(self).backends(), host@, port, i)
                    ==> (#[trigger] final(self).backends()[i]) == old(self).backends()[i],
            final(self).counter() == old(self).counter(),
            final(self).rate_limiter() == old(self).rate_limiter(),
            final(self).limit_rate() == old(self).limit_rate(),
    {
        let key = host.to_owned();
        let n = self.backends.len();
        let mut i: usize = 0;
        while i < n
            invariant
                n == self.backends@.len(),
                i <= n,
                key@ == host@,
                self.backends@ == old(self).backends@,
                self.strategy == old(self).strategy,
                self.rate_limiter == old(self).rate_limiter,
                self.limit_rate == old(self).limit_rate,
                first_match(self.backends@, host@, port, 0) == first_match(
                    self.backends@,
                    host@,
                    port,
                    i as int,
                ),
            decreases n - i,
        {
            if self.backends[i].host == key && self.backends[i].port == port {
                self.backends[i].health = false;
                assert(self.backends@ =~= old(self).backends@.update(
                    i as int,
                    with_health(old(self).backends@[i as int], false),
                ));
                proof {
                    lemma_mark_unhealthy_effect(old(self).backends(), host@, port);
                }
                return;
            }
            i += 1;
        }
        proof {
            lemma_mark_unhealthy_effect(old(self).backends(), host@, port);
        }
    }

    /// Marks the backend at `index` healthy again. Whether it was unhealthy
    /// before: only then does it come back online.
    pub fn mark_healthy(&mut self, index: usize) -> (came_back: bool)
        ensures
            came_back == (index < old(self).backends().len() && !old(self).backends()[index as int].health),
            final(self).backends() == if came_back {
                old(self).backends().update(
                    index as int,
                    with_health(old(self).backends()[index as int], true),
                )
            } else {
                old(self).backends()
            },
            final(self).counter() == old(self).counter(),
            final(self).rate_limiter() == old(self).rate_limiter(),
            final(self).limit_rate() == old(self).limit_rate(),
    {
        if index < self.backends.len() && !self.backends[index].health {
            self.backends[index].health = true;
            assert(self.backends@ =~= old(self).backends@.update(
                index as int,
                with_health(old(self).backends@[index as int], true),
            ));
            true
        } else {
            false
        }
    }

    /// The backends that a health check should try: the index and the
    /// `host:port` address of each unhealthy one, in the pool's order.
    pub fn unhealthy_targets(&self) -> (r: Vec<(usize, String)>)
        ensures
            r@.len() == unhealthy_indices(self.backends()).len(),
            forall|k: int|
                0 <= k < r@.len() ==> (#[trigger] r@[k]).0 == unhealthy_indices(self.backends())[k]
                    && r@[k].1@ == address_text(
                    self.backends()[r@[k].0 as int].host@,
                    self.backends()[r@[k].0 as int].port,
                ),
    {
        let mut targets: Vec<(usize, String)> = Vec::new();
        let n = self.backends.len();
        let mut i: usize = 0;
        while i < n
            invariant
                n == self.backends@.len(),
                i <= n,
                targets@.len() == unhealthy_indices(self.backends@.take(i as int)).len(),
                forall|k: int|
                    0 <= k < targets@.len() ==> (#[trigger] targets@[k]).0 == unhealthy_indices(
                        self.backends@.take(i as int),
                    )[k] && 0 <= targets@[k].0 < n && targets@[k].1@ == address_text(
                        self.backends@[targets@[k].0 as int].host@,
                        self.backends@[targets@[k].0 as int].port,
                    ),
            decreases n - i,
        {
            proof {
                let prefix = self.backends@.take(i + 1);
                assert(prefix.drop_last() =~= self.backends@.take(i as int));
                assert(prefix.last() == self.backends@[i as int]);
                lemma_unhealthy_indices_bounded(self.backends@.take(i as int));
            }
            if !self.backends[i].health {
                let addr = address_string(self.backends[i].host.as_str(), self.backends[i].port);
                targets.push((i, addr));
            }
            i += 1;
        }
        assert(self.backends@.take(n as int) =~= self.backends@);
        targets
    }

    /// The backends, in the order of the configuration.
    pub fn backend_list(&self) -> (r: &[Backend])
        ensures
            r@ == self.backends(),
    {
        self.backends.as_slice()
    }

    /// Whether the rate limiter can decide requests: every limiter but a
    /// cache counter with an empty window, which cannot.
    pub fn rate_limiter_ready(&self) -> (r: bool)
        ensures
            r == self.rate_limiter().can_check(),
    {
        self.rate_limiter.can_decide()
    }

    /// Asks the rate limiter whether the client at `ip` may make a request.
    pub fn check_rate_limit(&mut self, ip: &str) -> (r: bool)
        requires
            old(self).rate_limiter().can_check(),
        ensures
            final(self).rate_limiter().can_check(),
            limiter_step(old(self).rate_limiter(), final(self).rate_limiter(), ip@, old(self).limit_rate(), r),
            final(self).backends() == old(self).backends(),
            final(self).counter() == old(self).counter(),
            final(self).limit_rate() == old(self).limit_rate(),
    {
        self.rate_limiter.check_limit(ip, self.limit_rate)
    }

    /// Decides what becomes of a new connection from the client at
    /// `client_ip`: a client over its rate limit is refused with 429 and no
    /// backend is picked; otherwise round robin picks the backend, and where
    /// none is healthy the client is refused with 503.
    pub fn route_connection(&mut self, client_ip: &str) -> (r: Route)
        requires
            old(self).rate_limiter().can_check(),
        ensures
            final(self).rate_limiter().can_check(),
            final(self).limit_rate() == old(self).limit_rate(),
            final(self).backends() == old(self).backends(),
            exists|admitted: bool|
                {
                    &&& limiter_step(
                        old(self).rate_limiter(),
                        final(self).rate_limiter(),
                        client_ip@,
                        old(self).limit_rate(),
                        admitted,
                    )
                    &&& !admitted ==> r is TooManyRequests && final(self).counter() == old(
                        self,
                    ).counter()
                    &&& admitted ==> connection_routed(
                        old(self).backends(),
                        old(self).counter(),
                        final(self).counter(),
                        r,
                    )
                },
    {
        if !self.check_rate_limit(client_ip) {
            return Route::TooManyRequests;
        }
        match self.next_backend() {
            Some(index) => Route::Forward(index),
            None => Route::ServiceUnavailable,
        }
    }
}

/// An admitted connection: round robin's pick, with the counter moved on as
/// `next_backend` moves it; 503 where there is no pick.
pub open spec fn connection_routed(b: Seq<Backend>, before: usize, after: usize, r: Route) -> bool {
    &&& (b.len() == 0 ==> after == before)
    &&& (b.len() > 0 ==> after == counter_after(before))
    &&& match r {
        Route::Forward(i) => round_robin_choice(b, before as int) == Some(i as int),
        Route::ServiceUnavailable => round_robin_choice(b, before as int) is None,
        Route::TooManyRequests => false,
    }
}

proof fn lemma_unhealthy_indices_bounded(b: Seq<Backend>)
    ensures
        forall|k: int|
            0 <= k < unhealthy_indices(b).len() ==> 0 <= #[trigger] unhealthy_indices(b)[k] < b.len(),
    decreases b.len(),
{
    if b.len() > 0 {
        lemma_unhealthy_indices_bounded(b.drop_last());
        let prev = unhealthy_indices(b.drop_last());
        if !b.last().health {
            assert(unhealthy_indices(b) == prev.push(b.len() - 1));
            assert forall|k: int| 0 <= k < unhealthy_indices(b).len() implies 0
                <= #[trigger] unhealthy_indices(b)[k] < b.len() by {
                if k < prev.len() {
                    assert(unhealthy_indices(b)[k] == prev[k]);
                }
            }
        } else {
            assert(unhealthy_indices(b) == prev);
        }
    }
}

proof fn lemma_first_match_found(b: Seq<Backend>, host: Seq<char>, port: u16, from: int)
    ensures
        first_match(b, host, port, from) matches Some(i) ==> from <= i < b.len() && b[i].host@ == host
            && b[i].port == port,
    decreases b.len() - from,
{
    if 0 <= from < b.len() {
        lemma_first_match_found(b, host, port, from + 1);
    }
}

/// A backend marked unhealthy takes no connection: after
/// `mark_unhealthy(host, port)`, round robin never picks the backend that
/// was marked, whatever its counter.
pub proof fn lemma_marked_backend_not_routed(b: Seq<Backend>, host: Seq<char>, port: u16, counter: usize)
    requires
        first_match(b, host, port, 0) is Some,
    ensures
        round_robin_choice(marked_unhealthy(b, host, port), counter as int) != Some(
            first_match(b, host, port, 0).unwrap(),
        ),
{
    lemma_first_match_found(b, host, port, 0);
    let i = first_match(b, host, port, 0).unwrap();
    let m = marked_unhealthy(b, host, port);
    assert(!m[i].health);
    lemma_round_robin_picks_healthy(m, counter);
}

/// Marking a backend unhealthy and then finding it back by a health check
/// leaves the pool as it was, if the backend was healthy before.
pub proof fn lemma_mark_unhealthy_then_healthy(b: Seq<Backend>, host: Seq<char>, port: u16)
    requires
        first_match(b, host, port, 0) is Some,
        b[first_match(b, host, port, 0).unwrap()].health,
    ensures
        ({
            let i = first_match(b, host, port, 0).unwrap();
            let m = marked_unhealthy(b, host, port);
            m.update(i, with_health(m[i], true)) == b
        }),
{
    lemma_first_match_found(b, host, port, 0);
    let i = first_match(b, host, port, 0).unwrap();
    let m = marked_unhealthy(b, host, port);
    assert(m.update(i, with_health(m[i], true)) =~= b);
}

/// The health check's targets are exactly the unhealthy backends, each
/// once, in increasing order of index.
pub proof fn lemma_unhealthy_indices_exact(b: Seq<Backend>)
    ensures
        forall|k: int|
            0 <= k < unhealthy_indices(b).len() ==> 0 <= #[trigger] unhealthy_indices(b)[k] < b.len()
                && !b[unhealthy_indices(b)[k]].health,
        forall|k1: int, k2: int|
            0 <= k1 < k2 < unhealthy_indices(b).len() ==> #[trigger] unhealthy_indices(b)[k1]
                < #[trigger] unhealthy_indices(b)[k2],
        forall|i: int| 0 <= i < b.len() && !(#[trigger] b[i]).health ==> unhealthy_indices(b).contains(i),
    decreases b.len(),
{
    if b.len() > 0 {
        let d = b.drop_last();
        lemma_unhealthy_indices_exact(d);
        lemma_unhealthy_indices_bounded(d);
        let prev = unhealthy_indices(d);
        assert forall|k: int| 0 <= k < prev.len() implies b[#[trigger] prev[k]] == d[prev[k]] by {}
        if !b.last().health {
            assert(unhealthy_indices(b) == prev.push(b.len() - 1));
        } else {
            assert(unhealthy_indices(b) == prev);
        }
        let u = unhealthy_indices(b);
        assert forall|i: int| 0 <= i < b.len() && !(#[trigger] b[i]).health implies u.contains(i) by {
            if i < b.len() - 1 {
                assert(d[i] == b[i]);
                assert(prev.contains(i));
                let k = choose|k: int| 0 <= k < prev.len() && prev[k] == i;
                assert(u[k] == i);
            } else {
                assert(u[u.len() - 1] == i);
            }
        }
    }
}

/// The search for a backend by host and port finds the first backend at or
/// after `from` that has both, whenever there is one, and nothing otherwise.
pub proof fn lemma_first_match_least(b: Seq<Backend>, host: Seq<char>, port: u16, from: int)
    requires
        0 <= from,
    ensures
        (exists|i: int| from <= i < b.len() && (#[trigger] b[i]).host@ == host && b[i].port == port)
            ==> (first_match(b, host, port, from) matches Some(k) && from <= k < b.len()
            && b[k].host@ == host && b[k].port == port && forall|j: int|
            from <= j < k ==> !((#[trigger] b[j]).host@ == host && b[j].port == port)),
        (forall|i: int| from <= i < b.len() ==> !((#[trigger] b[i]).host@ == host && b[i].port == port))
            ==> first_match(b, host, port, from) is None,
    decreases b.len() - from,
{
    if from < b.len() {
        lemma_first_match_least(b, host, port, from + 1);
        if !(b[from].host@ == host && b[from].port == port) {
            if exists|i: int| from <= i < b.len() && (#[trigger] b[i]).host@ == host && b[i].port == port {
                let i = choose|i: int| from <= i < b.len() && (#[trigger] b[i]).host@ == host && b[i].port == port;
                assert(i != from);
                assert(from + 1 <= i < b.len() && b[i].host@ == host && b[i].port == port);
            }
        }
    }
}

/// What marking a failed server does: every backend keeps its address; the
/// first backend with the given host and port, if any, becomes unhealthy;
/// every other backend stays as it was.
pub proof fn lemma_mark_unhealthy_effect(b: Seq<Backend>, host: Seq<char>, port: u16)
    ensures
        marked_unhealthy(b, host, port).len() == b.len(),
        forall|i: int|
            0 <= i < b.len() ==> is_first_server(b, host, port, i) ==> !(
            #[trigger] marked_unhealthy(b, host, port)[i]).health,
        forall|i: int|
            0 <= i < b.len() && !is_first_server(b, host, port, i) ==> (
            #[trigger] marked_unhealthy(b, host, port)[i]) == b[i],
{
    lemma_first_match_least(b, host, port, 0);
    let m = marked_unhealthy(b, host, port);
    if first_match(b, host, port, 0) is Some {
        let k = first_match(b, host, port, 0).unwrap();
        assert(is_first_server(b, host, port, k));
        assert forall|i: int| 0 <= i < b.len() && is_first_server(b, host, port, i) implies i == k by {
            if i < k {
                assert(!(b[i].host@ == host && b[i].port == port));
            } else if i > k {
                assert(!(b[k].host@ == host && b[k].port == port));
            }
        }
    } else {
        assert forall|i: int| 0 <= i < b.len() implies !is_first_server(b, host, port, i) by {
            if is_first_server(b, host, port, i) {
                assert(b[i].host@ == host && b[i].port == port);
            }
        }
    }
}

} // verus!
