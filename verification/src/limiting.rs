//! Per-client rate limiting over fixed time windows.

use vstd::prelude::*;
use std::time::Instant;
use mini_moka::sync::Cache;
use crate::text::{decimal, push_decimal, same_text, lemma_decimal_digits, lemma_decimal_injective};
use crate::clock::{
    instant_now, instant_elapsed, system_time_now, since_unix_epoch, duration_as_nanos,
    duration_as_millis,
};
use crate::cache::{
    new_counter_cache, cache_get, cache_insert, cache_contents, cache_max_capacity,
    cache_time_to_live_secs, MAX_TIME_TO_LIVE_SECS,
};

verus! {

/// A rule that admits or refuses a client's request.
pub trait LimitingStrategy {
    /// Whether the limiter can decide a request at all (the cache counter
    /// divides by its window, which must not be empty).
    spec fn can_check(&self) -> bool;

    /// Whether the request of the client at `ip` is admitted, where a client
    /// may make `limit_rate` requests per window.
    fn check_limit(&mut self, ip: &str, limit_rate: u32) -> bool
        requires
            old(self).can_check(),
    ;
}

/// No rate limiting: every request is admitted, and nothing is recorded.
pub struct NoLimiting {}

impl NoLimiting {
    pub fn init() -> (r: Self) {
        NoLimiting {}
    }
}

impl LimitingStrategy for NoLimiting {
    open spec fn can_check(&self) -> bool {
        true
    }

    fn check_limit(&mut self, ip: &str, limit_rate: u32) -> (r: bool)
        ensures
            r,
    {
        true
    }
}

// ---------------------------------------------------------------------------
// The fixed-window counter with one record per client

/// The record of one client: how many of its requests the current window
/// has admitted, and when that window started (nanoseconds on the counter's
/// monotonic clock).
pub struct CounterRecord {
    pub ip: String,
    pub count: u32,
    pub window_start: u128,
}

/// The records as a map from client address to (count, window start); where
/// two records name one client, the first stands.
pub open spec fn record_map(s: Seq<CounterRecord>) -> Map<Seq<char>, (u32, u128)>
    decreases s.len(),
{
    if s.len() == 0 {
        Map::empty()
    } else {
        record_map(s.drop_first()).insert(s[0].ip@, (s[0].count, s[0].window_start))
    }
}

/// The time from `start` to `now`, or 0 if `now` comes first (as
/// `Instant::duration_since` saturates).
pub open spec fn elapsed(start: u128, now: u128) -> int {
    if now >= start {
        now - start
    } else {
        0
    }
}

/// One request of the client at `ip` at time `now`: whether it is admitted,
/// and the records after it. A client without a record starts with count 0
/// and a window that starts now. A window that has lasted `window` or more is
/// replaced by a new one that starts now and has admitted this request;
/// otherwise the request is admitted if the count is below `rate`, and then
/// counted.
pub open spec fn basic_step(
    records: Map<Seq<char>, (u32, u128)>,
    ip: Seq<char>,
    rate: u32,
    window: u128,
    now: u128,
) -> (bool, Map<Seq<char>, (u32, u128)>) {
    let (count, start) = if records.contains_key(ip) {
        records[ip]
    } else {
        (0u32, now)
    };
    if elapsed(start, now) >= window {
        (true, records.insert(ip, (1u32, now)))
    } else if count < rate {
        (true, records.insert(ip, ((count + 1) as u32, start)))
    } else {
        (false, records.insert(ip, (count, start)))
    }
}

proof fn lemma_record_map_first(s: Seq<CounterRecord>, i: int)
    requires
        0 <= i < s.len(),
        forall|j: int| 0 <= j < i ==> (#[trigger] s[j]).ip@ != s[i].ip@,
    ensures
        record_map(s).contains_key(s[i].ip@),
        record_map(s)[s[i].ip@] == (s[i].count, s[i].window_start),
    decreases s.len(),
{
    if i > 0 {
        assert(s[0].ip@ != s[i].ip@);
        lemma_record_map_first(s.drop_first(), i - 1);
        assert(s.drop_first()[i - 1] == s[i]);
    }
}

proof fn lemma_record_map_absent(s: Seq<CounterRecord>, k: Seq<char>)
    requires
        forall|j: int| 0 <= j < s.len() ==> (#[trigger] s[j]).ip@ != k,
    ensures
        !record_map(s).contains_key(k),
    decreases s.len(),
{
    if s.len() > 0 {
        assert(s[0].ip@ != k);
        assert forall|j: int| 0 <= j < s.drop_first().len() implies (#[trigger] s.drop_first()[j]).ip@
            != k by {
            assert(s.drop_first()[j] == s[j + 1]);
        }
        lemma_record_map_absent(s.drop_first(), k);
    }
}

proof fn lemma_record_map_update(s: Seq<CounterRecord>, i: int, r: CounterRecord)
    requires
        0 <= i < s.len(),
        forall|j: int| 0 <= j < i ==> (#[trigger] s[j]).ip@ != s[i].ip@,
        r.ip@ == s[i].ip@,
    ensures
        record_map(s.update(i, r)) == record_map(s).insert(r.ip@, (r.count, r.window_start)),
    decreases s.len(),
{
    let t = s.update(i, r);
    if i == 0 {
        assert(t.drop_first() =~= s.drop_first());
        assert(record_map(t) =~= record_map(s).insert(r.ip@, (r.count, r.window_start)));
    } else {
        assert(s[0].ip@ != s[i].ip@);
        assert forall|j: int| 0 <= j < i - 1 implies (#[trigger] s.drop_first()[j]).ip@
            != s.drop_first()[i - 1].ip@ by {
            assert(s.drop_first()[j] == s[j + 1]);
        }
        lemma_record_map_update(s.drop_first(), i - 1, r);
        assert(t.drop_first() =~= s.drop_first().update(i - 1, r));
        assert(t[0] == s[0]);
        assert(record_map(t) =~= record_map(s).insert(r.ip@, (r.count, r.window_start)));
    }
}

proof fn lemma_record_map_push(s: Seq<CounterRecord>, r: CounterRecord)
    requires
        forall|j: int| 0 <= j < s.len() ==> (#[trigger] s[j]).ip@ != r.ip@,
    ensures
        record_map(s.push(r)) == record_map(s).insert(r.ip@, (r.count, r.window_start)),
    decreases s.len(),
{
    let t = s.push(r);
    if s.len() == 0 {
        assert(t.drop_first() =~= Seq::<CounterRecord>::empty());
        assert(t[0] == r);
        assert(record_map(t.drop_first()) == Map::<Seq<char>, (u32, u128)>::empty());
        assert(record_map(t) =~= record_map(s).insert(r.ip@, (r.count, r.window_start)));
    } else {
        assert(s[0].ip@ != r.ip@);
        assert forall|j: int| 0 <= j < s.drop_first().len() implies (#[trigger] s.drop_first()[j]).ip@
            != r.ip@ by {
            assert(s.drop_first()[j] == s[j + 1]);
        }
        lemma_record_map_push(s.drop_first(), r);
        assert(t.drop_first() =~= s.drop_first().push(r));
        assert(t[0] == s[0]);
        assert(record_map(t) == record_map(t.drop_first()).insert(
            t[0].ip@,
            (t[0].count, t[0].window_start),
        ));
        assert(record_map(s) == record_map(s.drop_first()).insert(
            s[0].ip@,
            (s[0].count, s[0].window_start),
        ));
        assert(record_map(t) =~= record_map(s).insert(r.ip@, (r.count, r.window_start)));
    }
}

/// No two records name the same client.
pub open spec fn distinct_clients(s: Seq<CounterRecord>) -> bool {
    forall|i: int, j: int| 0 <= i < j < s.len() ==> (#[trigger] s[i]).ip@ != (#[trigger] s[j]).ip@
}

/// Counts one request of the client at `ip` at time `now` in the records.
fn count_request(
    records: &mut Vec<CounterRecord>,
    window_nanos: u128,
    ip: &str,
    limit_rate: u32,
    now: u128,
) -> (r: bool)
    requires
        distinct_clients(old(records)@),
    ensures
        distinct_clients(final(records)@),
        (r, record_map(final(records)@)) == basic_step(
            record_map(old(records)@),
            ip@,
            limit_rate,
            window_nanos,
            now,
        ),
{
    let key = ip.to_owned();
    let n = records.len();
    let mut i: usize = 0;
    while i < n
        invariant
            n == records@.len(),
            i <= n,
            key@ == ip@,
            records@ == old(records)@,
            distinct_clients(records@),
            forall|j: int| 0 <= j < i ==> (#[trigger] records@[j]).ip@ != ip@,
        decreases n - i,
    {
        if records[i].ip == key {
            let count = records[i].count;
            let start = records[i].window_start;
            proof {
                lemma_record_map_first(records@, i as int);
            }
            let elapsed_now: u128 = if now >= start {
                now - start
            } else {
                0
            };
            if elapsed_now >= window_nanos {
                let rec = CounterRecord { ip: key, count: 1, window_start: now };
                proof {
                    lemma_record_map_update(records@, i as int, rec);
                }
                records.set(i, rec);
                return true;
            } else if count < limit_rate {
                let rec = CounterRecord { ip: key, count: count + 1, window_start: start };
                proof {
                    lemma_record_map_update(records@, i as int, rec);
                }
                records.set(i, rec);
                return true;
            } else {
                proof {
                    let m = record_map(records@);
                    assert(m.insert(ip@, (count, start)) =~= m);
                }
                return false;
            }
        }
        i += 1;
    }
    proof {
        lemma_record_map_absent(records@, ip@);
    }
    let allowed = window_nanos == 0 || 0 < limit_rate;
    let rec = if window_nanos == 0 {
        CounterRecord { ip: key, count: 1, window_start: now }
    } else if 0 < limit_rate {
        CounterRecord { ip: key, count: 1, window_start: now }
    } else {
        CounterRecord { ip: key, count: 0, window_start: now }
    };
    proof {
        lemma_record_map_push(records@, rec);
    }
    records.push(rec);
    allowed
}

/// The fixed-window counter that keeps one record per client address. The
/// records are never dropped. They are kept in a vector searched in order:
/// vstd's specification of `std::collections::HashMap` holds only for key
/// types known to obey its key model, which `String` is not.
pub struct BasicCounter {
    records: Vec<CounterRecord>,
    window_nanos: u128,
    origin: Instant,
}

impl BasicCounter {
    /// No two records name the same client.
    #[verifier::type_invariant]
    closed spec fn one_record_per_client(self) -> bool {
        distinct_clients(self.records@)
    }

    /// The records, by client address: (count, window start).
    pub closed spec fn records(&self) -> Map<Seq<char>, (u32, u128)> {
        record_map(self.records@)
    }

    /// The length of a window, in nanoseconds.
    pub closed spec fn window(&self) -> u128 {
        self.window_nanos
    }

    /// A counter with no records and windows of `window_secs` seconds.
    pub fn init(window_secs: u64) -> (r: Self)
        ensures
            r.records() == Map::<Seq<char>, (u32, u128)>::empty(),
            r.window() == window_secs * 1_000_000_000,
    {
        BasicCounter {
            records: Vec::new(),
            window_nanos: (window_secs as u128) * 1_000_000_000,
            origin: instant_now(),
        }
    }

    /// One request of the client at `ip` at time `now` (nanoseconds on the
    /// counter's clock).
    pub fn check_limit_at(&mut self, ip: &str, limit_rate: u32, now: u128) -> (r: bool)
        ensures
            (r, final(self).records()) == basic_step(
                old(self).records(),
                ip@,
                limit_rate,
                old(self).window(),
                now,
            ),
            final(self).window() == old(self).window(),
    {
        proof {
            use_type_invariant(&*self);
        }
        let mut records: Vec<CounterRecord> = Vec::new();
        std::mem::swap(&mut records, &mut self.records);
        let admitted = count_request(&mut records, self.window_nanos, ip, limit_rate, now);
        self.records = records;
        admitted
    }
}

impl LimitingStrategy for BasicCounter {
    open spec fn can_check(&self) -> bool {
        true
    }

    /// Reads the counter's monotonic clock and counts the request at that
    /// time, as `check_limit_at` does.
    fn check_limit(&mut self, ip: &str, limit_rate: u32) -> (r: bool)
        ensures
            exists|now: u128|
                (r, final(self).records()) == basic_step(
                    old(self).records(),
                    ip@,
                    limit_rate,
                    old(self).window(),
                    now,
                ),
            final(self).window() == old(self).window(),
    {
        let since_origin = instant_elapsed(&self.origin);
        let now = duration_as_nanos(&since_origin);
        self.check_limit_at(ip, limit_rate, now)
    }
}

// ---------------------------------------------------------------------------
// The fixed-window counter kept in a memory-bounded cache

/// How much memory one cache entry is reckoned to take, in bytes.
pub const BYTES_PER_ENTRY: u64 = 120;

/// How long an entry outlives its window, in seconds.
pub const TTL_BUFFER_SECS: u64 = 60;

/// The number of entries that a budget of `memory_budget_mb` megabytes holds.
pub open spec fn entry_capacity(memory_budget_mb: u64) -> int {
    (memory_budget_mb * 1024 * 1024) / (BYTES_PER_ENTRY as int)
}

/// The capacity fills the budget: it is the number of whole 120-byte
/// entries that `memory_budget_mb` megabytes (of 1 048 576 bytes) hold.
pub proof fn lemma_entry_capacity_fills_budget(memory_budget_mb: u64)
    ensures
        entry_capacity(memory_budget_mb) * 120 <= memory_budget_mb * 1_048_576 < (entry_capacity(
            memory_budget_mb,
        ) + 1) * 120,
        entry_capacity(memory_budget_mb) >= 0,
{
    let x = memory_budget_mb * 1_048_576;
    assert(memory_budget_mb * 1024 * 1024 == x);
    vstd::arithmetic::div_mod::lemma_fundamental_div_mod(x, 120);
    vstd::arithmetic::div_mod::lemma_mod_bound(x, 120);
    vstd::arithmetic::div_mod::lemma_div_pos_is_pos(x, 120);
    let q = x / 120;
    assert(q * 120 <= x < (q + 1) * 120) by (nonlinear_arith)
        requires
            x == 120 * q + x % 120,
            0 <= x % 120 < 120,
    ;
}

/// The cache key of the client at `ip` in the window numbered `window_id`:
/// `"{ip}:{window_id}"`.
pub open spec fn window_key_text(ip: Seq<char>, window_id: nat) -> Seq<char> {
    ip + seq![':'] + decimal(window_id)
}

/// What one request decides, given the count that the cache holds for the
/// client's current window (`None` where it holds none): whether the request
/// is admitted, and the count to store (`None`: store nothing).
pub open spec fn moka_step(prior: Option<u32>, rate: u32) -> (bool, Option<u32>) {
    match prior {
        Some(count) => if count < rate {
            (true, Some((count + 1) as u32))
        } else {
            (false, None)
        },
        None => (true, Some(1u32)),
    }
}

/// The number of the window that holds the time `now_millis`.
pub fn window_id(now_millis: u128, window_millis: u128) -> (r: u128)
    requires
        window_millis > 0,
    ensures
        r == now_millis / window_millis,
{
    now_millis / window_millis
}

/// Builds the cache key of the client at `ip` in the window `window_id`.
pub fn window_key(ip: &str, window_id: u128) -> (r: String)
    ensures
        r@ == window_key_text(ip@, window_id as nat),
{
    let mut key = ip.to_owned();
    proof { reveal_strlit(":"); }
    key.append(":");
    push_decimal(&mut key, window_id);
    key
}

/// Decides one request from the count that the cache returned for the
/// client's current window.
pub fn moka_decision(prior: Option<u32>, limit_rate: u32) -> (r: (bool, Option<u32>))
    ensures
        r == moka_step(prior, limit_rate),
{
    match prior {
        Some(count) => if count < limit_rate {
            (true, Some(count + 1))
        } else {
            (false, None)
        },
        None => (true, Some(1)),
    }
}

/// The value stored under `key`, if any.
pub open spec fn lookup(m: Map<Seq<char>, u32>, key: Seq<char>) -> Option<u32> {
    if m.contains_key(key) {
        Some(m[key])
    } else {
        None
    }
}

/// One request of the client at `ip` at `now_millis` (milliseconds since the
/// Unix epoch) to the cache counter, whose cache held `before` and holds
/// `after`. The count is looked up under `window_key_text(ip, now_millis /
/// window_millis)`; `prior` is what the lookup found, which is what was
/// stored under the key if it found anything (the cache may have dropped
/// the entry). The request is decided by `moka_step`, and the count it gives
/// is stored under that key, no other key being written.
pub open spec fn moka_call(
    before: Map<Seq<char>, u32>,
    after: Map<Seq<char>, u32>,
    ip: Seq<char>,
    rate: u32,
    window_millis: u128,
    now_millis: u128,
    prior: Option<u32>,
    admitted: bool,
) -> bool {
    let key = window_key_text(ip, (now_millis / window_millis) as nat);
    &&& (prior matches Some(c) ==> before.contains_key(key) && before[key] == c)
    &&& admitted == moka_step(prior, rate).0
    &&& after == match moka_step(prior, rate).1 {
        Some(count) => before.insert(key, count),
        None => before,
    }
}

/// The fixed-window counter kept in a `mini_moka` cache whose size follows
/// a memory budget, and whose entries expire a minute after their window.
pub struct MokaCounter {
    records: Cache<String, u32>,
    window_millis: u128,
}

impl MokaCounter {
    /// The length of a window, in milliseconds.
    pub closed spec fn window(&self) -> u128 {
        self.window_millis
    }

    /// The most entries that the cache was built to hold.
    pub closed spec fn max_entries(&self) -> u64 {
        cache_max_capacity(self.records)
    }

    /// The time to live that the cache was built with, in seconds.
    pub closed spec fn time_to_live_secs(&self) -> u64 {
        cache_time_to_live_secs(self.records)
    }

    /// For each key, the count last stored under it.
    pub closed spec fn contents(&self) -> Map<Seq<char>, u32> {
        cache_contents(self.records)
    }

    /// A counter with windows of `window_secs` seconds whose cache holds
    /// what `memory_budget_mb` megabytes allow at 120 bytes an entry, each
    /// entry living for its window and a minute more.
    pub fn init(window_secs: u64, memory_budget_mb: u64) -> (r: Self)
        requires
            window_secs + TTL_BUFFER_SECS <= MAX_TIME_TO_LIVE_SECS,
            memory_budget_mb * 1024 * 1024 <= u64::MAX,
        ensures
            r.window() == window_secs * 1000,
            r.max_entries() == entry_capacity(memory_budget_mb),
            r.max_entries() * 120 <= memory_budget_mb * 1_048_576 < (r.max_entries() + 1) * 120,
            r.time_to_live_secs() == window_secs + TTL_BUFFER_SECS,
            r.contents() == Map::<Seq<char>, u32>::empty(),
    {
        proof {
            lemma_entry_capacity_fills_budget(memory_budget_mb);
        }
        let budget_in_bytes = memory_budget_mb * 1024 * 1024;
        let calculated_capacity = budget_in_bytes / BYTES_PER_ENTRY;
        let ttl_secs = window_secs + TTL_BUFFER_SECS;
        let r = MokaCounter {
            records: new_counter_cache(calculated_capacity, ttl_secs),
            window_millis: (window_secs as u128) * 1000,
        };
        assert(r.contents() =~= Map::<Seq<char>, u32>::empty());
        r
    }

    /// Whether the window is not empty, so that requests can be decided.
    pub fn has_window(&self) -> (r: bool)
        ensures
            r == (self.window() > 0),
    {
        self.window_millis > 0
    }

    /// One request of the client at `ip` at `now_millis` (milliseconds since
    /// the Unix epoch): looks up the count of the client's window under
    /// `"{ip}:{now_millis / window}"`, decides by `moka_step` from what the
    /// cache returned, and stores the new count under that key where there
    /// is one.
    pub fn check_limit_at(&mut self, ip: &str, limit_rate: u32, now_millis: u128) -> (r: bool)
        requires
            old(self).window() > 0,
        ensures
            exists|prior: Option<u32>|
                moka_call(
                    old(self).contents(),
                    final(self).contents(),
                    ip@,
                    limit_rate,
                    old(self).window(),
                    now_millis,
                    prior,
                    r,
                ),
            final(self).window() == old(self).window(),
            final(self).max_entries() == old(self).max_entries(),
            final(self).time_to_live_secs() == old(self).time_to_live_secs(),
    {
        let key = window_key(ip, window_id(now_millis, self.window_millis));
        let prior = cache_get(&self.records, &key);
        let (allowed, store) = moka_decision(prior, limit_rate);
        match store {
            Some(count) => cache_insert(&mut self.records, key, count),
            None => {},
        }
        assert(moka_call(
            old(self).contents(),
            self.contents(),
            ip@,
            limit_rate,
            old(self).window(),
            now_millis,
            prior,
            allowed,
        ));
        allowed
    }
}

impl LimitingStrategy for MokaCounter {
    open spec fn can_check(&self) -> bool {
        self.window() > 0
    }

    /// Reads the wall clock (milliseconds since the Unix epoch, 0 for a
    /// reading before it) and counts the request at that time, as
    /// `check_limit_at` does.
    fn check_limit(&mut self, ip: &str, limit_rate: u32) -> (r: bool)
        ensures
            exists|now_millis: u128, prior: Option<u32>|
                moka_call(
                    old(self).contents(),
                    final(self).contents(),
                    ip@,
                    limit_rate,
                    old(self).window(),
                    now_millis,
                    prior,
                    r,
                ),
            final(self).window() == old(self).window(),
            final(self).max_entries() == old(self).max_entries(),
            final(self).time_to_live_secs() == old(self).time_to_live_secs(),
    {
        let now = system_time_now();
        let now_millis = match since_unix_epoch(&now) {
            Some(d) => duration_as_millis(&d),
            None => 0,
        };
        self.check_limit_at(ip, limit_rate, now_millis)
    }
}

// ---------------------------------------------------------------------------
// The strategy that the configuration names

/// The configuration's name for no rate limiting.
pub open spec fn names_no_limiting(name: Seq<char>) -> bool {
    name == "no_limiting"@
}

/// The configuration's name for the counter with one record per client.
pub open spec fn names_basic_counter(name: Seq<char>) -> bool {
    name == "basic_counter"@
}

/// Whether a limiter of the strategy `name` can be built with these
/// settings: the cache counter, which every other name selects, needs a
/// time to live (window and a minute) that the cache accepts, and a budget
/// whose size in bytes fits in 64 bits.
pub open spec fn limiter_settings_valid(name: Seq<char>, window_secs: u64, memory_budget_mb: u64) -> bool {
    names_no_limiting(name) || names_basic_counter(name) || (window_secs + TTL_BUFFER_SECS
        <= MAX_TIME_TO_LIVE_SECS && memory_budget_mb * 1024 * 1024 <= u64::MAX)
}

/// One of the rate limiters.
pub enum RateLimiter {
    NoLimiting(NoLimiting),
    BasicCounter(BasicCounter),
    MokaCounter(MokaCounter),
}

/// What one request does to a rate limiter: `before` becomes `after`, and
/// the request is admitted or not. No limiting admits it. The record counter
/// decides by `basic_step` at a time read from its clock; the cache counter
/// makes one `moka_call` at a time read from the wall clock.
pub open spec fn limiter_step(
    before: RateLimiter,
    after: RateLimiter,
    ip: Seq<char>,
    rate: u32,
    admitted: bool,
) -> bool {
    match before {
        RateLimiter::NoLimiting(_) => admitted && after is NoLimiting,
        RateLimiter::BasicCounter(b) => after is BasicCounter && after->BasicCounter_0.window()
            == b.window() && exists|now: u128|
            (admitted, after->BasicCounter_0.records()) == basic_step(
                b.records(),
                ip,
                rate,
                b.window(),
                now,
            ),
        RateLimiter::MokaCounter(m) => after is MokaCounter && after->MokaCounter_0.window()
            == m.window() && after->MokaCounter_0.max_entries() == m.max_entries()
            && after->MokaCounter_0.time_to_live_secs() == m.time_to_live_secs() && exists|
            now_millis: u128,
            prior: Option<u32>,
        |
            moka_call(
                m.contents(),
                after->MokaCounter_0.contents(),
                ip,
                rate,
                m.window(),
                now_millis,
                prior,
                admitted,
            ),
    }
}

/// The limiter that the strategy `name` and these settings give, fresh.
pub open spec fn limiter_built_from(
    l: RateLimiter,
    name: Seq<char>,
    window_secs: u64,
    memory_budget_mb: u64,
) -> bool {
    if names_no_limiting(name) {
        l is NoLimiting
    } else if names_basic_counter(name) {
        l is BasicCounter && l->BasicCounter_0.records() == Map::<Seq<char>, (u32, u128)>::empty()
            && l->BasicCounter_0.window() == window_secs * 1_000_000_000
    } else {
        l is MokaCounter && l->MokaCounter_0.window() == window_secs * 1000
            && l->MokaCounter_0.max_entries() == entry_capacity(memory_budget_mb)
            && l->MokaCounter_0.time_to_live_secs() == window_secs + TTL_BUFFER_SECS
            && l->MokaCounter_0.contents() == Map::<Seq<char>, u32>::empty()
    }
}

impl RateLimiter {
    /// Whether the limiter can decide requests: every limiter but a cache
    /// counter with an empty window.
    pub fn can_decide(&self) -> (r: bool)
        ensures
            r == self.can_check(),
    {
        match self {
            RateLimiter::MokaCounter(l) => l.has_window(),
            _ => true,
        }
    }
}

impl LimitingStrategy for RateLimiter {
    open spec fn can_check(&self) -> bool {
        match self {
            RateLimiter::MokaCounter(m) => m.window() > 0,
            _ => true,
        }
    }

    /// Asks the limiter that this one is.
    fn check_limit(&mut self, ip: &str, limit_rate: u32) -> (r: bool)
        ensures
            limiter_step(*old(self), *final(self), ip@, limit_rate, r),
            final(self).can_check() == old(self).can_check(),
    {
        match self {
            RateLimiter::NoLimiting(l) => l.check_limit(ip, limit_rate),
            RateLimiter::BasicCounter(l) => l.check_limit(ip, limit_rate),
            RateLimiter::MokaCounter(l) => l.check_limit(ip, limit_rate),
        }
    }
}

/// Builds the rate limiter that the configuration names.
pub struct LimitingStrategyFactory {}

impl LimitingStrategyFactory {
    /// `"no_limiting"` gives no limiting, `"basic_counter"` the counter with
    /// one record per client, and every other name (`"moka_counter"` among
    /// them) the cache counter.
    pub fn init(strategy_name: &str, window_secs: u64, memory_budget_mb: u64) -> (r: RateLimiter)
        requires
            limiter_settings_valid(strategy_name@, window_secs, memory_budget_mb),
        ensures
            limiter_built_from(r, strategy_name@, window_secs, memory_budget_mb),
            r.can_check() == (names_no_limiting(strategy_name@) || names_basic_counter(strategy_name@)
                || window_secs > 0),
    {
        proof {
            reveal_strlit("no_limiting");
            reveal_strlit("basic_counter");
            assert("no_limiting"@[0] != "basic_counter"@[0]);
        }
        if same_text(strategy_name, "no_limiting") {
            RateLimiter::NoLimiting(NoLimiting::init())
        } else if same_text(strategy_name, "basic_counter") {
            RateLimiter::BasicCounter(BasicCounter::init(window_secs))
        } else {
            RateLimiter::MokaCounter(MokaCounter::init(window_secs, memory_budget_mb))
        }
    }
}

// ---------------------------------------------------------------------------
// Laws of the limiters

/// Requests of one client at the times `times`, one after the other: how many
/// are admitted, and the records after the last.
pub open spec fn basic_run(
    records: Map<Seq<char>, (u32, u128)>,
    ip: Seq<char>,
    rate: u32,
    window: u128,
    times: Seq<u128>,
) -> (nat, Map<Seq<char>, (u32, u128)>)
    decreases times.len(),
{
    if times.len() == 0 {
        (0, records)
    } else {
        let (admitted, next) = basic_step(records, ip, rate, window, times[0]);
        let (more, last) = basic_run(next, ip, rate, window, times.drop_first());
        (more + if admitted { 1nat } else { 0nat }, last)
    }
}

/// The smaller of two numbers.
pub open spec fn min_nat(a: nat, b: nat) -> nat {
    if a <= b { a } else { b }
}

/// Rate limits are per client: a request of one client leaves every other
/// client's record as it was.
pub proof fn lemma_basic_counter_per_client(
    records: Map<Seq<char>, (u32, u128)>,
    ip: Seq<char>,
    rate: u32,
    window: u128,
    now: u128,
    other: Seq<char>,
)
    requires
        other != ip,
    ensures
        basic_step(records, ip, rate, window, now).1.contains_key(other) == records.contains_key(other),
        basic_step(records, ip, rate, window, now).1[other] == records[other],
{
}

/// A new window: a request that comes `window` or more after its client's
/// window started is admitted, and starts a window with a count of one.
pub proof fn lemma_basic_counter_window_reset(
    records: Map<Seq<char>, (u32, u128)>,
    ip: Seq<char>,
    rate: u32,
    window: u128,
    now: u128,
)
    requires
        records.contains_key(ip),
        elapsed(records[ip].1, now) >= window,
    ensures
        basic_step(records, ip, rate, window, now) == (true, records.insert(ip, (1u32, now))),
{
}

/// Within one window, a client whose record has counted `count <= rate`
/// requests gets exactly `rate - count` more admitted: of `k` requests that
/// all come before the window ends, `min(k, rate - count)` are admitted, and
/// the window keeps its start.
pub proof fn lemma_basic_counter_window_cap(
    records: Map<Seq<char>, (u32, u128)>,
    ip: Seq<char>,
    rate: u32,
    window: u128,
    times: Seq<u128>,
)
    requires
        records.contains_key(ip),
        records[ip].0 <= rate,
        forall|i: int| 0 <= i < times.len() ==> elapsed(records[ip].1, #[trigger] times[i]) < window,
    ensures
        basic_run(records, ip, rate, window, times).0 == min_nat(
            times.len(),
            (rate - records[ip].0) as nat,
        ),
        basic_run(records, ip, rate, window, times).1.contains_key(ip),
        basic_run(records, ip, rate, window, times).1[ip] == (
            (records[ip].0 + min_nat(times.len(), (rate - records[ip].0) as nat)) as u32,
            records[ip].1,
        ),
    decreases times.len(),
{
    if times.len() > 0 {
        let next = basic_step(records, ip, rate, window, times[0]).1;
        assert(elapsed(records[ip].1, times[0]) < window);
        assert forall|i: int| 0 <= i < times.drop_first().len() implies elapsed(
            next[ip].1,
            #[trigger] times.drop_first()[i],
        ) < window by {
            assert(times.drop_first()[i] == times[i + 1]);
        }
        lemma_basic_counter_window_cap(next, ip, rate, window, times.drop_first());
    }
}

/// A client's first window: of `k` requests of a client without a record,
/// all before the window that the first of them opens has ended,
/// `min(k, rate)` are admitted.
pub proof fn lemma_basic_counter_first_window(
    records: Map<Seq<char>, (u32, u128)>,
    ip: Seq<char>,
    rate: u32,
    window: u128,
    times: Seq<u128>,
)
    requires
        !records.contains_key(ip),
        times.len() > 0,
        forall|i: int| 0 <= i < times.len() ==> elapsed(times[0], #[trigger] times[i]) < window,
    ensures
        basic_run(records, ip, rate, window, times).0 == min_nat(times.len(), rate as nat),
{
    let next = basic_step(records, ip, rate, window, times[0]).1;
    assert(elapsed(times[0], times[0]) < window);
    assert(next.contains_key(ip));
    assert(next[ip].1 == times[0]);
    assert forall|i: int| 0 <= i < times.drop_first().len() implies elapsed(
        next[ip].1,
        #[trigger] times.drop_first()[i],
    ) < window by {
        assert(times.drop_first()[i] == times[i + 1]);
    }
    lemma_basic_counter_window_cap(next, ip, rate, window, times.drop_first());
}

/// `k` requests of one client in one window, decided by `moka_step` with a
/// cache that returns what was last stored for the window's key (`prior` at
/// first): how many are admitted.
pub open spec fn moka_run(prior: Option<u32>, rate: u32, k: nat) -> nat
    decreases k,
{
    if k == 0 {
        0
    } else {
        let (admitted, store) = moka_step(prior, rate);
        let next = match store {
            Some(count) => Some(count),
            None => prior,
        };
        (if admitted { 1nat } else { 0nat }) + moka_run(next, rate, (k - 1) as nat)
    }
}

proof fn lemma_moka_run_counted(count: u32, rate: u32, k: nat)
    ensures
        moka_run(Some(count), rate, k) == if count <= rate {
            min_nat(k, (rate - count) as nat)
        } else {
            0
        },
    decreases k,
{
    if k > 0 {
        if count < rate {
            lemma_moka_run_counted((count + 1) as u32, rate, (k - 1) as nat);
        } else {
            lemma_moka_run_counted(count, rate, (k - 1) as nat);
        }
    }
}

/// Within one window, and while the cache keeps what it was given, the cache
/// counter admits `min(k, max(rate, 1))` of `k` requests of a client: the
/// first request of a window is always admitted.
pub proof fn lemma_moka_counter_window_cap(rate: u32, k: nat)
    ensures
        moka_run(None, rate, k) == min_nat(k, if rate == 0 { 1nat } else { rate as nat }),
{
    if k > 0 {
        lemma_moka_run_counted(1, rate, (k - 1) as nat);
    }
}

/// What the cache holds under the key after `k` requests decided by
/// `moka_step` from `prior` on, each finding what the one before stored.
pub open spec fn moka_stored(prior: Option<u32>, rate: u32, k: nat) -> Option<u32>
    decreases k,
{
    if k == 0 {
        prior
    } else {
        let next = match moka_step(prior, rate).1 {
            Some(count) => Some(count),
            None => prior,
        };
        moka_stored(next, rate, (k - 1) as nat)
    }
}

proof fn lemma_moka_stored_counted(count: u32, rate: u32, k: nat)
    requires
        1 <= count,
    ensures
        moka_stored(Some(count), rate, k) == if count < rate {
            Some((count + min_nat(k, (rate - count) as nat)) as u32)
        } else {
            Some(count)
        },
    decreases k,
{
    if k > 0 && count < rate {
        lemma_moka_stored_counted((count + 1) as u32, rate, (k - 1) as nat);
    } else if k > 0 {
        lemma_moka_stored_counted(count, rate, (k - 1) as nat);
    }
}

/// How many of the verdicts admit.
pub open spec fn count_admitted(verdicts: Seq<bool>) -> nat
    decreases verdicts.len(),
{
    if verdicts.len() == 0 {
        0
    } else {
        (if verdicts[0] { 1nat } else { 0nat }) + count_admitted(verdicts.drop_first())
    }
}

proof fn lemma_moka_calls_follow_run(
    states: Seq<Map<Seq<char>, u32>>,
    ip: Seq<char>,
    rate: u32,
    window: u128,
    times: Seq<u128>,
    priors: Seq<Option<u32>>,
    verdicts: Seq<bool>,
    key: Seq<char>,
)
    requires
        window > 0,
        times.len() == priors.len() == verdicts.len(),
        states.len() == times.len() + 1,
        forall|i: int|
            0 <= i < times.len() ==> key == window_key_text(ip, (#[trigger] times[i] / window) as nat),
        forall|i: int|
            0 <= i < times.len() ==> moka_call(
                states[i],
                states[i + 1],
                ip,
                rate,
                window,
                #[trigger] times[i],
                priors[i],
                verdicts[i],
            ),
        forall|i: int| 0 <= i < times.len() ==> #[trigger] priors[i] == lookup(states[i], key),
    ensures
        count_admitted(verdicts) == moka_run(lookup(states[0], key), rate, times.len()),
        lookup(states[times.len() as int], key) == moka_stored(
            lookup(states[0], key),
            rate,
            times.len(),
        ),
    decreases times.len(),
{
    if times.len() > 0 {
        assert(moka_call(states[0], states[1], ip, rate, window, times[0], priors[0], verdicts[0]));
        assert(priors[0] == lookup(states[0], key));
        let st = states.drop_first();
        let ts = times.drop_first();
        let ps = priors.drop_first();
        let vs = verdicts.drop_first();
        assert forall|i: int| 0 <= i < ts.len() implies key == window_key_text(
            ip,
            (#[trigger] ts[i] / window) as nat,
        ) by {
            assert(ts[i] == times[i + 1]);
        }
        assert forall|i: int| 0 <= i < ts.len() implies moka_call(
            st[i],
            st[i + 1],
            ip,
            rate,
            window,
            #[trigger] ts[i],
            ps[i],
            vs[i],
        ) by {
            assert(ts[i] == times[i + 1]);
            assert(moka_call(states[i + 1], states[i + 2], ip, rate, window, times[i + 1], priors[i + 1], verdicts[i + 1]));
        }
        assert forall|i: int| 0 <= i < ts.len() implies #[trigger] ps[i] == lookup(st[i], key) by {
            assert(priors[i + 1] == lookup(states[i + 1], key));
        }
        lemma_moka_calls_follow_run(st, ip, rate, window, ts, ps, vs, key);
        assert(st[ts.len() as int] == states[times.len() as int]);
    }
}

/// Strict rate limiting on real calls of the cache counter, while the cache
/// keeps what it is given (each lookup finds what was last stored under its
/// key): of `k` requests of one client within one window, the cache
/// counter admits `min(k, max(rate, 1))` if the window had no count yet,
/// and `min(k, rate - c)` if it had counted `c <= rate`; at the end the
/// window's count is the number of requests admitted in it.
pub proof fn lemma_moka_counter_strict_window(
    states: Seq<Map<Seq<char>, u32>>,
    ip: Seq<char>,
    rate: u32,
    window: u128,
    times: Seq<u128>,
    priors: Seq<Option<u32>>,
    verdicts: Seq<bool>,
)
    requires
        window > 0,
        times.len() > 0,
        times.len() == priors.len() == verdicts.len(),
        states.len() == times.len() + 1,
        forall|i: int| 0 <= i < times.len() ==> #[trigger] times[i] / window == times[0] / window,
        forall|i: int|
            0 <= i < times.len() ==> moka_call(
                states[i],
                states[i + 1],
                ip,
                rate,
                window,
                #[trigger] times[i],
                priors[i],
                verdicts[i],
            ),
        forall|i: int|
            0 <= i < times.len() ==> #[trigger] priors[i] == lookup(
                states[i],
                window_key_text(ip, (times[i] / window) as nat),
            ),
    ensures
        ({
            let key = window_key_text(ip, (times[0] / window) as nat);
            let k = times.len();
            &&& !states[0].contains_key(key) ==> count_admitted(verdicts) == min_nat(
                k,
                if rate == 0 { 1nat } else { rate as nat },
            ) && lookup(states[k as int], key) == Some(count_admitted(verdicts) as u32)
            &&& states[0].contains_key(key) && 1 <= states[0][key] <= rate ==> count_admitted(
                verdicts,
            ) == min_nat(k, (rate - states[0][key]) as nat) && lookup(states[k as int], key) == Some(
                (states[0][key] + count_admitted(verdicts)) as u32,
            )
        }),
{
    let key = window_key_text(ip, (times[0] / window) as nat);
    let k = times.len();
    assert forall|i: int| 0 <= i < k implies key == window_key_text(
        ip,
        (#[trigger] times[i] / window) as nat,
    ) by {
        assert(times[i] / window == times[0] / window);
    }
    assert forall|i: int| 0 <= i < k implies #[trigger] priors[i] == lookup(states[i], key) by {
        assert(times[i] / window == times[0] / window);
    }
    lemma_moka_calls_follow_run(states, ip, rate, window, times, priors, verdicts, key);
    if !states[0].contains_key(key) {
        lemma_moka_counter_window_cap(rate, k);
        lemma_moka_run_counted(1, rate, (k - 1) as nat);
        lemma_moka_stored_counted(1, rate, (k - 1) as nat);
    } else if 1 <= states[0][key] <= rate {
        lemma_moka_run_counted(states[0][key], rate, k);
        lemma_moka_stored_counted(states[0][key], rate, k);
    }
}

/// The cache counter's limits are per client and per window: a request of
/// one client in one window leaves the count of every other client, and of
/// every other window of the same client, as it was.
pub proof fn lemma_moka_counter_keys_apart(
    before: Map<Seq<char>, u32>,
    after: Map<Seq<char>, u32>,
    ip: Seq<char>,
    rate: u32,
    window: u128,
    now_millis: u128,
    prior: Option<u32>,
    admitted: bool,
    other_ip: Seq<char>,
    other_window: nat,
)
    requires
        moka_call(before, after, ip, rate, window, now_millis, prior, admitted),
        other_ip != ip || other_window != (now_millis / window) as nat,
    ensures
        lookup(after, window_key_text(other_ip, other_window)) == lookup(
            before,
            window_key_text(other_ip, other_window),
        ),
{
    let key = window_key_text(ip, (now_millis / window) as nat);
    let other = window_key_text(other_ip, other_window);
    if key == other {
        lemma_window_key_injective(ip, (now_millis / window) as nat, other_ip, other_window);
    }
}

/// Each client and window has a key of its own: two keys are the same only
/// for the same client address and the same window number. So a new window
/// starts its count afresh.
pub proof fn lemma_window_key_injective(ip1: Seq<char>, w1: nat, ip2: Seq<char>, w2: nat)
    requires
        window_key_text(ip1, w1) == window_key_text(ip2, w2),
    ensures
        ip1 == ip2,
        w1 == w2,
{
    let k = window_key_text(ip1, w1);
    let d1 = decimal(w1);
    let d2 = decimal(w2);
    lemma_decimal_digits(w1);
    lemma_decimal_digits(w2);
    assert(k.len() == ip1.len() + 1 + d1.len());
    assert(k =~= ip2 + seq![':'] + d2);
    if d1.len() < d2.len() {
        let p = ip1.len() as int;
        assert(k[p] == ':');
        assert(k[p] == d2[p - ip2.len() - 1]);
        assert(false);
    } else if d2.len() < d1.len() {
        let p = ip2.len() as int;
        assert(k[p] == ':');
        assert(k[p] == d1[p - ip1.len() - 1]);
        assert(false);
    }
    assert(ip1 =~= k.subrange(0, ip1.len() as int));
    assert(ip2 =~= k.subrange(0, ip2.len() as int));
    assert(d1 =~= k.subrange(ip1.len() as int + 1, k.len() as int));
    assert(d2 =~= k.subrange(ip2.len() as int + 1, k.len() as int));
    lemma_decimal_injective(w1, w2);
}

// ---------------------------------------------------------------------------
// Whole histories of the cache counter

/// One request to the cache counter in a history: the client, the clock
/// reading (milliseconds since the Unix epoch), what the lookup found, and
/// whether the request was admitted.
pub type MokaRequest = (Seq<char>, u128, Option<u32>, bool);

/// The count a window holds as the cache stores it: nothing for none.
pub open spec fn count_option(count: nat) -> Option<u32> {
    if count == 0 {
        None
    } else {
        Some(count as u32)
    }
}

/// The most requests of a client that one window admits: `rate`, and at
/// least the first.
pub open spec fn window_allowance(rate: u32) -> nat {
    if rate == 0 {
        1
    } else {
        rate as nat
    }
}

/// The number of requests of the client at `ip` in window `w` that the
/// history admitted.
pub open spec fn window_count(calls: Seq<MokaRequest>, window: u128, ip: Seq<char>, w: nat) -> nat
    decreases calls.len(),
{
    if calls.len() == 0 {
        0
    } else {
        window_count(calls.drop_last(), window, ip, w) + if calls.last().0 == ip && (calls.last().1
            / window) as nat == w && calls.last().3 {
            1nat
        } else {
            0nat
        }
    }
}

/// Request `i` of a history: a `moka_call` from state `i` to state `i + 1`,
/// whose lookup found what the cache held under its key.
pub open spec fn moka_history_step(
    states: Seq<Map<Seq<char>, u32>>,
    calls: Seq<MokaRequest>,
    rate: u32,
    window: u128,
    i: int,
) -> bool {
    &&& moka_call(
        states[i],
        states[i + 1],
        calls[i].0,
        rate,
        window,
        calls[i].1,
        calls[i].2,
        calls[i].3,
    )
    &&& calls[i].2 == lookup(states[i], window_key_text(calls[i].0, (calls[i].1 / window) as nat))
}

/// A history of requests, one after the other, with the cache contents
/// before and after each, in which the cache kept everything it was given.
pub open spec fn faithful_history(
    states: Seq<Map<Seq<char>, u32>>,
    calls: Seq<MokaRequest>,
    rate: u32,
    window: u128,
) -> bool {
    &&& states.len() == calls.len() + 1
    &&& forall|i: int| 0 <= i < calls.len() ==> #[trigger] moka_history_step(states, calls, rate, window, i)
}

proof fn lemma_faithful_prefix(
    states: Seq<Map<Seq<char>, u32>>,
    calls: Seq<MokaRequest>,
    rate: u32,
    window: u128,
    j: int,
)
    requires
        faithful_history(states, calls, rate, window),
        0 <= j <= calls.len(),
    ensures
        faithful_history(states.take(j + 1), calls.take(j), rate, window),
        states.take(j + 1)[0] == states[0],
        states.take(j + 1).last() == states[j],
{
    let ss = states.take(j + 1);
    let cs = calls.take(j);
    assert forall|i: int| 0 <= i < cs.len() implies #[trigger] moka_history_step(ss, cs, rate, window, i) by {
        assert(moka_history_step(states, calls, rate, window, i));
        assert(ss[i] == states[i] && ss[i + 1] == states[i + 1] && cs[i] == calls[i]);
    }
}

/// The counts of a whole history of the cache counter, requests of all
/// clients interleaved, from an empty cache that keeps what it is given:
/// under the key of every client and window the cache holds the number of
/// that client's requests the window admitted, and that number is at most
/// the rate (at least the first request of a window being admitted).
pub proof fn lemma_moka_counter_history(
    states: Seq<Map<Seq<char>, u32>>,
    calls: Seq<MokaRequest>,
    rate: u32,
    window: u128,
)
    requires
        window > 0,
        faithful_history(states, calls, rate, window),
        states[0] == Map::<Seq<char>, u32>::empty(),
    ensures
        forall|ip: Seq<char>, w: nat|
            lookup(states.last(), window_key_text(ip, w)) == count_option(
                #[trigger] window_count(calls, window, ip, w),
            ) && window_count(calls, window, ip, w) <= window_allowance(rate),
    decreases calls.len(),
{
    if calls.len() > 0 {
        let n = calls.len() - 1;
        let cs = calls.drop_last();
        lemma_faithful_prefix(states, calls, rate, window, n);
        assert(states.take(n + 1) =~= states.drop_last());
        assert(calls.take(n) =~= cs);
        lemma_moka_counter_history(states.drop_last(), cs, rate, window);
        assert(states.drop_last().last() == states[n]);
        assert(moka_history_step(states, calls, rate, window, n));
        let ip_n = calls[n].0;
        let t_n = calls[n].1;
        let w_n = (t_n / window) as nat;
        assert forall|ip: Seq<char>, w: nat|
            lookup(states.last(), window_key_text(ip, w)) == count_option(
                #[trigger] window_count(calls, window, ip, w),
            ) && window_count(calls, window, ip, w) <= window_allowance(rate) by {
            let k = window_key_text(ip, w);
            assert(lookup(states[n], k) == count_option(window_count(cs, window, ip, w)));
            assert(window_count(cs, window, ip, w) <= window_allowance(rate));
            if ip == ip_n && w == w_n {
                let c = window_count(cs, window, ip, w);
                assert(calls[n].2 == count_option(c));
            } else {
                lemma_moka_counter_keys_apart(
                    states[n],
                    states[n + 1],
                    ip_n,
                    rate,
                    window,
                    t_n,
                    calls[n].2,
                    calls[n].3,
                    ip,
                    w,
                );
            }
        }
    } else {
        assert forall|ip: Seq<char>, w: nat|
            lookup(states.last(), window_key_text(ip, w)) == count_option(
                #[trigger] window_count(calls, window, ip, w),
            ) && window_count(calls, window, ip, w) <= window_allowance(rate) by {}
    }
}

/// In a whole history of the cache counter from an empty cache that keeps
/// what it is given, each request's verdict depends only on how many
/// requests of the same client its window admitted before it.
pub proof fn lemma_moka_counter_verdicts(
    states: Seq<Map<Seq<char>, u32>>,
    calls: Seq<MokaRequest>,
    rate: u32,
    window: u128,
)
    requires
        window > 0,
        faithful_history(states, calls, rate, window),
        states[0] == Map::<Seq<char>, u32>::empty(),
    ensures
        forall|i: int|
            0 <= i < calls.len() ==> (#[trigger] calls[i]).3 == moka_step(
                count_option(window_count(calls.take(i), window, calls[i].0, (calls[i].1 / window) as nat)),
                rate,
            ).0,
{
    assert forall|i: int| 0 <= i < calls.len() implies (#[trigger] calls[i]).3 == moka_step(
        count_option(window_count(calls.take(i), window, calls[i].0, (calls[i].1 / window) as nat)),
        rate,
    ).0 by {
        lemma_faithful_prefix(states, calls, rate, window, i);
        lemma_moka_counter_history(states.take(i + 1), calls.take(i), rate, window);
        assert(moka_history_step(states, calls, rate, window, i));
        let w = (calls[i].1 / window) as nat;
        assert(lookup(states[i], window_key_text(calls[i].0, w)) == count_option(
            window_count(calls.take(i), window, calls[i].0, w),
        ));
    }
}

/// The requests of the client at `ip` in a history, in order: clock reading
/// and verdict.
pub open spec fn own_requests(calls: Seq<MokaRequest>, ip: Seq<char>) -> Seq<(u128, bool)>
    decreases calls.len(),
{
    if calls.len() == 0 {
        seq![]
    } else if calls.last().0 == ip {
        own_requests(calls.drop_last(), ip).push((calls.last().1, calls.last().3))
    } else {
        own_requests(calls.drop_last(), ip)
    }
}

/// The number of requests in window `w` that a client's requests admitted.
pub open spec fn own_count(p: Seq<(u128, bool)>, window: u128, w: nat) -> nat
    decreases p.len(),
{
    if p.len() == 0 {
        0
    } else {
        own_count(p.drop_last(), window, w) + if (p.last().0 / window) as nat == w && p.last().1 {
            1nat
        } else {
            0nat
        }
    }
}

/// Whether a client's `j`-th verdict is the one its window's earlier
/// admissions give.
pub open spec fn own_verdict_follows(p: Seq<(u128, bool)>, j: int, rate: u32, window: u128) -> bool {
    p[j].1 == moka_step(count_option(own_count(p.take(j), window, (p[j].0 / window) as nat)), rate).0
}

/// Whether each of a client's verdicts is the one its window's earlier
/// admissions give.
pub open spec fn own_verdicts_follow(p: Seq<(u128, bool)>, rate: u32, window: u128) -> bool {
    forall|j: int| 0 <= j < p.len() ==> #[trigger] own_verdict_follows(p, j, rate, window)
}

proof fn lemma_own_count(calls: Seq<MokaRequest>, window: u128, ip: Seq<char>, w: nat)
    ensures
        window_count(calls, window, ip, w) == own_count(own_requests(calls, ip), window, w),
    decreases calls.len(),
{
    if calls.len() > 0 {
        lemma_own_count(calls.drop_last(), window, ip, w);
        if calls.last().0 == ip {
            let p = own_requests(calls, ip);
            assert(p.drop_last() =~= own_requests(calls.drop_last(), ip));
        }
    }
}

proof fn lemma_own_requests_follow(
    states: Seq<Map<Seq<char>, u32>>,
    calls: Seq<MokaRequest>,
    rate: u32,
    window: u128,
    ip: Seq<char>,
)
    requires
        window > 0,
        faithful_history(states, calls, rate, window),
        states[0] == Map::<Seq<char>, u32>::empty(),
    ensures
        own_verdicts_follow(own_requests(calls, ip), rate, window),
    decreases calls.len(),
{
    if calls.len() > 0 {
        let n = calls.len() - 1;
        let cs = calls.drop_last();
        lemma_faithful_prefix(states, calls, rate, window, n);
        assert(states.take(n + 1) =~= states.drop_last());
        assert(calls.take(n) =~= cs);
        lemma_own_requests_follow(states.drop_last(), cs, rate, window, ip);
        let q = own_requests(cs, ip);
        let p = own_requests(calls, ip);
        if calls.last().0 == ip {
            lemma_moka_counter_verdicts(states, calls, rate, window);
            assert(calls[n].3 == moka_step(
                count_option(window_count(calls.take(n), window, calls[n].0, (calls[n].1 / window) as nat)),
                rate,
            ).0);
            lemma_own_count(cs, window, ip, (calls[n].1 / window) as nat);
            assert forall|j: int| 0 <= j < p.len() implies #[trigger] own_verdict_follows(
                p,
                j,
                rate,
                window,
            ) by {
                if j < q.len() {
                    assert(p[j] == q[j]);
                    assert(p.take(j) =~= q.take(j));
                    assert(own_verdict_follows(q, j, rate, window));
                } else {
                    assert(p.take(j) =~= q);
                }
            }
        }
    }
}

proof fn lemma_own_verdicts_follow_prefix(p: Seq<(u128, bool)>, rate: u32, window: u128)
    requires
        own_verdicts_follow(p, rate, window),
        p.len() > 0,
    ensures
        own_verdicts_follow(p.drop_last(), rate, window),
{
    let d = p.drop_last();
    assert forall|j: int| 0 <= j < d.len() implies #[trigger] own_verdict_follows(d, j, rate, window) by {
        assert(d.take(j) =~= p.take(j));
        assert(d[j] == p[j]);
        assert(own_verdict_follows(p, j, rate, window));
    }
}

proof fn lemma_own_verdicts_unique(p1: Seq<(u128, bool)>, p2: Seq<(u128, bool)>, rate: u32, window: u128)
    requires
        own_verdicts_follow(p1, rate, window),
        own_verdicts_follow(p2, rate, window),
        p1.len() == p2.len(),
        forall|j: int| 0 <= j < p1.len() ==> (#[trigger] p1[j]).0 == p2[j].0,
    ensures
        p1 == p2,
    decreases p1.len(),
{
    if p1.len() > 0 {
        let n = p1.len() - 1;
        let d1 = p1.drop_last();
        let d2 = p2.drop_last();
        lemma_own_verdicts_follow_prefix(p1, rate, window);
        lemma_own_verdicts_follow_prefix(p2, rate, window);
        assert forall|j: int| 0 <= j < d1.len() implies (#[trigger] d1[j]).0 == d2[j].0 by {
            assert(d1[j] == p1[j]);
            assert(d2[j] == p2[j]);
            assert(p1[j].0 == p2[j].0);
        }
        lemma_own_verdicts_unique(d1, d2, rate, window);
        assert(p1.take(n) =~= d1);
        assert(p2.take(n) =~= d2);
        assert(p1[n].0 == p2[n].0);
        assert(own_verdict_follows(p1, n, rate, window));
        assert(own_verdict_follows(p2, n, rate, window));
        assert(p1[n] == p2[n]);
        assert forall|j: int| 0 <= j < p1.len() implies p1[j] == p2[j] by {
            if j < n {
                assert(p1[j] == d1[j]);
                assert(p2[j] == d2[j]);
            }
        }
        assert(p1 =~= p2);
    }
}

/// Clients do not affect each other: two histories of the cache counter
/// from an empty cache that keeps what it is given, in which the client at
/// `ip` makes the same requests at the same clock readings, give that
/// client the same verdicts, whatever the other clients do.
pub proof fn lemma_moka_counter_clients_independent(
    states1: Seq<Map<Seq<char>, u32>>,
    calls1: Seq<MokaRequest>,
    states2: Seq<Map<Seq<char>, u32>>,
    calls2: Seq<MokaRequest>,
    rate: u32,
    window: u128,
    ip: Seq<char>,
)
    requires
        window > 0,
        faithful_history(states1, calls1, rate, window),
        faithful_history(states2, calls2, rate, window),
        states1[0] == Map::<Seq<char>, u32>::empty(),
        states2[0] == Map::<Seq<char>, u32>::empty(),
        own_requests(calls1, ip).len() == own_requests(calls2, ip).len(),
        forall|j: int|
            0 <= j < own_requests(calls1, ip).len() ==> (#[trigger] own_requests(calls1, ip)[j]).0
                == own_requests(calls2, ip)[j].0,
    ensures
        own_requests(calls1, ip) == own_requests(calls2, ip),
{
    lemma_own_requests_follow(states1, calls1, rate, window, ip);
    lemma_own_requests_follow(states2, calls2, rate, window, ip);
    lemma_own_verdicts_unique(own_requests(calls1, ip), own_requests(calls2, ip), rate, window);
}

} // verus!
