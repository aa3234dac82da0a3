//! Live request statistics, per endpoint and overall.
use vstd::prelude::*;

use crate::text::{from_chars, to_chars};

verus! {

/// The largest `std::time::Duration`, in nanoseconds.
pub const DURATION_MAX_NANOS: u128 = 18_446_744_073_709_551_615_999_999_999;

/// Nanoseconds in one millisecond.
pub const NANOS_PER_MILLI: u128 = 1_000_000;

/// The minimum response time an endpoint starts with: 999 seconds.
pub const INITIAL_MIN_RESPONSE_NANOS: u128 = 999_000_000_000;

/// Counters of one endpoint. Times are in nanoseconds.
#[derive(Clone, Copy, Debug, PartialEq, Eq, Structural)]
pub struct EndpointStats {
    pub requests: u64,
    pub success: u64,
    pub failure: u64,
    pub total_response_time: u128,
    pub min_response_time: u128,
    pub max_response_time: u128,
}

impl EndpointStats {
    /// The counters of an endpoint that has seen no request.
    pub open spec fn initial() -> EndpointStats {
        EndpointStats {
            requests: 0,
            success: 0,
            failure: 0,
            total_response_time: 0,
            min_response_time: INITIAL_MIN_RESPONSE_NANOS,
            max_response_time: 0,
        }
    }

    /// One more request can be counted without overflow.
    pub open spec fn can_record(self, duration: u128) -> bool {
        &&& self.requests < u64::MAX
        &&& self.success < u64::MAX
        &&& self.failure < u64::MAX
        &&& self.total_response_time + duration <= DURATION_MAX_NANOS
    }

    /// The counters after one more request that took `duration` and did or
    /// did not succeed.
    pub open spec fn recorded(self, success: bool, duration: u128) -> EndpointStats {
        EndpointStats {
            requests: (self.requests + 1) as u64,
            success: if success {
                (self.success + 1) as u64
            } else {
                self.success
            },
            failure: if success {
                self.failure
            } else {
                (self.failure + 1) as u64
            },
            total_response_time: (self.total_response_time + duration) as u128,
            min_response_time: if duration < self.min_response_time {
                duration
            } else {
                self.min_response_time
            },
            max_response_time: if duration > self.max_response_time {
                duration
            } else {
                self.max_response_time
            },
        }
    }

    /// Every request counted is a success or a failure.
    pub open spec fn consistent(self) -> bool {
        self.success + self.failure == self.requests
    }

    /// Counts one more request.
    pub fn record(&mut self, success: bool, duration: u128)
        requires
            old(self).can_record(duration),
        ensures
            *final(self) == old(self).recorded(success, duration),
    {
        self.requests = self.requests + 1;
        if success {
            self.success = self.success + 1;
        } else {
            self.failure = self.failure + 1;
        }
        self.total_response_time = self.total_response_time + duration;
        if duration < self.min_response_time {
            self.min_response_time = duration;
        }
        if duration > self.max_response_time {
            self.max_response_time = duration;
        }
    }

    /// The minimum response time in whole milliseconds, 0 before any request.
    pub fn min_latency_ms(&self) -> (r: u128)
        ensures
            r == if self.requests > 0 {
                self.min_response_time / NANOS_PER_MILLI
            } else {
                0
            },
    {
        if self.requests > 0 {
            self.min_response_time / NANOS_PER_MILLI
        } else {
            0
        }
    }

    /// The maximum response time in whole milliseconds.
    pub fn max_latency_ms(&self) -> (r: u128)
        ensures
            r == self.max_response_time / NANOS_PER_MILLI,
    {
        self.max_response_time / NANOS_PER_MILLI
    }

    /// The total response time in whole milliseconds.
    pub fn total_latency_ms(&self) -> (r: u128)
        ensures
            r == self.total_response_time / NANOS_PER_MILLI,
    {
        self.total_response_time / NANOS_PER_MILLI
    }
}

impl Default for EndpointStats {
    fn default() -> (r: EndpointStats)
        ensures
            r == EndpointStats::initial(),
    {
        EndpointStats {
            requests: 0,
            success: 0,
            failure: 0,
            total_response_time: 0,
            min_response_time: INITIAL_MIN_RESPONSE_NANOS,
            max_response_time: 0,
        }
    }
}

/// The counters of an endpoint that has seen at least one request: every
/// request is a success or a failure, and the minimum time is at most the
/// initial minimum and at most the maximum, which is at most the total.
pub open spec fn endpoint_wf(e: EndpointStats) -> bool {
    &&& e.success + e.failure == e.requests
    &&& e.requests > 0
    &&& e.min_response_time <= INITIAL_MIN_RESPONSE_NANOS
    &&& e.min_response_time <= e.max_response_time
    &&& e.max_response_time <= e.total_response_time
    &&& e.total_response_time <= DURATION_MAX_NANOS
}

/// Counting a request, starting from fresh counters or from counters that
/// have seen requests, gives counters that satisfy `endpoint_wf`.
pub proof fn lemma_record_consistent(s: EndpointStats, success: bool, duration: u128)
    requires
        s == EndpointStats::initial() || endpoint_wf(s),
        s.can_record(duration),
    ensures
        endpoint_wf(s.recorded(success, duration)),
        s.recorded(success, duration).consistent(),
{
}

/// The counters after the requests `reqs` (each its success and duration),
/// counted in order from fresh counters.
pub open spec fn replay(reqs: Seq<(bool, u128)>) -> EndpointStats
    decreases reqs.len(),
{
    if reqs.len() == 0 {
        EndpointStats::initial()
    } else {
        replay(reqs.drop_last()).recorded(reqs.last().0, reqs.last().1)
    }
}

/// How many of `reqs` succeeded.
pub open spec fn count_success(reqs: Seq<(bool, u128)>) -> int
    decreases reqs.len(),
{
    if reqs.len() == 0 {
        0
    } else {
        count_success(reqs.drop_last()) + if reqs.last().0 {
            1int
        } else {
            0int
        }
    }
}

/// The sum of the durations of `reqs`.
pub open spec fn sum_durations(reqs: Seq<(bool, u128)>) -> int
    decreases reqs.len(),
{
    if reqs.len() == 0 {
        0
    } else {
        sum_durations(reqs.drop_last()) + reqs.last().1
    }
}

/// The largest duration of `reqs`, 0 for none.
pub open spec fn max_duration(reqs: Seq<(bool, u128)>) -> int
    decreases reqs.len(),
{
    if reqs.len() == 0 {
        0
    } else {
        let m = max_duration(reqs.drop_last());
        if reqs.last().1 > m {
            reqs.last().1 as int
        } else {
            m
        }
    }
}

/// The smallest duration of `reqs`, and at most the initial minimum.
pub open spec fn min_duration(reqs: Seq<(bool, u128)>) -> int
    decreases reqs.len(),
{
    if reqs.len() == 0 {
        INITIAL_MIN_RESPONSE_NANOS as int
    } else {
        let m = min_duration(reqs.drop_last());
        if reqs.last().1 < m {
            reqs.last().1 as int
        } else {
            m
        }
    }
}

/// What the counters of an endpoint mean: after any sequence of counted
/// requests, `requests` is their number, `success` and `failure` how many
/// succeeded and failed, the total time the sum of their durations, the
/// maximum their largest duration, and the minimum their smallest
/// duration (at most 999 seconds).
pub proof fn lemma_replay_counts(reqs: Seq<(bool, u128)>)
    requires
        reqs.len() < u64::MAX,
        sum_durations(reqs) <= DURATION_MAX_NANOS,
    ensures
        replay(reqs).requests == reqs.len(),
        replay(reqs).success == count_success(reqs),
        replay(reqs).failure == reqs.len() - count_success(reqs),
        replay(reqs).total_response_time == sum_durations(reqs),
        replay(reqs).max_response_time == max_duration(reqs),
        replay(reqs).min_response_time == min_duration(reqs),
        0 <= count_success(reqs) <= reqs.len(),
    decreases reqs.len(),
{
    if reqs.len() > 0 {
        let init = reqs.drop_last();
        assert(sum_durations(init) <= sum_durations(reqs));
        lemma_replay_counts(init);
    }
}

/// Sums of request, failure and time counters over some endpoints.
pub open spec fn sum_requests(es: Seq<(Seq<char>, EndpointStats)>) -> int
    decreases es.len(),
{
    if es.len() == 0 {
        0
    } else {
        sum_requests(es.drop_last()) + es.last().1.requests
    }
}

/// The sum of the failure counters.
pub open spec fn sum_failures(es: Seq<(Seq<char>, EndpointStats)>) -> int
    decreases es.len(),
{
    if es.len() == 0 {
        0
    } else {
        sum_failures(es.drop_last()) + es.last().1.failure
    }
}

/// The sum of the response times.
pub open spec fn sum_times(es: Seq<(Seq<char>, EndpointStats)>) -> int
    decreases es.len(),
{
    if es.len() == 0 {
        0
    } else {
        sum_times(es.drop_last()) + es.last().1.total_response_time
    }
}

/// No endpoint name occurs twice.
pub open spec fn names_unique(es: Seq<(Seq<char>, EndpointStats)>) -> bool {
    forall|i: int, j: int| 0 <= i < es.len() && 0 <= j < es.len() && i != j ==> es[i].0 != es[j].0
}

/// Some endpoint is named `k`.
pub open spec fn has_name(es: Seq<(Seq<char>, EndpointStats)>, k: Seq<char>) -> bool {
    exists|i: int| 0 <= i < es.len() && es[i].0 == k
}

/// The endpoints after one request to `k`: the endpoint named `k` (created
/// at the end if new) counts it.
pub open spec fn recorded_endpoints(
    es: Seq<(Seq<char>, EndpointStats)>,
    k: Seq<char>,
    success: bool,
    duration: u128,
) -> Seq<(Seq<char>, EndpointStats)> {
    if has_name(es, k) {
        let i = choose|i: int| 0 <= i < es.len() && es[i].0 == k;
        es.update(i, (k, es[i].1.recorded(success, duration)))
    } else {
        es.push((k, EndpointStats::initial().recorded(success, duration)))
    }
}

/// Endpoint names are unique and every endpoint's counters satisfy
/// `endpoint_wf`.
pub open spec fn stats_wf(es: Seq<(Seq<char>, EndpointStats)>) -> bool {
    &&& names_unique(es)
    &&& forall|i: int| 0 <= i < es.len() ==> endpoint_wf(#[trigger] es[i].1)
}

/// A request to `k` can be counted without overflow.
pub open spec fn can_record_endpoint(es: Seq<(Seq<char>, EndpointStats)>, k: Seq<char>, duration: u128) -> bool {
    &&& duration <= DURATION_MAX_NANOS
    &&& forall|i: int| 0 <= i < es.len() && es[i].0 == k ==> (#[trigger] es[i]).1.can_record(duration)
}

proof fn lemma_sum_update(es: Seq<(Seq<char>, EndpointStats)>, i: int, e: (Seq<char>, EndpointStats))
    requires
        0 <= i < es.len(),
    ensures
        sum_requests(es.update(i, e)) == sum_requests(es) - es[i].1.requests + e.1.requests,
    decreases es.len(),
{
    let u = es.update(i, e);
    if i == es.len() - 1 {
        assert(u.drop_last() =~= es.drop_last());
    } else {
        lemma_sum_update(es.drop_last(), i, e);
        assert(u.drop_last() =~= es.drop_last().update(i, e));
    }
}

/// Counting a request adds exactly one to the total number of requests,
/// keeps endpoint names unique, and keeps every endpoint's counters
/// well formed.
pub proof fn lemma_record_adds_one(
    es: Seq<(Seq<char>, EndpointStats)>,
    k: Seq<char>,
    success: bool,
    duration: u128,
)
    requires
        names_unique(es),
        can_record_endpoint(es, k, duration),
    ensures
        sum_requests(recorded_endpoints(es, k, success, duration)) == sum_requests(es) + 1,
        names_unique(recorded_endpoints(es, k, success, duration)),
        has_name(recorded_endpoints(es, k, success, duration), k),
        stats_wf(es) ==> stats_wf(recorded_endpoints(es, k, success, duration)),
{
    if stats_wf(es) {
        if has_name(es, k) {
            let i = choose|i: int| 0 <= i < es.len() && es[i].0 == k;
            assert(endpoint_wf(es[i].1));
            assert(es[i].1.can_record(duration));
            lemma_record_consistent(es[i].1, success, duration);
        } else {
            lemma_record_consistent(EndpointStats::initial(), success, duration);
        }
    }
    let r = recorded_endpoints(es, k, success, duration);
    if has_name(es, k) {
        let i = choose|i: int| 0 <= i < es.len() && es[i].0 == k;
        assert(es[i].1.can_record(duration));
        lemma_sum_update(es, i, (k, es[i].1.recorded(success, duration)));
        assert(r[i].0 == k);
        assert forall|a: int, b: int| 0 <= a < r.len() && 0 <= b < r.len() && a != b implies r[a].0
            != r[b].0 by {
            assert(r[a].0 == es[a].0);
            assert(r[b].0 == es[b].0);
        }
    } else {
        assert(r.drop_last() =~= es);
        assert(r[es.len() as int].0 == k);
    }
}

/// The live statistics of a test: counters per endpoint name (in the order
/// the names were first seen) and the number of active virtual users.
pub struct GlobalStats {
    endpoints: Vec<(String, EndpointStats)>,
    active_users: u32,
}

impl GlobalStats {
    #[verifier::type_invariant]
    spec fn inv(self) -> bool {
        stats_wf(self.endpoints_view())
    }

    /// The counters per endpoint name.
    pub closed spec fn endpoints_view(self) -> Seq<(Seq<char>, EndpointStats)> {
        self.endpoints@.map_values(|e: (String, EndpointStats)| (e.0@, e.1))
    }

    /// The number of active virtual users.
    pub closed spec fn users(self) -> u32 {
        self.active_users
    }

    /// Statistics with no endpoint and no active user.
    pub fn new() -> (s: GlobalStats)
        ensures
            s.endpoints_view() == Seq::<(Seq<char>, EndpointStats)>::empty(),
            s.users() == 0,
    {
        let s = GlobalStats { endpoints: Vec::new(), active_users: 0 };
        assert(s.endpoints_view() =~= Seq::<(Seq<char>, EndpointStats)>::empty());
        s
    }

    /// The number of active virtual users.
    pub fn active_users(&self) -> (n: u32)
        ensures
            n == self.users(),
    {
        self.active_users
    }

    /// A virtual user starts.
    pub fn user_started(&mut self)
        requires
            old(self).users() < u32::MAX,
        ensures
            final(self).users() == old(self).users() + 1,
            final(self).endpoints_view() == old(self).endpoints_view(),
    {
        proof {
            use_type_invariant(&*self);
        }
        self.active_users = self.active_users + 1;
    }

    /// A virtual user stops.
    pub fn user_finished(&mut self)
        requires
            old(self).users() > 0,
        ensures
            final(self).users() == old(self).users() - 1,
            final(self).endpoints_view() == old(self).endpoints_view(),
    {
        proof {
            use_type_invariant(&*self);
        }
        self.active_users = self.active_users - 1;
    }

    /// The number of endpoints.
    pub fn len(&self) -> (n: usize)
        ensures
            n == self.endpoints_view().len(),
            stats_wf(self.endpoints_view()),
    {
        proof {
            use_type_invariant(self);
        }
        self.endpoints.len()
    }

    /// The name and counters of the endpoint at position `i`.
    pub fn endpoint(&self, i: usize) -> (r: (&String, EndpointStats))
        requires
            i < self.endpoints_view().len(),
        ensures
            r.0@ == self.endpoints_view()[i as int].0,
            r.1 == self.endpoints_view()[i as int].1,
            endpoint_wf(r.1),
    {
        proof {
            use_type_invariant(self);
        }
        let e = &self.endpoints[i];
        (&e.0, e.1)
    }

    /// The position of the endpoint named `key`, if there is one.
    pub fn find_endpoint(&self, key: &String) -> (r: Option<usize>)
        ensures
            r is None ==> !has_name(self.endpoints_view(), key@),
            r matches Some(i) ==> i < self.endpoints_view().len() && self.endpoints_view()[i as int].0
                == key@,
    {
        let mut i: usize = 0;
        while i < self.endpoints.len()
            invariant
                i <= self.endpoints@.len(),
                self.endpoints_view().len() == self.endpoints@.len(),
                forall|j: int| 0 <= j < i ==> self.endpoints_view()[j].0 != key@,
            decreases self.endpoints.len() - i,
        {
            if self.endpoints[i].0 == *key {
                return Some(i);
            }
            i = i + 1;
        }
        None
    }

    /// Counts a request to the endpoint named `key` that took `duration`
    /// nanoseconds and did or did not succeed, creating the endpoint's
    /// counters on its first request. Returns the number of active users.
    pub fn record_request(&mut self, key: String, success: bool, duration: u128) -> (n: u32)
        requires
            can_record_endpoint(old(self).endpoints_view(), key@, duration),
        ensures
            final(self).endpoints_view() == recorded_endpoints(
                old(self).endpoints_view(),
                key@,
                success,
                duration,
            ),
            final(self).users() == old(self).users(),
            n == old(self).users(),
    {
        proof {
            use_type_invariant(&*self);
            lemma_record_adds_one(self.endpoints_view(), key@, success, duration);
        }
        let ghost before = self.endpoints_view();
        let ghost k = key@;
        let found = self.find_endpoint(&key);
        let mut endpoints: Vec<(String, EndpointStats)> = Vec::new();
        std::mem::swap(&mut endpoints, &mut self.endpoints);
        match found {
            Some(i) => {
                let mut e = endpoints[i].1;
                assert(before[i as int].0 == k);
                assert(before[i as int].1 == e);
                e.record(success, duration);
                endpoints.set(i, (key, e));
                proof {
                    assert(has_name(before, k));
                    let j = choose|j: int| 0 <= j < before.len() && before[j].0 == k;
                    assert(j == i as int);
                    assert(endpoints@.map_values(|e: (String, EndpointStats)| (e.0@, e.1))
                        =~= recorded_endpoints(before, k, success, duration));
                }
            },
            None => {
                let mut e = EndpointStats::default();
                e.record(success, duration);
                endpoints.push((key, e));
                assert(endpoints@.map_values(|e: (String, EndpointStats)| (e.0@, e.1))
                    =~= recorded_endpoints(before, k, success, duration));
            },
        }
        self.endpoints = endpoints;
        self.active_users
    }

    /// The number of requests, failures and the total response time in
    /// nanoseconds, over all endpoints.
    pub fn totals(&self) -> (r: (u64, u64, u128))
        requires
            sum_requests(self.endpoints_view()) <= u64::MAX,
            sum_failures(self.endpoints_view()) <= u64::MAX,
            sum_times(self.endpoints_view()) <= u128::MAX,
        ensures
            r.0 == sum_requests(self.endpoints_view()),
            r.1 == sum_failures(self.endpoints_view()),
            r.2 == sum_times(self.endpoints_view()),
    {
        let ghost es = self.endpoints_view();
        let mut req: u64 = 0;
        let mut fail: u64 = 0;
        let mut time: u128 = 0;
        let mut i: usize = 0;
        assert(es.take(0) =~= Seq::<(Seq<char>, EndpointStats)>::empty());
        while i < self.endpoints.len()
            invariant
                es == self.endpoints_view(),
                es.len() == self.endpoints@.len(),
                i <= es.len(),
                sum_requests(es) <= u64::MAX,
                sum_failures(es) <= u64::MAX,
                sum_times(es) <= u128::MAX,
                req == sum_requests(es.take(i as int)),
                fail == sum_failures(es.take(i as int)),
                time == sum_times(es.take(i as int)),
            decreases self.endpoints.len() - i,
        {
            proof {
                assert(es.take(i + 1).drop_last() =~= es.take(i as int));
                lemma_sums_prefix(es, i + 1);
            }
            let e = self.endpoints[i].1;
            req = req + e.requests;
            fail = fail + e.failure;
            time = time + e.total_response_time;
            i = i + 1;
        }
        assert(es.take(es.len() as int) =~= es);
        (req, fail, time)
    }
}

proof fn lemma_sums_prefix(es: Seq<(Seq<char>, EndpointStats)>, n: int)
    requires
        0 <= n <= es.len(),
    ensures
        sum_requests(es.take(n)) <= sum_requests(es),
        sum_failures(es.take(n)) <= sum_failures(es),
        sum_times(es.take(n)) <= sum_times(es),
    decreases es.len(),
{
    if n < es.len() {
        assert(es.drop_last().take(n) =~= es.take(n));
        lemma_sums_prefix(es.drop_last(), n);
    } else {
        assert(es.take(n) =~= es);
    }
}

/// The method and endpoint of a statistics key: the text before the first
/// space, and the text after it (`-` when there is no space).
pub fn split_endpoint_key(name: &str) -> (r: (String, String))
    ensures
        name@.contains(' ') ==> r.0@ + seq![' '] + r.1@ == name@ && !r.0@.contains(' '),
        !name@.contains(' ') ==> r.0@ == name@ && r.1@ == seq!['-'],
{
    let s = to_chars(name);
    let mut i: usize = 0;
    while i < s.len() && s[i] != ' '
        invariant
            s@ == name@,
            i <= s.len(),
            forall|j: int| 0 <= j < i ==> s@[j] != ' ',
        decreases s.len() - i,
    {
        i = i + 1;
    }
    let mut head: Vec<char> = Vec::new();
    let mut k: usize = 0;
    while k < i
        invariant
            k <= i <= s.len(),
            head@ == s@.take(k as int),
        decreases i - k,
    {
        head.push(s[k]);
        assert(s@.take(k as int).push(s@[k as int]) =~= s@.take(k + 1));
        k = k + 1;
    }
    if i == s.len() {
        assert(s@.take(i as int) =~= s@);
        assert(!name@.contains(' '));
        return (from_chars(&head), from_chars(&vec!['-']));
    }
    assert(s@[i as int] == ' ');
    let mut tail: Vec<char> = Vec::new();
    let mut m: usize = i + 1;
    while m < s.len()
        invariant
            i < s.len(),
            i + 1 <= m <= s.len(),
            tail@ == s@.subrange(i + 1, m as int),
        decreases s.len() - m,
    {
        tail.push(s[m]);
        assert(s@.subrange(i + 1, m as int).push(s@[m as int]) =~= s@.subrange(i + 1, m + 1));
        m = m + 1;
    }
    assert(head@ + seq![' '] + tail@ =~= s@);
    (from_chars(&head), from_chars(&tail))
}

/// Records `active` in the recent history of active users, dropping the
/// oldest snapshot once more than `width` are kept.
pub fn push_user_history(history: &mut Vec<u32>, active: u32, width: usize)
    ensures
        old(history)@.len() + 1 > width ==> final(history)@ == old(history)@.push(active).drop_first(),
        old(history)@.len() + 1 <= width ==> final(history)@ == old(history)@.push(active),
{
    history.push(active);
    if history.len() > width {
        history.remove(0);
        assert(history@ =~= old(history)@.push(active).drop_first());
    }
}

/// Once the history is within `width` snapshots it stays within, and the
/// newest snapshot is always last.
pub proof fn lemma_history_bounded(h: Seq<u32>, active: u32, width: nat)
    requires
        h.len() <= width,
    ensures
        ({
            let n = if h.len() + 1 > width {
                h.push(active).drop_first()
            } else {
                h.push(active)
            };
            n.len() <= width && (n.len() > 0 ==> n.last() == active)
        }),
{
}

} // verus!
