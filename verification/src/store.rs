//! The event store: an append-only, insert-only collection of command
//! events supporting time-ordered, optionally bounded scans and bulk purge.
//!
//! The store keeps events in insertion order; a scan filters by a lower
//! timestamp bound and orders the surviving events by timestamp, events with
//! equal timestamps staying in insertion order.  A descending scan is
//! exactly the reverse of the ascending one.

use vstd::prelude::*;

use crate::event::CommandLog;
use crate::event::EventView;

verus! {

broadcast use vstd::multiset::group_multiset_axioms;

/// Events ordered by non-decreasing timestamp.
pub open spec fn sorted_asc(s: Seq<EventView>) -> bool {
    forall|i: int, j: int|
        0 <= i < j < s.len() ==> s[i].timestamp_ms <= s[j].timestamp_ms
}

/// Insert one event into a timestamp-sorted sequence, after every event
/// whose timestamp is less than or equal to its own: a stable insertion.
pub open spec fn insort(s: Seq<EventView>, e: EventView) -> Seq<EventView>
    decreases s.len(),
{
    if s.len() == 0 {
        seq![e]
    } else if s.last().timestamp_ms <= e.timestamp_ms {
        s.push(e)
    } else {
        insort(s.drop_last(), e).push(s.last())
    }
}

/// Stable insertion sort of events by timestamp.
pub open spec fn sort_events(s: Seq<EventView>) -> Seq<EventView>
    decreases s.len(),
{
    if s.len() == 0 {
        Seq::empty()
    } else {
        insort(sort_events(s.drop_last()), s.last())
    }
}

/// An optional lower bound on timestamps, as a mathematical integer.
pub open spec fn opt_ms_view(lb: Option<i64>) -> Option<int> {
    match lb {
        None => None,
        Some(t) => Some(t as int),
    }
}

/// Whether an event's timestamp meets an optional lower bound.
pub open spec fn ts_at_least(e: EventView, lb: Option<int>) -> bool {
    match lb {
        None => true,
        Some(t) => e.timestamp_ms >= t,
    }
}

/// The subsequence of events whose timestamps meet the bound, in their
/// original order.
pub open spec fn filter_at_least(s: Seq<EventView>, lb: Option<int>) -> Seq<EventView>
    decreases s.len(),
{
    if s.len() == 0 {
        Seq::empty()
    } else {
        let rest = filter_at_least(s.drop_last(), lb);
        if ts_at_least(s.last(), lb) {
            rest.push(s.last())
        } else {
            rest
        }
    }
}

/// What an ascending scan of a store with the given bound returns.
pub open spec fn scan_spec(s: Seq<EventView>, lb: Option<int>) -> Seq<EventView> {
    sort_events(filter_at_least(s, lb))
}

/// When the prefix of a sorted sequence has timestamps at most `e`'s and
/// the suffix has strictly greater ones, the stable insertion is exactly
/// an insertion at the boundary.
proof fn lemma_insort_insert_at(s: Seq<EventView>, e: EventView, j: int)
    requires
        sorted_asc(s),
        0 <= j <= s.len(),
        forall|k: int| 0 <= k < j ==> s[k].timestamp_ms <= e.timestamp_ms,
        forall|k: int| j <= k < s.len() ==> s[k].timestamp_ms > e.timestamp_ms,
    ensures
        insort(s, e) == s.insert(j, e),
    decreases s.len(),
{
    if j == s.len() {
        if s.len() == 0 {
            assert(insort(s, e) =~= s.insert(0, e));
        } else {
            assert(s.last().timestamp_ms <= e.timestamp_ms);
            assert(s.push(e) =~= s.insert(j, e));
        }
    } else {
        assert(s.last().timestamp_ms > e.timestamp_ms);
        let d = s.drop_last();
        assert(sorted_asc(d));
        lemma_insort_insert_at(d, e, j);
        assert(d.insert(j, e).push(s.last()) =~= s.insert(j, e));
    }
}

/// A stable insertion adds exactly the inserted event to the contents.
proof fn lemma_insort_multiset(s: Seq<EventView>, e: EventView)
    ensures
        insort(s, e).to_multiset() == s.to_multiset().insert(e),
        insort(s, e).len() == s.len() + 1,
    decreases s.len(),
{
    s.to_multiset_ensures();
    if s.len() == 0 {
        assert(seq![e] =~= Seq::<EventView>::empty().push(e));
        Seq::<EventView>::empty().to_multiset_ensures();
    } else if s.last().timestamp_ms <= e.timestamp_ms {
    } else {
        let d = s.drop_last();
        lemma_insort_multiset(d, e);
        insort(d, e).to_multiset_ensures();
        d.to_multiset_ensures();
        assert(d.push(s.last()) =~= s);
        assert(insort(s, e).to_multiset() =~= s.to_multiset().insert(e));
    }
}

/// A stable insertion into a sorted sequence leaves it sorted.
proof fn lemma_insort_sorted(s: Seq<EventView>, e: EventView)
    requires
        sorted_asc(s),
    ensures
        sorted_asc(insort(s, e)),
    decreases s.len(),
{
    if s.len() == 0 {
    } else if s.last().timestamp_ms <= e.timestamp_ms {
        assert forall|i: int, j: int|
            0 <= i < j < s.push(e).len() implies s.push(e)[i].timestamp_ms
            <= s.push(e)[j].timestamp_ms by {
            if j < s.len() {
            } else {
                if i < s.len() - 1 {
                    assert(s[i].timestamp_ms <= s.last().timestamp_ms);
                }
            }
        };
    } else {
        let d = s.drop_last();
        assert(sorted_asc(d));
        lemma_insort_sorted(d, e);
        let t = insort(d, e);
        assert forall|i: int| 0 <= i < t.len() implies t[i].timestamp_ms
            <= s.last().timestamp_ms by {
            assert(t.contains(t[i]));
            t.to_multiset_ensures();
            lemma_insort_multiset(d, e);
            d.to_multiset_ensures();
            if t[i] != e {
                assert(t.to_multiset().count(t[i]) > 0);
                assert(t.to_multiset() == d.to_multiset().insert(e));
                assert(d.to_multiset().insert(e).count(t[i]) == d.to_multiset().count(t[i]));
                assert(d.contains(t[i]));
                let k = choose|k: int| 0 <= k < d.len() && d[k] == t[i];
                if k < s.len() - 1 {
                    assert(s[k].timestamp_ms <= s.last().timestamp_ms);
                }
            }
        };
        let r = t.push(s.last());
        assert forall|i: int, j: int|
            0 <= i < j < r.len() implies r[i].timestamp_ms <= r[j].timestamp_ms by {
            if j < t.len() {
            } else {
                assert(r[i] == t[i]);
            }
        };
    }
}

/// Sorting keeps exactly the same events: same contents, same count.
pub proof fn lemma_sort_events_multiset(s: Seq<EventView>)
    ensures
        sort_events(s).to_multiset() == s.to_multiset(),
        sort_events(s).len() == s.len(),
    decreases s.len(),
{
    s.to_multiset_ensures();
    if s.len() == 0 {
        assert(sort_events(s) =~= s);
    } else {
        let d = s.drop_last();
        lemma_sort_events_multiset(d);
        lemma_insort_multiset(sort_events(d), s.last());
        d.to_multiset_ensures();
        assert(d.push(s.last()) =~= s);
        assert(sort_events(s).to_multiset() =~= s.to_multiset());
    }
}

/// The result of sorting is sorted.
pub proof fn lemma_sort_events_sorted(s: Seq<EventView>)
    ensures
        sorted_asc(sort_events(s)),
    decreases s.len(),
{
    if s.len() > 0 {
        let d = s.drop_last();
        lemma_sort_events_sorted(d);
        lemma_insort_sorted(sort_events(d), s.last());
    }
}

/// With no lower bound, filtering keeps every event.
pub proof fn lemma_filter_at_least_none(s: Seq<EventView>)
    ensures
        filter_at_least(s, None) == s,
    decreases s.len(),
{
    if s.len() == 0 {
        assert(filter_at_least(s, None) =~= s);
    } else {
        lemma_filter_at_least_none(s.drop_last());
        assert(filter_at_least(s, None) =~= s);
    }
}

/// Every event a filtered scan keeps meets the bound, and every event that
/// meets the bound is kept: the filtered sequence is the original one with
/// exactly the too-old events removed.
pub proof fn lemma_filter_at_least_events(s: Seq<EventView>, lb: Option<int>)
    ensures
        forall|i: int|
            0 <= i < filter_at_least(s, lb).len() ==> ts_at_least(
                #[trigger] filter_at_least(s, lb)[i],
                lb,
            ),
        forall|i: int|
            0 <= i < s.len() && ts_at_least(#[trigger] s[i], lb) ==> filter_at_least(
                s,
                lb,
            ).contains(s[i]),
    decreases s.len(),
{
    if s.len() > 0 {
        let d = s.drop_last();
        lemma_filter_at_least_events(d, lb);
        let rest = filter_at_least(d, lb);
        assert forall|i: int|
            0 <= i < s.len() && ts_at_least(#[trigger] s[i], lb) implies filter_at_least(
            s,
            lb,
        ).contains(s[i]) by {
            if i < s.len() - 1 {
                assert(d[i] == s[i]);
                assert(rest.contains(d[i]));
                let k = choose|k: int| 0 <= k < rest.len() && rest[k] == d[i];
                if ts_at_least(s.last(), lb) {
                    assert(rest.push(s.last())[k] == rest[k]);
                }
            } else {
                assert(filter_at_least(s, lb).last() == s.last());
            }
        };
    }
}

/// Two lower bounds that agree on every event of a sequence filter it to
/// the same subsequence.
pub proof fn lemma_filter_congruent(s: Seq<EventView>, a: Option<int>, b: Option<int>)
    requires
        forall|i: int| 0 <= i < s.len() ==> (ts_at_least(#[trigger] s[i], a) <==> ts_at_least(
            s[i],
            b,
        )),
    ensures
        filter_at_least(s, a) == filter_at_least(s, b),
    decreases s.len(),
{
    if s.len() > 0 {
        lemma_filter_congruent(s.drop_last(), a, b);
        assert(ts_at_least(s.last(), a) <==> ts_at_least(s.last(), b));
    }
}

/// The round trip of the scan orders: an ascending scan holds exactly the
/// events that meet the bound — with no bound, exactly the inserted events —
/// in non-decreasing timestamp order, and a descending scan is its exact
/// reverse, so the two listings are reverse-ordered sequences of the same
/// events.
pub proof fn lemma_scan_round_trip(s: Seq<EventView>, lb: Option<int>)
    ensures
        scan_spec(s, lb).to_multiset() == filter_at_least(s, lb).to_multiset(),
        lb is None ==> scan_spec(s, lb).to_multiset() == s.to_multiset(),
        lb is None ==> scan_spec(s, lb).len() == s.len(),
        sorted_asc(scan_spec(s, lb)),
        scan_spec(s, lb).reverse().reverse() == scan_spec(s, lb),
{
    lemma_sort_events_multiset(filter_at_least(s, lb));
    lemma_sort_events_sorted(filter_at_least(s, lb));
    if lb is None {
        lemma_filter_at_least_none(s);
    }
    assert(scan_spec(s, lb).reverse().reverse() =~= scan_spec(s, lb));
}

/// A purged store scans to nothing, whatever the bound and order.
pub proof fn lemma_scan_of_empty(lb: Option<int>)
    ensures
        scan_spec(Seq::<EventView>::empty(), lb) == Seq::<EventView>::empty(),
        scan_spec(Seq::<EventView>::empty(), lb).reverse() == Seq::<EventView>::empty(),
{
    assert(scan_spec(Seq::<EventView>::empty(), lb) =~= Seq::<EventView>::empty());
    assert(scan_spec(Seq::<EventView>::empty(), lb).reverse() =~= Seq::<EventView>::empty());
}

/// Keep the events whose timestamps meet the bound, in insertion order.
fn filter_events(events: &Vec<CommandLog>, lower_ms: Option<i64>) -> (r: Vec<CommandLog>)
    ensures
        r.deep_view() == filter_at_least(events.deep_view(), opt_ms_view(lower_ms)),
{
    let ghost dv = events.deep_view();
    let ghost lb = opt_ms_view(lower_ms);
    let mut out: Vec<CommandLog> = Vec::new();
    let mut i: usize = 0;
    proof {
        assert(dv.take(0) =~= Seq::<EventView>::empty());
    }
    while i < events.len()
        invariant
            i <= events.len(),
            dv == events.deep_view(),
            dv.len() == events@.len(),
            lb == opt_ms_view(lower_ms),
            out.deep_view() == filter_at_least(dv.take(i as int), lb),
        decreases events.len() - i,
    {
        let ghost prev_out = out.deep_view();
        let keep = match lower_ms {
            None => true,
            Some(t) => events[i].timestamp_ms >= t,
        };
        proof {
            assert(dv[i as int] == events@[i as int]@);
            assert(keep == ts_at_least(dv[i as int], lb));
        }
        if keep {
            let e = events[i].clone();
            out.push(e);
        }
        proof {
            let cur = dv.take(i + 1);
            assert(cur.drop_last() =~= dv.take(i as int));
            assert(cur.last() == dv[i as int]);
            if keep {
                assert(out.deep_view() =~= prev_out.push(dv[i as int]));
            }
            assert(out.deep_view() == filter_at_least(cur, lb));
        }
        i += 1;
    }
    proof {
        assert(dv.take(dv.len() as int) =~= dv);
    }
    out
}

/// Stable insertion sort of events by timestamp.
pub(crate) fn sort_by_timestamp(events: Vec<CommandLog>) -> (r: Vec<CommandLog>)
    ensures
        r.deep_view() == sort_events(events.deep_view()),
{
    let ghost dv = events.deep_view();
    let mut out: Vec<CommandLog> = Vec::new();
    let mut i: usize = 0;
    proof {
        assert(dv.take(0) =~= Seq::<EventView>::empty());
        assert(sort_events(dv.take(0)) =~= Seq::<EventView>::empty());
    }
    while i < events.len()
        invariant
            i <= events.len(),
            dv == events.deep_view(),
            dv.len() == events@.len(),
            out.deep_view() == sort_events(dv.take(i as int)),
            sorted_asc(out.deep_view()),
        decreases events.len() - i,
    {
        let e = events[i].clone();
        proof {
            assert(dv[i as int] == events@[i as int]@);
        }
        let mut j: usize = out.len();
        while j > 0 && out[j - 1].timestamp_ms > e.timestamp_ms
            invariant
                j <= out.len(),
                out@.len() == out.deep_view().len(),
                forall|k: int|
                    0 <= k < out@.len() ==> (#[trigger] out.deep_view()[k]).timestamp_ms
                        == out@[k].timestamp_ms,
                forall|k: int|
                    j <= k < out@.len() ==> (#[trigger] out.deep_view()[k]).timestamp_ms
                        > e@.timestamp_ms,
            decreases j,
        {
            j -= 1;
        }
        let ghost prev_out = out.deep_view();
        out.insert(j, e);
        proof {
            assert forall|k: int| 0 <= k < j implies (#[trigger] prev_out[k]).timestamp_ms
                <= e@.timestamp_ms by {
                assert(prev_out[j - 1].timestamp_ms <= e@.timestamp_ms);
                assert(prev_out[k].timestamp_ms <= prev_out[j - 1].timestamp_ms);
            };
            lemma_insort_insert_at(prev_out, e@, j as int);
            assert(out.deep_view() =~= prev_out.insert(j as int, e@));
            let cur = dv.take(i + 1);
            assert(cur.drop_last() =~= dv.take(i as int));
            assert(cur.last() == dv[i as int]);
            assert(out.deep_view() == sort_events(cur));
            lemma_insort_sorted(prev_out, e@);
        }
        i += 1;
    }
    proof {
        assert(dv.take(dv.len() as int) =~= dv);
    }
    out
}

/// Reverse the order of a listing.
fn reverse_events(events: Vec<CommandLog>) -> (r: Vec<CommandLog>)
    ensures
        r.deep_view() == events.deep_view().reverse(),
{
    let ghost dv = events.deep_view();
    let n = events.len();
    let mut out: Vec<CommandLog> = Vec::new();
    let mut i: usize = 0;
    while i < n
        invariant
            i <= n,
            n == events@.len(),
            dv == events.deep_view(),
            dv.len() == n,
            out.deep_view().len() == i,
            forall|k: int| 0 <= k < i ==> out.deep_view()[k] == dv[n - 1 - k],
        decreases n - i,
    {
        let ghost prev = out.deep_view();
        let e = events[n - 1 - i].clone();
        out.push(e);
        proof {
            assert(e@ == dv[n - 1 - i]);
            assert(out.deep_view() =~= prev.push(e@));
        }
        i += 1;
    }
    proof {
        assert(out.deep_view() =~= dv.reverse());
    }
    out
}

/// The append-only store of command events.
///
/// Its mathematical value is the sequence of recorded events in insertion
/// order.
pub struct Store {
    events: Vec<CommandLog>,
}

impl View for Store {
    type V = Seq<EventView>;

    closed spec fn view(&self) -> Seq<EventView> {
        self.events.deep_view()
    }
}

/// Relies on uuid::Uuid::new_v4 and the hyphenated rendering of its
/// Display implementation: a freshly generated random identifier, always
/// 36 characters long.  The value is random, so nothing more is promised.
#[verifier::external_body]
fn fresh_event_id() -> (r: String)
    ensures
        r@.len() == 36,
{
    uuid::Uuid::new_v4().to_string()
}

/// Relies on chrono::Local::now for the current wall-clock instant in
/// milliseconds since the Unix epoch.  The value depends on the machine
/// clock, so nothing is promised of it.
#[verifier::external_body]
fn now_epoch_ms() -> (r: i64)
{
    chrono::Local::now().timestamp_millis()
}

impl Store {
    /// An empty store.
    pub fn new() -> (s: Store)
        ensures
            s@ == Seq::<EventView>::empty(),
    {
        let s = Store { events: Vec::new() };
        proof {
            assert(s@ =~= Seq::<EventView>::empty());
        }
        s
    }

    /// A store holding the given events, in the given order.
    pub fn from_events(events: Vec<CommandLog>) -> (s: Store)
        ensures
            s@ == events.deep_view(),
    {
        Store { events }
    }

    /// How many events the store holds.
    pub fn count(&self) -> (n: usize)
        ensures
            n == self@.len(),
    {
        self.events.len()
    }

    /// Borrow the recorded events, in insertion order.
    pub fn events(&self) -> (r: &Vec<CommandLog>)
        ensures
            r.deep_view() == self@,
    {
        &self.events
    }

    /// Append one event.
    pub fn insert(&mut self, e: CommandLog)
        ensures
            final(self)@ == old(self)@.push(e@),
    {
        let ghost prev = self@;
        self.events.push(e);
        proof {
            assert(self@ =~= prev.push(e@));
        }
    }

    /// Capture one invocation: record it with a freshly generated unique
    /// identifier and the current wall-clock timestamp, and return the
    /// recorded event.  Nothing is promised of the identifier beyond its
    /// length, nor of the timestamp, which comes from the machine clock.
    pub fn log_command(
        &mut self,
        command: String,
        cwd: String,
        exit_code: i32,
        duration_ms: u64,
    ) -> (r: CommandLog)
        ensures
            final(self)@ == old(self)@.push(r@),
            r@.command == command@,
            r@.cwd == cwd@,
            r@.exit_code == exit_code as int,
            r@.duration_ms == duration_ms as int,
            r@.id.len() == 36,
    {
        let id = fresh_event_id();
        let ts = now_epoch_ms();
        let e = CommandLog {
            id,
            timestamp_ms: ts,
            cwd,
            command,
            exit_code,
            duration_ms,
        };
        let r = e.clone();
        self.insert(e);
        r
    }

    /// Delete every event.
    pub fn purge_all(&mut self)
        ensures
            final(self)@ == Seq::<EventView>::empty(),
    {
        self.events.clear();
        proof {
            assert(self@ =~= Seq::<EventView>::empty());
        }
    }

    /// Scan the store: keep the events whose timestamp meets the optional
    /// lower bound and order them by timestamp, ascending (events with
    /// equal timestamps stay in insertion order) or exactly reversed.
    pub fn scan(&self, lower_ms: Option<i64>, descending: bool) -> (r: Vec<CommandLog>)
        ensures
            !descending ==> r.deep_view() == scan_spec(self@, opt_ms_view(lower_ms)),
            descending ==> r.deep_view() == scan_spec(self@, opt_ms_view(lower_ms)).reverse(),
    {
        let filtered = filter_events(&self.events, lower_ms);
        let sorted = sort_by_timestamp(filtered);
        if descending {
            reverse_events(sorted)
        } else {
            sorted
        }
    }
}

} // verus!
