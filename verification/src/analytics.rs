//! The analytics engine: turns the flat event log into windowed digests,
//! top-N rankings, per-folder rollups, global statistics, folder summaries
//! and substring search results.
//!
//! Every report except the raw listing and the folder summary excludes
//! self-invocations — events whose command text, after left-trimming, is
//! the tool's own name or starts with it followed by whitespace.

use vstd::prelude::*;

use crate::event::CommandLog;
use crate::event::EventView;
use crate::store::Store;
use crate::store::filter_at_least;
use crate::store::lemma_filter_congruent;
use crate::store::lemma_sort_events_multiset;
use crate::store::sort_by_timestamp;
use crate::store::sort_events;
use crate::store::ts_at_least;
use crate::text::contains_seq;
use crate::text::is_self_invocation;
use crate::text::is_self_invocation_spec;
use crate::text::str_contains;
use crate::text::str_eq;

verus! {

broadcast use vstd::multiset::group_multiset_axioms;

/// Whether an event counts towards usage analytics.
pub open spec fn included(e: EventView) -> bool {
    !is_self_invocation_spec(e.command)
}

/// The subsequence of events that count towards usage analytics, in their
/// original order.
pub open spec fn included_events(s: Seq<EventView>) -> Seq<EventView>
    decreases s.len(),
{
    if s.len() == 0 {
        Seq::empty()
    } else {
        let rest = included_events(s.drop_last());
        if included(s.last()) {
            rest.push(s.last())
        } else {
            rest
        }
    }
}

/// The grouping key of an event: its working directory or its full
/// command text.
pub open spec fn key_of(e: EventView, by_cwd: bool) -> Seq<char> {
    if by_cwd {
        e.cwd
    } else {
        e.command
    }
}

/// The distinct grouping keys of a sequence of events, in first-encounter
/// order.
pub open spec fn group_keys(s: Seq<EventView>, by_cwd: bool) -> Seq<Seq<char>>
    decreases s.len(),
{
    if s.len() == 0 {
        Seq::empty()
    } else {
        let ks = group_keys(s.drop_last(), by_cwd);
        if ks.contains(key_of(s.last(), by_cwd)) {
            ks
        } else {
            ks.push(key_of(s.last(), by_cwd))
        }
    }
}

/// How many events carry the given grouping key.
pub open spec fn count_with_key(s: Seq<EventView>, key: Seq<char>, by_cwd: bool) -> int
    decreases s.len(),
{
    if s.len() == 0 {
        0
    } else {
        count_with_key(s.drop_last(), key, by_cwd) + if key_of(s.last(), by_cwd) == key {
            1int
        } else {
            0int
        }
    }
}

/// The summed duration, in milliseconds, of the events that carry the
/// given grouping key.
pub open spec fn sum_with_key(s: Seq<EventView>, key: Seq<char>, by_cwd: bool) -> int
    decreases s.len(),
{
    if s.len() == 0 {
        0
    } else {
        sum_with_key(s.drop_last(), key, by_cwd) + if key_of(s.last(), by_cwd) == key {
            s.last().duration_ms
        } else {
            0int
        }
    }
}

/// The mathematical value of a [`GroupStat`].
pub ghost struct GroupView {
    pub key: Seq<char>,
    pub count: int,
    pub total_ms: int,
}

/// One group of a rollup: a key with its occurrence count and summed
/// duration.
pub struct GroupStat {
    /// The grouping key: a working directory or a command text.
    pub key: String,
    /// How many events carry the key.
    pub count: usize,
    /// Their summed duration, in milliseconds.
    pub total_ms: u128,
}

impl View for GroupStat {
    type V = GroupView;

    open spec fn view(&self) -> GroupView {
        GroupView { key: self.key@, count: self.count as int, total_ms: self.total_ms as int }
    }
}

impl DeepView for GroupStat {
    type V = GroupView;

    open spec fn deep_view(&self) -> GroupView {
        self.view()
    }
}

impl Clone for GroupStat {
    fn clone(&self) -> (r: Self)
        ensures
            r@ == self@,
    {
        GroupStat { key: self.key.clone(), count: self.count, total_ms: self.total_ms }
    }
}

/// The per-key rollup of a sequence of events: one group per distinct key,
/// in first-encounter order, with its count and summed duration.
pub open spec fn groups_of(s: Seq<EventView>, by_cwd: bool) -> Seq<GroupView> {
    Seq::new(
        group_keys(s, by_cwd).len(),
        |i: int|
            GroupView {
                key: group_keys(s, by_cwd)[i],
                count: count_with_key(s, group_keys(s, by_cwd)[i], by_cwd),
                total_ms: sum_with_key(s, group_keys(s, by_cwd)[i], by_cwd),
            },
    )
}

/// Appending one event either leaves the key list unchanged (key already
/// seen) or appends the new key; it bumps the count and sum of exactly
/// that key.
proof fn lemma_group_step(s: Seq<EventView>, e: EventView, by_cwd: bool, key: Seq<char>)
    ensures
        group_keys(s.push(e), by_cwd) == (if group_keys(s, by_cwd).contains(key_of(e, by_cwd)) {
            group_keys(s, by_cwd)
        } else {
            group_keys(s, by_cwd).push(key_of(e, by_cwd))
        }),
        count_with_key(s.push(e), key, by_cwd) == count_with_key(s, key, by_cwd) + (if key_of(
            e,
            by_cwd,
        ) == key {
            1int
        } else {
            0int
        }),
        sum_with_key(s.push(e), key, by_cwd) == sum_with_key(s, key, by_cwd) + (if key_of(
            e,
            by_cwd,
        ) == key {
            e.duration_ms
        } else {
            0int
        }),
{
    assert(s.push(e).drop_last() =~= s);
    assert(s.push(e).last() == e);
}

/// The distinct keys really are distinct.
proof fn lemma_group_keys_no_dup(s: Seq<EventView>, by_cwd: bool)
    ensures
        group_keys(s, by_cwd).no_duplicates(),
    decreases s.len(),
{
    if s.len() > 0 {
        lemma_group_keys_no_dup(s.drop_last(), by_cwd);
    }
}

/// A key that never occurs has zero count and zero summed duration.
proof fn lemma_absent_key(s: Seq<EventView>, key: Seq<char>, by_cwd: bool)
    requires
        !group_keys(s, by_cwd).contains(key),
    ensures
        count_with_key(s, key, by_cwd) == 0,
        sum_with_key(s, key, by_cwd) == 0,
    decreases s.len(),
{
    if s.len() > 0 {
        let d = s.drop_last();
        let ks = group_keys(d, by_cwd);
        assert forall|j: int| 0 <= j < ks.len() implies ks[j] != key by {
            if ks.contains(key_of(s.last(), by_cwd)) {
                assert(group_keys(s, by_cwd)[j] == ks[j]);
            } else {
                assert(group_keys(s, by_cwd)[j] == ks[j]);
            }
        };
        lemma_absent_key(d, key, by_cwd);
        assert(key_of(s.last(), by_cwd) != key) by {
            let ks2 = group_keys(s, by_cwd);
            if ks.contains(key_of(s.last(), by_cwd)) {
                let j = choose|j: int| 0 <= j < ks.len() && ks[j] == key_of(s.last(), by_cwd);
                assert(ks2[j] == ks[j]);
            } else {
                assert(ks2.last() == key_of(s.last(), by_cwd));
            }
        };
    }
}

/// A key's count never exceeds the number of events.
proof fn lemma_count_bound(s: Seq<EventView>, key: Seq<char>, by_cwd: bool)
    ensures
        0 <= count_with_key(s, key, by_cwd) <= s.len(),
    decreases s.len(),
{
    if s.len() > 0 {
        lemma_count_bound(s.drop_last(), key, by_cwd);
    }
}

/// When every duration is a 64-bit value, a key's summed duration is
/// bounded by the number of events times the largest 64-bit value.
proof fn lemma_sum_bound(s: Seq<EventView>, key: Seq<char>, by_cwd: bool)
    requires
        forall|j: int| 0 <= j < s.len() ==> 0 <= (#[trigger] s[j]).duration_ms <= u64::MAX as int,
    ensures
        0 <= sum_with_key(s, key, by_cwd) <= s.len() * (u64::MAX as int),
    decreases s.len(),
{
    if s.len() > 0 {
        lemma_sum_bound(s.drop_last(), key, by_cwd);
    }
}

/// Find the group holding the given key, if any.
fn find_key(groups: &Vec<GroupStat>, key: &str) -> (r: Option<usize>)
    ensures
        r matches Some(k) ==> k < groups.len() && groups.deep_view()[k as int].key == key@,
        r is None ==> forall|j: int|
            0 <= j < groups.len() ==> (#[trigger] groups.deep_view()[j]).key != key@,
{
    let mut k: usize = 0;
    while k < groups.len()
        invariant
            k <= groups.len(),
            forall|j: int| 0 <= j < k ==> (#[trigger] groups.deep_view()[j]).key != key@,
        decreases groups.len() - k,
    {
        if str_eq(groups[k].key.as_str(), key) {
            proof {
                assert(groups.deep_view()[k as int].key == groups@[k as int].key@);
            }
            return Some(k);
        }
        proof {
            assert(groups.deep_view()[k as int].key == groups@[k as int].key@);
        }
        k += 1;
    }
    None
}

/// Roll events up by key: one group per distinct key in first-encounter
/// order, with its occurrence count and summed duration.
pub fn group_events(events: &Vec<CommandLog>, by_cwd: bool) -> (r: Vec<GroupStat>)
    ensures
        r.deep_view() == groups_of(events.deep_view(), by_cwd),
{
    let ghost dv = events.deep_view();
    let mut out: Vec<GroupStat> = Vec::new();
    let mut i: usize = 0;
    proof {
        assert(dv.take(0) =~= Seq::<EventView>::empty());
        assert(out.deep_view() =~= groups_of(dv.take(0), by_cwd));
    }
    while i < events.len()
        invariant
            i <= events.len(),
            dv == events.deep_view(),
            dv.len() == events@.len(),
            forall|j: int| 0 <= j < dv.len() ==> 0 <= (#[trigger] dv[j]).duration_ms <= u64::MAX,
            out.deep_view() == groups_of(dv.take(i as int), by_cwd),
        decreases events.len() - i,
    {
        let ghost prefix = dv.take(i as int);
        let ghost c = key_of(dv[i as int], by_cwd);
        let key_ref: &String = if by_cwd {
            &events[i].cwd
        } else {
            &events[i].command
        };
        proof {
            assert(dv[i as int] == events@[i as int]@);
            assert(key_ref@ == c);
            assert(dv.take(i + 1).drop_last() =~= prefix);
            assert(dv.take(i + 1).last() == dv[i as int]);
            assert(dv.take(i + 1) =~= prefix.push(dv[i as int]));
            lemma_group_keys_no_dup(prefix, by_cwd);
        }
        let d = events[i].duration_ms;
        let found = find_key(&out, key_ref.as_str());
        match found {
            Some(k) => {
                let ghost prev_groups = out.deep_view();
                proof {
                    let ks = group_keys(prefix, by_cwd);
                    assert(prev_groups == groups_of(prefix, by_cwd));
                    assert(groups_of(prefix, by_cwd).len() == ks.len());
                    assert(prev_groups.len() == out@.len());
                    assert(k < out@.len());
                    assert(k < ks.len());
                    assert(prev_groups[k as int].key == key_ref@);
                    assert(prev_groups[k as int] == groups_of(prefix, by_cwd)[k as int]);
                    assert(groups_of(prefix, by_cwd)[k as int].key == ks[k as int]);
                    assert(ks.contains(c)) by {
                        assert(ks[k as int] == c);
                    }
                    lemma_count_bound(prefix, c, by_cwd);
                    lemma_sum_bound(prefix, c, by_cwd);
                    assert(prev_groups[k as int] == out@[k as int]@);
                    assert(prev_groups[k as int].count <= i);
                    assert(prev_groups[k as int].total_ms <= i * (u64::MAX as int));
                    assert((i + 1) * (u64::MAX as int) < u128::MAX) by {
                        assert(i + 1 <= 0xffff_ffff_ffff_ffff);
                        assert((i + 1) * (u64::MAX as int) <= 0xffff_ffff_ffff_ffff * (
                        u64::MAX as int)) by (nonlinear_arith)
                            requires
                                i + 1 <= 0xffff_ffff_ffff_ffff,
                        ;
                    }
                }
                let new_key = out[k].key.clone();
                let new_count = out[k].count + 1;
                let new_total = out[k].total_ms + (d as u128);
                let g2 = GroupStat { key: new_key, count: new_count, total_ms: new_total };
                proof {
                    assert(g2@.key == c);
                }
                out[k] = g2;
                proof {
                    let ks = group_keys(prefix, by_cwd);
                    lemma_group_step(prefix, dv[i as int], by_cwd, c);
                    assert(group_keys(prefix.push(dv[i as int]), by_cwd) == ks);
                    assert forall|j: int|
                        0 <= j < ks.len() implies #[trigger] groups_of(
                        dv.take(i + 1),
                        by_cwd,
                    )[j] == (if j == k {
                        g2@
                    } else {
                        groups_of(prefix, by_cwd)[j]
                    }) by {
                        lemma_group_step(prefix, dv[i as int], by_cwd, ks[j]);
                        if j != k {
                            lemma_group_keys_no_dup(prefix, by_cwd);
                            assert(ks[j] != c);
                        }
                    };
                    assert(out.deep_view() =~= groups_of(dv.take(i + 1), by_cwd));
                }
            },
            None => {
                proof {
                    let ks = group_keys(prefix, by_cwd);
                    assert(!ks.contains(c)) by {
                        if ks.contains(c) {
                            let j = choose|j: int| 0 <= j < ks.len() && ks[j] == c;
                            assert(ks.len() == groups_of(prefix, by_cwd).len());
                            assert(out.deep_view() == groups_of(prefix, by_cwd));
                            assert(j < out@.len());
                            assert(out.deep_view()[j] == groups_of(prefix, by_cwd)[j]);
                            assert(groups_of(prefix, by_cwd)[j].key == ks[j]);
                            assert(out.deep_view()[j].key == c);
                        }
                    }
                    lemma_absent_key(prefix, c, by_cwd);
                    lemma_group_step(prefix, dv[i as int], by_cwd, c);
                }
                let ghost prev_groups = out.deep_view();
                let g = GroupStat { key: key_ref.clone(), count: 1, total_ms: d as u128 };
                out.push(g);
                proof {
                    let ks = group_keys(prefix, by_cwd);
                    assert(out.deep_view() =~= prev_groups.push(g@));
                    assert(group_keys(dv.take(i + 1), by_cwd) == ks.push(c));
                    assert forall|j: int|
                        0 <= j < ks.len() implies #[trigger] groups_of(
                        dv.take(i + 1),
                        by_cwd,
                    )[j] == groups_of(prefix, by_cwd)[j] by {
                        lemma_group_step(prefix, dv[i as int], by_cwd, ks[j]);
                        assert(ks[j] != c) by {
                            if ks[j] == c {
                                assert(ks.contains(c));
                            }
                        }
                        assert(ks.push(c)[j] == ks[j]);
                    };
                    assert(groups_of(dv.take(i + 1), by_cwd)[ks.len() as int] == g@);
                    assert(out.deep_view() =~= groups_of(dv.take(i + 1), by_cwd));
                }
            },
        }
        i += 1;
    }
    proof {
        assert(dv.take(dv.len() as int) =~= dv);
    }
    out
}

/// The ranking weight of a group: its occurrence count or its summed
/// duration.
pub open spec fn weight(g: GroupView, by_count: bool) -> int {
    if by_count {
        g.count
    } else {
        g.total_ms
    }
}

/// Groups ordered by non-increasing weight.
pub open spec fn sorted_desc(s: Seq<GroupView>, by_count: bool) -> bool {
    forall|i: int, j: int|
        0 <= i < j < s.len() ==> weight(s[i], by_count) >= weight(s[j], by_count)
}

/// Insert one group into a weight-sorted sequence, after every group whose
/// weight is at least its own: a stable insertion.
pub open spec fn insort_group(s: Seq<GroupView>, g: GroupView, by_count: bool) -> Seq<GroupView>
    decreases s.len(),
{
    if s.len() == 0 {
        seq![g]
    } else if weight(s.last(), by_count) >= weight(g, by_count) {
        s.push(g)
    } else {
        insort_group(s.drop_last(), g, by_count).push(s.last())
    }
}

/// Stable insertion sort of groups by descending weight.
pub open spec fn sort_groups_spec(s: Seq<GroupView>, by_count: bool) -> Seq<GroupView>
    decreases s.len(),
{
    if s.len() == 0 {
        Seq::empty()
    } else {
        insort_group(sort_groups_spec(s.drop_last(), by_count), s.last(), by_count)
    }
}

/// When the prefix of a sorted sequence has weights at least `g`'s and the
/// suffix strictly smaller ones, the stable insertion is exactly an
/// insertion at the boundary.
proof fn lemma_insort_group_insert_at(s: Seq<GroupView>, g: GroupView, by_count: bool, j: int)
    requires
        sorted_desc(s, by_count),
        0 <= j <= s.len(),
        forall|k: int| 0 <= k < j ==> weight(#[trigger] s[k], by_count) >= weight(g, by_count),
        forall|k: int| j <= k < s.len() ==> weight(#[trigger] s[k], by_count) < weight(g, by_count),
    ensures
        insort_group(s, g, by_count) == s.insert(j, g),
    decreases s.len(),
{
    if j == s.len() {
        if s.len() == 0 {
            assert(insort_group(s, g, by_count) =~= s.insert(0, g));
        } else {
            assert(s.push(g) =~= s.insert(j, g));
        }
    } else {
        assert(weight(s.last(), by_count) < weight(g, by_count));
        let d = s.drop_last();
        assert(sorted_desc(d, by_count));
        lemma_insort_group_insert_at(d, g, by_count, j);
        assert(d.insert(j, g).push(s.last()) =~= s.insert(j, g));
    }
}

/// A stable insertion adds exactly the inserted group to the contents.
proof fn lemma_insort_group_multiset(s: Seq<GroupView>, g: GroupView, by_count: bool)
    ensures
        insort_group(s, g, by_count).to_multiset() == s.to_multiset().insert(g),
        insort_group(s, g, by_count).len() == s.len() + 1,
    decreases s.len(),
{
    s.to_multiset_ensures();
    if s.len() == 0 {
        assert(seq![g] =~= Seq::<GroupView>::empty().push(g));
        Seq::<GroupView>::empty().to_multiset_ensures();
    } else if weight(s.last(), by_count) >= weight(g, by_count) {
    } else {
        let d = s.drop_last();
        lemma_insort_group_multiset(d, g, by_count);
        insort_group(d, g, by_count).to_multiset_ensures();
        d.to_multiset_ensures();
        assert(d.push(s.last()) =~= s);
        assert(insort_group(s, g, by_count).to_multiset() =~= s.to_multiset().insert(g));
    }
}

/// A stable insertion into a sorted sequence leaves it sorted.
proof fn lemma_insort_group_sorted(s: Seq<GroupView>, g: GroupView, by_count: bool)
    requires
        sorted_desc(s, by_count),
    ensures
        sorted_desc(insort_group(s, g, by_count), by_count),
    decreases s.len(),
{
    if s.len() == 0 {
    } else if weight(s.last(), by_count) >= weight(g, by_count) {
        let r = s.push(g);
        assert forall|i: int, j: int| 0 <= i < j < r.len() implies weight(r[i], by_count) >= weight(
            r[j],
            by_count,
        ) by {
            if j < s.len() {
            } else {
                if i < s.len() - 1 {
                    assert(weight(s[i], by_count) >= weight(s.last(), by_count));
                }
            }
        };
    } else {
        let d = s.drop_last();
        assert(sorted_desc(d, by_count));
        lemma_insort_group_sorted(d, g, by_count);
        let t = insort_group(d, g, by_count);
        assert forall|i: int| 0 <= i < t.len() implies weight(t[i], by_count) >= weight(
            s.last(),
            by_count,
        ) by {
            assert(t.contains(t[i]));
            t.to_multiset_ensures();
            lemma_insort_group_multiset(d, g, by_count);
            d.to_multiset_ensures();
            if t[i] != g {
                assert(t.to_multiset().count(t[i]) > 0);
                assert(t.to_multiset() == d.to_multiset().insert(g));
                assert(d.to_multiset().insert(g).count(t[i]) == d.to_multiset().count(t[i]));
                assert(d.contains(t[i]));
                let k = choose|k: int| 0 <= k < d.len() && d[k] == t[i];
                if k < s.len() - 1 {
                    assert(weight(s[k], by_count) >= weight(s.last(), by_count));
                }
            }
        };
        let r = t.push(s.last());
        assert forall|i: int, j: int| 0 <= i < j < r.len() implies weight(r[i], by_count) >= weight(
            r[j],
            by_count,
        ) by {
            if j < t.len() {
            } else {
                assert(r[i] == t[i]);
            }
        };
    }
}

/// Ranking keeps exactly the given groups: same contents, same count, in
/// non-increasing weight order.
pub proof fn lemma_sort_groups_ensures(s: Seq<GroupView>, by_count: bool)
    ensures
        sort_groups_spec(s, by_count).to_multiset() == s.to_multiset(),
        sort_groups_spec(s, by_count).len() == s.len(),
        sorted_desc(sort_groups_spec(s, by_count), by_count),
    decreases s.len(),
{
    s.to_multiset_ensures();
    if s.len() == 0 {
        assert(sort_groups_spec(s, by_count) =~= s);
    } else {
        let d = s.drop_last();
        lemma_sort_groups_ensures(d, by_count);
        lemma_insort_group_multiset(sort_groups_spec(d, by_count), s.last(), by_count);
        lemma_insort_group_sorted(sort_groups_spec(d, by_count), s.last(), by_count);
        d.to_multiset_ensures();
        assert(d.push(s.last()) =~= s);
        assert(sort_groups_spec(s, by_count).to_multiset() =~= s.to_multiset());
    }
}

/// The ranking weight of a group, as a 128-bit value.
fn weight_of(g: &GroupStat, by_count: bool) -> (w: u128)
    ensures
        w as int == weight(g@, by_count),
{
    if by_count {
        g.count as u128
    } else {
        g.total_ms
    }
}

/// Stable insertion sort of groups by descending weight.
pub fn sort_groups(groups: Vec<GroupStat>, by_count: bool) -> (r: Vec<GroupStat>)
    ensures
        r.deep_view() == sort_groups_spec(groups.deep_view(), by_count),
{
    let ghost dv = groups.deep_view();
    let mut out: Vec<GroupStat> = Vec::new();
    let mut i: usize = 0;
    proof {
        assert(dv.take(0) =~= Seq::<GroupView>::empty());
        assert(sort_groups_spec(dv.take(0), by_count) =~= Seq::<GroupView>::empty());
    }
    while i < groups.len()
        invariant
            i <= groups.len(),
            dv == groups.deep_view(),
            dv.len() == groups@.len(),
            out.deep_view() == sort_groups_spec(dv.take(i as int), by_count),
            sorted_desc(out.deep_view(), by_count),
        decreases groups.len() - i,
    {
        let g = groups[i].clone();
        proof {
            assert(dv[i as int] == groups@[i as int]@);
        }
        let w: u128 = weight_of(&g, by_count);
        let mut j: usize = out.len();
        while j > 0 && weight_of(&out[j - 1], by_count) < w
            invariant
                j <= out.len(),
                out@.len() == out.deep_view().len(),
                forall|k: int|
                    0 <= k < out@.len() ==> #[trigger] out.deep_view()[k] == out@[k]@,
                forall|k: int|
                    j <= k < out@.len() ==> weight(#[trigger] out.deep_view()[k], by_count)
                        < w as int,
            decreases j,
        {
            j -= 1;
        }
        let ghost prev_out = out.deep_view();
        out.insert(j, g);
        proof {
            assert forall|k: int| 0 <= k < j implies weight(#[trigger] prev_out[k], by_count)
                >= w as int by {
                assert(weight(prev_out[j - 1], by_count) >= w as int);
                assert(weight(prev_out[k], by_count) >= weight(prev_out[j - 1], by_count));
            };
            lemma_insort_group_insert_at(prev_out, g@, by_count, j as int);
            assert(out.deep_view() =~= prev_out.insert(j as int, g@));
            let cur = dv.take(i + 1);
            assert(cur.drop_last() =~= dv.take(i as int));
            assert(cur.last() == dv[i as int]);
            assert(out.deep_view() == sort_groups_spec(cur, by_count));
            lemma_insort_group_sorted(prev_out, g@, by_count);
        }
        i += 1;
    }
    proof {
        assert(dv.take(dv.len() as int) =~= dv);
    }
    out
}

/// Keep the first `n` groups of a ranking — or all of them, if there are
/// fewer than `n`.
pub fn take_up_to(groups: Vec<GroupStat>, n: usize) -> (r: Vec<GroupStat>)
    ensures
        r.deep_view() == groups.deep_view().take(
            if n <= groups.deep_view().len() {
                n as int
            } else {
                groups.deep_view().len() as int
            },
        ),
{
    let ghost dv = groups.deep_view();
    let mut v = groups;
    if n < v.len() {
        v.truncate(n);
        proof {
            assert(v.deep_view() =~= dv.take(n as int));
        }
    } else {
        proof {
            assert(v.deep_view() =~= dv.take(dv.len() as int));
        }
    }
    v
}

/// Keep the events that count towards usage analytics, in their original
/// order.
pub fn exclude_self(events: &Vec<CommandLog>) -> (r: Vec<CommandLog>)
    ensures
        r.deep_view() == included_events(events.deep_view()),
{
    let ghost dv = events.deep_view();
    let mut out: Vec<CommandLog> = Vec::new();
    let mut i: usize = 0;
    proof {
        assert(dv.take(0) =~= Seq::<EventView>::empty());
    }
    while i < events.len()
        invariant
            i <= events.len(),
            dv == events.deep_view(),
            dv.len() == events@.len(),
            out.deep_view() == included_events(dv.take(i as int)),
        decreases events.len() - i,
    {
        let ghost prev_out = out.deep_view();
        proof {
            assert(dv[i as int] == events@[i as int]@);
        }
        let keep = !is_self_invocation(events[i].command.as_str());
        if keep {
            let e = events[i].clone();
            out.push(e);
        }
        proof {
            let cur = dv.take(i + 1);
            assert(cur.drop_last() =~= dv.take(i as int));
            assert(cur.last() == dv[i as int]);
            if keep {
                assert(out.deep_view() =~= prev_out.push(dv[i as int]));
            }
            assert(out.deep_view() == included_events(cur));
        }
        i += 1;
    }
    proof {
        assert(dv.take(dv.len() as int) =~= dv);
    }
    out
}

/// The summed duration of a sequence of events, in milliseconds.
pub open spec fn sum_dur(s: Seq<EventView>) -> int
    decreases s.len(),
{
    if s.len() == 0 {
        0
    } else {
        sum_dur(s.drop_last()) + s.last().duration_ms
    }
}

/// The smallest timestamp of a non-empty sequence of events.
pub open spec fn min_ts(s: Seq<EventView>) -> int
    decreases s.len(),
{
    if s.len() <= 1 {
        if s.len() == 1 {
            s[0].timestamp_ms
        } else {
            0
        }
    } else {
        let m = min_ts(s.drop_last());
        if s.last().timestamp_ms < m {
            s.last().timestamp_ms
        } else {
            m
        }
    }
}

/// The largest timestamp of a non-empty sequence of events.
pub open spec fn max_ts(s: Seq<EventView>) -> int
    decreases s.len(),
{
    if s.len() <= 1 {
        if s.len() == 1 {
            s[0].timestamp_ms
        } else {
            0
        }
    } else {
        let m = max_ts(s.drop_last());
        if s.last().timestamp_ms > m {
            s.last().timestamp_ms
        } else {
            m
        }
    }
}

/// The shortest duration of a non-empty sequence of events.
pub open spec fn min_dur(s: Seq<EventView>) -> int
    decreases s.len(),
{
    if s.len() <= 1 {
        if s.len() == 1 {
            s[0].duration_ms
        } else {
            0
        }
    } else {
        let m = min_dur(s.drop_last());
        if s.last().duration_ms < m {
            s.last().duration_ms
        } else {
            m
        }
    }
}

/// The longest duration of a non-empty sequence of events.
pub open spec fn max_dur(s: Seq<EventView>) -> int
    decreases s.len(),
{
    if s.len() <= 1 {
        if s.len() == 1 {
            s[0].duration_ms
        } else {
            0
        }
    } else {
        let m = max_dur(s.drop_last());
        if s.last().duration_ms > m {
            s.last().duration_ms
        } else {
            m
        }
    }
}

/// When every timestamp of a non-empty sequence lies in a range, so do its
/// extremes, and the smallest is at most the largest.
proof fn lemma_ts_range(s: Seq<EventView>, lo: int, hi: int)
    requires
        s.len() > 0,
        forall|i: int| 0 <= i < s.len() ==> lo <= (#[trigger] s[i]).timestamp_ms <= hi,
    ensures
        lo <= min_ts(s) <= hi,
        lo <= max_ts(s) <= hi,
        min_ts(s) <= max_ts(s),
    decreases s.len(),
{
    if s.len() > 1 {
        lemma_ts_range(s.drop_last(), lo, hi);
    }
}

/// The subsequence of events whose command text contains the pattern and
/// which count towards analytics, in their original order.
pub open spec fn search_matches(s: Seq<EventView>, pat: Seq<char>) -> Seq<EventView>
    decreases s.len(),
{
    if s.len() == 0 {
        Seq::empty()
    } else {
        let rest = search_matches(s.drop_last(), pat);
        if contains_seq(s.last().command, pat) && included(s.last()) {
            rest.push(s.last())
        } else {
            rest
        }
    }
}

/// What a search returns: the matching, non-self events in ascending
/// timestamp order.
pub open spec fn search_spec(s: Seq<EventView>, pat: Seq<char>) -> Seq<EventView> {
    sort_events(search_matches(s, pat))
}

/// The subsequence of events whose working directory contains the folder
/// pattern — self-invocations included, as the folder summary is
/// deliberately inclusive.
pub open spec fn folder_matches(s: Seq<EventView>, folder: Seq<char>) -> Seq<EventView>
    decreases s.len(),
{
    if s.len() == 0 {
        Seq::empty()
    } else {
        let rest = folder_matches(s.drop_last(), folder);
        if contains_seq(s.last().cwd, folder) {
            rest.push(s.last())
        } else {
            rest
        }
    }
}

/// The first `n` groups of a ranking, or all of them if there are fewer.
pub open spec fn take_first(s: Seq<GroupView>, n: int) -> Seq<GroupView> {
    s.take(
        if n <= s.len() {
            n
        } else {
            s.len() as int
        },
    )
}

/// What the top-N commands report returns: commands grouped by exact text,
/// ranked by descending occurrence count, the `n` highest kept.
pub open spec fn top_commands_spec(s: Seq<EventView>, n: int) -> Seq<GroupView> {
    take_first(sort_groups_spec(groups_of(included_events(s), false), true), n)
}

/// What the projects report returns: every working directory with its
/// count and summed duration, ordered by descending count.
pub open spec fn projects_spec(s: Seq<EventView>) -> Seq<GroupView> {
    sort_groups_spec(groups_of(included_events(s), true), true)
}

/// The events a windowed digest is computed from: those within the
/// trailing window, in ascending timestamp order, self-invocations
/// excluded.
pub open spec fn window_events(s: Seq<EventView>, now_ms: int, window_ms: int) -> Seq<EventView> {
    included_events(sort_events(filter_at_least(s, Some(now_ms - window_ms))))
}

/// How long the terminal was in use over a listing: the time between the
/// earliest and latest event, in whole seconds; reported only when at
/// least two events were seen.
pub open spec fn uptime_spec(s: Seq<EventView>) -> Option<int> {
    if s.len() >= 2 {
        Some((max_ts(s) - min_ts(s)) / 1000)
    } else {
        None
    }
}

/// The folder summary: how many events matched and their summed duration.
pub struct FolderSummary {
    pub count: usize,
    pub total_ms: u128,
}

/// Global statistics over the whole store, self-invocations excluded.
/// The extremes are absent exactly when no event counts.
pub struct StoreStats {
    pub count: usize,
    pub total_ms: u128,
    pub min_ms: Option<u64>,
    pub max_ms: Option<u64>,
}

/// A windowed digest: the totals, the uptime estimate, and the top three
/// folders by summed duration and commands by occurrence count.
pub struct Digest {
    pub total_commands: usize,
    pub total_ms: u128,
    pub uptime_seconds: Option<i64>,
    pub top_folders: Vec<GroupStat>,
    pub top_commands: Vec<GroupStat>,
}

/// Running aggregates of a listing; the extremes are meaningful only when
/// the listing is non-empty.
struct Aggregates {
    total_ms: u128,
    min_ms: u64,
    max_ms: u64,
    first_ms: i64,
    last_ms: i64,
}

/// Fold a listing into its duration total and extremes.
fn aggregate(events: &Vec<CommandLog>) -> (a: Aggregates)
    ensures
        a.total_ms == sum_dur(events.deep_view()),
        events.deep_view().len() > 0 ==> a.min_ms as int == min_dur(events.deep_view())
            && a.max_ms as int == max_dur(events.deep_view()) && a.first_ms as int == min_ts(
            events.deep_view(),
        ) && a.last_ms as int == max_ts(events.deep_view()),
{
    let ghost dv = events.deep_view();
    let mut total: u128 = 0;
    let mut min_v: u64 = 0;
    let mut max_v: u64 = 0;
    let mut first: i64 = 0;
    let mut last: i64 = 0;
    let mut i: usize = 0;
    proof {
        assert(dv.take(0) =~= Seq::<EventView>::empty());
    }
    while i < events.len()
        invariant
            i <= events.len(),
            dv == events.deep_view(),
            dv.len() == events@.len(),
            forall|j: int| 0 <= j < dv.len() ==> 0 <= (#[trigger] dv[j]).duration_ms <= u64::MAX,
            total == sum_dur(dv.take(i as int)),
            total <= i * (u64::MAX as int),
            i > 0 ==> min_v as int == min_dur(dv.take(i as int)),
            i > 0 ==> max_v as int == max_dur(dv.take(i as int)),
            i > 0 ==> first as int == min_ts(dv.take(i as int)),
            i > 0 ==> last as int == max_ts(dv.take(i as int)),
        decreases events.len() - i,
    {
        let d = events[i].duration_ms;
        let t = events[i].timestamp_ms;
        proof {
            assert(dv[i as int] == events@[i as int]@);
            let cur = dv.take(i + 1);
            assert(cur.drop_last() =~= dv.take(i as int));
            assert(cur.last() == dv[i as int]);
            assert(i + 1 <= 0xffff_ffff_ffff_ffffu64);
            assert((i + 1) * (u64::MAX as int) <= 0xffff_ffff_ffff_ffff * (u64::MAX as int))
                by (nonlinear_arith)
                requires
                    i + 1 <= 0xffff_ffff_ffff_ffff,
            ;
        }
        total = total + (d as u128);
        if i == 0 {
            min_v = d;
            max_v = d;
            first = t;
            last = t;
        } else {
            if d < min_v {
                min_v = d;
            }
            if d > max_v {
                max_v = d;
            }
            if t < first {
                first = t;
            }
            if t > last {
                last = t;
            }
        }
        i += 1;
    }
    proof {
        assert(dv.take(dv.len() as int) =~= dv);
    }
    Aggregates { total_ms: total, min_ms: min_v, max_ms: max_v, first_ms: first, last_ms: last }
}

/// Search keeps exactly the matching events: everything a search returns
/// contains the pattern in its command text and is no self-invocation, and
/// every stored event with both properties appears in the result.
pub proof fn lemma_search_exact(s: Seq<EventView>, pat: Seq<char>)
    ensures
        forall|i: int|
            0 <= i < search_spec(s, pat).len() ==> contains_seq(
                (#[trigger] search_spec(s, pat)[i]).command,
                pat,
            ) && !is_self_invocation_spec(search_spec(s, pat)[i].command),
        forall|i: int|
            0 <= i < s.len() && contains_seq((#[trigger] s[i]).command, pat)
                && !is_self_invocation_spec(s[i].command) ==> search_spec(s, pat).contains(s[i]),
{
    let m = search_matches(s, pat);
    let r = search_spec(s, pat);
    lemma_search_matches_events(s, pat);
    lemma_sort_events_multiset(m);
    m.to_multiset_ensures();
    r.to_multiset_ensures();
    assert forall|i: int|
        0 <= i < r.len() implies contains_seq((#[trigger] r[i]).command, pat)
        && !is_self_invocation_spec(r[i].command) by {
        assert(r.contains(r[i]));
        assert(r.to_multiset().count(r[i]) > 0);
        assert(m.to_multiset().count(r[i]) > 0);
        assert(m.contains(r[i]));
        let k = choose|k: int| 0 <= k < m.len() && m[k] == r[i];
    };
    assert forall|i: int|
        0 <= i < s.len() && contains_seq((#[trigger] s[i]).command, pat)
            && !is_self_invocation_spec(s[i].command) implies r.contains(s[i]) by {
        assert(m.contains(s[i]));
        assert(m.to_multiset().count(s[i]) > 0);
        assert(r.to_multiset().count(s[i]) > 0);
    };
}

/// Each event a search match list holds matches; each matching event is
/// held.
proof fn lemma_search_matches_events(s: Seq<EventView>, pat: Seq<char>)
    ensures
        forall|i: int|
            0 <= i < search_matches(s, pat).len() ==> contains_seq(
                (#[trigger] search_matches(s, pat)[i]).command,
                pat,
            ) && !is_self_invocation_spec(search_matches(s, pat)[i].command),
        forall|i: int|
            0 <= i < s.len() && contains_seq((#[trigger] s[i]).command, pat)
                && !is_self_invocation_spec(s[i].command) ==> search_matches(s, pat).contains(s[i]),
    decreases s.len(),
{
    if s.len() > 0 {
        let d = s.drop_last();
        lemma_search_matches_events(d, pat);
        let rest = search_matches(d, pat);
        assert forall|i: int|
            0 <= i < s.len() && contains_seq((#[trigger] s[i]).command, pat)
                && !is_self_invocation_spec(s[i].command) implies search_matches(
            s,
            pat,
        ).contains(s[i]) by {
            if i < s.len() - 1 {
                assert(d[i] == s[i]);
                assert(rest.contains(d[i]));
                let k = choose|k: int| 0 <= k < rest.len() && rest[k] == d[i];
                if contains_seq(s.last().command, pat) && included(s.last()) {
                    assert(rest.push(s.last())[k] == rest[k]);
                }
            } else {
                assert(search_matches(s, pat).last() == s.last());
            }
        };
    }
}

/// The ranking floor and ceiling: asking for nothing returns nothing;
/// asking for at least as many groups as exist returns the whole ranking,
/// fully ordered, without padding; and the result always holds exactly the
/// smaller of `n` and the number of distinct commands, in non-increasing
/// count order.
pub proof fn lemma_top_commands_bounds(s: Seq<EventView>, n: int)
    requires
        n >= 0,
    ensures
        n == 0 ==> top_commands_spec(s, n) == Seq::<GroupView>::empty(),
        n >= groups_of(included_events(s), false).len() ==> top_commands_spec(s, n)
            == sort_groups_spec(groups_of(included_events(s), false), true),
        top_commands_spec(s, n).len() == (if n <= groups_of(included_events(s), false).len() {
            n
        } else {
            groups_of(included_events(s), false).len() as int
        }),
        sorted_desc(top_commands_spec(s, n), true),
{
    let groups = groups_of(included_events(s), false);
    let ranked = sort_groups_spec(groups, true);
    lemma_sort_groups_ensures(groups, true);
    if n == 0 {
        assert(take_first(ranked, 0) =~= Seq::<GroupView>::empty());
    }
    if n >= groups.len() {
        assert(take_first(ranked, n) =~= ranked);
    }
    assert forall|i: int, j: int|
        0 <= i < j < top_commands_spec(s, n).len() implies weight(
        top_commands_spec(s, n)[i],
        true,
    ) >= weight(top_commands_spec(s, n)[j], true) by {
        assert(top_commands_spec(s, n)[i] == ranked[i]);
        assert(top_commands_spec(s, n)[j] == ranked[j]);
    };
}

/// Purging leaves nothing for any report: no events, no groups, zero
/// totals.
pub proof fn lemma_empty_store_reports()
    ensures
        included_events(Seq::<EventView>::empty()) == Seq::<EventView>::empty(),
        sum_dur(Seq::<EventView>::empty()) == 0,
        groups_of(Seq::<EventView>::empty(), true) == Seq::<GroupView>::empty(),
        groups_of(Seq::<EventView>::empty(), false) == Seq::<GroupView>::empty(),
        projects_spec(Seq::<EventView>::empty()) == Seq::<GroupView>::empty(),
        forall|n: int|
            n >= 0 ==> #[trigger] top_commands_spec(Seq::<EventView>::empty(), n)
                == Seq::<GroupView>::empty(),
        forall|pat: Seq<char>| #[trigger] search_spec(Seq::<EventView>::empty(), pat)
            == Seq::<EventView>::empty(),
{
    let e = Seq::<EventView>::empty();
    assert(included_events(e) =~= e);
    assert(groups_of(e, true) =~= Seq::<GroupView>::empty());
    assert(groups_of(e, false) =~= Seq::<GroupView>::empty());
    assert(projects_spec(e) =~= Seq::<GroupView>::empty());
    assert forall|n: int| n >= 0 implies #[trigger] top_commands_spec(e, n)
        == Seq::<GroupView>::empty() by {
        assert(take_first(sort_groups_spec(groups_of(included_events(e), false), true), n)
            =~= Seq::<GroupView>::empty());
    };
    assert forall|pat: Seq<char>| #[trigger] search_spec(e, pat) == Seq::<EventView>::empty() by {
        assert(search_matches(e, pat) =~= e);
        assert(sort_events(search_matches(e, pat)) =~= e);
    };
}

impl Store {
    /// The top `n` commands by occurrence count, self-invocations
    /// excluded, grouped by exact command text, ranked by descending
    /// count with ties in first-encounter order.  Asking for zero returns
    /// an empty ranking; asking for more than there are distinct commands
    /// returns them all, without padding.
    pub fn top_commands(&self, n: usize) -> (r: Vec<GroupStat>)
        ensures
            r.deep_view() == top_commands_spec(self@, n as int),
            r.len() == (if n as int <= groups_of(included_events(self@), false).len() {
                n as int
            } else {
                groups_of(included_events(self@), false).len() as int
            }),
    {
        let base = exclude_self(self.events());
        let groups = group_events(&base, false);
        let ranked = sort_groups(groups, true);
        let r = take_up_to(ranked, n);
        proof {
            let gs = groups_of(included_events(self@), false);
            lemma_sort_groups_ensures(gs, true);
            assert(ranked.deep_view().len() == gs.len());
            assert(r@.len() == r.deep_view().len());
        }
        r
    }

    /// Every project folder with its event count and summed duration,
    /// self-invocations excluded, ordered by descending count with ties
    /// in first-encounter order.
    pub fn projects(&self) -> (r: Vec<GroupStat>)
        ensures
            r.deep_view() == projects_spec(self@),
    {
        let base = exclude_self(self.events());
        let groups = group_events(&base, true);
        sort_groups(groups, true)
    }

    /// Every event whose command text contains the pattern — literally and
    /// case-sensitively — excluding self-invocations, in ascending
    /// timestamp order.
    pub fn search(&self, pattern: &str) -> (r: Vec<CommandLog>)
        ensures
            r.deep_view() == search_spec(self@, pattern@),
    {
        let ghost dv = self@;
        let events = self.events();
        let mut matches: Vec<CommandLog> = Vec::new();
        let mut i: usize = 0;
        proof {
            assert(dv.take(0) =~= Seq::<EventView>::empty());
        }
        while i < events.len()
            invariant
                i <= events.len(),
                dv == events.deep_view(),
                dv.len() == events@.len(),
                matches.deep_view() == search_matches(dv.take(i as int), pattern@),
            decreases events.len() - i,
        {
            let ghost prev = matches.deep_view();
            proof {
                assert(dv[i as int] == events@[i as int]@);
            }
            let keep = str_contains(events[i].command.as_str(), pattern) && !is_self_invocation(
                events[i].command.as_str(),
            );
            if keep {
                let e = events[i].clone();
                matches.push(e);
            }
            proof {
                let cur = dv.take(i + 1);
                assert(cur.drop_last() =~= dv.take(i as int));
                assert(cur.last() == dv[i as int]);
                if keep {
                    assert(matches.deep_view() =~= prev.push(dv[i as int]));
                }
                assert(matches.deep_view() == search_matches(cur, pattern@));
            }
            i += 1;
        }
        proof {
            assert(dv.take(dv.len() as int) =~= dv);
        }
        sort_by_timestamp(matches)
    }

    /// The folder summary: how many events ran in a directory containing
    /// the pattern, and their summed duration.  Self-invocations count —
    /// this report is deliberately inclusive.  Returns nothing when no
    /// event matches, so an unmatched folder is distinguishable from a
    /// matched folder whose commands took no time.
    pub fn summary(&self, folder: &str) -> (r: Option<FolderSummary>)
        ensures
            r is Some <==> folder_matches(self@, folder@).len() > 0,
            r matches Some(fs) ==> fs.count == folder_matches(self@, folder@).len()
                && fs.total_ms == sum_dur(folder_matches(self@, folder@)),
    {
        let ghost dv = self@;
        let events = self.events();
        let mut count: usize = 0;
        let mut total: u128 = 0;
        let mut i: usize = 0;
        proof {
            assert(dv.take(0) =~= Seq::<EventView>::empty());
        }
        while i < events.len()
            invariant
                i <= events.len(),
                dv == events.deep_view(),
                dv.len() == events@.len(),
                forall|j: int|
                    0 <= j < dv.len() ==> 0 <= (#[trigger] dv[j]).duration_ms <= u64::MAX,
                count == folder_matches(dv.take(i as int), folder@).len(),
                count <= i,
                total == sum_dur(folder_matches(dv.take(i as int), folder@)),
                total <= i * (u64::MAX as int),
            decreases events.len() - i,
        {
            proof {
                assert(dv[i as int] == events@[i as int]@);
                let cur = dv.take(i + 1);
                assert(cur.drop_last() =~= dv.take(i as int));
                assert(cur.last() == dv[i as int]);
                assert(i + 1 <= 0xffff_ffff_ffff_ffffu64);
                assert((i + 1) * (u64::MAX as int) <= 0xffff_ffff_ffff_ffff * (u64::MAX as int))
                    by (nonlinear_arith)
                    requires
                        i + 1 <= 0xffff_ffff_ffff_ffff,
                ;
            }
            if str_contains(events[i].cwd.as_str(), folder) {
                let ghost fm = folder_matches(dv.take(i as int), folder@);
                proof {
                    assert(sum_dur(fm.push(dv[i as int])) == sum_dur(fm) + dv[
                        i as int
                    ].duration_ms) by {
                        assert(fm.push(dv[i as int]).drop_last() =~= fm);
                    }
                }
                count = count + 1;
                total = total + (events[i].duration_ms as u128);
            }
            i += 1;
        }
        proof {
            assert(dv.take(dv.len() as int) =~= dv);
        }
        if count == 0 {
            None
        } else {
            Some(FolderSummary { count, total_ms: total })
        }
    }

    /// Global statistics: how many events count towards analytics, their
    /// summed duration, and the shortest and longest single durations —
    /// the extremes absent exactly when nothing counts, so an empty store
    /// reports empty aggregates rather than an error.
    pub fn stats(&self) -> (r: StoreStats)
        ensures
            r.count == included_events(self@).len(),
            r.total_ms == sum_dur(included_events(self@)),
            r.min_ms is Some <==> included_events(self@).len() > 0,
            r.max_ms is Some <==> included_events(self@).len() > 0,
            r.min_ms matches Some(m) ==> m as int == min_dur(included_events(self@)),
            r.max_ms matches Some(m) ==> m as int == max_dur(included_events(self@)),
    {
        let base = exclude_self(self.events());
        let agg = aggregate(&base);
        if base.len() == 0 {
            StoreStats { count: 0, total_ms: agg.total_ms, min_ms: None, max_ms: None }
        } else {
            StoreStats {
                count: base.len(),
                total_ms: agg.total_ms,
                min_ms: Some(agg.min_ms),
                max_ms: Some(agg.max_ms),
            }
        }
    }

    /// The windowed digest: over the events of the trailing window in
    /// ascending timestamp order, self-invocations excluded — the event
    /// count, the summed duration, the uptime estimate (latest minus
    /// earliest timestamp, in whole seconds, absent unless at least two
    /// events were seen), the top three folders by summed duration and
    /// the top three commands by occurrence count, ties in
    /// first-encounter order.  An event exactly at the window boundary is
    /// included.
    pub fn digest(&self, now_ms: i64, window_ms: i64) -> (d: Digest)
        requires
            window_ms >= 0,
        ensures
            d.total_commands == window_events(self@, now_ms as int, window_ms as int).len(),
            d.total_ms == sum_dur(window_events(self@, now_ms as int, window_ms as int)),
            d.uptime_seconds is Some <==> window_events(
                self@,
                now_ms as int,
                window_ms as int,
            ).len() >= 2,
            d.uptime_seconds matches Some(u) ==> u as int == (max_ts(
                window_events(self@, now_ms as int, window_ms as int),
            ) - min_ts(window_events(self@, now_ms as int, window_ms as int))) / 1000,
            d.top_folders.deep_view() == take_first(
                sort_groups_spec(
                    groups_of(window_events(self@, now_ms as int, window_ms as int), true),
                    false,
                ),
                3,
            ),
            d.top_commands.deep_view() == take_first(
                sort_groups_spec(
                    groups_of(window_events(self@, now_ms as int, window_ms as int), false),
                    true,
                ),
                3,
            ),
    {
        let ghost w = window_events(self@, now_ms as int, window_ms as int);
        let c = now_ms as i128 - window_ms as i128;
        let cutoff: i64 = if c < i64::MIN as i128 {
            i64::MIN
        } else {
            c as i64
        };
        let ev = self.events();
        proof {
            assert forall|j: int| 0 <= j < self@.len() implies (ts_at_least(
                #[trigger] self@[j],
                Some(cutoff as int),
            ) <==> ts_at_least(self@[j], Some(now_ms as int - window_ms as int))) by {
                assert(self@[j] == ev@[j]@);
                assert(i64::MIN <= self@[j].timestamp_ms);
            };
            lemma_filter_congruent(
                self@,
                Some(cutoff as int),
                Some(now_ms as int - window_ms as int),
            );
        }
        let scanned = self.scan(Some(cutoff), false);
        let win = exclude_self(&scanned);
        proof {
            assert(win.deep_view() == w);
        }
        let agg = aggregate(&win);
        let folder_groups = group_events(&win, true);
        let folder_ranked = sort_groups(folder_groups, false);
        let top_folders = take_up_to(folder_ranked, 3);
        let cmd_groups = group_events(&win, false);
        let cmd_ranked = sort_groups(cmd_groups, true);
        let top_commands = take_up_to(cmd_ranked, 3);
        let uptime_seconds: Option<i64> = if win.len() >= 2 {
            proof {
                assert forall|j: int| 0 <= j < w.len() implies i64::MIN <= (
                #[trigger] w[j]).timestamp_ms <= i64::MAX by {
                    assert(w[j] == win@[j]@);
                };
                lemma_ts_range(w, i64::MIN as int, i64::MAX as int);
            }
            let diff: i128 = agg.last_ms as i128 - agg.first_ms as i128;
            proof {
                assert(diff == max_ts(w) - min_ts(w));
                assert(diff >= 0);
                assert(diff <= u64::MAX as i128);
            }
            let u: u128 = (diff as u128) / 1000;
            proof {
                assert(diff as u128 == max_ts(w) - min_ts(w));
                assert(u <= u64::MAX as u128 / 1000);
                assert(u as int == (max_ts(w) - min_ts(w)) / 1000);
            }
            Some((u as i64))
        } else {
            None
        };
        Digest {
            total_commands: win.len(),
            total_ms: agg.total_ms,
            uptime_seconds,
            top_folders,
            top_commands,
        }
    }
}

} // verus!
