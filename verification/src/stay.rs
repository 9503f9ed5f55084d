use vstd::prelude::*;

use crate::types::{StopLabel, NON_STOP};

verus! {

/// `groups` splits `0..n` into consecutive, non-empty, half-open ranges.
pub open spec fn is_partition(n: nat, groups: Seq<(usize, usize)>) -> bool {
    &&& (n == 0 <==> groups.len() == 0)
    &&& groups.len() > 0 ==> groups[0].0 == 0 && groups.last().1 == n
    &&& forall|k: int| 0 <= k < groups.len() ==> (#[trigger] groups[k]).0 < groups[k].1
    &&& forall|k: int| 0 <= k < groups.len() - 1 ==> (#[trigger] groups[k]).1 == groups[k + 1].0
}

/// `groups` are the maximal runs of `joins`: a point starts a new group
/// exactly when it does not join the group of the point before it (the flag
/// of the first point is not read).
pub open spec fn groups_of(joins: Seq<bool>, groups: Seq<(usize, usize)>) -> bool {
    &&& is_partition(joins.len(), groups)
    &&& forall|k: int| 0 < k < groups.len() ==> !joins[(#[trigger] groups[k]).0 as int]
    &&& forall|k: int, i: int|
        0 <= k < groups.len() && (#[trigger] groups[k]).0 < i < groups[k].1 ==> #[trigger] joins[i]
}

/// A group becomes a stay when it has at least `min_size` points and its
/// duration check passed.
pub open spec fn accepted(
    groups: Seq<(usize, usize)>,
    min_size: usize,
    duration_ok: Seq<bool>,
    k: int,
) -> bool {
    groups[k].1 - groups[k].0 >= min_size && duration_ok[k]
}

/// Number of accepted groups among the first `k` groups.
pub open spec fn stays_before(
    groups: Seq<(usize, usize)>,
    min_size: usize,
    duration_ok: Seq<bool>,
    k: int,
) -> nat
    decreases k,
{
    if k <= 0 {
        0
    } else {
        stays_before(groups, min_size, duration_ok, k - 1) + if accepted(
            groups,
            min_size,
            duration_ok,
            k - 1,
        ) {
            1nat
        } else {
            0nat
        }
    }
}

/// Split a trajectory of `joins.len()` points into groups: point `i > 0`
/// stays in the running group when `joins[i]` holds and opens a new one
/// otherwise.
pub fn stay_groups(joins: &Vec<bool>) -> (groups: Vec<(usize, usize)>)
    ensures
        groups_of(joins@, groups@),
{
    let n = joins.len();
    let mut groups: Vec<(usize, usize)> = Vec::new();
    if n == 0 {
        return groups;
    }
    let mut start: usize = 0;
    let mut i: usize = 1;
    while i < n
        invariant
            n == joins@.len(),
            1 <= i <= n,
            start < i,
            groups@.len() == 0 ==> start == 0,
            groups@.len() > 0 ==> groups@[0].0 == 0 && groups@.last().1 == start,
            start > 0 ==> !joins@[start as int],
            forall|k: int| 0 <= k < groups@.len() ==> (#[trigger] groups@[k]).0 < groups@[k].1,
            forall|k: int|
                0 <= k < groups@.len() - 1 ==> (#[trigger] groups@[k]).1 == groups@[k + 1].0,
            forall|k: int| 0 < k < groups@.len() ==> !joins@[(#[trigger] groups@[k]).0 as int],
            forall|k: int, t: int|
                0 <= k < groups@.len() && (#[trigger] groups@[k]).0 < t < groups@[k].1
                    ==> #[trigger] joins@[t],
            forall|t: int| start < t < i ==> #[trigger] joins@[t],
        decreases n - i,
    {
        if !joins[i] {
            groups.push((start, i));
            start = i;
        }
        i += 1;
    }
    groups.push((start, n));
    groups
}

/// The label the points of group `k` receive: its stay index when the
/// group is accepted, `NON_STOP` otherwise.
pub open spec fn group_label(
    groups: Seq<(usize, usize)>,
    min_size: usize,
    duration_ok: Seq<bool>,
    k: int,
) -> int {
    if accepted(groups, min_size, duration_ok, k) {
        stays_before(groups, min_size, duration_ok, k) as int
    } else {
        NON_STOP as int
    }
}

/// Every point of group `k` carries `group_label(.., k)` in `event_map`.
pub open spec fn group_labeled(
    event_map: Seq<StopLabel>,
    groups: Seq<(usize, usize)>,
    min_size: usize,
    duration_ok: Seq<bool>,
    k: int,
) -> bool {
    forall|i: int|
        groups[k].0 <= i < groups[k].1 ==> #[trigger] event_map[i] == group_label(
            groups,
            min_size,
            duration_ok,
            k,
        )
}

/// The stay count only grows, by one for each accepted group.
pub proof fn lemma_stays_before_grows(
    groups: Seq<(usize, usize)>,
    min_size: usize,
    duration_ok: Seq<bool>,
    q: int,
    k: int,
)
    requires
        0 <= q < k,
    ensures
        stays_before(groups, min_size, duration_ok, q) + (if accepted(
            groups,
            min_size,
            duration_ok,
            q,
        ) {
            1int
        } else {
            0int
        }) <= stays_before(groups, min_size, duration_ok, k),
        stays_before(groups, min_size, duration_ok, k) <= k,
    decreases k - q,
{
    if q + 1 < k {
        lemma_stays_before_grows(groups, min_size, duration_ok, q + 1, k);
    }
    lemma_stays_before_bounded(groups, min_size, duration_ok, k);
}

/// At most one stay per group.
pub proof fn lemma_stays_before_bounded(
    groups: Seq<(usize, usize)>,
    min_size: usize,
    duration_ok: Seq<bool>,
    k: int,
)
    requires
        0 <= k,
    ensures
        stays_before(groups, min_size, duration_ok, k) <= k,
    decreases k,
{
    if k > 0 {
        lemma_stays_before_bounded(groups, min_size, duration_ok, k - 1);
    }
}

/// Label every point with the index of its stay (stays numbered in order of
/// appearance), or `NON_STOP` when its group was rejected. Also returns the
/// point range of each stay, in stay order.
pub fn label_stays(
    n: usize,
    groups: &Vec<(usize, usize)>,
    min_size: usize,
    duration_ok: &Vec<bool>,
) -> (r: (Vec<StopLabel>, Vec<(usize, usize)>))
    requires
        is_partition(n as nat, groups@),
        duration_ok@.len() == groups@.len(),
        groups@.len() <= i32::MAX,
    ensures
        r.0@.len() == n,
        r.1@.len() == stays_before(groups@, min_size, duration_ok@, groups@.len() as int),
        forall|k: int|
            0 <= k < groups@.len() ==> #[trigger] group_labeled(
                r.0@,
                groups@,
                min_size,
                duration_ok@,
                k,
            ),
        forall|k: int|
            0 <= k < groups@.len() && #[trigger] accepted(groups@, min_size, duration_ok@, k)
                ==> stays_before(groups@, min_size, duration_ok@, k) < r.1@.len() && r.1@[stays_before(
                groups@,
                min_size,
                duration_ok@,
                k,
            ) as int] == groups@[k],
        forall|k: int, i: int|
            0 <= k < groups@.len() && (#[trigger] groups@[k]).0 <= i < groups@[k].1 ==> {
                &&& (#[trigger] r.0@[i] >= 0 <==> (groups@[k].1 - groups@[k].0 >= min_size
                    && duration_ok@[k]))
                &&& (r.0@[i] < 0 ==> r.0@[i] == NON_STOP)
                &&& (r.0@[i] >= 0 ==> r.0@[i] < r.1@.len() && r.1@[r.0@[i] as int] == groups@[k])
            },
        forall|k1: int, i: int, k2: int, j: int|
            #![trigger groups@[k1], groups@[k2], r.0@[i], r.0@[j]]
            0 <= k1 < k2 < groups@.len() && groups@[k1].0 <= i < groups@[k1].1 && groups@[k2].0
                <= j < groups@[k2].1 && r.0@[i] >= 0 && r.0@[j] >= 0
                ==> r.0@[i] < r.0@[j],
        forall|j: int|
            0 <= j < r.1@.len() ==> (#[trigger] r.1@[j]).0 < n && r.0@[r.1@[j].0 as int] == j,
{
    let mut event_map: Vec<StopLabel> = Vec::new();
    let mut stays: Vec<(usize, usize)> = Vec::new();
    let mut stay_idx: i32 = 0;
    let mut k: usize = 0;
    while k < groups.len()
        invariant
            is_partition(n as nat, groups@),
            duration_ok@.len() == groups@.len(),
            groups@.len() <= i32::MAX,
            k <= groups@.len(),
            stay_idx == stays_before(groups@, min_size, duration_ok@, k as int),
            stays@.len() == stay_idx,
            k < groups@.len() ==> event_map@.len() == groups@[k as int].0,
            k == groups@.len() ==> event_map@.len() == n,
            forall|q: int|
                0 <= q < k ==> #[trigger] group_labeled(
                    event_map@,
                    groups@,
                    min_size,
                    duration_ok@,
                    q,
                ),
            forall|q: int|
                0 <= q < k && #[trigger] accepted(groups@, min_size, duration_ok@, q) ==> stays_before(
                    groups@,
                    min_size,
                    duration_ok@,
                    q,
                ) < stays@.len() && stays@[stays_before(groups@, min_size, duration_ok@, q) as int]
                    == groups@[q],
        decreases groups@.len() - k,
    {
        proof {
            lemma_stays_before_bounded(groups@, min_size, duration_ok@, k as int);
        }
        let (s, e) = groups[k];
        let accept = e - s >= min_size && duration_ok[k];
        let label: StopLabel = if accept {
            stay_idx
        } else {
            NON_STOP
        };
        assert(label == group_label(groups@, min_size, duration_ok@, k as int));
        let ghost before = event_map@;
        let mut i = s;
        while i < e
            invariant
                s <= i <= e,
                event_map@.len() == i,
                event_map@.subrange(0, s as int) == before,
                forall|t: int| s <= t < i ==> #[trigger] event_map@[t] == label,
            decreases e - i,
        {
            event_map.push(label);
            i += 1;
        }
        proof {
            assert forall|q: int| 0 <= q <= k implies #[trigger] group_labeled(
                event_map@,
                groups@,
                min_size,
                duration_ok@,
                q,
            ) by {
                if q < k {
                    lemma_partition_ordered(n as nat, groups@, q, k as int);
                    assert forall|t: int| groups@[q].0 <= t < groups@[q].1 implies #[trigger] event_map@[t]
                        == group_label(groups@, min_size, duration_ok@, q) by {
                        assert(event_map@[t] == event_map@.subrange(0, s as int)[t]);
                        assert(group_labeled(before, groups@, min_size, duration_ok@, q));
                    }
                }
            }
            if k + 1 < groups@.len() {
                assert(groups@[k as int].1 == groups@[k + 1].0);
            }
        }
        let ghost stays_prev = stays@;
        if accept {
            stays.push((s, e));
            stay_idx = stay_idx + 1;
        }
        proof {
            assert forall|q: int|
                0 <= q <= k && #[trigger] accepted(groups@, min_size, duration_ok@, q) implies stays_before(
                groups@,
                min_size,
                duration_ok@,
                q,
            ) < stays@.len() && stays@[stays_before(groups@, min_size, duration_ok@, q) as int]
                == groups@[q] by {
                if q < k {
                    assert(stays_prev[stays_before(groups@, min_size, duration_ok@, q) as int]
                        == groups@[q]);
                }
            }
        }
        k += 1;
    }
    let r = (event_map, stays);
    proof {
        assert(stays_labeled(n as nat, r.0@, r.1@, groups@, min_size, duration_ok@));
        law_stay_labels_accepted(n as nat, r.0@, r.1@, groups@, min_size, duration_ok@);
        law_stay_labels_increase(n as nat, r.0@, r.1@, groups@, min_size, duration_ok@);
        law_stay_indices_used(n as nat, r.0@, r.1@, groups@, min_size, duration_ok@);
    }
    r
}

/// In a partition, every earlier group ends no later than a later one starts.
pub proof fn lemma_partition_ordered(n: nat, groups: Seq<(usize, usize)>, q: int, k: int)
    requires
        is_partition(n, groups),
        0 <= q < k < groups.len(),
    ensures
        groups[q].1 <= groups[k].0,
    decreases k - q,
{
    if q + 1 < k {
        lemma_partition_ordered(n, groups, q + 1, k);
        assert(groups[q].1 == groups[q + 1].0);
    } else {
        assert(groups[q].1 == groups[q + 1].0);
    }
}

/// Stay labels identify stays: a point carries a stop index only when its
/// group was accepted (so it has at least `min_size` points), and two
/// labeled points share the index exactly when they lie in the same group.
pub proof fn law_stay_labels_identify_groups(
    event_map: Seq<StopLabel>,
    groups: Seq<(usize, usize)>,
    min_size: usize,
    duration_ok: Seq<bool>,
    k1: int,
    i: int,
    k2: int,
    j: int,
)
    requires
        forall|k: int|
            0 <= k < groups.len() ==> #[trigger] group_labeled(
                event_map,
                groups,
                min_size,
                duration_ok,
                k,
            ),
        0 <= k1 < groups.len(),
        0 <= k2 < groups.len(),
        groups[k1].0 <= i < groups[k1].1,
        groups[k2].0 <= j < groups[k2].1,
        event_map[i] >= 0,
    ensures
        groups[k1].1 - groups[k1].0 >= min_size,
        duration_ok[k1],
        event_map[i] == event_map[j] <==> k1 == k2,
{
    assert(group_labeled(event_map, groups, min_size, duration_ok, k1));
    assert(group_labeled(event_map, groups, min_size, duration_ok, k2));
    if k1 < k2 {
        lemma_stays_before_grows(groups, min_size, duration_ok, k1, k2);
    } else if k2 < k1 {
        lemma_stays_before_grows(groups, min_size, duration_ok, k2, k1);
    }
}

/// Every stay index below the stay count belongs to some accepted group.
pub proof fn lemma_stays_onto(
    groups: Seq<(usize, usize)>,
    min_size: usize,
    duration_ok: Seq<bool>,
    m: int,
    j: int,
)
    requires
        0 <= j < stays_before(groups, min_size, duration_ok, m),
    ensures
        exists|k: int|
            0 <= k < m && accepted(groups, min_size, duration_ok, k) && #[trigger] stays_before(
                groups,
                min_size,
                duration_ok,
                k,
            ) == j,
    decreases m,
{
    if m > 0 {
        if j < stays_before(groups, min_size, duration_ok, m - 1) {
            lemma_stays_onto(groups, min_size, duration_ok, m - 1, j);
        } else {
            assert(stays_before(groups, min_size, duration_ok, m - 1) == j);
        }
    }
}

/// `event_map` and `stays` are what `label_stays` computes for `groups`.
pub open spec fn stays_labeled(
    n: nat,
    event_map: Seq<StopLabel>,
    stays: Seq<(usize, usize)>,
    groups: Seq<(usize, usize)>,
    min_size: usize,
    duration_ok: Seq<bool>,
) -> bool {
    &&& is_partition(n, groups)
    &&& duration_ok.len() == groups.len()
    &&& event_map.len() == n
    &&& stays.len() == stays_before(groups, min_size, duration_ok, groups.len() as int)
    &&& forall|k: int|
        0 <= k < groups.len() ==> #[trigger] group_labeled(
            event_map,
            groups,
            min_size,
            duration_ok,
            k,
        )
    &&& forall|k: int|
        0 <= k < groups.len() && #[trigger] accepted(groups, min_size, duration_ok, k)
            ==> stays_before(groups, min_size, duration_ok, k) < stays.len() && stays[stays_before(
            groups,
            min_size,
            duration_ok,
            k,
        ) as int] == groups[k]
}

/// A point is labeled (`>= 0`) exactly when its group has at least
/// `min_size` points and passed the duration check; otherwise it is
/// `NON_STOP`. A label names the stay whose range is its group.
pub proof fn law_stay_labels_accepted(
    n: nat,
    event_map: Seq<StopLabel>,
    stays: Seq<(usize, usize)>,
    groups: Seq<(usize, usize)>,
    min_size: usize,
    duration_ok: Seq<bool>,
)
    requires
        stays_labeled(n, event_map, stays, groups, min_size, duration_ok),
    ensures
        forall|k: int, i: int|
            0 <= k < groups.len() && (#[trigger] groups[k]).0 <= i < groups[k].1 ==> {
                &&& (#[trigger] event_map[i] >= 0 <==> (groups[k].1 - groups[k].0 >= min_size
                    && duration_ok[k]))
                &&& (event_map[i] < 0 ==> event_map[i] == NON_STOP)
                &&& (event_map[i] >= 0 ==> event_map[i] < stays.len() && stays[event_map[i] as int]
                    == groups[k])
            },
{
    assert forall|k: int, i: int|
        0 <= k < groups.len() && (#[trigger] groups[k]).0 <= i < groups[k].1 implies {
            &&& (#[trigger] event_map[i] >= 0 <==> (groups[k].1 - groups[k].0 >= min_size
                && duration_ok[k]))
            &&& (event_map[i] < 0 ==> event_map[i] == NON_STOP)
            &&& (event_map[i] >= 0 ==> event_map[i] < stays.len() && stays[event_map[i] as int]
                == groups[k])
        } by {
        assert(group_labeled(event_map, groups, min_size, duration_ok, k));
        if accepted(groups, min_size, duration_ok, k) {
            lemma_stays_before_bounded(groups, min_size, duration_ok, k);
        }
    }
}

/// Stays are numbered in trajectory order: a labeled point of an earlier
/// group has a smaller label than a labeled point of a later group.
pub proof fn law_stay_labels_increase(
    n: nat,
    event_map: Seq<StopLabel>,
    stays: Seq<(usize, usize)>,
    groups: Seq<(usize, usize)>,
    min_size: usize,
    duration_ok: Seq<bool>,
)
    requires
        stays_labeled(n, event_map, stays, groups, min_size, duration_ok),
    ensures
        forall|k1: int, i: int, k2: int, j: int|
            #![trigger groups[k1], groups[k2], event_map[i], event_map[j]]
            0 <= k1 < k2 < groups.len() && groups[k1].0 <= i < groups[k1].1 && groups[k2].0 <= j
                < groups[k2].1 && event_map[i] >= 0 && event_map[j] >= 0 ==> event_map[i]
                < event_map[j],
{
    assert forall|k1: int, i: int, k2: int, j: int|
        #![trigger groups[k1], groups[k2], event_map[i], event_map[j]]
        0 <= k1 < k2 < groups.len() && groups[k1].0 <= i < groups[k1].1 && groups[k2].0 <= j
            < groups[k2].1 && event_map[i] >= 0 && event_map[j] >= 0 implies event_map[i]
        < event_map[j] by {
        assert(group_labeled(event_map, groups, min_size, duration_ok, k1));
        assert(group_labeled(event_map, groups, min_size, duration_ok, k2));
        lemma_stays_before_grows(groups, min_size, duration_ok, k1, k2);
    }
}

/// Stay indices are consecutive from 0: each index below the number of
/// stays labels the first point of some accepted group.
pub proof fn law_stay_indices_used(
    n: nat,
    event_map: Seq<StopLabel>,
    stays: Seq<(usize, usize)>,
    groups: Seq<(usize, usize)>,
    min_size: usize,
    duration_ok: Seq<bool>,
)
    requires
        stays_labeled(n, event_map, stays, groups, min_size, duration_ok),
    ensures
        forall|j: int|
            0 <= j < stays.len() ==> (#[trigger] stays[j]).0 < event_map.len() && event_map[stays[j].0 as int]
                == j,
{
    assert forall|j: int| 0 <= j < stays.len() implies (#[trigger] stays[j]).0 < event_map.len()
        && event_map[stays[j].0 as int] == j by {
        lemma_index_used(n, event_map, stays, groups, min_size, duration_ok, j);
    }
}

/// The `j`-th stay starts at a point labeled `j`.
proof fn lemma_index_used(
    n: nat,
    event_map: Seq<StopLabel>,
    stays: Seq<(usize, usize)>,
    groups: Seq<(usize, usize)>,
    min_size: usize,
    duration_ok: Seq<bool>,
    j: int,
)
    requires
        stays_labeled(n, event_map, stays, groups, min_size, duration_ok),
        0 <= j < stays.len(),
    ensures
        stays[j].0 < event_map.len(),
        event_map[stays[j].0 as int] == j,
{
    lemma_stays_onto(groups, min_size, duration_ok, groups.len() as int, j);
    let k = choose|k: int|
        0 <= k < groups.len() && accepted(groups, min_size, duration_ok, k)
            && #[trigger] stays_before(groups, min_size, duration_ok, k) == j;
    assert(stays[j] == groups[k]);
    assert(group_labeled(event_map, groups, min_size, duration_ok, k));
    assert(groups[k].0 < groups[k].1);
    lemma_group_in_range(n, groups, k);
    assert(event_map[groups[k].0 as int] == j);
}

/// Every group lies inside `0..n`.
proof fn lemma_group_in_range(n: nat, groups: Seq<(usize, usize)>, k: int)
    requires
        is_partition(n, groups),
        0 <= k < groups.len(),
    ensures
        groups[k].1 <= n,
{
    if k < groups.len() - 1 {
        lemma_partition_ordered(n, groups, k, groups.len() - 1);
    }
}

} // verus!
