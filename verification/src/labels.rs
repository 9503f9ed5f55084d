use vstd::prelude::*;

use crate::types::{StopLabel, NON_STOP};

verus! {

/// Total of the first `t` stay counts: where trajectory `t`'s stays begin
/// in the sequence of all stays.
pub open spec fn stays_offset(stay_counts: Seq<usize>, t: int) -> int
    decreases t,
{
    if t <= 0 {
        0
    } else {
        stays_offset(stay_counts, t - 1) + stay_counts[t - 1]
    }
}

/// Label of a point whose stay event is `e` in trajectory `t`: `NON_STOP`
/// for a point outside any stay (and for the one-past-the-end event), else
/// the label of the unique position that the stay's median was merged into.
pub open spec fn point_label(
    inverse: Seq<usize>,
    unique_labels: Seq<StopLabel>,
    stay_counts: Seq<usize>,
    t: int,
    e: StopLabel,
) -> StopLabel {
    if e < 0 || e == stay_counts[t] {
        NON_STOP
    } else {
        unique_labels[inverse[stays_offset(stay_counts, t) + e] as int]
    }
}

/// Trajectory event maps as nested sequences.
pub open spec fn maps_view(t: Seq<Vec<StopLabel>>) -> Seq<Seq<StopLabel>> {
    t.map_values(|r: Vec<StopLabel>| r@)
}

/// The stay offsets grow with the trajectory index.
pub proof fn lemma_offset_grows(stay_counts: Seq<usize>, a: int, b: int)
    requires
        0 <= a <= b <= stay_counts.len(),
    ensures
        stays_offset(stay_counts, a) <= stays_offset(stay_counts, b),
        0 <= stays_offset(stay_counts, a),
    decreases b - a,
{
    if a < b {
        lemma_offset_grows(stay_counts, a, b - 1);
    } else if a > 0 {
        lemma_offset_nonneg(stay_counts, a);
    }
}

/// Stay offsets are never negative.
pub proof fn lemma_offset_nonneg(stay_counts: Seq<usize>, a: int)
    ensures
        0 <= stays_offset(stay_counts, a),
    decreases a,
{
    if a > 0 {
        lemma_offset_nonneg(stay_counts, a - 1);
    }
}

/// Map every point of every trajectory to its final label: the stay label
/// of each stay is the label of the unique position its median went to.
pub fn trace_labels(
    inverse: &Vec<usize>,
    unique_labels: &Vec<StopLabel>,
    stay_counts: &Vec<usize>,
    event_maps: &Vec<Vec<StopLabel>>,
) -> (out: Vec<Vec<StopLabel>>)
    requires
        forall|i: int| 0 <= i < inverse@.len() ==> #[trigger] inverse@[i] < unique_labels@.len(),
        stay_counts@.len() >= event_maps@.len(),
        stays_offset(stay_counts@, event_maps@.len() as int) <= inverse@.len(),
        forall|t: int, p: int|
            0 <= t < event_maps@.len() && 0 <= p < event_maps@[t]@.len() ==> #[trigger] event_maps@[t]@[p]
                <= stay_counts@[t],
    ensures
        out@.len() == event_maps@.len(),
        forall|t: int|
            0 <= t < out@.len() ==> (#[trigger] out@[t])@.len() == event_maps@[t]@.len(),
        forall|t: int, p: int|
            0 <= t < out@.len() && 0 <= p < out@[t]@.len() ==> #[trigger] out@[t]@[p] == point_label(
                inverse@,
                unique_labels@,
                stay_counts@,
                t,
                event_maps@[t]@[p],
            ),
{
    let mut out: Vec<Vec<StopLabel>> = Vec::new();
    let mut offset: usize = 0;
    let mut t: usize = 0;
    while t < event_maps.len()
        invariant
            forall|i: int|
                0 <= i < inverse@.len() ==> #[trigger] inverse@[i] < unique_labels@.len(),
            stay_counts@.len() >= event_maps@.len(),
            stays_offset(stay_counts@, event_maps@.len() as int) <= inverse.len(),
            forall|q: int, p: int|
                0 <= q < event_maps@.len() && 0 <= p < event_maps@[q]@.len()
                    ==> #[trigger] event_maps@[q]@[p] <= stay_counts@[q],
            t <= event_maps@.len(),
            offset == stays_offset(stay_counts@, t as int),
            out@.len() == t,
            forall|q: int| 0 <= q < t ==> (#[trigger] out@[q])@.len() == event_maps@[q]@.len(),
            forall|q: int, p: int|
                0 <= q < t && 0 <= p < out@[q]@.len() ==> #[trigger] out@[q]@[p] == point_label(
                    inverse@,
                    unique_labels@,
                    stay_counts@,
                    q,
                    event_maps@[q]@[p],
                ),
        decreases event_maps@.len() - t,
    {
        proof {
            lemma_offset_grows(stay_counts@, t + 1, event_maps@.len() as int);
        }
        let n_stays = stay_counts[t];
        let events = &event_maps[t];
        let mut labels: Vec<StopLabel> = Vec::new();
        let mut p: usize = 0;
        while p < events.len()
            invariant
                forall|i: int|
                    0 <= i < inverse@.len() ==> #[trigger] inverse@[i] < unique_labels@.len(),
                stay_counts@.len() >= event_maps@.len(),
                t < event_maps@.len(),
                events == event_maps@[t as int],
                n_stays == stay_counts@[t as int],
                offset == stays_offset(stay_counts@, t as int),
                offset + n_stays <= inverse.len(),
                forall|q: int| 0 <= q < events@.len() ==> #[trigger] events@[q] <= n_stays,
                p <= events@.len(),
                labels@.len() == p,
                forall|q: int|
                    0 <= q < p ==> #[trigger] labels@[q] == point_label(
                        inverse@,
                        unique_labels@,
                        stay_counts@,
                        t as int,
                        events@[q],
                    ),
            decreases events@.len() - p,
        {
            let e = events[p];
            let label = if e < 0 {
                NON_STOP
            } else {
                let ei = e as usize;
                if ei == n_stays {
                    NON_STOP
                } else {
                    unique_labels[inverse[offset + ei]]
                }
            };
            labels.push(label);
            p += 1;
        }
        out.push(labels);
        offset = offset + n_stays;
        t += 1;
    }
    out
}

/// `bucket` lists, in increasing order, exactly the positions labeled `key`.
pub open spec fn is_bucket(labels: Seq<StopLabel>, key: StopLabel, bucket: Seq<usize>) -> bool {
    &&& forall|a: int, b: int| 0 <= a < b < bucket.len() ==> bucket[a] < bucket[b]
    &&& forall|t: int| 0 <= t < bucket.len() ==> (#[trigger] bucket[t]) < labels.len()
    &&& forall|i: usize| i < labels.len() ==> (#[trigger] bucket.contains(i) <==> labels[i as int] == key)
}

/// Group positions by stop label: one bucket per label other than
/// `NON_STOP`, in order of the label's first appearance.
pub fn label_buckets(labels: &Vec<StopLabel>) -> (out: Vec<(StopLabel, Vec<usize>)>)
    ensures
        forall|b: int| 0 <= b < out@.len() ==> (#[trigger] out@[b]).0 != NON_STOP,
        forall|b: int| 0 <= b < out@.len() ==> #[trigger] is_bucket(labels@, out@[b].0, out@[b].1@),
        forall|b: int| 0 <= b < out@.len() ==> (#[trigger] out@[b]).1@.len() > 0,
        forall|a: int, b: int| 0 <= a < b < out@.len() ==> out@[a].1@[0] < out@[b].1@[0],
        forall|i: int|
            0 <= i < labels@.len() && labels@[i] != NON_STOP ==> exists|b: int|
                0 <= b < out@.len() && (#[trigger] out@[b]).0 == #[trigger] labels@[i],
{
    let n = labels.len();
    let mut keys: Vec<StopLabel> = Vec::new();
    let mut firsts: Vec<usize> = Vec::new();
    let mut i: usize = 0;
    while i < n
        invariant
            n == labels@.len(),
            i <= n,
            keys@.len() == firsts@.len(),
            forall|b: int| 0 <= b < keys@.len() ==> #[trigger] keys@[b] != NON_STOP,
            forall|b: int| 0 <= b < keys@.len() ==> #[trigger] firsts@[b] < i,
            forall|b: int| 0 <= b < keys@.len() ==> labels@[#[trigger] firsts@[b] as int] == keys@[b],
            forall|b: int, q: int|
                0 <= b < keys@.len() && 0 <= q < firsts@[b] ==> #[trigger] labels@[q] != #[trigger] keys@[b],
            forall|a: int, b: int| 0 <= a < b < keys@.len() ==> firsts@[a] < firsts@[b],
            forall|q: int|
                0 <= q < i && labels@[q] != NON_STOP ==> #[trigger] keys@.contains(labels@[q]),
        decreases n - i,
    {
        let lab = labels[i];
        if lab != NON_STOP {
            let mut j: usize = 0;
            let mut found = false;
            while j < keys.len()
                invariant_except_break
                    !found,
                invariant
                    j <= keys@.len(),
                    forall|t: int| 0 <= t < j ==> keys@[t] != lab,
                ensures
                    found ==> j < keys@.len() && keys@[j as int] == lab,
                    !found ==> forall|t: int| 0 <= t < keys@.len() ==> keys@[t] != lab,
                decreases keys@.len() - j,
            {
                if keys[j] == lab {
                    found = true;
                    break;
                }
                j += 1;
            }
            let ghost old_keys = keys@;
            let ghost old_firsts = firsts@;
            if !found {
                keys.push(lab);
                firsts.push(i);
            }
            proof {
                assert forall|c: int, q: int|
                    0 <= c < keys@.len() && 0 <= q < firsts@[c] implies #[trigger] labels@[q]
                    != #[trigger] keys@[c] by {
                    if c < old_keys.len() {
                        assert(old_keys[c] == keys@[c] && old_firsts[c] == firsts@[c]);
                    } else if labels@[q] == keys@[c] {
                        assert(old_keys.contains(labels@[q]));
                    }
                }
                assert forall|q: int|
                    0 <= q < i + 1 && labels@[q] != NON_STOP implies #[trigger] keys@.contains(
                    labels@[q],
                ) by {
                    if q < i {
                        assert(old_keys.contains(labels@[q]));
                        let b = choose|b: int| 0 <= b < old_keys.len() && old_keys[b] == labels@[q];
                        assert(keys@[b] == labels@[q]);
                    } else if found {
                        assert(keys@[j as int] == labels@[q]);
                    } else {
                        assert(keys@[keys@.len() - 1] == labels@[q]);
                    }
                }
            }
        }
        i += 1;
    }
    let mut out: Vec<(StopLabel, Vec<usize>)> = Vec::new();
    let mut b: usize = 0;
    while b < keys.len()
        invariant
            n == labels@.len(),
            keys@.len() == firsts@.len(),
            forall|c: int| 0 <= c < keys@.len() ==> #[trigger] keys@[c] != NON_STOP,
            forall|c: int| 0 <= c < keys@.len() ==> #[trigger] firsts@[c] < n,
            forall|c: int| 0 <= c < keys@.len() ==> labels@[#[trigger] firsts@[c] as int] == keys@[c],
            forall|c: int, q: int|
                0 <= c < keys@.len() && 0 <= q < firsts@[c] ==> #[trigger] labels@[q] != #[trigger] keys@[c],
            forall|a: int, c: int| 0 <= a < c < keys@.len() ==> firsts@[a] < firsts@[c],
            b <= keys@.len(),
            out@.len() == b,
            forall|c: int|
                0 <= c < b ==> (#[trigger] out@[c]).0 == keys@[c] && is_bucket(
                    labels@,
                    out@[c].0,
                    out@[c].1@,
                ) && out@[c].1@.len() > 0 && out@[c].1@[0] == firsts@[c],
        decreases keys@.len() - b,
    {
        let key = keys[b];
        let mut bucket: Vec<usize> = Vec::new();
        let mut i: usize = 0;
        while i < n
            invariant
                n == labels@.len(),
                i <= n,
                key == keys@[b as int],
                b < keys@.len(),
                keys@.len() == firsts@.len(),
                firsts@[b as int] < n,
                labels@[firsts@[b as int] as int] == key,
                forall|q: int| 0 <= q < firsts@[b as int] ==> labels@[q] != key,
                forall|a: int, c: int| 0 <= a < c < bucket@.len() ==> bucket@[a] < bucket@[c],
                forall|t: int| 0 <= t < bucket@.len() ==> (#[trigger] bucket@[t]) < i,
                forall|v: usize|
                    v < n ==> (#[trigger] bucket@.contains(v) <==> v < i && labels@[v as int]
                        == key),
                i > firsts@[b as int] ==> bucket@.len() > 0 && bucket@[0] == firsts@[b as int],
            decreases n - i,
        {
            let ghost prev = bucket@;
            if labels[i] == key {
                bucket.push(i);
                assert forall|v: usize|
                    v < n implies (#[trigger] bucket@.contains(v) <==> v < i + 1 && labels@[v as int]
                    == key) by {
                    if prev.contains(v) {
                        let t = choose|t: int| 0 <= t < prev.len() && prev[t] == v;
                        assert(bucket@[t] == v);
                    }
                    if bucket@.contains(v) && v != i {
                        let t = choose|t: int| 0 <= t < bucket@.len() && bucket@[t] == v;
                        assert(prev[t] == v);
                    }
                    if v == i {
                        assert(bucket@[bucket@.len() - 1] == v);
                    }
                }
                if i == firsts[b] {
                    assert(prev.len() == 0) by {
                        if prev.len() > 0 {
                            assert(prev.contains(prev[0]));
                            assert(labels@[prev[0] as int] == key);
                        }
                    }
                }
            } else {
                assert forall|v: usize|
                    v < n implies (#[trigger] bucket@.contains(v) <==> v < i + 1 && labels@[v as int]
                    == key) by {
                    if v == i && bucket@.contains(v) {
                        let t = choose|t: int| 0 <= t < bucket@.len() && bucket@[t] == v;
                        assert(bucket@[t] < i);
                    }
                }
            }
            i += 1;
        }
        out.push((key, bucket));
        b += 1;
    }
    proof {
        assert forall|q: int|
            0 <= q < labels@.len() && labels@[q] != NON_STOP implies exists|c: int|
                0 <= c < out@.len() && (#[trigger] out@[c]).0 == #[trigger] labels@[q] by {
            assert(keys@.contains(labels@[q]));
            let c = choose|c: int| 0 <= c < keys@.len() && keys@[c] == labels@[q];
            assert(out@[c].0 == labels@[q]);
        }
    }
    out
}

/// Trajectories share stops: two points (of the same or different
/// trajectories) whose stays were merged into the same unique position get
/// the same label.
pub proof fn law_shared_stops(
    inverse: Seq<usize>,
    unique_labels: Seq<StopLabel>,
    stay_counts: Seq<usize>,
    t1: int,
    e1: StopLabel,
    t2: int,
    e2: StopLabel,
)
    requires
        0 <= e1 < stay_counts[t1],
        0 <= e2 < stay_counts[t2],
        inverse[stays_offset(stay_counts, t1) + e1] == inverse[stays_offset(stay_counts, t2) + e2],
    ensures
        point_label(inverse, unique_labels, stay_counts, t1, e1) == point_label(
            inverse,
            unique_labels,
            stay_counts,
            t2,
            e2,
        ),
{
}

} // verus!
