use vstd::prelude::*;

verus! {

/// A stay position as the pair of bit patterns of its two coordinates; two
/// positions are the same exactly when their keys are equal.
pub type PointKey = (u64, u64);

/// Position `i` is where unique index `k` first appears: all earlier
/// positions use smaller indices.
pub open spec fn introduced_at(inverse: Seq<usize>, k: int, i: int) -> bool {
    inverse[i] == k && forall|j: int| 0 <= j < i ==> inverse[j] < k
}

/// Unique index `k` appears somewhere in `inverse`, and first after all
/// smaller indices have appeared.
pub open spec fn introduced(inverse: Seq<usize>, k: int) -> bool {
    exists|i: int| 0 <= i < inverse.len() && #[trigger] introduced_at(inverse, k, i)
}

/// Result of `unique_points`: the distinct positions in first-seen order, the
/// index of each input position among them, and how often each occurs.
pub open spec fn is_unique_split(
    points: Seq<PointKey>,
    unique: Seq<PointKey>,
    inverse: Seq<usize>,
    counts: Seq<usize>,
) -> bool {
    &&& unique.no_duplicates()
    &&& inverse.len() == points.len()
    &&& counts.len() == unique.len()
    &&& forall|i: int|
        0 <= i < points.len() ==> #[trigger] inverse[i] < unique.len() && unique[inverse[i] as int]
            == points[i]
    &&& forall|k: int|
        0 <= k < unique.len() ==> #[trigger] counts[k] == points.to_multiset().count(unique[k])
    &&& forall|k: int| 0 <= k < unique.len() ==> #[trigger] introduced(inverse, k)
}

/// Unique positions in first-seen order, with the inverse index of every
/// input position and the number of times each unique position occurs.
pub fn unique_points(points: &Vec<PointKey>) -> (r: (Vec<PointKey>, Vec<usize>, Vec<usize>))
    ensures
        is_unique_split(points@, r.0@, r.1@, r.2@),
{
    broadcast use vstd::seq_lib::to_multiset_build;
    broadcast use vstd::multiset::group_multiset_axioms;

    let mut unique: Vec<PointKey> = Vec::new();
    let mut inverse: Vec<usize> = Vec::new();
    let mut counts: Vec<usize> = Vec::new();
    let mut i: usize = 0;
    while i < points.len()
        invariant
            i <= points@.len(),
            unique@.no_duplicates(),
            inverse@.len() == i,
            counts@.len() == unique@.len(),
            unique@.len() <= i,
            forall|k: int| 0 <= k < counts@.len() ==> #[trigger] counts@[k] <= i,
            forall|t: int|
                0 <= t < i ==> #[trigger] inverse@[t] < unique@.len() && unique@[inverse@[t] as int]
                    == points@[t],
            forall|k: int|
                0 <= k < unique@.len() ==> #[trigger] counts@[k] == points@.take(
                    i as int,
                ).to_multiset().count(unique@[k]),
            forall|k: int| 0 <= k < unique@.len() ==> #[trigger] introduced(inverse@, k),
            forall|t: int| 0 <= t < i ==> #[trigger] unique@.contains(points@[t]),
        decreases points@.len() - i,
    {
        let p = points[i];
        assert(points@.take(i + 1) =~= points@.take(i as int).push(p));
        let mut j: usize = 0;
        let mut found = false;
        while j < unique.len()
            invariant_except_break
                !found,
            invariant
                j <= unique@.len(),
                forall|t: int| 0 <= t < j ==> unique@[t] != p,
            ensures
                found ==> j < unique@.len() && unique@[j as int] == p,
                !found ==> forall|t: int| 0 <= t < unique@.len() ==> unique@[t] != p,
            decreases unique@.len() - j,
        {
            if unique[j].0 == p.0 && unique[j].1 == p.1 {
                found = true;
                break;
            }
            j += 1;
        }
        let ghost old_unique = unique@;
        let ghost old_counts = counts@;
        let ghost old_inverse = inverse@;
        let ghost ms = points@.take(i as int).to_multiset();
        proof {
            vstd::seq_lib::to_multiset_build(points@.take(i as int), p);
        }
        assert(points@.take(i + 1).to_multiset() == ms.insert(p));
        if found {
            let c = counts[j];
            counts.set(j, c + 1);
            inverse.push(j);
        } else {
            proof {
                assert(!points@.take(i as int).to_multiset().contains(p)) by {
                    if points@.take(i as int).to_multiset().contains(p) {
                        broadcast use vstd::seq_lib::to_multiset_contains;
                        assert(points@.take(i as int).contains(p));
                        let t = choose|t: int| 0 <= t < i && points@.take(i as int)[t] == p;
                        assert(unique@.contains(points@[t]));
                    }
                }
            }
            inverse.push(unique.len());
            counts.push(1);
            unique.push(p);
        }
        proof {
            assert forall|k: int| 0 <= k < unique@.len() implies #[trigger] counts@[k]
                == points@.take(i + 1).to_multiset().count(unique@[k]) by {
                if k < old_unique.len() {
                    assert(old_counts[k] == ms.count(old_unique[k]));
                }
            }
            assert forall|k: int| 0 <= k < unique@.len() implies #[trigger] introduced(inverse@, k) by {
                if k < old_unique.len() {
                    assert(introduced(old_inverse, k));
                    let t = choose|t: int|
                        0 <= t < old_inverse.len() && #[trigger] introduced_at(old_inverse, k, t);
                    assert(introduced_at(inverse@, k, t));
                } else {
                    assert(introduced_at(inverse@, k, i as int));
                }
            }
            assert forall|t: int| 0 <= t <= i implies #[trigger] unique@.contains(points@[t]) by {
                if t < i {
                    assert(old_unique.contains(points@[t]));
                    let q = choose|q: int| 0 <= q < old_unique.len() && old_unique[q] == points@[t];
                    assert(unique@[q] == points@[t]);
                } else if found {
                    assert(unique@[j as int] == points@[t]);
                } else {
                    assert(unique@[unique@.len() - 1] == points@[t]);
                }
            }
        }
        i += 1;
    }
    assert(points@.take(points@.len() as int) =~= points@);
    assert forall|k: int| 0 <= k < unique@.len() implies #[trigger] counts@[k]
        == points@.to_multiset().count(unique@[k]) by {
        assert(counts@[k] == points@.take(points@.len() as int).to_multiset().count(unique@[k]));
    }
    (unique, inverse, counts)
}

/// Stays at the same position are merged: equal positions get the same
/// unique index, and different positions different ones.
pub proof fn law_same_position_same_index(
    points: Seq<PointKey>,
    unique: Seq<PointKey>,
    inverse: Seq<usize>,
    counts: Seq<usize>,
    i: int,
    j: int,
)
    requires
        is_unique_split(points, unique, inverse, counts),
        0 <= i < points.len(),
        0 <= j < points.len(),
    ensures
        inverse[i] == inverse[j] <==> points[i] == points[j],
{
    assert(inverse[i] < unique.len() && inverse[j] < unique.len());
}

} // verus!
