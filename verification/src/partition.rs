use vstd::prelude::*;

verus! {

/// The distinct module ids of `s`, in the order of their first occurrence.
pub open spec fn first_order(s: Seq<usize>) -> Seq<usize>
    decreases s.len(),
{
    if s.len() == 0 {
        Seq::empty()
    } else {
        let f = first_order(s.drop_last());
        if f.contains(s.last()) {
            f
        } else {
            f.push(s.last())
        }
    }
}

/// `labels` is the dense relabeling of `s`: each entry is the rank of the
/// matching module id in first-occurrence order.
pub open spec fn is_dense_relabeling(s: Seq<usize>, labels: Seq<usize>) -> bool {
    &&& labels.len() == s.len()
    &&& forall|i: int|
        0 <= i < s.len() ==> #[trigger] labels[i] < first_order(s).len() && first_order(s)[labels[i]
            as int] == s[i]
}

/// First-occurrence order lists every id once, and exactly the ids of `s`.
pub proof fn lemma_first_order(s: Seq<usize>)
    ensures
        first_order(s).no_duplicates(),
        forall|v: usize| first_order(s).contains(v) <==> s.contains(v),
        first_order(s).len() <= s.len(),
    decreases s.len(),
{
    if s.len() > 0 {
        let t = s.drop_last();
        lemma_first_order(t);
        let ft = first_order(t);
        assert(first_order(s) == if ft.contains(s.last()) {
            ft
        } else {
            ft.push(s.last())
        });
        assert forall|v: usize| first_order(s).contains(v) <==> s.contains(v) by {
            if s.contains(v) {
                let k = choose|k: int| 0 <= k < s.len() && s[k] == v;
                if k < s.len() - 1 {
                    assert(t[k] == v);
                    assert(t.contains(v));
                    let q = choose|q: int| 0 <= q < ft.len() && ft[q] == v;
                    if !ft.contains(s.last()) {
                        assert(first_order(s)[q] == v);
                    }
                } else if !ft.contains(s.last()) {
                    assert(first_order(s)[ft.len() as int] == v);
                }
            }
            if first_order(s).contains(v) {
                let q = choose|q: int| 0 <= q < first_order(s).len() && first_order(s)[q] == v;
                if q < ft.len() {
                    assert(ft[q] == v);
                    assert(ft.contains(v));
                    assert(t.contains(v));
                    let k = choose|k: int| 0 <= k < t.len() && t[k] == v;
                    assert(s[k] == v);
                } else {
                    assert(s[s.len() - 1] == v);
                }
            }
        }
    }
}

/// The id one above the largest id in `partition` (`1` when it is empty).
pub fn next_free_module(partition: &Vec<usize>) -> (r: usize)
    requires
        forall|k: int| 0 <= k < partition@.len() ==> partition@[k] < usize::MAX,
    ensures
        forall|k: int| 0 <= k < partition@.len() ==> partition@[k] < r,
        partition@.len() == 0 ==> r == 1,
        partition@.len() > 0 ==> exists|k: int|
            0 <= k < partition@.len() && partition@[k] + 1 == r,
{
    let mut best: usize = 0;
    let mut k: usize = 0;
    while k < partition.len()
        invariant
            k <= partition@.len(),
            forall|t: int| 0 <= t < partition@.len() ==> partition@[t] < usize::MAX,
            forall|t: int| 0 <= t < k ==> partition@[t] <= best,
            k == 0 ==> best == 0,
            k > 0 ==> exists|t: int| 0 <= t < k && partition@[t] == best,
        decreases partition@.len() - k,
    {
        if k == 0 || partition[k] > best {
            best = partition[k];
        }
        k += 1;
    }
    best + 1
}

/// Some position before `i` carries label `v`.
pub open spec fn label_used_before(labels: Seq<usize>, i: int, v: int) -> bool {
    exists|j: int| 0 <= j < i && labels[j] == v
}

/// Renumber module ids densely from 0 in the order they first appear.
pub fn relabel_dense(partition: &Vec<usize>) -> (out: Vec<usize>)
    ensures
        is_dense_relabeling(partition@, out@),
        out@.len() == partition@.len(),
        forall|i: int, j: int|
            #![trigger out@[i], out@[j]]
            0 <= i < out@.len() && 0 <= j < out@.len() ==> (out@[i] == out@[j] <==> partition@[i]
                == partition@[j]),
        forall|i: int, v: int|
            0 <= i < out@.len() && 0 <= v < out@[i] ==> #[trigger] label_used_before(out@, i, v),
{
    let s = Ghost(partition@);
    let mut seen: Vec<usize> = Vec::new();
    let mut out: Vec<usize> = Vec::new();
    let mut k: usize = 0;
    while k < partition.len()
        invariant
            k <= s@.len(),
            s@ == partition@,
            seen@ == first_order(s@.take(k as int)),
            seen@.no_duplicates(),
            out@.len() == k,
            seen@.len() <= k,
            forall|i: int|
                0 <= i < k ==> #[trigger] out@[i] < seen@.len() && seen@[out@[i] as int]
                    == s@[i],
        decreases s@.len() - k,
    {
        let m = partition[k];
        assert(s@.take(k + 1).drop_last() =~= s@.take(k as int));
        let mut j: usize = 0;
        let mut found = false;
        while j < seen.len()
            invariant_except_break
                !found,
            invariant
                j <= seen@.len(),
                forall|t: int| 0 <= t < j ==> seen@[t] != m,
            ensures
                found ==> j < seen@.len() && seen@[j as int] == m,
                !found ==> forall|t: int| 0 <= t < seen@.len() ==> seen@[t] != m,
            decreases seen@.len() - j,
        {
            if seen[j] == m {
                found = true;
                break;
            }
            j += 1;
        }
        if found {
            assert(seen@.contains(m));
            out.push(j);
        } else {
            assert(!seen@.contains(m));
            out.push(seen.len());
            seen.push(m);
        }
        k += 1;
    }
    assert(s@.take(s@.len() as int) =~= s@);
    proof {
        assert forall|i: int, j: int|
            #![trigger out@[i], out@[j]]
            0 <= i < out@.len() && 0 <= j < out@.len() implies (out@[i] == out@[j]
                <==> partition@[i] == partition@[j]) by {
            law_relabel_keeps_partition(partition@, out@, i, j);
        }
        assert forall|i: int, v: int|
            0 <= i < out@.len() && 0 <= v < out@[i] implies #[trigger] label_used_before(
            out@,
            i,
            v,
        ) by {
            law_relabel_first_occurrence(partition@, out@, i, v);
        }
    }
    out
}

/// The first-occurrence order of a prefix is a prefix of the whole one.
pub proof fn lemma_first_order_prefix(s: Seq<usize>, k: int)
    requires
        0 <= k <= s.len(),
    ensures
        first_order(s.take(k)).len() <= first_order(s).len(),
        forall|t: int|
            0 <= t < first_order(s.take(k)).len() ==> #[trigger] first_order(s.take(k))[t]
                == first_order(s)[t],
    decreases s.len(),
{
    if k == s.len() {
        assert(s.take(k) =~= s);
    } else {
        let d = s.drop_last();
        assert(s.take(k) =~= d.take(k));
        lemma_first_order_prefix(d, k);
        let fd = first_order(d);
        assert(first_order(s) == if fd.contains(s.last()) {
            fd
        } else {
            fd.push(s.last())
        });
    }
}

/// Labels grow one step at a time: every label below the one at position
/// `i` already appeared at an earlier position, so the first position gets
/// label 0 and each new module id gets the next unused label.
pub proof fn law_relabel_first_occurrence(s: Seq<usize>, labels: Seq<usize>, i: int, v: int)
    requires
        is_dense_relabeling(s, labels),
        0 <= i < s.len(),
        0 <= v < labels[i],
    ensures
        exists|j: int| 0 <= j < i && labels[j] == v,
{
    lemma_first_order(s);
    let f = first_order(s);
    let p = s.take(i + 1);
    lemma_first_order(p);
    lemma_first_order_prefix(s, i + 1);
    let fp = first_order(p);
    let li = labels[i] as int;
    assert(p[i] == s[i]);
    assert(p.contains(s[i]));
    let q = choose|q: int| 0 <= q < fp.len() && fp[q] == s[i];
    assert(fp[q] == f[q]);
    assert(f[li] == s[i]);
    assert(q == li) by {
        if q != li {
            assert(f[q] != f[li]);
        }
    }
    assert(fp[v] == f[v]);
    assert(fp.contains(f[v]));
    assert(p.contains(f[v]));
    let j = choose|j: int| 0 <= j < p.len() && p[j] == f[v];
    assert(s[j] == f[v]);
    assert(f[v] != f[li]);
    assert(j != i);
    assert(labels[j] < f.len() && f[labels[j] as int] == s[j]);
    assert(labels[j] == v) by {
        if labels[j] as int != v {
            assert(f[labels[j] as int] != f[v]);
        }
    }
}

/// Two positions share a dense label exactly when they shared a module id.
pub proof fn law_relabel_keeps_partition(s: Seq<usize>, labels: Seq<usize>, i: int, j: int)
    requires
        is_dense_relabeling(s, labels),
        0 <= i < s.len(),
        0 <= j < s.len(),
    ensures
        labels[i] == labels[j] <==> s[i] == s[j],
{
    lemma_first_order(s);
    let f = first_order(s);
    assert(labels[i] < f.len() && labels[j] < f.len());
    if s[i] == s[j] && labels[i] != labels[j] {
        assert(f[labels[i] as int] == f[labels[j] as int]);
    }
}

/// Dense labels use exactly the range `0..d`, where `d` is the number of
/// distinct module ids.
pub proof fn law_relabel_is_dense(s: Seq<usize>, labels: Seq<usize>, v: usize)
    requires
        is_dense_relabeling(s, labels),
        v < first_order(s).len(),
    ensures
        exists|i: int| 0 <= i < s.len() && labels[i] == v,
{
    lemma_first_order(s);
    let f = first_order(s);
    assert(f.contains(f[v as int]));
    assert(s.contains(f[v as int]));
    let i = choose|i: int| 0 <= i < s.len() && s[i] == f[v as int];
    assert(f[labels[i] as int] == f[v as int]);
}

/// `out` lists, in increasing order, exactly the values of `vals`.
pub open spec fn is_sorted_set_of(vals: Seq<usize>, out: Seq<usize>) -> bool {
    &&& forall|a: int, b: int| 0 <= a < b < out.len() ==> out[a] < out[b]
    &&& forall|v: usize| #[trigger] out.contains(v) <==> vals.contains(v)
}

/// Insert `v` into the strictly increasing `out`, keeping it so.
fn insert_sorted_unique(out: &mut Vec<usize>, v: usize)
    requires
        forall|a: int, b: int| 0 <= a < b < old(out)@.len() ==> old(out)@[a] < old(out)@[b],
    ensures
        forall|a: int, b: int| 0 <= a < b < final(out)@.len() ==> final(out)@[a] < final(out)@[b],
        forall|w: usize|
            #[trigger] final(out)@.contains(w) <==> (old(out)@.contains(w) || w == v),
{
    let mut pos: usize = 0;
    while pos < out.len() && out[pos] < v
        invariant
            pos <= out@.len(),
            forall|t: int| 0 <= t < pos ==> out@[t] < v,
        decreases out@.len() - pos,
    {
        pos += 1;
    }
    if pos < out.len() && out[pos] == v {
        return;
    }
    let ghost prev = out@;
    out.insert(pos, v);
    assert forall|a: int, b: int| 0 <= a < b < out@.len() implies out@[a] < out@[b] by {
        if b < pos {
        } else if a < pos && b == pos {
        } else if a < pos {
            assert(out@[b] == prev[b - 1]);
            assert(prev[a] < prev[b - 1] || a == b - 1);
        } else if a == pos {
            assert(out@[b] == prev[b - 1]);
            assert(prev[pos as int] <= prev[b - 1]);
        } else {
            assert(out@[a] == prev[a - 1] && out@[b] == prev[b - 1]);
        }
    }
    assert forall|w: usize| #[trigger] out@.contains(w) <==> (prev.contains(w) || w == v) by {
        if prev.contains(w) {
            let t = choose|t: int| 0 <= t < prev.len() && prev[t] == w;
            if t < pos {
                assert(out@[t] == w);
            } else {
                assert(out@[t + 1] == w);
            }
        }
        if out@.contains(w) && w != v {
            let t = choose|t: int| 0 <= t < out@.len() && out@[t] == w;
            if t < pos {
                assert(prev[t] == w);
            } else {
                assert(prev[t - 1] == w);
            }
        }
        if w == v {
            assert(out@[pos as int] == w);
        }
    }
}

/// The modules a node may move to: its own module and those of its
/// neighbors, each once, in increasing order.
pub fn candidate_modules(partition: &Vec<usize>, neighbors: &Vec<usize>, node: usize) -> (out: Vec<
    usize,
>)
    requires
        node < partition@.len(),
        forall|k: int| 0 <= k < neighbors@.len() ==> #[trigger] neighbors@[k] < partition@.len(),
    ensures
        is_sorted_set_of(
            neighbors@.map_values(|nb: usize| partition@[nb as int]).push(partition@[node as int]),
            out@,
        ),
{
    let ghost vals = neighbors@.map_values(|nb: usize| partition@[nb as int]).push(
        partition@[node as int],
    );
    let mut out: Vec<usize> = Vec::new();
    let mut k: usize = 0;
    while k < neighbors.len()
        invariant
            forall|q: int| 0 <= q < neighbors@.len() ==> #[trigger] neighbors@[q] < partition@.len(),
            k <= neighbors@.len(),
            vals == neighbors@.map_values(|nb: usize| partition@[nb as int]).push(
                partition@[node as int],
            ),
            forall|a: int, b: int| 0 <= a < b < out@.len() ==> out@[a] < out@[b],
            forall|v: usize|
                #[trigger] out@.contains(v) <==> exists|q: int|
                    0 <= q < k && partition@[neighbors@[q] as int] == v,
        decreases neighbors@.len() - k,
    {
        let m = partition[neighbors[k]];
        let ghost prev = out@;
        insert_sorted_unique(&mut out, m);
        assert forall|v: usize| #[trigger] out@.contains(v) <==> exists|q: int|
            0 <= q < k + 1 && partition@[neighbors@[q] as int] == v by {
            if out@.contains(v) && v != m {
                assert(prev.contains(v));
            }
            if v == m {
                assert(partition@[neighbors@[k as int] as int] == v);
            }
            if exists|q: int| 0 <= q < k + 1 && partition@[neighbors@[q] as int] == v {
                let q = choose|q: int| 0 <= q < k + 1 && partition@[neighbors@[q] as int] == v;
                if q < k {
                    assert(prev.contains(v));
                }
            }
        }
        k += 1;
    }
    let ghost before = out@;
    insert_sorted_unique(&mut out, partition[node]);
    assert forall|v: usize| #[trigger] out@.contains(v) <==> vals.contains(v) by {
        if vals.contains(v) {
            let t = choose|t: int| 0 <= t < vals.len() && vals[t] == v;
            if t < neighbors@.len() {
                assert(partition@[neighbors@[t] as int] == v);
                assert(before.contains(v));
            }
        }
        if out@.contains(v) && v != partition@[node as int] {
            assert(before.contains(v));
            let q = choose|q: int| 0 <= q < neighbors@.len() && partition@[neighbors@[q] as int] == v;
            assert(vals[q] == v);
        }
        if v == partition@[node as int] {
            assert(vals[neighbors@.len() as int] == v);
        }
    }
    out
}

} // verus!
