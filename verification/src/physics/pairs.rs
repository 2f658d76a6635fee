//! Which body pairs reach the narrowphase. Live bodies are split into those
//! with a finite bounding box, which go into the broadphase tree, and those
//! without (half-spaces), which are paired with every bounded body. The
//! tree reports overlapping pairs by position in the bounded list; they are
//! mapped back to body indices here.

use vstd::prelude::*;

verus! {

/// The indices `i < n`, ascending, of slots that are not removed and whose
/// boundedness is `bounded`.
pub open spec fn live_with(removed: Seq<bool>, finite: Seq<bool>, bounded: bool, n: nat) -> Seq<usize>
    decreases n,
{
    if n == 0 {
        Seq::empty()
    } else {
        let k = (n - 1) as nat;
        let rest = live_with(removed, finite, bounded, k);
        if !removed[k as int] && finite[k as int] == bounded {
            rest.push(k as usize)
        } else {
            rest
        }
    }
}

/// Every unbounded body paired with every bounded one: for each of `u` in
/// order, one pair per element of `f`, in order.
pub open spec fn cross_pairs(u: Seq<usize>, f: Seq<usize>) -> Seq<(usize, usize)>
    decreases u.len(),
{
    if u.len() == 0 {
        Seq::empty()
    } else {
        cross_pairs(u.drop_last(), f) + f.map_values(|x: usize| (u.last(), x))
    }
}

/// The tree's pairs, given as positions in the bounded list, as body
/// indices.
pub open spec fn mapped_pairs(finite_idx: Seq<usize>, tree_pairs: Seq<(usize, usize)>) -> Seq<(usize, usize)> {
    tree_pairs.map_values(|p: (usize, usize)| (finite_idx[p.0 as int], finite_idx[p.1 as int]))
}

/// What `live_with` holds: ascending indices below `n` of live slots of the
/// requested boundedness, and every such slot.
pub proof fn lemma_live_with(removed: Seq<bool>, finite: Seq<bool>, bounded: bool, n: nat)
    requires
        n <= removed.len(),
        n <= finite.len(),
        n <= usize::MAX,
    ensures
        forall|a: int, b: int|
            0 <= a < b < live_with(removed, finite, bounded, n).len() ==> #[trigger] live_with(removed, finite, bounded, n)[a]
                < #[trigger] live_with(removed, finite, bounded, n)[b],
        forall|a: int| 0 <= a < live_with(removed, finite, bounded, n).len() ==> {
            let i = #[trigger] live_with(removed, finite, bounded, n)[a] as int;
            &&& i < n
            &&& !removed[i]
            &&& finite[i] == bounded
        },
        forall|i: int| 0 <= i < n && !removed[i] && finite[i] == bounded ==> live_with(removed, finite, bounded, n).contains(i as usize),
    decreases n,
{
    if n > 0 {
        let k = (n - 1) as nat;
        lemma_live_with(removed, finite, bounded, k);
        let rest = live_with(removed, finite, bounded, k);
        let s = live_with(removed, finite, bounded, n);
        assert forall|a: int| 0 <= a < rest.len() implies #[trigger] s[a] == rest[a] && rest[a] < k by {
            assert(rest[a] < k);
        }
        if !removed[k as int] && finite[k as int] == bounded {
            assert(s == rest.push(k as usize));
            assert(s[rest.len() as int] == k as usize);
        } else {
            assert(s == rest);
        }
        assert forall|a: int, b: int| 0 <= a < b < s.len() implies #[trigger] s[a] < #[trigger] s[b] by {
            assert(s[a] == rest[a]);
            if b < rest.len() {
                assert(s[b] == rest[b]);
            }
        }
        assert forall|a: int| 0 <= a < s.len() implies {
            let i = #[trigger] s[a] as int;
            &&& i < n
            &&& !removed[i]
            &&& finite[i] == bounded
        } by {
            if a < rest.len() {
                assert(s[a] == rest[a]);
            }
        }
        assert forall|i: int| 0 <= i < n && !removed[i] && finite[i] == bounded implies live_with(removed, finite, bounded, n).contains(i as usize) by {
            if i < k {
                let a = choose|a: int| 0 <= a < rest.len() && rest[a] == i as usize;
                assert(live_with(removed, finite, bounded, n)[a] == i as usize);
            } else {
                assert(live_with(removed, finite, bounded, n)[rest.len() as int] == i as usize);
            }
        }
    }
}

/// Split the slots into live bounded and live unbounded bodies, each in
/// index order; removed slots are left out.
pub fn split_by_bounds(removed: &Vec<bool>, finite: &Vec<bool>) -> (r: (Vec<usize>, Vec<usize>))
    requires
        removed@.len() == finite@.len(),
    ensures
        r.0@ == live_with(removed@, finite@, true, removed@.len()),
        r.1@ == live_with(removed@, finite@, false, removed@.len()),
{
    let mut bounded: Vec<usize> = Vec::new();
    let mut unbounded: Vec<usize> = Vec::new();
    let mut i: usize = 0;
    while i < removed.len()
        invariant
            i <= removed@.len(),
            removed@.len() == finite@.len(),
            bounded@ == live_with(removed@, finite@, true, i as nat),
            unbounded@ == live_with(removed@, finite@, false, i as nat),
        decreases removed@.len() - i,
    {
        if !removed[i] {
            if finite[i] {
                bounded.push(i);
            } else {
                unbounded.push(i);
            }
        }
        i = i + 1;
    }
    (bounded, unbounded)
}

/// The pairs for the narrowphase: the tree's overlapping pairs mapped from
/// positions in `finite_idx` to body indices, then every unbounded body with
/// every bounded one.
pub fn candidate_pairs(finite_idx: &Vec<usize>, tree_pairs: &Vec<(usize, usize)>, unbounded: &Vec<usize>) -> (r: Vec<(usize, usize)>)
    requires
        forall|k: int|
            0 <= k < tree_pairs@.len() ==> (#[trigger] tree_pairs@[k]).0 < finite_idx@.len() && tree_pairs@[k].1
                < finite_idx@.len(),
    ensures
        r@ == mapped_pairs(finite_idx@, tree_pairs@) + cross_pairs(unbounded@, finite_idx@),
{
    let mut out: Vec<(usize, usize)> = Vec::new();
    let mut k: usize = 0;
    while k < tree_pairs.len()
        invariant
            k <= tree_pairs@.len(),
            forall|q: int|
                0 <= q < tree_pairs@.len() ==> (#[trigger] tree_pairs@[q]).0 < finite_idx@.len() && tree_pairs@[q].1
                    < finite_idx@.len(),
            out@ == mapped_pairs(finite_idx@, tree_pairs@.take(k as int)),
        decreases tree_pairs@.len() - k,
    {
        let (a, b) = tree_pairs[k];
        out.push((finite_idx[a], finite_idx[b]));
        proof {
            assert(tree_pairs@.take(k + 1) =~= tree_pairs@.take(k as int).push(tree_pairs@[k as int]));
            assert(mapped_pairs(finite_idx@, tree_pairs@.take(k + 1)) =~= mapped_pairs(finite_idx@, tree_pairs@.take(k as int)).push(
                (finite_idx@[a as int], finite_idx@[b as int]),
            ));
        }
        k = k + 1;
    }
    assert(tree_pairs@.take(tree_pairs@.len() as int) =~= tree_pairs@);
    let ghost mapped = out@;
    let mut u: usize = 0;
    while u < unbounded.len()
        invariant
            u <= unbounded@.len(),
            out@ == mapped + cross_pairs(unbounded@.take(u as int), finite_idx@),
        decreases unbounded@.len() - u,
    {
        let ghost before = out@;
        let mut f: usize = 0;
        while f < finite_idx.len()
            invariant
                u < unbounded@.len(),
                f <= finite_idx@.len(),
                out@ == before + finite_idx@.take(f as int).map_values(|x: usize| (unbounded@[u as int], x)),
            decreases finite_idx@.len() - f,
        {
            out.push((unbounded[u], finite_idx[f]));
            proof {
                assert(finite_idx@.take(f + 1).map_values(|x: usize| (unbounded@[u as int], x)) =~= finite_idx@.take(
                    f as int,
                ).map_values(|x: usize| (unbounded@[u as int], x)).push((unbounded@[u as int], finite_idx@[f as int])));
            }
            f = f + 1;
        }
        proof {
            let t = unbounded@.take(u + 1);
            assert(t.drop_last() =~= unbounded@.take(u as int));
            assert(t.last() == unbounded@[u as int]);
            assert(finite_idx@.take(finite_idx@.len() as int) =~= finite_idx@);
            assert(out@ =~= mapped + cross_pairs(t, finite_idx@));
        }
        u = u + 1;
    }
    assert(unbounded@.take(unbounded@.len() as int) =~= unbounded@);
    out
}

/// Every candidate pair joins two different live bodies, the second of them
/// bounded, when the lists come from [`split_by_bounds`] and the tree reports
/// each overlapping pair lower position first.
pub proof fn lemma_candidates_join_distinct_live_bodies(
    removed: Seq<bool>,
    finite: Seq<bool>,
    tree_pairs: Seq<(usize, usize)>,
    k: int,
)
    requires
        removed.len() == finite.len(),
        removed.len() <= usize::MAX,
        forall|q: int|
            0 <= q < tree_pairs.len() ==> (#[trigger] tree_pairs[q]).0 < tree_pairs[q].1 < live_with(
                removed,
                finite,
                true,
                removed.len(),
            ).len(),
        0 <= k < mapped_pairs(live_with(removed, finite, true, removed.len()), tree_pairs).len() + cross_pairs(
            live_with(removed, finite, false, removed.len()),
            live_with(removed, finite, true, removed.len()),
        ).len(),
    ensures
        ({
            let f = live_with(removed, finite, true, removed.len());
            let u = live_with(removed, finite, false, removed.len());
            let p = (mapped_pairs(f, tree_pairs) + cross_pairs(u, f))[k];
            &&& p.0 != p.1
            &&& p.0 < removed.len() && !removed[p.0 as int]
            &&& p.1 < removed.len() && !removed[p.1 as int]
            &&& finite[p.1 as int]
        }),
{
    let n = removed.len();
    let f = live_with(removed, finite, true, n);
    let u = live_with(removed, finite, false, n);
    lemma_live_with(removed, finite, true, n);
    lemma_live_with(removed, finite, false, n);
    let m = mapped_pairs(f, tree_pairs);
    if k < m.len() {
        let q = tree_pairs[k];
        assert(tree_pairs[k].0 < tree_pairs[k].1);
        assert(f[q.0 as int] < f[q.1 as int]);
        assert((m + cross_pairs(u, f))[k] == m[k]);
    } else {
        lemma_cross_pairs(u, f, k - m.len());
        assert((m + cross_pairs(u, f))[k] == cross_pairs(u, f)[k - m.len()]);
    }
}

/// Each cross pair is an element of `u` with an element of `f`.
proof fn lemma_cross_pairs(u: Seq<usize>, f: Seq<usize>, j: int)
    requires
        0 <= j < cross_pairs(u, f).len(),
    ensures
        u.contains(cross_pairs(u, f)[j].0),
        f.contains(cross_pairs(u, f)[j].1),
        cross_pairs(u, f).len() == u.len() * f.len(),
    decreases u.len(),
{
    lemma_cross_pairs_len(u, f);
    if u.len() > 0 {
        let init = cross_pairs(u.drop_last(), f);
        lemma_cross_pairs_len(u.drop_last(), f);
        if j < init.len() {
            lemma_cross_pairs(u.drop_last(), f, j);
            let x = cross_pairs(u.drop_last(), f)[j].0;
            let a = choose|a: int| 0 <= a < u.drop_last().len() && u.drop_last()[a] == x;
            assert(u[a] == x);
        } else {
            let t = j - init.len();
            assert(cross_pairs(u, f)[j] == (u.last(), f[t]));
            assert(u[u.len() - 1] == u.last());
            assert(f[t] == f[t]);
        }
    }
}

proof fn lemma_cross_pairs_len(u: Seq<usize>, f: Seq<usize>)
    ensures
        cross_pairs(u, f).len() == u.len() * f.len(),
    decreases u.len(),
{
    if u.len() > 0 {
        lemma_cross_pairs_len(u.drop_last(), f);
        assert(u.len() * f.len() == (u.len() - 1) * f.len() + f.len()) by (nonlinear_arith);
    }
}

/// Whether the narrowphase tests a pair: not a body with itself, and not
/// two bodies that are both asleep.
pub fn pair_needs_test(i: usize, j: usize, i_sleeping: bool, j_sleeping: bool) -> (r: bool)
    ensures
        r == (i != j && !(i_sleeping && j_sleeping)),
{
    i != j && !(i_sleeping && j_sleeping)
}

} // verus!
