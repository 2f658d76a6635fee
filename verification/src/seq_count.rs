//! Counting occurrences in sequences: the shared core of boundary-face
//! extraction (faces owned by exactly one tetrahedron) and horizon-edge
//! detection (edges on exactly one removed face).

use vstd::prelude::*;
use std::collections::HashMap;

verus! {

broadcast use vstd::std_specs::hash::group_hash_axioms;

/// Number of `true` entries in `s`.
pub open spec fn count_true(s: Seq<bool>) -> nat
    decreases s.len(),
{
    if s.len() == 0 {
        0
    } else {
        count_true(s.drop_last()) + if s.last() {
            1nat
        } else {
            0nat
        }
    }
}

/// How many times `x` occurs in `s`.
pub open spec fn occurrences<A>(s: Seq<A>, x: A) -> nat
    decreases s.len(),
{
    if s.len() == 0 {
        0
    } else {
        occurrences(s.drop_last(), x) + if s.last() == x {
            1nat
        } else {
            0nat
        }
    }
}

/// Appending `y` adds one occurrence of `y` and none of anything else.
pub proof fn lemma_occurrences_push<A>(s: Seq<A>, y: A, x: A)
    ensures
        occurrences(s.push(y), x) == occurrences(s, x) + if y == x {
            1nat
        } else {
            0nat
        },
{
    assert(s.push(y).drop_last() =~= s);
}

/// An element occurs in `s` exactly when it is contained in `s`.
pub proof fn lemma_occurrences_contains<A>(s: Seq<A>, x: A)
    ensures
        (occurrences(s, x) > 0) == s.contains(x),
    decreases s.len(),
{
    if s.len() > 0 {
        lemma_occurrences_contains(s.drop_last(), x);
        if s.drop_last().contains(x) {
            let i = choose|i: int| 0 <= i < s.drop_last().len() && s.drop_last()[i] == x;
            assert(s[i] == x);
        }
        if s.contains(x) && s.last() != x {
            let i = choose|i: int| 0 <= i < s.len() && s[i] == x;
            assert(s.drop_last()[i] == x);
        }
        if s.last() == x {
            assert(s[s.len() - 1] == x);
        }
    }
}

/// Counting through an injective relabelling counts the same.
pub proof fn lemma_occurrences_map<A, B>(s: Seq<A>, f: spec_fn(A) -> B, x: A)
    requires
        forall|u: A, v: A| #[trigger] f(u) == #[trigger] f(v) ==> u == v,
    ensures
        occurrences(s.map_values(f), f(x)) == occurrences(s, x),
    decreases s.len(),
{
    if s.len() > 0 {
        assert(s.map_values(f).drop_last() =~= s.drop_last().map_values(f));
        lemma_occurrences_map(s.drop_last(), f, x);
    }
}

/// Relabelling the keys injectively keeps the positions that occur once.
pub proof fn lemma_once_positions_map<A, B>(s: Seq<A>, f: spec_fn(A) -> B, n: nat)
    requires
        forall|u: A, v: A| #[trigger] f(u) == #[trigger] f(v) ==> u == v,
    ensures
        once_positions(s.map_values(f), n) == once_positions(s, n),
    decreases n,
{
    if n > 0 && n <= s.len() {
        lemma_once_positions_map(s, f, (n - 1) as nat);
        lemma_occurrences_map(s, f, s[n - 1]);
    }
}

/// Positions `p < n` whose key occurs exactly once in all of `keys`, in
/// increasing order.
pub open spec fn once_positions<A>(keys: Seq<A>, n: nat) -> Seq<usize>
    decreases n,
{
    if n == 0 || n > keys.len() {
        Seq::empty()
    } else {
        let before = once_positions(keys, (n - 1) as nat);
        if occurrences(keys, keys[n - 1]) == 1 {
            before.push((n - 1) as usize)
        } else {
            before
        }
    }
}

/// The positions of the keys that occur exactly once, in increasing order.
pub fn positions_occurring_once(keys: &Vec<u128>) -> (r: Vec<usize>)
    ensures
        r@ == once_positions(keys@, keys@.len()),
{
    let n = keys.len();
    let mut counts: HashMap<u128, usize> = HashMap::new();
    let mut i: usize = 0;
    while i < n
        invariant
            i <= n,
            n == keys@.len(),
            forall|k: u128|
                #![trigger counts@.contains_key(k)]
                (if counts@.contains_key(k) {
                    counts@[k] as nat
                } else {
                    0nat
                }) == occurrences(keys@.take(i as int), k),
            forall|k: u128| counts@.contains_key(k) ==> #[trigger] counts@[k] <= i,
        decreases n - i,
    {
        let key = keys[i];
        let c: usize = match counts.get(&key) {
            Some(c) => *c,
            None => 0,
        };
        proof {
            assert(keys@.take(i + 1) =~= keys@.take(i as int).push(key));
            assert forall|k: u128| #![trigger counts@.contains_key(k)] true implies occurrences(
                keys@.take(i + 1),
                k,
            ) == occurrences(keys@.take(i as int), k) + if key == k {
                1nat
            } else {
                0nat
            } by {
                lemma_occurrences_push(keys@.take(i as int), key, k);
            }
            if counts@.contains_key(key) {
                assert(counts@[key] <= i);
            }
        }
        counts.insert(key, c + 1);
        proof {
            assert forall|k: u128|
                #![trigger counts@.contains_key(k)]
                (if counts@.contains_key(k) {
                    counts@[k] as nat
                } else {
                    0nat
                }) == occurrences(keys@.take(i + 1), k) by {
                lemma_occurrences_push(keys@.take(i as int), key, k);
            }
        }
        i = i + 1;
    }
    assert(keys@.take(n as int) =~= keys@);
    let mut out: Vec<usize> = Vec::new();
    let mut p: usize = 0;
    while p < n
        invariant
            p <= n,
            n == keys@.len(),
            forall|k: u128|
                #![trigger counts@.contains_key(k)]
                (if counts@.contains_key(k) {
                    counts@[k] as nat
                } else {
                    0nat
                }) == occurrences(keys@, k),
            out@ == once_positions(keys@, p as nat),
        decreases n - p,
    {
        let key = keys[p];
        let c: usize = match counts.get(&key) {
            Some(c) => *c,
            None => 0,
        };
        proof {
            if counts@.contains_key(key) {
            }
        }
        if c == 1 {
            out.push(p);
        }
        p = p + 1;
    }
    out
}

} // verus!
