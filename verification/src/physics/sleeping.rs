//! Island-based sleeping: a dynamic body sleeps only when every dynamic body
//! it is coupled to (through contacts, joints, or distance constraints) has
//! been quiet for long enough, so a stack never half-sleeps and a disturbance
//! to any member wakes them all together.

use vstd::prelude::*;
use crate::physics::union_find::UnionFind;
use crate::seq_count::count_true;

verus! {

/// The part of a rigid body's state that the sleeping pass reads and writes.
/// `quiet` is whether the body's linear and angular speeds are both below the
/// world's sleep thresholds this frame.
#[derive(Debug, Clone, Copy, PartialEq, Eq)]
pub struct SleepBody {
    /// Dynamic, finite-mass, and not removed: the solver moves it.
    pub dynamic: bool,
    /// Currently asleep.
    pub sleeping: bool,
    /// Below both speed thresholds this frame.
    pub quiet: bool,
    /// Consecutive quiet frames so far.
    pub low_energy_frames: u32,
}

/// The quiet-frame counter after this frame: sleeping or quiet dynamic bodies
/// count one more frame (saturating), restless ones restart at zero, and
/// other bodies keep theirs.
pub open spec fn next_frames(b: SleepBody) -> u32 {
    if !b.dynamic {
        b.low_energy_frames
    } else if b.sleeping || b.quiet {
        if b.low_energy_frames == u32::MAX {
            u32::MAX
        } else {
            (b.low_energy_frames + 1) as u32
        }
    } else {
        0
    }
}

/// `x` and `y` are coupled through the first `k` pairs, counting only pairs
/// whose two bodies are both dynamic: the equivalence closure of those links.
pub open spec fn coupled(bodies: Seq<SleepBody>, pairs: Seq<(usize, usize)>, k: nat, x: int, y: int) -> bool
    decreases k,
{
    if k == 0 || k > pairs.len() {
        x == y
    } else {
        let a = pairs[k - 1].0 as int;
        let b = pairs[k - 1].1 as int;
        let before = coupled(bodies, pairs, (k - 1) as nat, x, y);
        if bodies[a].dynamic && bodies[b].dynamic {
            before || (coupled(bodies, pairs, (k - 1) as nat, x, a) && coupled(
                bodies,
                pairs,
                (k - 1) as nat,
                b,
                y,
            )) || (coupled(bodies, pairs, (k - 1) as nat, x, b) && coupled(
                bodies,
                pairs,
                (k - 1) as nat,
                a,
                y,
            ))
        } else {
            before
        }
    }
}

/// Coupling is an equivalence relation at every prefix of the pair list.
pub proof fn lemma_coupled_equivalence(bodies: Seq<SleepBody>, pairs: Seq<(usize, usize)>, k: nat)
    ensures
        forall|x: int| #[trigger] coupled(bodies, pairs, k, x, x),
        forall|x: int, y: int|
            #[trigger] coupled(bodies, pairs, k, x, y) ==> coupled(bodies, pairs, k, y, x),
        forall|x: int, y: int, z: int|
            #[trigger] coupled(bodies, pairs, k, x, y) && #[trigger] coupled(bodies, pairs, k, y, z)
                ==> coupled(bodies, pairs, k, x, z),
    decreases k,
{
    if k == 0 || k > pairs.len() {
    } else {
        let j = (k - 1) as nat;
        lemma_coupled_equivalence(bodies, pairs, j);
        let a = pairs[k - 1].0 as int;
        let b = pairs[k - 1].1 as int;
        assert forall|x: int| #[trigger] coupled(bodies, pairs, k, x, x) by {
            assert(coupled(bodies, pairs, j, x, x));
        }
        assert forall|x: int, y: int|
            #[trigger] coupled(bodies, pairs, k, x, y) implies coupled(bodies, pairs, k, y, x) by {
            if coupled(bodies, pairs, j, x, y) {
                assert(coupled(bodies, pairs, j, y, x));
            } else if coupled(bodies, pairs, j, x, a) && coupled(bodies, pairs, j, b, y) {
                assert(coupled(bodies, pairs, j, y, b));
                assert(coupled(bodies, pairs, j, a, x));
            } else if coupled(bodies, pairs, j, x, b) && coupled(bodies, pairs, j, a, y) {
                assert(coupled(bodies, pairs, j, b, x));
                assert(coupled(bodies, pairs, j, y, a));
            }
        }
        assert forall|x: int, y: int, z: int|
            #[trigger] coupled(bodies, pairs, k, x, y) && #[trigger] coupled(bodies, pairs, k, y, z)
                implies coupled(bodies, pairs, k, x, z) by {
            let xa = coupled(bodies, pairs, j, x, a);
            let xb = coupled(bodies, pairs, j, x, b);
            let ya = coupled(bodies, pairs, j, y, a);
            let yb = coupled(bodies, pairs, j, y, b);
            let az = coupled(bodies, pairs, j, a, z);
            let bz = coupled(bodies, pairs, j, b, z);
            assert(coupled(bodies, pairs, j, a, y) == ya);
            assert(coupled(bodies, pairs, j, b, y) == yb);
            assert(coupled(bodies, pairs, j, x, y) ==> (xa == ya && xb == yb));
            assert(coupled(bodies, pairs, j, y, z) ==> (ya == coupled(bodies, pairs, j, z, a)));
            assert(coupled(bodies, pairs, j, z, a) == az);
            assert(coupled(bodies, pairs, j, z, b) == bz);
            assert(coupled(bodies, pairs, j, y, z) ==> (yb == bz && ya == az));
            if coupled(bodies, pairs, j, x, y) && coupled(bodies, pairs, j, y, z) {
                assert(coupled(bodies, pairs, j, x, z));
            }
            if xa && bz {
            }
            if coupled(bodies, pairs, j, a, b) {
                assert(coupled(bodies, pairs, j, b, a));
            }
        }
    }
}

/// Body `i`'s island is ready to sleep: every dynamic body coupled to it has
/// been quiet for at least `sleep_frames` frames (counting this one).
pub open spec fn island_ready(
    bodies: Seq<SleepBody>,
    pairs: Seq<(usize, usize)>,
    sleep_frames: u32,
    i: int,
) -> bool {
    forall|j: int|
        0 <= j < bodies.len() && bodies[j].dynamic && coupled(bodies, pairs, pairs.len(), i, j)
            ==> next_frames(#[trigger] bodies[j]) >= sleep_frames
}

/// Coupled bodies share one outcome: the members of an island are either all
/// ready to sleep or none is, so an island never half-sleeps and one restless
/// member keeps (or wakes) the whole island.
pub proof fn lemma_island_shares_outcome(
    bodies: Seq<SleepBody>,
    pairs: Seq<(usize, usize)>,
    sleep_frames: u32,
    i: int,
    j: int,
)
    requires
        coupled(bodies, pairs, pairs.len(), i, j),
    ensures
        island_ready(bodies, pairs, sleep_frames, i) == island_ready(bodies, pairs, sleep_frames, j),
{
    lemma_coupled_equivalence(bodies, pairs, pairs.len());
    assert(coupled(bodies, pairs, pairs.len(), j, i));
    assert forall|m: int| #![trigger coupled(bodies, pairs, pairs.len(), i, m)]
        #![trigger coupled(bodies, pairs, pairs.len(), j, m)]
        coupled(bodies, pairs, pairs.len(), i, m) == coupled(bodies, pairs, pairs.len(), j, m) by {
        if coupled(bodies, pairs, pairs.len(), i, m) {
            assert(coupled(bodies, pairs, pairs.len(), j, m));
        }
        if coupled(bodies, pairs, pairs.len(), j, m) {
            assert(coupled(bodies, pairs, pairs.len(), i, m));
        }
    }
}

/// One restless member keeps its whole island awake: a dynamic body that is
/// awake and not quiet this frame starts its count over, so no body coupled
/// to it is ready to sleep (for any positive sleep threshold).
pub proof fn lemma_restless_member_keeps_island_awake(
    bodies: Seq<SleepBody>,
    pairs: Seq<(usize, usize)>,
    sleep_frames: u32,
    i: int,
    j: int,
)
    requires
        0 <= j < bodies.len(),
        bodies[j].dynamic,
        !bodies[j].sleeping,
        !bodies[j].quiet,
        sleep_frames > 0,
        coupled(bodies, pairs, pairs.len(), i, j),
    ensures
        !island_ready(bodies, pairs, sleep_frames, i),
{
    assert(next_frames(bodies[j]) == 0);
}

/// With no coupling pair touching `i`, `i` is coupled to itself alone.
proof fn lemma_uncoupled_alone(bodies: Seq<SleepBody>, pairs: Seq<(usize, usize)>, k: nat, i: int, j: int)
    requires
        forall|q: int| 0 <= q < pairs.len() ==> (#[trigger] pairs[q]).0 != i && pairs[q].1 != i,
        coupled(bodies, pairs, k, i, j),
    ensures
        j == i,
    decreases k,
{
    if k == 0 || k > pairs.len() {
    } else {
        let a = pairs[k - 1].0 as int;
        let b = pairs[k - 1].1 as int;
        let prev = (k - 1) as nat;
        if coupled(bodies, pairs, prev, i, j) {
            lemma_uncoupled_alone(bodies, pairs, prev, i, j);
        } else if coupled(bodies, pairs, prev, i, a) {
            lemma_uncoupled_alone(bodies, pairs, prev, i, a);
            assert(pairs[k - 1].0 != i);
        } else if coupled(bodies, pairs, prev, i, b) {
            lemma_uncoupled_alone(bodies, pairs, prev, i, b);
            assert(pairs[k - 1].1 != i);
        }
    }
}

/// A body that touches nothing sleeps on its own count: with no contact,
/// joint or distance constraint involving it, its island is just itself, so
/// it is ready once it has been quiet for `sleep_frames` frames.
pub proof fn lemma_lone_body_sleeps_when_quiet_long_enough(
    bodies: Seq<SleepBody>,
    pairs: Seq<(usize, usize)>,
    sleep_frames: u32,
    i: int,
)
    requires
        0 <= i < bodies.len(),
        forall|q: int| 0 <= q < pairs.len() ==> (#[trigger] pairs[q]).0 != i && pairs[q].1 != i,
        next_frames(bodies[i]) >= sleep_frames,
    ensures
        island_ready(bodies, pairs, sleep_frames, i),
{
    assert forall|j: int|
        0 <= j < bodies.len() && bodies[j].dynamic && coupled(bodies, pairs, pairs.len(), i, j)
            implies next_frames(#[trigger] bodies[j]) >= sleep_frames by {
        lemma_uncoupled_alone(bodies, pairs, pairs.len(), i, j);
    }
}

/// Whether a sleeping body should be woken by a contact: the pair member that
/// sleeps is woken when its partner is awake.
#[derive(Debug, Clone, Copy, PartialEq, Eq)]
pub enum Wake {
    /// Nobody is woken.
    Neither,
    /// The lower-indexed body of the pair is woken.
    Lower,
    /// The higher-indexed body of the pair is woken.
    Higher,
}

/// Which member of a touching pair a contact wakes: a sleeper touched by a
/// body that is awake.
pub fn contact_wake(lower_sleeping: bool, higher_sleeping: bool) -> (w: Wake)
    ensures
        w == (if lower_sleeping && !higher_sleeping {
            Wake::Lower
        } else if higher_sleeping && !lower_sleeping {
            Wake::Higher
        } else {
            Wake::Neither
        }),
{
    if lower_sleeping && !higher_sleeping {
        Wake::Lower
    } else if higher_sleeping && !lower_sleeping {
        Wake::Higher
    } else {
        Wake::Neither
    }
}

/// One frame of the sleeping update, from `before` to `after`: every
/// dynamic body's quiet-frame counter advances (see [`next_frames`]), a
/// dynamic body sleeps exactly when its island is ready, and non-dynamic
/// bodies keep their state.
pub open spec fn sleep_step(
    before: Seq<SleepBody>,
    after: Seq<SleepBody>,
    pairs: Seq<(usize, usize)>,
    sleep_frames: u32,
) -> bool {
    &&& after.len() == before.len()
    &&& forall|i: int|
        0 <= i < before.len() ==> {
            let b = #[trigger] before[i];
            let nb = after[i];
            &&& nb.dynamic == b.dynamic
            &&& nb.quiet == b.quiet
            &&& nb.low_energy_frames == next_frames(b)
            &&& nb.sleeping == if b.dynamic {
                island_ready(before, pairs, sleep_frames, i)
            } else {
                b.sleeping
            }
        }
}

/// After a sleeping update an island is all asleep or all awake: two
/// dynamic bodies coupled through this frame's links end in the same state.
pub proof fn lemma_update_keeps_islands_whole(
    before: Seq<SleepBody>,
    after: Seq<SleepBody>,
    pairs: Seq<(usize, usize)>,
    sleep_frames: u32,
    i: int,
    j: int,
)
    requires
        sleep_step(before, after, pairs, sleep_frames),
        0 <= i < before.len(),
        0 <= j < before.len(),
        before[i].dynamic,
        before[j].dynamic,
        coupled(before, pairs, pairs.len(), i, j),
    ensures
        after[i].sleeping == after[j].sleeping,
{
    lemma_island_shares_outcome(before, pairs, sleep_frames, i, j);
    assert(after[i].sleeping == island_ready(before, pairs, sleep_frames, i));
    assert(after[j].sleeping == island_ready(before, pairs, sleep_frames, j));
}

/// The per-frame sleeping update. Every dynamic body's quiet-frame counter is
/// advanced (see [`next_frames`]); then a dynamic body sleeps exactly when its
/// whole island is ready, and wakes otherwise. Non-dynamic bodies keep their
/// state. `pairs` are the couplings of this frame: dynamic contact pairs,
/// joints and distance constraints.
pub fn update_sleeping(bodies: &mut Vec<SleepBody>, pairs: &Vec<(usize, usize)>, sleep_frames: u32)
    requires
        forall|k: int|
            0 <= k < pairs.len() ==> (#[trigger] pairs[k]).0 < old(bodies).len() && pairs[k].1
                < old(bodies).len(),
    ensures
        sleep_step(old(bodies)@, final(bodies)@, pairs@, sleep_frames),
{
    let n = bodies.len();
    let ghost input = bodies@;

    // Union dynamic bodies into islands across all couplings.
    let mut uf = UnionFind::new(n);
    let mut k: usize = 0;
    while k < pairs.len()
        invariant
            k <= pairs.len(),
            bodies@ == input,
            n == input.len(),
            uf.wf(),
            uf.len() == n,
            forall|p: int|
                0 <= p < pairs.len() ==> (#[trigger] pairs[p]).0 < n && pairs[p].1 < n,
            forall|x: int, y: int|
                0 <= x < n && 0 <= y < n ==> (#[trigger] uf.same(x, y) <==> coupled(
                    input,
                    pairs@,
                    k as nat,
                    x,
                    y,
                )),
        decreases pairs.len() - k,
    {
        let (a, b) = pairs[k];
        let ghost before = uf;
        if bodies[a].dynamic && bodies[b].dynamic {
            uf.union(a, b);
        }
        proof {
            assert forall|x: int, y: int| 0 <= x < n && 0 <= y < n implies (#[trigger] uf.same(
                x,
                y,
            ) <==> coupled(input, pairs@, (k + 1) as nat, x, y)) by {
                assert(pairs@[k as int] == (a, b));
                assert(before.same(x, y) <==> coupled(input, pairs@, k as nat, x, y));
                assert(before.same(x, a as int) <==> coupled(input, pairs@, k as nat, x, a as int));
                assert(before.same(b as int, y) <==> coupled(input, pairs@, k as nat, b as int, y));
                assert(before.same(x, b as int) <==> coupled(input, pairs@, k as nat, x, b as int));
                assert(before.same(a as int, y) <==> coupled(input, pairs@, k as nat, a as int, y));
                if input[a as int].dynamic && input[b as int].dynamic {
                    assert(uf.root(x) == if before.root(x) == before.root(a as int) {
                        before.root(b as int)
                    } else {
                        before.root(x)
                    });
                    assert(uf.root(y) == if before.root(y) == before.root(a as int) {
                        before.root(b as int)
                    } else {
                        before.root(y)
                    });
                }
            }
        }
        k = k + 1;
    }
    let ghost islands = uf;

    // The least-rested member of each island, indexed by representative.
    let mut min_frames: Vec<u32> = Vec::with_capacity(n);
    let mut i: usize = 0;
    while i < n
        invariant
            i <= n,
            min_frames@.len() == i,
            forall|j: int| 0 <= j < i ==> #[trigger] min_frames@[j] == u32::MAX,
        decreases n - i,
    {
        min_frames.push(u32::MAX);
        i = i + 1;
    }
    let mut i: usize = 0;
    while i < n
        invariant
            i <= n,
            bodies@ == input,
            n == input.len(),
            min_frames@.len() == n,
            uf.wf(),
            uf.len() == n,
            islands.wf(),
            islands.len() == n,
            forall|y: int| 0 <= y < n ==> #[trigger] uf.root(y) == islands.root(y),
            forall|r: int, j: int|
                0 <= r < n && 0 <= j < i && input[j].dynamic && islands.root(j) == r
                    ==> #[trigger] min_frames@[r] <= next_frames(#[trigger] input[j]),
            forall|r: int|
                0 <= r < n ==> #[trigger] min_frames@[r] == u32::MAX || exists|j: int|
                    0 <= j < i && input[j].dynamic && islands.root(j) == r && min_frames@[r]
                        == next_frames(#[trigger] input[j]),
        decreases n - i,
    {
        let b = bodies[i];
        if b.dynamic {
            let frames = if b.sleeping || b.quiet {
                b.low_energy_frames.saturating_add(1)
            } else {
                0
            };
            let r = uf.find(i);
            proof {
                islands.lemma_root_in_range(i as int);
            }
            if frames < min_frames[r] {
                min_frames.set(r, frames);
            }
        }
        i = i + 1;
    }

    // Apply: advance the counters, sleep ready islands, wake the rest.
    let mut i: usize = 0;
    while i < n
        invariant
            i <= n,
            bodies@.len() == n,
            n == input.len(),
            min_frames@.len() == n,
            uf.wf(),
            uf.len() == n,
            islands.wf(),
            islands.len() == n,
            forall|y: int| 0 <= y < n ==> #[trigger] uf.root(y) == islands.root(y),
            forall|r: int, j: int|
                0 <= r < n && 0 <= j < n && input[j].dynamic && islands.root(j) == r
                    ==> #[trigger] min_frames@[r] <= next_frames(#[trigger] input[j]),
            forall|r: int|
                0 <= r < n ==> #[trigger] min_frames@[r] == u32::MAX || exists|j: int|
                    0 <= j < n && input[j].dynamic && islands.root(j) == r && min_frames@[r]
                        == next_frames(#[trigger] input[j]),
            forall|x: int, y: int|
                0 <= x < n && 0 <= y < n ==> (#[trigger] islands.same(x, y) <==> coupled(
                    input,
                    pairs@,
                    pairs@.len(),
                    x,
                    y,
                )),
            forall|j: int| i <= j < n ==> #[trigger] bodies@[j] == input[j],
            forall|j: int|
                0 <= j < i ==> {
                    let b = #[trigger] input[j];
                    let nb = bodies@[j];
                    &&& nb.dynamic == b.dynamic
                    &&& nb.quiet == b.quiet
                    &&& nb.low_energy_frames == next_frames(b)
                    &&& nb.sleeping == if b.dynamic {
                        island_ready(input, pairs@, sleep_frames, j)
                    } else {
                        b.sleeping
                    }
                },
        decreases n - i,
    {
        let b = bodies[i];
        if b.dynamic {
            let frames = if b.sleeping || b.quiet {
                b.low_energy_frames.saturating_add(1)
            } else {
                0
            };
            let r = uf.find(i);
            proof {
                islands.lemma_root_in_range(i as int);
            }
            let ready = min_frames[r] >= sleep_frames;
            proof {
                let ri = r as int;
                assert(ri == islands.root(i as int));
                if ready {
                    assert forall|j: int|
                        0 <= j < n && input[j].dynamic && coupled(
                            input,
                            pairs@,
                            pairs@.len(),
                            i as int,
                            j,
                        ) implies next_frames(#[trigger] input[j]) >= sleep_frames by {
                        assert(islands.same(i as int, j));
                        assert(min_frames@[ri] <= next_frames(input[j]));
                    }
                } else {
                    assert(min_frames@[ri] != u32::MAX);
                    let j = choose|j: int|
                        0 <= j < n && input[j].dynamic && islands.root(j) == ri && min_frames@[ri]
                            == next_frames(#[trigger] input[j]);
                    assert(islands.same(i as int, j));
                    assert(coupled(input, pairs@, pairs@.len(), i as int, j));
                    assert(!island_ready(input, pairs@, sleep_frames, i as int));
                }
            }
            bodies.set(
                i,
                SleepBody {
                    dynamic: b.dynamic,
                    sleeping: ready,
                    quiet: b.quiet,
                    low_energy_frames: frames,
                },
            );
        }
        i = i + 1;
    }
}

/// A body the solver moves that is currently awake.
pub open spec fn is_awake(b: SleepBody) -> bool {
    b.dynamic && !b.sleeping
}

/// How many dynamic bodies are awake. The world skips contact generation
/// altogether when this is zero.
pub fn awake_count(bodies: &Vec<SleepBody>) -> (n: usize)
    ensures
        n == count_true(bodies@.map_values(|b: SleepBody| is_awake(b))),
{
    let mut count: usize = 0;
    let mut i: usize = 0;
    while i < bodies.len()
        invariant
            i <= bodies@.len(),
            count as nat == count_true(bodies@.take(i as int).map_values(|b: SleepBody| is_awake(b))),
            count <= i,
        decreases bodies@.len() - i,
    {
        proof {
            assert(bodies@.take(i + 1).map_values(|b: SleepBody| is_awake(b)).drop_last() =~= bodies@.take(
                i as int,
            ).map_values(|b: SleepBody| is_awake(b)));
        }
        if bodies[i].dynamic && !bodies[i].sleeping {
            count = count + 1;
        }
        i = i + 1;
    }
    proof {
        assert(bodies@.take(bodies@.len() as int) =~= bodies@);
    }
    count
}

/// When every dynamic body is asleep none is awake, so the world generates
/// no contacts at all: a settled scene costs no narrowphase.
pub proof fn lemma_all_asleep_none_awake(bodies: Seq<SleepBody>)
    requires
        forall|i: int| 0 <= i < bodies.len() && (#[trigger] bodies[i]).dynamic ==> bodies[i].sleeping,
    ensures
        count_true(bodies.map_values(|b: SleepBody| is_awake(b))) == 0,
    decreases bodies.len(),
{
    if bodies.len() > 0 {
        let init = bodies.drop_last();
        assert forall|i: int| 0 <= i < init.len() && (#[trigger] init[i]).dynamic implies init[i].sleeping by {
            assert(init[i] == bodies[i]);
        }
        lemma_all_asleep_none_awake(init);
        assert(bodies.map_values(|b: SleepBody| is_awake(b)).drop_last() =~= init.map_values(|b: SleepBody| is_awake(b)));
        assert(bodies.last() == bodies[bodies.len() - 1]);
    }
}

/// What [`awake_count`] counts, body by body: no body for an empty list,
/// and appending a body adds one exactly when it is dynamic and not asleep,
/// whatever its quiet flag and frame counter.
pub proof fn lemma_awake_count_counts_dynamic_awake_bodies(bodies: Seq<SleepBody>, b: SleepBody)
    ensures
        count_true(Seq::<SleepBody>::empty().map_values(|x: SleepBody| is_awake(x))) == 0,
        count_true(bodies.push(b).map_values(|x: SleepBody| is_awake(x))) == count_true(
            bodies.map_values(|x: SleepBody| is_awake(x)),
        ) + if b.dynamic && !b.sleeping {
            1int
        } else {
            0int
        },
{
    assert(Seq::<SleepBody>::empty().map_values(|x: SleepBody| is_awake(x)) =~= Seq::<bool>::empty());
    let m = bodies.push(b).map_values(|x: SleepBody| is_awake(x));
    assert(m.drop_last() =~= bodies.map_values(|x: SleepBody| is_awake(x)));
    assert(m.last() == is_awake(b));
}

} // verus!
