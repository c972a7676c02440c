//! Pruning tables: for every state of a space its distance from the origin,
//! found by a search in breadth over the whole space, and for every state the
//! turns that lead nearer to the origin and those that lead away from it.

use crate::twist::{lemma_twist_index, spec_inversed, Twist, Twistable, Twists};
use rayon::iter::{IntoParallelIterator, IntoParallelRefIterator, ParallelIterator};
use vstd::bytes::{spec_u64_from_le_bytes, spec_u64_to_le_bytes, u64_from_le_bytes, u64_to_le_bytes};
use vstd::prelude::*;
use vstd::slice::slice_subrange;

verus! {

/// The entry of a state that the search has not reached.
pub const SENTINEL: u8 = 255;

/// A space of states, numbered from 0, in which every turn leads from each
/// state to a state.
pub trait StateSpace {
    /// The spaces on which the steps are defined.
    spec fn well_formed(&self) -> bool;

    /// The number of states.
    spec fn spec_size(&self) -> nat;

    /// The state to which the turn `t` leads from state `i`.
    spec fn spec_step(&self, i: usize, t: Twist) -> usize;

    /// No step leads out of the space.
    proof fn lemma_step_in_range(&self, i: usize, t: Twist)
        requires
            self.well_formed(),
            i < self.spec_size(),
        ensures
            self.spec_step(i, t) < self.spec_size(),
    ;

    fn size(&self) -> (n: usize)
        requires
            self.well_formed(),
        ensures
            n == self.spec_size(),
    ;

    fn step(&self, i: usize, t: Twist) -> (j: usize)
        requires
            self.well_formed(),
            i < self.spec_size(),
        ensures
            j == self.spec_step(i, t),
            j < self.spec_size(),
    ;
}

/// Whether `from_index` and `index` number the states of a space of `size`
/// states: `from_index` gives one well-formed state for each number below
/// `size`, and `index` gives one number below `size` for each state.
pub open spec fn is_state_space<Obj: Twistable, F: Fn(Obj) -> usize, G: Fn(usize) -> Obj>(
    index: F,
    from_index: G,
    size: usize,
) -> bool {
    &&& forall|i: usize| i < size ==> from_index.requires((i,))
    &&& forall|i: usize, o: Obj| i < size && #[trigger] from_index.ensures((i,), o) ==> o.well_formed()
    &&& forall|i: usize, o1: Obj, o2: Obj|
        i < size && #[trigger] from_index.ensures((i,), o1) && #[trigger] from_index.ensures(
            (i,),
            o2,
        ) ==> o1 == o2
    &&& forall|o: Obj| o.well_formed() ==> index.requires((o,))
    &&& forall|o: Obj, j: usize| #[trigger] index.ensures((o,), j) ==> j < size
    &&& forall|o: Obj, j1: usize, j2: usize|
        #[trigger] index.ensures((o,), j1) && #[trigger] index.ensures((o,), j2) ==> j1 == j2
}

/// Whether `index` gives the number `j` for the state that `from_index` gives
/// for the number `i`, after the turn `t`.
pub open spec fn is_step<Obj: Twistable, F: Fn(Obj) -> usize, G: Fn(usize) -> Obj>(
    index: F,
    from_index: G,
    i: usize,
    t: Twist,
    j: usize,
) -> bool {
    exists|o: Obj| #[trigger] from_index.ensures((i,), o) && index.ensures((o.spec_twisted(t),), j)
}

/// The space whose states `from_index` and `index` number: a turn leads from
/// the state with number `i` to the state whose number `index` gives for the
/// state of `from_index(i)` after the turn.
pub struct Numbered<F, G> {
    pub index: F,
    pub from_index: G,
    pub size: usize,
}

impl<Obj: Twistable, F: Fn(Obj) -> usize, G: Fn(usize) -> Obj> StateSpace for Numbered<F, G> {
    open spec fn well_formed(&self) -> bool {
        is_state_space(self.index, self.from_index, self.size)
    }

    open spec fn spec_size(&self) -> nat {
        self.size as nat
    }

    open spec fn spec_step(&self, i: usize, t: Twist) -> usize {
        let j = choose|j: usize| is_step(self.index, self.from_index, i, t, j);
        if j < self.size {
            j
        } else {
            0
        }
    }

    proof fn lemma_step_in_range(&self, i: usize, t: Twist) {
    }

    fn size(&self) -> (n: usize) {
        self.size
    }

    fn step(&self, i: usize, t: Twist) -> (j: usize) {
        let cube = (self.from_index)(i);
        let j = (self.index)(cube.twisted(t));
        proof {
            assert(is_step(self.index, self.from_index, i, t, j));
            let c = choose|c: usize| is_step(self.index, self.from_index, i, t, c);
            let o = choose|o: Obj|
                #[trigger] self.from_index.ensures((i,), o) && self.index.ensures(
                    (o.spec_twisted(t),),
                    c,
                );
            assert(o == cube);
        }
        j
    }
}

/// Whether at most `d` turns of `twists` lead from `origin` to state `j`.
pub open spec fn reaches<S: StateSpace>(
    space: S,
    twists: Twists,
    origin: usize,
    j: usize,
    d: nat,
) -> bool
    decreases d,
{
    j == origin || (d > 0 && exists|i: usize, t: Twist|
        twists.spec_contains(t) && reaches(space, twists, origin, i, (d - 1) as nat)
            && #[trigger] space.spec_step(i, t) == j)
}

/// Whether the entry of state `j` is its distance from `origin`: that many
/// turns lead to it, and no fewer do.
pub open spec fn is_settled<S: StateSpace>(
    table: Seq<u8>,
    space: S,
    twists: Twists,
    origin: usize,
    j: usize,
) -> bool {
    &&& table[j as int] != SENTINEL
    &&& reaches(space, twists, origin, j, table[j as int] as nat)
    &&& table[j as int] > 0 ==> !reaches(space, twists, origin, j, (table[j as int] - 1) as nat)
}

/// Whether `table` holds for each state of `space` its distance from `origin`
/// in turns of `twists`, and the sentinel for each state that 254 turns do not
/// reach.
pub open spec fn is_distance_table<S: StateSpace>(
    table: Seq<u8>,
    space: S,
    twists: Twists,
    origin: usize,
) -> bool {
    &&& origin < table.len() <= usize::MAX
    &&& table.len() == space.spec_size()
    &&& forall|j: usize|
        j < table.len() ==> if #[trigger] table[j as int] == SENTINEL {
            !reaches(space, twists, origin, j, 254)
        } else {
            is_settled(table, space, twists, origin, j)
        }
}

/// What fewer turns reach, more turns reach too.
pub proof fn lemma_reaches_monotone<S: StateSpace>(
    space: S,
    twists: Twists,
    origin: usize,
    j: usize,
    d1: nat,
    d2: nat,
)
    requires
        d1 <= d2,
        reaches(space, twists, origin, j, d1),
    ensures
        reaches(space, twists, origin, j, d2),
    decreases d1,
{
    if j != origin {
        let (i, t) = choose|i: usize, t: Twist|
            twists.spec_contains(t) && reaches(space, twists, origin, i, (d1 - 1) as nat)
                && #[trigger] space.spec_step(i, t) == j;
        lemma_reaches_monotone(space, twists, origin, i, (d1 - 1) as nat, (d2 - 1) as nat);
    }
}

/// One more turn reaches what a turn leads to.
pub proof fn lemma_reaches_step<S: StateSpace>(
    space: S,
    twists: Twists,
    origin: usize,
    i: usize,
    t: Twist,
    d: nat,
)
    requires
        reaches(space, twists, origin, i, d),
        twists.spec_contains(t),
    ensures
        reaches(space, twists, origin, space.spec_step(i, t), d + 1),
{
}

/// Every state that is reached is a state of the space.
pub proof fn lemma_reaches_in_range<S: StateSpace>(
    space: S,
    twists: Twists,
    origin: usize,
    j: usize,
    d: nat,
)
    requires
        space.well_formed(),
        origin < space.spec_size(),
        reaches(space, twists, origin, j, d),
    ensures
        j < space.spec_size(),
    decreases d,
{
    if j != origin {
        let (i, t) = choose|i: usize, t: Twist|
            twists.spec_contains(t) && reaches(space, twists, origin, i, (d - 1) as nat)
                && #[trigger] space.spec_step(i, t) == j;
        lemma_reaches_in_range(space, twists, origin, i, (d - 1) as nat);
        space.lemma_step_in_range(i, t);
    }
}

/// Whether two spaces have the same states and the same steps.
pub open spec fn same_steps<A: StateSpace, B: StateSpace>(a: A, b: B) -> bool {
    &&& a.spec_size() == b.spec_size()
    &&& forall|i: usize, t: Twist| #[trigger] a.spec_step(i, t) == b.spec_step(i, t)
}

/// Spaces with the same steps reach the same states.
pub proof fn lemma_reaches_by_steps<A: StateSpace, B: StateSpace>(
    a: A,
    b: B,
    twists: Twists,
    origin: usize,
    j: usize,
    d: nat,
)
    requires
        same_steps(a, b),
    ensures
        reaches(a, twists, origin, j, d) == reaches(b, twists, origin, j, d),
    decreases d,
{
    if j != origin && d > 0 {
        if reaches(a, twists, origin, j, d) {
            let (i, t) = choose|i: usize, t: Twist|
                twists.spec_contains(t) && reaches(a, twists, origin, i, (d - 1) as nat)
                    && #[trigger] a.spec_step(i, t) == j;
            lemma_reaches_by_steps(a, b, twists, origin, i, (d - 1) as nat);
            assert(b.spec_step(i, t) == j);
        }
        if reaches(b, twists, origin, j, d) {
            let (i, t) = choose|i: usize, t: Twist|
                twists.spec_contains(t) && reaches(b, twists, origin, i, (d - 1) as nat)
                    && #[trigger] b.spec_step(i, t) == j;
            lemma_reaches_by_steps(a, b, twists, origin, i, (d - 1) as nat);
            assert(a.spec_step(i, t) == j);
        }
    }
}

/// A distance table of a space is a distance table of every space with the
/// same steps.
pub proof fn lemma_distance_table_by_steps<A: StateSpace, B: StateSpace>(
    table: Seq<u8>,
    a: A,
    b: B,
    twists: Twists,
    origin: usize,
)
    requires
        same_steps(a, b),
        is_distance_table(table, a, twists, origin),
    ensures
        is_distance_table(table, b, twists, origin),
{
    assert forall|j: usize| j < table.len() implies if #[trigger] table[j as int] == SENTINEL {
        !reaches(b, twists, origin, j, 254)
    } else {
        is_settled(table, b, twists, origin, j)
    } by {
        lemma_reaches_by_steps(a, b, twists, origin, j, 254);
        lemma_reaches_by_steps(a, b, twists, origin, j, table[j as int] as nat);
        if table[j as int] > 0 {
            lemma_reaches_by_steps(a, b, twists, origin, j, (table[j as int] - 1) as nat);
        }
    }
}

/// Whether every entry that is set is a distance of at most `d`.
pub open spec fn settled_up_to<S: StateSpace>(
    table: Seq<u8>,
    space: S,
    twists: Twists,
    origin: usize,
    d: int,
) -> bool {
    forall|j: usize|
        j < table.len() && #[trigger] table[j as int] != SENTINEL ==> table[j as int] <= d
            && is_settled(table, space, twists, origin, j)
}

/// Whether `d` turns reach no state whose entry is not set.
pub open spec fn unset_beyond<S: StateSpace>(
    table: Seq<u8>,
    space: S,
    twists: Twists,
    origin: usize,
    d: nat,
) -> bool {
    forall|j: usize|
        j < table.len() && #[trigger] table[j as int] == SENTINEL ==> !reaches(
            space,
            twists,
            origin,
            j,
            d,
        )
}

/// Whether every state that a turn of `twists` leads to from one of the first
/// `i` states is set, where that state has distance `d`.
pub open spec fn expanded_up_to<S: StateSpace>(
    table: Seq<u8>,
    space: S,
    twists: Twists,
    d: u8,
    i: usize,
) -> bool {
    forall|a: usize, t: Twist|
        a < i && a < table.len() && table[a as int] == d && twists.spec_contains(t) ==> table[(
        #[trigger] space.spec_step(a, t)) as int] != SENTINEL
}

/// When a level has been expanded, one turn more reaches no state that is
/// still not set.
pub proof fn lemma_level_complete<S: StateSpace>(
    table: Seq<u8>,
    space: S,
    twists: Twists,
    origin: usize,
    d: u8,
)
    requires
        d < 254,
        space.well_formed(),
        table.len() <= usize::MAX,
        table.len() == space.spec_size(),
        origin < table.len(),
        table[origin as int] != SENTINEL,
        settled_up_to(table, space, twists, origin, d + 1),
        unset_beyond(table, space, twists, origin, d as nat),
        expanded_up_to(table, space, twists, d, table.len() as usize),
    ensures
        unset_beyond(table, space, twists, origin, (d + 1) as nat),
{
    assert forall|j: usize| j < table.len() && #[trigger] table[j as int] == SENTINEL implies !reaches(
        space,
        twists,
        origin,
        j,
        (d + 1) as nat,
    ) by {
        if reaches(space, twists, origin, j, (d + 1) as nat) {
            let (i, t) = choose|i: usize, t: Twist|
                twists.spec_contains(t) && reaches(space, twists, origin, i, d as nat)
                    && #[trigger] space.spec_step(i, t) == j;
            lemma_reaches_in_range(space, twists, origin, i, d as nat);
            assert(table[i as int] != SENTINEL);
            assert(is_settled(table, space, twists, origin, i));
            if table[i as int] < d {
                lemma_reaches_step(space, twists, origin, i, t, table[i as int] as nat);
                lemma_reaches_monotone(
                    space,
                    twists,
                    origin,
                    j,
                    (table[i as int] + 1) as nat,
                    d as nat,
                );
            }
        }
    }
}

/// When a level has set no entry, no number of turns reaches a state that is
/// not set.
pub proof fn lemma_search_complete<S: StateSpace>(
    table: Seq<u8>,
    space: S,
    twists: Twists,
    origin: usize,
    d: u8,
    j: usize,
    more: nat,
)
    requires
        d < 254,
        space.well_formed(),
        table.len() <= usize::MAX,
        table.len() == space.spec_size(),
        origin < table.len(),
        table[origin as int] != SENTINEL,
        settled_up_to(table, space, twists, origin, d as int),
        unset_beyond(table, space, twists, origin, (d + 1) as nat),
        j < table.len(),
        table[j as int] == SENTINEL,
    ensures
        !reaches(space, twists, origin, j, more),
    decreases more,
{
    if reaches(space, twists, origin, j, more) {
        if more <= d + 1 {
            lemma_reaches_monotone(space, twists, origin, j, more, (d + 1) as nat);
        } else {
            let (i, t) = choose|i: usize, t: Twist|
                twists.spec_contains(t) && reaches(space, twists, origin, i, (more - 1) as nat)
                    && #[trigger] space.spec_step(i, t) == j;
            lemma_reaches_in_range(space, twists, origin, i, (more - 1) as nat);
            if table[i as int] == SENTINEL {
                lemma_search_complete(table, space, twists, origin, d, i, (more - 1) as nat);
            } else {
                assert(is_settled(table, space, twists, origin, i));
                lemma_reaches_step(space, twists, origin, i, t, table[i as int] as nat);
                lemma_reaches_monotone(
                    space,
                    twists,
                    origin,
                    j,
                    (table[i as int] + 1) as nat,
                    (d + 1) as nat,
                );
            }
        }
    }
}

/// Setting an entry changes neither what is reached nor whether another entry
/// is settled.
proof fn lemma_settled_after_update<S: StateSpace>(
    table: Seq<u8>,
    space: S,
    twists: Twists,
    origin: usize,
    next: usize,
    v: u8,
    j: usize,
)
    requires
        next < table.len(),
        j < table.len(),
        j != next,
        is_settled(table, space, twists, origin, j),
    ensures
        is_settled(table.update(next as int, v), space, twists, origin, j),
{
}

/// Whether no turn of `twists` leads from one of the first `i` states to a
/// state of distance `d`, where that one of the first `i` is not set.
pub open spec fn pulled_up_to<S: StateSpace>(
    table: Seq<u8>,
    space: S,
    twists: Twists,
    d: u8,
    i: usize,
) -> bool {
    forall|a: usize, t: Twist|
        a < i && a < table.len() && table[a as int] == SENTINEL && twists.spec_contains(t) ==> table[(
        #[trigger] space.spec_step(a, t)) as int] != d
}

/// Where every turn can be undone, a level is expanded as soon as no state
/// that is not set has a neighbour in it.
proof fn lemma_pulled_is_expanded<S: StateSpace>(table: Seq<u8>, space: S, twists: Twists, d: u8)
    requires
        space.well_formed(),
        table.len() <= usize::MAX,
        table.len() == space.spec_size(),
        is_reversible(space, twists),
        pulled_up_to(table, space, twists, d, table.len() as usize),
    ensures
        expanded_up_to(table, space, twists, d, table.len() as usize),
{
    assert forall|a: usize, t: Twist|
        a < table.len() && table[a as int] == d && twists.spec_contains(t) implies table[(
    #[trigger] space.spec_step(a, t)) as int] != SENTINEL by {
        let n = space.spec_step(a, t);
        space.lemma_step_in_range(a, t);
        if table[n as int] == SENTINEL {
            let back = spec_inversed(t);
            assert(twists.spec_contains(back));
            assert(space.spec_step(n, back) == a);
            assert(table[space.spec_step(n, back) as int] != d);
        }
    }
}

/// One level of the search in a space in which every turn can be undone:
/// each state that is not set and from which a turn leads to a state of
/// distance `d` gets the distance `d + 1`. The result says whether any did,
/// and how many.
fn pull_level<S: StateSpace>(
    space: &S,
    twists: Twists,
    turns: &Vec<Twist>,
    origin: usize,
    table: &mut Vec<u8>,
    d: u8,
) -> (r: (bool, usize))
    requires
        d < 254,
        space.well_formed(),
        twists.well_formed(),
        is_reversible(*space, twists),
        old(table)@.len() == space.spec_size(),
        origin < old(table)@.len(),
        old(table)@[origin as int] == 0,
        forall|k: int| 0 <= k < turns@.len() ==> twists.spec_contains(#[trigger] turns@[k]),
        forall|t: Twist| twists.spec_contains(t) ==> turns@.contains(t),
        settled_up_to(old(table)@, *space, twists, origin, d as int),
        unset_beyond(old(table)@, *space, twists, origin, d as nat),
    ensures
        final(table)@.len() == old(table)@.len(),
        final(table)@[origin as int] == 0,
        settled_up_to(final(table)@, *space, twists, origin, d + 1),
        unset_beyond(final(table)@, *space, twists, origin, d as nat),
        expanded_up_to(final(table)@, *space, twists, d, final(table)@.len() as usize),
        !r.0 ==> settled_up_to(final(table)@, *space, twists, origin, d as int),
{
    let index_size = table.len();
    let mut changed = false;
    let mut count: usize = 0;
    let mut i: usize = 0;
    while i < index_size
        invariant
            d < 254,
            0 <= i <= index_size,
            space.well_formed(),
            twists.well_formed(),
            is_reversible(*space, twists),
            index_size == space.spec_size(),
            table@.len() == index_size,
            origin < index_size,
            table@[origin as int] == 0,
            forall|k: int| 0 <= k < turns@.len() ==> twists.spec_contains(#[trigger] turns@[k]),
            forall|t: Twist| twists.spec_contains(t) ==> turns@.contains(t),
            settled_up_to(table@, *space, twists, origin, d + 1),
            unset_beyond(table@, *space, twists, origin, d as nat),
            pulled_up_to(table@, *space, twists, d, i),
            !changed ==> settled_up_to(table@, *space, twists, origin, d as int),
        decreases index_size - i,
    {
        if table[i] == SENTINEL {
            let mut k: usize = 0;
            let mut found = false;
            while k < turns.len() && !found
                invariant
                    d < 254,
                    i < index_size,
                    0 <= k <= turns@.len(),
                    space.well_formed(),
                    twists.well_formed(),
                    is_reversible(*space, twists),
                    index_size == space.spec_size(),
                    table@.len() == index_size,
                    origin < index_size,
                    table@[origin as int] == 0,
                    forall|k: int|
                        0 <= k < turns@.len() ==> twists.spec_contains(#[trigger] turns@[k]),
                    settled_up_to(table@, *space, twists, origin, d + 1),
                    unset_beyond(table@, *space, twists, origin, d as nat),
                    pulled_up_to(table@, *space, twists, d, i),
                    found ==> table@[i as int] != SENTINEL,
                    !found ==> table@[i as int] == SENTINEL,
                    !found ==> forall|a: int|
                        0 <= a < k ==> table@[(#[trigger] space.spec_step(i, turns@[a])) as int] != d,
                    !changed ==> settled_up_to(table@, *space, twists, origin, d as int),
                decreases turns@.len() - k,
            {
                let twist = turns[k];
                let from = space.step(i, twist);
                if table[from] == d {
                    let ghost before = table@;
                    table[i] = d + 1;
                    changed = true;
                    found = true;
                    if count < index_size {
                        count += 1;
                    }
                    proof {
                        let after = table@;
                        let back = spec_inversed(twist);
                        assert(after == before.update(i as int, (d + 1) as u8));
                        assert(is_settled(before, *space, twists, origin, from));
                        assert(twists.spec_contains(back));
                        assert(space.spec_step(from, back) == i);
                        lemma_reaches_step(*space, twists, origin, from, back, d as nat);
                        assert(is_settled(after, *space, twists, origin, i));
                        assert forall|j: usize|
                            j < after.len() && #[trigger] after[j as int] != SENTINEL implies after[j as int]
                                <= d + 1 && is_settled(after, *space, twists, origin, j) by {
                            if j != i {
                                assert(before[j as int] != SENTINEL);
                                lemma_settled_after_update(
                                    before,
                                    *space,
                                    twists,
                                    origin,
                                    i,
                                    (d + 1) as u8,
                                    j,
                                );
                            }
                        }
                        assert forall|j: usize|
                            j < after.len() && #[trigger] after[j as int] == SENTINEL implies !reaches(
                            *space,
                            twists,
                            origin,
                            j,
                            d as nat,
                        ) by {
                            assert(before[j as int] == SENTINEL);
                        }
                        assert forall|a: usize, t: Twist|
                            a < i && a < after.len() && after[a as int] == SENTINEL
                                && twists.spec_contains(t) implies after[(
                        #[trigger] space.spec_step(a, t)) as int] != d by {
                            assert(before[a as int] == SENTINEL);
                            space.lemma_step_in_range(a, t);
                        }
                    }
                }
                k += 1;
            }
            proof {
                assert forall|a: usize, t: Twist|
                    a < i + 1 && a < table@.len() && table@[a as int] == SENTINEL
                        && twists.spec_contains(t) implies table@[(
                #[trigger] space.spec_step(a, t)) as int] != d by {
                    if a == i {
                        assert(turns@.contains(t));
                        let w = choose|w: int| 0 <= w < turns@.len() && turns@[w] == t;
                        assert(table@[space.spec_step(i, turns@[w]) as int] != d);
                    }
                }
            }
        }
        i += 1;
    }
    proof {
        lemma_pulled_is_expanded(table@, *space, twists, d);
    }
    (changed, count)
}

/// Whether `m` is the greatest of the entries.
pub open spec fn is_greatest(entries: Seq<u8>, m: u8) -> bool {
    &&& forall|i: int| 0 <= i < entries.len() ==> entries[i] <= m
    &&& exists|i: int| 0 <= i < entries.len() && entries[i] == m
}

/// `ParallelIterator::max` on the items of a vector that is not empty gives
/// the greatest of them.
#[verifier::external_body]
fn greatest(vec: &Vec<u8>) -> (m: u8)
    requires
        vec@.len() > 0,
    ensures
        is_greatest(vec@, m),
{
    *vec.par_iter().max().unwrap()
}

/// `into_par_iter` on the range from 0 to `n` gives its numbers, `map` runs
/// `entry` once on each of them, on several threads, and `collect` puts
/// what came back into a vector in the order of the numbers.
#[verifier::external_body]
pub(crate) fn collect_entries<T: Send, F: Fn(usize) -> T + Sync>(n: usize, entry: &F) -> (r: Vec<T>)
    requires
        forall|i: usize| i < n ==> entry.requires((i,)),
    ensures
        r@.len() == n,
        forall|i: usize| i < n ==> entry.ensures((i,), #[trigger] r@[i as int]),
{
    (0..n).into_par_iter().map(|i| entry(i)).collect()
}

/// For every state of a space its distance from the origin, one byte each.
pub struct DistanceTable {
    table: Vec<u8>,
    max_distance: u8,
}

impl View for DistanceTable {
    type V = Seq<u8>;

    /// The entries, state by state.
    closed spec fn view(&self) -> Seq<u8> {
        self.table@
    }
}

impl DistanceTable {
    /// The greatest entry as it was found when the table was made.
    pub closed spec fn spec_max_distance(&self) -> u8 {
        self.max_distance
    }

    /// Whether the table has an entry and `spec_max_distance` is its greatest.
    pub open spec fn well_formed(&self) -> bool {
        &&& self@.len() > 0
        &&& is_greatest(self@, self.spec_max_distance())
    }

    /// The table of the distances from `origin` in turns of `twists`, in the
    /// space of the states that `from_index` and `index` number.
    pub fn create<Obj, F, G>(
        twists: Twists,
        origin: Obj,
        index: F,
        from_index: G,
        index_size: usize,
    ) -> (r: Self) where Obj: Twistable + Copy, F: Fn(Obj) -> usize, G: Fn(usize) -> Obj
        requires
            twists.well_formed(),
            origin.well_formed(),
            is_state_space(index, from_index, index_size),
        ensures
            r@.len() == index_size,
            r.well_formed(),
            exists|o: usize|
                #[trigger] index.ensures((origin,), o) && is_distance_table(
                    r@,
                    (Numbered { index, from_index, size: index_size }),
                    twists,
                    o,
                ),
    {
        let start = index(origin);
        let space = Numbered { index, from_index, size: index_size };
        Self::create_in(&space, twists, start)
    }

    /// The table of the distances from `origin` in turns of `twists`, found
    /// level by level: the states at distance d + 1 are those not yet set to
    /// which a turn leads from a state at distance d.
    pub fn create_in<S: StateSpace>(space: &S, twists: Twists, origin: usize) -> (r: Self)
        requires
            space.well_formed(),
            twists.well_formed(),
            origin < space.spec_size(),
        ensures
            r.well_formed(),
            is_distance_table(r@, *space, twists, origin),
    {
        let table = Self::search(space, twists, origin, false);
        Self::from_vec(table)
    }

    /// The same table for a space in which every turn of `twists` can be
    /// undone by a turn of `twists`. There the search may go through the
    /// states that are not set, which are few at the far levels, in place of
    /// the states of the level.
    pub fn create_in_reversible<S: StateSpace>(space: &S, twists: Twists, origin: usize) -> (r: Self)
        requires
            space.well_formed(),
            twists.well_formed(),
            origin < space.spec_size(),
            is_reversible(*space, twists),
        ensures
            r.well_formed(),
            is_distance_table(r@, *space, twists, origin),
    {
        let table = Self::search(space, twists, origin, true);
        Self::from_vec(table)
    }

    /// The entries of the table that `create_in` makes.
    #[verifier::rlimit(50)]
    pub(crate) fn search<S: StateSpace>(
        space: &S,
        twists: Twists,
        origin: usize,
        reversible: bool,
    ) -> (table: Vec<u8>)
        requires
            space.well_formed(),
            twists.well_formed(),
            origin < space.spec_size(),
            reversible ==> is_reversible(*space, twists),
        ensures
            is_distance_table(table@, *space, twists, origin),
    {
        let index_size = space.size();
        let mut table: Vec<u8> = vec![SENTINEL; index_size];
        table[origin] = 0;
        let turns = twists.iter();
        let mut level: usize = 1;
        let mut unset: usize = index_size - 1;
        let mut d: u8 = 0;
        while d < SENTINEL - 1
            invariant
                d <= 254,
                reversible ==> is_reversible(*space, twists),
                space.well_formed(),
                twists.well_formed(),
                index_size == space.spec_size(),
                table@.len() == index_size,
                origin < index_size,
                table@[origin as int] == 0,
                forall|k: int| 0 <= k < turns@.len() ==> twists.spec_contains(#[trigger] turns@[k]),
                forall|t: Twist| twists.spec_contains(t) ==> turns@.contains(t),
                settled_up_to(table@, *space, twists, origin, d as int),
                unset_beyond(table@, *space, twists, origin, d as nat),
            ensures
                is_distance_table(table@, *space, twists, origin),
            decreases 254 - d,
        {
            let mut changed = false;
            let mut found: usize = 0;
            let mut i: usize = 0;
            if reversible && unset < level {
                let pulled = pull_level(space, twists, &turns, origin, &mut table, d);
                changed = pulled.0;
                found = pulled.1;
                i = index_size;
            }
            while i < index_size
                invariant
                    d < 254,
                    0 <= i <= index_size,
                    space.well_formed(),
                    twists.well_formed(),
                    index_size == space.spec_size(),
                    table@.len() == index_size,
                    origin < index_size,
                    table@[origin as int] == 0,
                    forall|k: int|
                        0 <= k < turns@.len() ==> twists.spec_contains(#[trigger] turns@[k]),
                    forall|t: Twist| twists.spec_contains(t) ==> turns@.contains(t),
                    settled_up_to(table@, *space, twists, origin, d + 1),
                    unset_beyond(table@, *space, twists, origin, d as nat),
                    expanded_up_to(table@, *space, twists, d, i),
                    !changed ==> settled_up_to(table@, *space, twists, origin, d as int),
                decreases index_size - i,
            {
                if table[i] == d {
                    let mut k: usize = 0;
                    while k < turns.len()
                        invariant
                            d < 254,
                            i < index_size,
                            0 <= k <= turns@.len(),
                            space.well_formed(),
                            twists.well_formed(),
                            index_size == space.spec_size(),
                            table@.len() == index_size,
                            origin < index_size,
                            table@[origin as int] == 0,
                            table@[i as int] == d,
                            forall|k: int|
                                0 <= k < turns@.len() ==> twists.spec_contains(#[trigger] turns@[k]),
                            settled_up_to(table@, *space, twists, origin, d + 1),
                            unset_beyond(table@, *space, twists, origin, d as nat),
                            expanded_up_to(table@, *space, twists, d, i),
                            forall|a: int|
                                0 <= a < k ==> table@[(#[trigger] space.spec_step(i, turns@[a])) as int]
                                    != SENTINEL,
                            !changed ==> settled_up_to(table@, *space, twists, origin, d as int),
                        decreases turns@.len() - k,
                    {
                        let twist = turns[k];
                        let next = space.step(i, twist);
                        if table[next] == SENTINEL {
                            let ghost before = table@;
                            table[next] = d + 1;
                            changed = true;
                            if found < index_size {
                                found += 1;
                            }
                            proof {
                                let after = table@;
                                assert(after == before.update(next as int, (d + 1) as u8));
                                assert(is_settled(before, *space, twists, origin, i));
                                lemma_reaches_step(*space, twists, origin, i, twist, d as nat);
                                assert(is_settled(after, *space, twists, origin, next));
                                assert forall|j: usize|
                                    j < after.len() && #[trigger] after[j as int]
                                        != SENTINEL implies after[j as int] <= d + 1 && is_settled(
                                    after,
                                    *space,
                                    twists,
                                    origin,
                                    j,
                                ) by {
                                    if j != next {
                                        assert(before[j as int] != SENTINEL);
                                        lemma_settled_after_update(
                                            before,
                                            *space,
                                            twists,
                                            origin,
                                            next,
                                            (d + 1) as u8,
                                            j,
                                        );
                                    }
                                }
                                assert forall|j: usize|
                                    j < after.len() && #[trigger] after[j as int]
                                        == SENTINEL implies !reaches(
                                    *space,
                                    twists,
                                    origin,
                                    j,
                                    d as nat,
                                ) by {
                                    assert(before[j as int] == SENTINEL);
                                }
                                assert forall|a: usize, t: Twist|
                                    a < i && a < after.len() && after[a as int] == d
                                        && twists.spec_contains(t) implies after[(
                                #[trigger] space.spec_step(a, t)) as int] != SENTINEL by {
                                    assert(before[a as int] == d);
                                    space.lemma_step_in_range(a, t);
                                }
                                assert forall|a: int| 0 <= a < k implies after[(
                                #[trigger] space.spec_step(i, turns@[a])) as int] != SENTINEL by {
                                    space.lemma_step_in_range(i, turns@[a]);
                                }
                            }
                        }
                        k += 1;
                    }
                    proof {
                        assert forall|a: usize, t: Twist|
                            a < i + 1 && a < table@.len() && table@[a as int] == d
                                && twists.spec_contains(t) implies table@[(
                        #[trigger] space.spec_step(a, t)) as int] != SENTINEL by {
                            if a == i {
                                assert(turns@.contains(t));
                                let w = choose|w: int| 0 <= w < turns@.len() && turns@[w] == t;
                                assert(table@[space.spec_step(i, turns@[w]) as int] != SENTINEL);
                            }
                        }
                    }
                }
                i += 1;
            }
            proof {
                lemma_level_complete(table@, *space, twists, origin, d);
            }
            if !changed {
                proof {
                    assert forall|j: usize|
                        j < table@.len() && #[trigger] table@[j as int] == SENTINEL implies !reaches(
                        *space,
                        twists,
                        origin,
                        j,
                        254,
                    ) by {
                        lemma_search_complete(table@, *space, twists, origin, d, j, 254);
                    }
                }
                break ;
            }
            level = found;
            unset = if found <= unset {
                unset - found
            } else {
                0
            };
            d += 1;
        }
        table
    }

    /// The table with the entries `vec`.
    pub fn from_vec(vec: Vec<u8>) -> (r: Self)
        requires
            vec@.len() > 0,
        ensures
            r@ == vec@,
            r.well_formed(),
    {
        let max_distance = greatest(&vec);
        Self { table: vec, max_distance }
    }

    pub fn len(&self) -> (r: usize)
        ensures
            r == self@.len(),
    {
        self.table.len()
    }

    /// The entry of state `index`.
    pub fn distance(&self, index: usize) -> (r: u8)
        requires
            index < self@.len(),
        ensures
            r == self@[index as int],
    {
        self.table[index]
    }

    /// The greatest entry.
    pub fn max_distance(&self) -> (r: u8)
        ensures
            r == self.spec_max_distance(),
    {
        self.max_distance
    }
}

/// The number of entries of `entries` that are `v`.
pub open spec fn count_of(entries: Seq<u8>, v: int) -> nat
    decreases entries.len(),
{
    if entries.len() == 0 {
        0
    } else {
        count_of(entries.drop_last(), v) + if entries.last() == v {
            1nat
        } else {
            0nat
        }
    }
}

proof fn lemma_count_of_bound(entries: Seq<u8>, v: int)
    ensures
        count_of(entries, v) <= entries.len(),
    decreases entries.len(),
{
    if entries.len() > 0 {
        lemma_count_of_bound(entries.drop_last(), v);
    }
}

/// For each distance up to `max`, how many of `entries` have it.
fn count_distances(entries: &Vec<u8>, max: u8) -> (counts: Vec<u64>)
    requires
        forall|i: int| 0 <= i < entries@.len() ==> entries@[i] <= max,
    ensures
        counts@.len() == max + 1,
        forall|d: int| 0 <= d <= max ==> #[trigger] counts@[d] == count_of(entries@, d),
{
    let mut counts: Vec<u64> = vec![0u64; max as usize + 1];
    proof {
        assert(entries@.take(0) =~= Seq::<u8>::empty());
    }
    for i in 0..entries.len()
        invariant
            counts@.len() == max + 1,
            forall|i: int| 0 <= i < entries@.len() ==> entries@[i] <= max,
            forall|d: int|
                0 <= d <= max ==> #[trigger] counts@[d] == count_of(entries@.take(i as int), d),
    {
        let d = entries[i] as usize;
        proof {
            assert(entries@.take(i + 1).drop_last() =~= entries@.take(i as int));
            lemma_count_of_bound(entries@.take(i as int), d as int);
        }
        counts[d] = counts[d] + 1;
    }
    proof {
        assert(entries@.take(entries@.len() as int) =~= entries@);
    }
    counts
}

/// Whether the turn `t` leads from `cube` to a state whose entry is below `d`.
pub open spec fn leads_below<Obj: Twistable, F: Fn(Obj) -> usize>(
    table: Seq<u8>,
    index: F,
    cube: Obj,
    t: Twist,
    d: int,
) -> bool {
    exists|j: usize|
        #[trigger] index.ensures((cube.spec_twisted(t),), j) && j < table.len() && table[j as int]
            < d
}

/// Whether the turn `t` leads from `cube` to a state whose entry is `d` or more.
pub open spec fn leads_not_below<Obj: Twistable, F: Fn(Obj) -> usize>(
    table: Seq<u8>,
    index: F,
    cube: Obj,
    t: Twist,
    d: int,
) -> bool {
    exists|j: usize|
        #[trigger] index.ensures((cube.spec_twisted(t),), j) && j < table.len() && table[j as int]
            >= d
}

/// Whether `path` is the descent from `cube` that takes, `d` times, the first
/// turn of `twists` that leads to an entry below what is left of `d`, where
/// `index` gives the number of a state.
pub open spec fn is_descent_from<Obj: Twistable, F: Fn(Obj) -> usize>(
    table: Seq<u8>,
    index: F,
    twists: Twists,
    cube: Obj,
    d: nat,
    path: Seq<Twist>,
) -> bool
    decreases d,
{
    if d == 0 {
        path.len() == 0
    } else {
        &&& path.len() > 0
        &&& twists.spec_contains(path[0])
        &&& leads_below(table, index, cube, path[0], d as int)
        &&& forall|t: Twist|
            twists.spec_contains(t) && t.spec_index() < path[0].spec_index() ==> leads_not_below(
                table,
                index,
                cube,
                t,
                d as int,
            )
        &&& is_descent_from(
            table,
            index,
            twists,
            cube.spec_twisted(path[0]),
            (d - 1) as nat,
            path.skip(1),
        )
    }
}

/// Whether the descent from `cube` comes, within `d` steps, to a state from
/// which no turn of `twists` leads to an entry below what is left of `d`.
pub open spec fn is_stuck_from<Obj: Twistable, F: Fn(Obj) -> usize>(
    table: Seq<u8>,
    index: F,
    twists: Twists,
    cube: Obj,
    d: nat,
) -> bool
    decreases d,
{
    d > 0 && ((forall|t: Twist|
        twists.spec_contains(t) ==> leads_not_below(table, index, cube, t, d as int)) || exists|
        t: Twist,
    |
        {
            &&& twists.spec_contains(t)
            &&& #[trigger] leads_below(table, index, cube, t, d as int)
            &&& forall|u: Twist|
                twists.spec_contains(u) && u.spec_index() < t.spec_index() ==> leads_not_below(
                    table,
                    index,
                    cube,
                    u,
                    d as int,
                )
            &&& is_stuck_from(table, index, twists, cube.spec_twisted(t), (d - 1) as nat)
        })
}

/// Whether `path` is the descent from state `i` that takes, `d` times, the
/// first turn of `twists` that leads to an entry below what is left of `d`.
pub open spec fn is_descent<S: StateSpace>(
    table: Seq<u8>,
    space: S,
    twists: Twists,
    i: usize,
    d: nat,
    path: Seq<Twist>,
) -> bool
    decreases d,
{
    if d == 0 {
        path.len() == 0
    } else {
        &&& path.len() > 0
        &&& twists.spec_contains(path[0])
        &&& table[space.spec_step(i, path[0]) as int] < d
        &&& forall|t: Twist|
            twists.spec_contains(t) && t.spec_index() < path[0].spec_index() ==> table[(
            #[trigger] space.spec_step(i, t)) as int] >= d
        &&& is_descent(table, space, twists, space.spec_step(i, path[0]), (d - 1) as nat, path.skip(1))
    }
}

/// Whether the descent from state `i` comes, within `d` steps, to a state
/// from which no turn of `twists` leads to an entry below what is left of `d`.
pub open spec fn is_stuck<S: StateSpace>(
    table: Seq<u8>,
    space: S,
    twists: Twists,
    i: usize,
    d: nat,
) -> bool
    decreases d,
{
    d > 0 && ((forall|t: Twist|
        twists.spec_contains(t) ==> table[(#[trigger] space.spec_step(i, t)) as int] >= d) || exists|
        t: Twist,
    |
        {
            &&& twists.spec_contains(t)
            &&& table[(#[trigger] space.spec_step(i, t)) as int] < d
            &&& forall|u: Twist|
                twists.spec_contains(u) && u.spec_index() < t.spec_index() ==> table[(
                #[trigger] space.spec_step(i, u)) as int] >= d
            &&& is_stuck(table, space, twists, space.spec_step(i, t), (d - 1) as nat)
        })
}

/// A descent of no steps is not stuck, and it has no turn.
pub proof fn lemma_descent_of_nothing<S: StateSpace>(
    table: Seq<u8>,
    space: S,
    twists: Twists,
    i: usize,
    path: Seq<Twist>,
)
    ensures
        !is_stuck(table, space, twists, i, 0),
        is_descent(table, space, twists, i, 0, path) <==> path.len() == 0,
{
}

/// A descent has as many turns as it has steps, all of them turns of the set,
/// and it ends at a state whose entry is 0.
pub proof fn lemma_descent<S: StateSpace>(
    table: Seq<u8>,
    space: S,
    twists: Twists,
    i: usize,
    d: nat,
    path: Seq<Twist>,
)
    requires
        is_descent(table, space, twists, i, d, path),
    ensures
        path.len() == d,
        forall|k: int| 0 <= k < path.len() ==> twists.spec_contains(#[trigger] path[k]),
    decreases d,
{
    if d > 0 {
        lemma_descent(table, space, twists, space.spec_step(i, path[0]), (d - 1) as nat, path.skip(1));
        assert forall|k: int| 0 <= k < path.len() implies twists.spec_contains(#[trigger] path[k]) by {
            if k > 0 {
                assert(path[k] == path.skip(1)[k - 1]);
            }
        }
    }
}

/// There is at most one descent.
pub proof fn lemma_descent_unique<S: StateSpace>(
    table: Seq<u8>,
    space: S,
    twists: Twists,
    i: usize,
    d: nat,
    first: Seq<Twist>,
    second: Seq<Twist>,
)
    requires
        is_descent(table, space, twists, i, d, first),
        is_descent(table, space, twists, i, d, second),
    ensures
        first == second,
    decreases d,
{
    if d > 0 {
        let a = first[0];
        let b = second[0];
        if a.spec_index() < b.spec_index() {
            assert(table[space.spec_step(i, a) as int] >= d);
        }
        if b.spec_index() < a.spec_index() {
            assert(table[space.spec_step(i, b) as int] >= d);
        }
        lemma_twist_index(a);
        lemma_twist_index(b);
        lemma_descent_unique(
            table,
            space,
            twists,
            space.spec_step(i, a),
            (d - 1) as nat,
            first.skip(1),
            second.skip(1),
        );
        lemma_descent(table, space, twists, i, d, first);
        lemma_descent(table, space, twists, i, d, second);
        assert forall|k: int| 0 <= k < first.len() implies first[k] == second[k] by {
            if k > 0 {
                assert(first[k] == first.skip(1)[k - 1]);
                assert(second[k] == second.skip(1)[k - 1]);
            }
        }
    }
    assert(first =~= second);
}

/// Where the descent gets stuck there is no descent.
pub proof fn lemma_stuck_has_no_descent<S: StateSpace>(
    table: Seq<u8>,
    space: S,
    twists: Twists,
    i: usize,
    d: nat,
    path: Seq<Twist>,
)
    requires
        is_stuck(table, space, twists, i, d),
    ensures
        !is_descent(table, space, twists, i, d, path),
    decreases d,
{
    if is_descent(table, space, twists, i, d, path) {
        let a = path[0];
        if forall|t: Twist|
            twists.spec_contains(t) ==> table[(#[trigger] space.spec_step(i, t)) as int] >= d {
            assert(table[space.spec_step(i, a) as int] >= d);
        } else {
            let t = choose|t: Twist|
                {
                    &&& twists.spec_contains(t)
                    &&& table[(#[trigger] space.spec_step(i, t)) as int] < d
                    &&& forall|u: Twist|
                        twists.spec_contains(u) && u.spec_index() < t.spec_index() ==> table[(
                        #[trigger] space.spec_step(i, u)) as int] >= d
                    &&& is_stuck(table, space, twists, space.spec_step(i, t), (d - 1) as nat)
                };
            if a.spec_index() < t.spec_index() {
                assert(table[space.spec_step(i, a) as int] >= d);
            }
            if t.spec_index() < a.spec_index() {
                assert(table[space.spec_step(i, t) as int] >= d);
            }
            lemma_twist_index(a);
            lemma_twist_index(t);
            lemma_stuck_has_no_descent(
                table,
                space,
                twists,
                space.spec_step(i, t),
                (d - 1) as nat,
                path.skip(1),
            );
        }
    }
}

impl DistanceTable {
    /// The entries, as they go to a file: one byte for each state.
    pub fn bytes(&self) -> (r: &Vec<u8>)
        ensures
            r@ == self@,
    {
        &self.table
    }

    /// For each distance up to the greatest, how many states have it.
    pub fn histogram(&self) -> (counts: Vec<u64>)
        requires
            self.well_formed(),
        ensures
            counts@.len() == self.spec_max_distance() + 1,
            forall|d: int|
                0 <= d <= self.spec_max_distance() ==> #[trigger] counts@[d] == count_of(self@, d),
    {
        count_distances(&self.table, self.max_distance)
    }

    /// The turns of a descent from `cube` to a state with entry 0: as many
    /// turns as the entry of `cube` says, each the first turn of `twists` that
    /// leads below what is left of that number. It is for a table and a cube
    /// that have such a turn at every step; `descent` is for any.
    pub fn solution<Obj, F>(&self, cube: Obj, twists: Twists, index: F) -> (r: Vec<Twist>) where
        Obj: Twistable + Copy,
        F: Fn(Obj) -> usize,

        requires
            twists.well_formed(),
            cube.well_formed(),
            forall|o: Obj| o.well_formed() ==> index.requires((o,)),
            forall|o: Obj, j: usize| #[trigger] index.ensures((o,), j) ==> j < self@.len(),
            forall|j: usize| #[trigger]
                index.ensures((cube,), j) ==> !is_stuck_from(
                    self@,
                    index,
                    twists,
                    cube,
                    self@[j as int] as nat,
                ),
        ensures
            exists|j: usize|
                #[trigger] index.ensures((cube,), j) && j < self@.len() && is_descent_from(
                    self@,
                    index,
                    twists,
                    cube,
                    self@[j as int] as nat,
                    r@,
                ),
    {
        let distance = self.distance(index(cube));
        match self.descend_from(cube, twists, &index, distance) {
            Some(path) => path,
            None => {
                proof {
                    assert(is_stuck_from(self@, index, twists, cube, distance as nat));
                    assert(false);
                }
                Vec::new()
            },
        }
    }

    /// The turns of a descent from `cube` to a state with entry 0: as many
    /// turns as the entry of `cube` says, each the first turn of `twists` that
    /// leads below what is left of that number. `None` where the table has no
    /// such turn at some step.
    pub fn descent<Obj, F>(&self, cube: Obj, twists: Twists, index: F) -> (r: Option<Vec<Twist>>) where
        Obj: Twistable + Copy,
        F: Fn(Obj) -> usize,

        requires
            twists.well_formed(),
            cube.well_formed(),
            forall|o: Obj| o.well_formed() ==> index.requires((o,)),
            forall|o: Obj, j: usize| #[trigger] index.ensures((o,), j) ==> j < self@.len(),
        ensures
            exists|j: usize|
                #[trigger] index.ensures((cube,), j) && j < self@.len() && match r {
                    Some(path) => is_descent_from(
                        self@,
                        index,
                        twists,
                        cube,
                        self@[j as int] as nat,
                        path@,
                    ),
                    None => is_stuck_from(self@, index, twists, cube, self@[j as int] as nat),
                },
    {
        let distance = self.distance(index(cube));
        self.descend_from(cube, twists, &index, distance)
    }

    /// The descent of `d` steps from `cube`.
    fn descend_from<Obj, F>(&self, cube: Obj, twists: Twists, index: &F, d: u8) -> (r: Option<
        Vec<Twist>,
    >) where Obj: Twistable + Copy, F: Fn(Obj) -> usize
        requires
            twists.well_formed(),
            cube.well_formed(),
            forall|o: Obj| o.well_formed() ==> index.requires((o,)),
            forall|o: Obj, j: usize| #[trigger] index.ensures((o,), j) ==> j < self@.len(),
        ensures
            match r {
                Some(path) => is_descent_from(self@, *index, twists, cube, d as nat, path@),
                None => is_stuck_from(self@, *index, twists, cube, d as nat),
            },
        decreases d,
    {
        if d == 0 {
            return Some(Vec::new());
        }
        let turns = twists.iter();
        for k in 0..turns.len()
            invariant
                d > 0,
                twists.well_formed(),
                cube.well_formed(),
                forall|o: Obj| o.well_formed() ==> index.requires((o,)),
                forall|o: Obj, j: usize| #[trigger] index.ensures((o,), j) ==> j < self@.len(),
                forall|a: int| 0 <= a < turns@.len() ==> twists.spec_contains(#[trigger] turns@[a]),
                forall|a: int, b: int|
                    0 <= a < b < turns@.len() ==> turns@[a].spec_index() < turns@[b].spec_index(),
                forall|t: Twist| twists.spec_contains(t) ==> turns@.contains(t),
                forall|a: int|
                    0 <= a < k ==> leads_not_below(self@, *index, cube, #[trigger] turns@[a], d as int),
        {
            let twist = turns[k];
            let next = cube.twisted(twist);
            let next_d = self.distance(index(next));
            if next_d < d {
                proof {
                    assert(leads_below(self@, *index, cube, twist, d as int));
                    assert forall|t: Twist|
                        twists.spec_contains(t) && t.spec_index()
                            < twist.spec_index() implies leads_not_below(
                        self@,
                        *index,
                        cube,
                        t,
                        d as int,
                    ) by {
                        let a = choose|a: int| 0 <= a < turns@.len() && turns@[a] == t;
                        if a > k {
                            assert(turns@[k as int].spec_index() < turns@[a].spec_index());
                        }
                    }
                }
                match self.descend_from(next, twists, index, d - 1) {
                    Some(rest) => {
                        let mut path: Vec<Twist> = Vec::with_capacity(d as usize);
                        path.push(twist);
                        let mut rest = rest;
                        let ghost tail = rest@;
                        path.append(&mut rest);
                        proof {
                            assert(path@.skip(1) =~= tail);
                        }
                        return Some(path);
                    },
                    None => {
                        return None;
                    },
                }
            }
        }
        proof {
            assert forall|t: Twist| twists.spec_contains(t) implies leads_not_below(
                self@,
                *index,
                cube,
                t,
                d as int,
            ) by {
                let a = choose|a: int| 0 <= a < turns@.len() && turns@[a] == t;
                assert(leads_not_below(self@, *index, cube, turns@[a], d as int));
            }
        }
        None
    }

    /// The turns of a descent from state `i` to a state with entry 0; `None`
    /// where the table has no turn that leads nearer at some step.
    pub fn solution_in<S: StateSpace>(&self, space: &S, twists: Twists, i: usize) -> (r: Option<
        Vec<Twist>,
    >)
        requires
            space.well_formed(),
            twists.well_formed(),
            space.spec_size() == self@.len(),
            i < self@.len(),
        ensures
            match r {
                Some(path) => is_descent(self@, *space, twists, i, self@[i as int] as nat, path@),
                None => is_stuck(self@, *space, twists, i, self@[i as int] as nat),
            },
    {
        let distance = self.distance(i);
        self.descend(space, twists, i, distance)
    }

    /// The descent of `d` steps from state `i`.
    fn descend<S: StateSpace>(&self, space: &S, twists: Twists, i: usize, d: u8) -> (r: Option<
        Vec<Twist>,
    >)
        requires
            space.well_formed(),
            twists.well_formed(),
            space.spec_size() == self@.len(),
            i < self@.len(),
        ensures
            match r {
                Some(path) => is_descent(self@, *space, twists, i, d as nat, path@),
                None => is_stuck(self@, *space, twists, i, d as nat),
            },
        decreases d,
    {
        if d == 0 {
            return Some(Vec::new());
        }
        let turns = twists.iter();
        for k in 0..turns.len()
            invariant
                d > 0,
                space.well_formed(),
                twists.well_formed(),
                space.spec_size() == self@.len(),
                i < self@.len(),
                forall|a: int| 0 <= a < turns@.len() ==> twists.spec_contains(#[trigger] turns@[a]),
                forall|a: int, b: int|
                    0 <= a < b < turns@.len() ==> turns@[a].spec_index() < turns@[b].spec_index(),
                forall|t: Twist| twists.spec_contains(t) ==> turns@.contains(t),
                forall|a: int|
                    0 <= a < k ==> self@[(#[trigger] space.spec_step(i, turns@[a])) as int] >= d,
        {
            let twist = turns[k];
            let next = space.step(i, twist);
            let next_d = self.distance(next);
            if next_d < d {
                proof {
                    assert forall|t: Twist|
                        twists.spec_contains(t) && t.spec_index() < twist.spec_index() implies self@[(
                    #[trigger] space.spec_step(i, t)) as int] >= d by {
                        let a = choose|a: int| 0 <= a < turns@.len() && turns@[a] == t;
                        if a > k {
                            assert(turns@[k as int].spec_index() < turns@[a].spec_index());
                        }
                        assert(self@[space.spec_step(i, turns@[a]) as int] >= d);
                    }
                }
                match self.descend(space, twists, next, d - 1) {
                    Some(rest) => {
                        let mut path: Vec<Twist> = Vec::with_capacity(d as usize);
                        path.push(twist);
                        let mut rest = rest;
                        let ghost tail = rest@;
                        path.append(&mut rest);
                        proof {
                            assert(path@.skip(1) =~= tail);
                        }
                        return Some(path);
                    },
                    None => {
                        return None;
                    },
                }
            }
        }
        proof {
            assert forall|t: Twist| twists.spec_contains(t) implies self@[(
            #[trigger] space.spec_step(i, t)) as int] >= d by {
                let a = choose|a: int| 0 <= a < turns@.len() && turns@[a] == t;
                assert(self@[space.spec_step(i, turns@[a]) as int] >= d);
            }
        }
        None
    }
}

/// The entry of a state in a directions table: its distance in the lowest
/// byte, above it in 24 bits the turns that lead away from the origin, and in
/// the high 32 bits the turns that lead nearer to it.
pub struct DirectionsAndDistance(u64);

proof fn lemma_packed(less: u32, more: u32, distance: u8)
    by (bit_vector)
    requires
        more < 0x1000000,
    ensures
        (((((less as u64) << 32) | ((more as u64) << 8) | (distance as u64)) >> 32) as u32) == less,
        ((((((less as u64) << 32) | ((more as u64) << 8) | (distance as u64)) >> 8) & 0xFFFFFF) as u32)
            == more,
        (((((less as u64) << 32) | ((more as u64) << 8) | (distance as u64)) & 0xFF) as u8)
            == distance,
{
}

proof fn lemma_unpacked(value: u64)
    by (bit_vector)
    ensures
        (value >> 32) <= 0xFFFFFFFF,
        ((value >> 8) & 0xFFFFFF) <= 0xFFFFFF,
        (value & 0xFF) <= 0xFF,
{
}

impl DirectionsAndDistance {
    /// The 64 bits of the entry.
    pub closed spec fn spec_value(&self) -> u64 {
        self.0
    }

    /// The distance: the lowest byte.
    pub open spec fn spec_distance(&self) -> u8 {
        (self.spec_value() & 0xFF) as u8
    }

    /// The turns that lead nearer: the high 32 bits.
    pub open spec fn spec_less(&self) -> Twists {
        Twists::spec_from_bits((self.spec_value() >> 32) as u32)
    }

    /// The turns that lead away: the 24 bits above the lowest byte.
    pub open spec fn spec_more(&self) -> Twists {
        Twists::spec_from_bits(((self.spec_value() >> 8) & 0xFFFFFF) as u32)
    }

    pub fn new(less: Twists, more: Twists, distance: u8) -> (r: Self)
        ensures
            r.spec_value() == ((less.spec_bits() as u64) << 32) | ((more.spec_bits() as u64) << 8) | (
            distance as u64),
            more.spec_bits() < 0x1000000 ==> r.spec_less() == less && r.spec_more() == more
                && r.spec_distance() == distance,
    {
        proof {
            if more.spec_bits() < 0x1000000 {
                lemma_packed(less.spec_bits(), more.spec_bits(), distance);
                less.lemma_bits_determine();
                more.lemma_bits_determine();
            }
        }
        Self(((less.bits() as u64) << 32) | ((more.bits() as u64) << 8) | (distance as u64))
    }

    pub fn from_u64(value: u64) -> (r: Self)
        ensures
            r.spec_value() == value,
    {
        Self(value)
    }

    /// The 64 bits of the entry.
    pub fn value(&self) -> (r: u64)
        ensures
            r == self.spec_value(),
    {
        self.0
    }

    /// The turns that lead nearer to the origin.
    pub fn less_distance(&self) -> (r: Twists)
        ensures
            r == self.spec_less(),
    {
        proof {
            lemma_unpacked(self.0);
        }
        Twists::from_bits((self.0 >> 32) as u32)
    }

    /// The turns that lead away from the origin.
    pub fn more_distance(&self) -> (r: Twists)
        ensures
            r == self.spec_more(),
    {
        proof {
            lemma_unpacked(self.0);
        }
        Twists::from_bits(((self.0 >> 8) & 0xFF_FF_FF) as u32)
    }

    pub fn distance(&self) -> (r: u8)
        ensures
            r == self.spec_distance(),
    {
        proof {
            lemma_unpacked(self.0);
        }
        (self.0 & 0xFF) as u8
    }
}


/// Whether `entry` is the entry of state `i` in the directions table over the
/// distances `distances`: the distance of the state, and the turns of
/// `twists` that lead to a smaller and to a greater distance.
pub open spec fn is_entry<S: StateSpace>(
    entry: DirectionsAndDistance,
    space: S,
    distances: Seq<u8>,
    twists: Twists,
    i: usize,
) -> bool {
    &&& entry.spec_distance() == distances[i as int]
    &&& forall|t: Twist|
        #![trigger entry.spec_less().spec_contains(t)]
        #![trigger entry.spec_more().spec_contains(t)]
        {
            &&& entry.spec_less().spec_contains(t) <==> twists.spec_contains(t)
                && distances[space.spec_step(i, t) as int] < distances[i as int]
            &&& entry.spec_more().spec_contains(t) <==> twists.spec_contains(t)
                && distances[space.spec_step(i, t) as int] > distances[i as int]
        }
}

/// The entry of state `i`, from the distances of the states that the turns
/// `turns` lead to.
fn directions_entry<S: StateSpace>(
    space: &S,
    distances: &Vec<u8>,
    turns: &Vec<Twist>,
    twists: Twists,
    i: usize,
) -> (entry: DirectionsAndDistance)
    requires
        space.well_formed(),
        twists.well_formed(),
        distances@.len() == space.spec_size(),
        i < distances@.len(),
        forall|a: int| 0 <= a < turns@.len() ==> twists.spec_contains(#[trigger] turns@[a]),
        forall|t: Twist| twists.spec_contains(t) ==> turns@.contains(t),
    ensures
        is_entry(entry, *space, distances@, twists, i),
{
    let d = distances[i];
    let mut less = Twists::empty();
    let mut more = Twists::empty();

    for k in 0..turns.len()
        invariant
            space.well_formed(),
            twists.well_formed(),
            distances@.len() == space.spec_size(),
            i < distances@.len(),
            d == distances@[i as int],
            less.well_formed(),
            more.well_formed(),
            forall|a: int| 0 <= a < turns@.len() ==> twists.spec_contains(#[trigger] turns@[a]),
            forall|t: Twist|
                #![trigger less.spec_contains(t)]
                #![trigger more.spec_contains(t)]
                {
                    &&& less.spec_contains(t) <==> (exists|a: int| 0 <= a < k && turns@[a] == t)
                        && distances@[space.spec_step(i, t) as int] < d
                    &&& more.spec_contains(t) <==> (exists|a: int| 0 <= a < k && turns@[a] == t)
                        && distances@[space.spec_step(i, t) as int] > d
                },
    {
        let twist = turns[k];
        let next_d = distances[space.step(i, twist)];
        if next_d < d {
            less.set(twist);
        } else if next_d > d {
            more.set(twist);
        }
        proof {
            assert forall|t: Twist|
                #![trigger less.spec_contains(t)]
                #![trigger more.spec_contains(t)]
                {
                    &&& less.spec_contains(t) <==> (exists|a: int| 0 <= a < k + 1 && turns@[a] == t)
                        && distances@[space.spec_step(i, t) as int] < d
                    &&& more.spec_contains(t) <==> (exists|a: int| 0 <= a < k + 1 && turns@[a] == t)
                        && distances@[space.spec_step(i, t) as int] > d
                } by {
                if t == twist {
                    assert(turns@[k as int] == t);
                } else {
                    if exists|a: int| 0 <= a < k + 1 && turns@[a] == t {
                        let a = choose|a: int| 0 <= a < k + 1 && turns@[a] == t;
                        assert(0 <= a < k && turns@[a] == t);
                    }
                }
            }
        }
    }
    let entry = DirectionsAndDistance::new(less, more, d);
    proof {
        assert(more.spec_bits() < 0x1000000);
        assert forall|t: Twist|
            #![trigger entry.spec_less().spec_contains(t)]
            #![trigger entry.spec_more().spec_contains(t)]
            {
                &&& entry.spec_less().spec_contains(t) <==> twists.spec_contains(t)
                    && distances@[space.spec_step(i, t) as int] < distances@[i as int]
                &&& entry.spec_more().spec_contains(t) <==> twists.spec_contains(t)
                    && distances@[space.spec_step(i, t) as int] > distances@[i as int]
            } by {
            if twists.spec_contains(t) {
                assert(turns@.contains(t));
                let w = choose|w: int| 0 <= w < turns@.len() && turns@[w] == t;
                assert(0 <= w < turns@.len() && turns@[w] == t);
            }
            if exists|w: int| 0 <= w < turns@.len() && turns@[w] == t {
                let w = choose|w: int| 0 <= w < turns@.len() && turns@[w] == t;
                assert(twists.spec_contains(turns@[w]));
            }
        }
    }
    entry
}

/// For every state of a space its distance from the origin and the turns that
/// lead nearer to the origin and away from it.
pub struct DirectionsTable {
    table: Vec<DirectionsAndDistance>,
    max_distance: u8,
}

impl View for DirectionsTable {
    type V = Seq<DirectionsAndDistance>;

    /// The entries, state by state.
    closed spec fn view(&self) -> Seq<DirectionsAndDistance> {
        self.table@
    }
}

/// The distances of the entries.
pub open spec fn distances_of(entries: Seq<DirectionsAndDistance>) -> Seq<u8> {
    Seq::new(entries.len(), |i: int| entries[i].spec_distance())
}

/// Whether the entry of each state names as leading nearer exactly the turns
/// of `twists` that lead to a state with a smaller distance, and as leading
/// away exactly those that lead to a state with a greater distance.
pub open spec fn is_directions_table<S: StateSpace>(
    entries: Seq<DirectionsAndDistance>,
    space: S,
    twists: Twists,
) -> bool {
    forall|i: usize, t: Twist|
        #![trigger entries[i as int].spec_less().spec_contains(t)]
        #![trigger entries[i as int].spec_more().spec_contains(t)]
        i < entries.len() ==> {
            &&& entries[i as int].spec_less().spec_contains(t) <==> twists.spec_contains(t)
                && entries[space.spec_step(i, t) as int].spec_distance()
                < entries[i as int].spec_distance()
            &&& entries[i as int].spec_more().spec_contains(t) <==> twists.spec_contains(t)
                && entries[space.spec_step(i, t) as int].spec_distance()
                > entries[i as int].spec_distance()
        }
}

impl DirectionsTable {
    /// The greatest distance as it was found when the table was made.
    pub closed spec fn spec_max_distance(&self) -> u8 {
        self.max_distance
    }

    /// Whether the table has an entry and `spec_max_distance` is the greatest
    /// distance in it.
    pub open spec fn well_formed(&self) -> bool {
        &&& self@.len() > 0
        &&& is_greatest(distances_of(self@), self.spec_max_distance())
    }

    /// The table of the distances from `origin` in turns of `twists`, and of
    /// the turns of `twists` that change the distance, in the space of the
    /// states that `from_index` and `index` number.
    pub fn create<Obj, F, G>(
        twists: Twists,
        origin: Obj,
        index: F,
        from_index: G,
        index_size: usize,
    ) -> (r: Self) where Obj: Twistable + Copy, F: Fn(Obj) -> usize + Sync, G: Fn(usize) -> Obj + Sync
        requires
            twists.well_formed(),
            origin.well_formed(),
            is_state_space(index, from_index, index_size),
        ensures
            r@.len() == index_size,
            r.well_formed(),
            exists|o: usize|
                #[trigger] index.ensures((origin,), o) && is_distance_table(
                    distances_of(r@),
                    (Numbered { index, from_index, size: index_size }),
                    twists,
                    o,
                ),
            is_directions_table(r@, (Numbered { index, from_index, size: index_size }), twists),
    {
        let start = index(origin);
        let space = Numbered { index, from_index, size: index_size };
        Self::create_in(&space, twists, start)
    }

    /// The table of the distances from `origin` in turns of `twists`, and for
    /// each state of the turns of `twists` that lead to a smaller and to a
    /// greater distance.
    pub fn create_in<S: StateSpace + Sync>(space: &S, twists: Twists, origin: usize) -> (r: Self)
        requires
            space.well_formed(),
            twists.well_formed(),
            origin < space.spec_size(),
        ensures
            r.well_formed(),
            is_distance_table(distances_of(r@), *space, twists, origin),
            is_directions_table(r@, *space, twists),
    {
        Self::build(space, twists, origin, false)
    }

    /// The same table for a space in which every turn of `twists` can be
    /// undone by a turn of `twists`, where the search may go through the
    /// states that are not set in place of the states of the level.
    pub fn create_in_reversible<S: StateSpace + Sync>(space: &S, twists: Twists, origin: usize) -> (r:
        Self)
        requires
            space.well_formed(),
            twists.well_formed(),
            origin < space.spec_size(),
            is_reversible(*space, twists),
        ensures
            r.well_formed(),
            is_distance_table(distances_of(r@), *space, twists, origin),
            is_directions_table(r@, *space, twists),
    {
        Self::build(space, twists, origin, true)
    }

    /// The distances by the search, and from them the entries one by one.
    fn build<S: StateSpace + Sync>(space: &S, twists: Twists, origin: usize, reversible: bool) -> (r:
        Self)
        requires
            space.well_formed(),
            twists.well_formed(),
            origin < space.spec_size(),
            reversible ==> is_reversible(*space, twists),
        ensures
            r.well_formed(),
            is_distance_table(distances_of(r@), *space, twists, origin),
            is_directions_table(r@, *space, twists),
    {
        let distances = DistanceTable::search(space, twists, origin, reversible);
        let index_size = distances.len();
        let turns = twists.iter();
        let entry = |i: usize| -> (e: DirectionsAndDistance)
            requires
                space.well_formed(),
                twists.well_formed(),
                distances@.len() == space.spec_size(),
                i < distances@.len(),
                forall|a: int| 0 <= a < turns@.len() ==> twists.spec_contains(#[trigger] turns@[a]),
                forall|t: Twist| twists.spec_contains(t) ==> turns@.contains(t),
            ensures
                is_entry(e, *space, distances@, twists, i),
            { directions_entry(space, &distances, &turns, twists, i) };
        let table = collect_entries(index_size, &entry);
        proof {
            assert forall|a: int| 0 <= a < table@.len() implies (#[trigger] table@[a]).spec_distance()
                == distances@[a] by {
                assert(is_entry(table@[a as usize as int], *space, distances@, twists, a as usize));
            }
            assert(distances_of(table@) =~= distances@);
        }
        let r = Self::from_vec(table);
        proof {
            assert forall|i: usize, t: Twist|
                #![trigger r@[i as int].spec_less().spec_contains(t)]
                #![trigger r@[i as int].spec_more().spec_contains(t)]
                i < r@.len() implies {
                    &&& r@[i as int].spec_less().spec_contains(t) <==> twists.spec_contains(t)
                        && r@[space.spec_step(i, t) as int].spec_distance()
                        < r@[i as int].spec_distance()
                    &&& r@[i as int].spec_more().spec_contains(t) <==> twists.spec_contains(t)
                        && r@[space.spec_step(i, t) as int].spec_distance()
                        > r@[i as int].spec_distance()
                } by {
                space.lemma_step_in_range(i, t);
                assert(is_entry(table@[i as int], *space, distances@, twists, i));
                assert(r@[i as int].spec_distance() == distances@[i as int]);
                assert(r@[space.spec_step(i, t) as int].spec_distance() == distances@[space.spec_step(
                    i,
                    t,
                ) as int]);
            }
        }
        r
    }

    /// The table with the entries `vec`.
    pub fn from_vec(vec: Vec<DirectionsAndDistance>) -> (r: Self)
        requires
            vec@.len() > 0,
        ensures
            r@ == vec@,
            r.well_formed(),
    {
        let mut max_distance = vec[0].distance();
        let ghost mut at: int = 0;
        for i in 1..vec.len()
            invariant
                0 <= at < i,
                vec@[at].spec_distance() == max_distance,
                forall|a: int| 0 <= a < i ==> (#[trigger] vec@[a]).spec_distance() <= max_distance,
        {
            let d = vec[i].distance();
            if d > max_distance {
                max_distance = d;
                proof {
                    at = i as int;
                }
            }
        }
        proof {
            assert(distances_of(vec@)[at] == max_distance);
        }
        Self { table: vec, max_distance }
    }

    /// The table that the bytes of a file hold: one entry for every eight
    /// bytes, lowest byte first; what is left of fewer than eight bytes at the
    /// end is not read.
    pub fn from_bytes(data: &[u8]) -> (r: Self)
        requires
            data@.len() >= 8,
        ensures
            r@.len() == data@.len() / 8,
            r.well_formed(),
            forall|i: int|
                0 <= i < r@.len() ==> (#[trigger] r@[i]).spec_value() == spec_u64_from_le_bytes(
                    data@.subrange(8 * i, 8 * i + 8),
                ),
    {
        let n = data.len() / 8;
        let mut table: Vec<DirectionsAndDistance> = Vec::with_capacity(n);
        for i in 0..n
            invariant
                n == data@.len() / 8,
                n * 8 <= data@.len() <= usize::MAX,
                table@.len() == i,
                forall|a: int|
                    0 <= a < i ==> (#[trigger] table@[a]).spec_value() == spec_u64_from_le_bytes(
                        data@.subrange(8 * a, 8 * a + 8),
                    ),
        {
            let chunk = slice_subrange(data, 8 * i, 8 * i + 8);
            let value = u64_from_le_bytes(chunk);
            table.push(DirectionsAndDistance::from_u64(value));
        }
        Self::from_vec(table)
    }

    /// The bytes that go to a file: eight for each entry, lowest byte first.
    pub fn to_bytes(&self) -> (data: Vec<u8>)
        requires
            self@.len() * 8 <= usize::MAX,
        ensures
            data@.len() == 8 * self@.len(),
            forall|i: int|
                0 <= i < self@.len() ==> data@.subrange(8 * i, 8 * i + 8) == spec_u64_to_le_bytes(
                    (#[trigger] self@[i]).spec_value(),
                ),
    {
        let mut data: Vec<u8> = Vec::with_capacity(self.table.len() * 8);
        for i in 0..self.table.len()
            invariant
                self@.len() * 8 <= usize::MAX,
                data@.len() == 8 * i,
                forall|a: int|
                    0 <= a < i ==> data@.subrange(8 * a, 8 * a + 8) == spec_u64_to_le_bytes(
                        (#[trigger] self@[a]).spec_value(),
                    ),
        {
            let ghost before = data@;
            let mut bytes = u64_to_le_bytes(self.table[i].value());
            let ghost added = bytes@;
            data.append(&mut bytes);
            proof {
                assert(data@ =~= before + added);
                assert(data@.subrange(8 * i, 8 * i + 8) =~= added);
                assert forall|a: int| 0 <= a < i implies data@.subrange(8 * a, 8 * a + 8)
                    == spec_u64_to_le_bytes((#[trigger] self@[a]).spec_value()) by {
                    assert(data@.subrange(8 * a, 8 * a + 8) =~= before.subrange(8 * a, 8 * a + 8));
                }
            }
        }
        data
    }

    pub fn len(&self) -> (r: usize)
        ensures
            r == self@.len(),
    {
        self.table.len()
    }

    /// The distance of state `index`.
    pub fn distance(&self, index: usize) -> (r: u8)
        requires
            index < self@.len(),
        ensures
            r == self@[index as int].spec_distance(),
    {
        self.table[index].distance()
    }

    /// The turns that lead from state `index` nearer to the origin.
    pub fn less_distance(&self, index: usize) -> (r: Twists)
        requires
            index < self@.len(),
        ensures
            r == self@[index as int].spec_less(),
    {
        self.table[index].less_distance()
    }

    /// The turns that lead from state `index` away from the origin.
    pub fn more_distance(&self, index: usize) -> (r: Twists)
        requires
            index < self@.len(),
        ensures
            r == self@[index as int].spec_more(),
    {
        self.table[index].more_distance()
    }

    /// The greatest distance.
    pub fn max_distance(&self) -> (r: u8)
        ensures
            r == self.spec_max_distance(),
    {
        self.max_distance
    }

    /// For each distance up to the greatest, how many states have it.
    pub fn histogram(&self) -> (counts: Vec<u64>)
        requires
            self.well_formed(),
        ensures
            counts@.len() == self.spec_max_distance() + 1,
            forall|d: int|
                0 <= d <= self.spec_max_distance() ==> #[trigger] counts@[d] == count_of(
                    distances_of(self@),
                    d,
                ),
    {
        let mut distances: Vec<u8> = Vec::with_capacity(self.table.len());
        for i in 0..self.table.len()
            invariant
                distances@.len() == i,
                forall|a: int| 0 <= a < i ==> #[trigger] distances@[a] == self@[a].spec_distance(),
        {
            distances.push(self.table[i].distance());
        }
        proof {
            assert(distances@ =~= distances_of(self@));
        }
        count_distances(&distances, self.max_distance)
    }
}

/// Whether every turn of `twists` can be undone by a turn of `twists`: the set
/// holds the inverse of each of its turns, and where a turn leads from one
/// state to another, its inverse leads back.
pub open spec fn is_reversible<S: StateSpace>(space: S, twists: Twists) -> bool {
    &&& forall|t: Twist| twists.spec_contains(t) ==> twists.spec_contains(spec_inversed(t))
    &&& forall|i: usize, t: Twist|
        i < space.spec_size() && twists.spec_contains(t) ==> space.spec_step(
            #[trigger] space.spec_step(i, t),
            spec_inversed(t),
        ) == i
}

/// The distance of a state that is reached is the least number of turns that
/// reach it.
pub proof fn lemma_distance_is_least<S: StateSpace>(
    table: Seq<u8>,
    space: S,
    twists: Twists,
    origin: usize,
    j: usize,
    d: nat,
)
    requires
        is_distance_table(table, space, twists, origin),
        j < table.len(),
        d <= 254,
        reaches(space, twists, origin, j, d),
    ensures
        table[j as int] <= d,
        is_settled(table, space, twists, origin, j),
{
    if table[j as int] == SENTINEL {
        lemma_reaches_monotone(space, twists, origin, j, d, 254);
    } else if table[j as int] > d {
        lemma_reaches_monotone(space, twists, origin, j, d, (table[j as int] - 1) as nat);
    }
}

/// In a distance table over turns that can be undone, a state with a distance
/// above 0 has a neighbour whose distance is less by one, and the distance of
/// no neighbour differs by more than one.
pub proof fn lemma_neighbour_distances<S: StateSpace>(
    table: Seq<u8>,
    space: S,
    twists: Twists,
    origin: usize,
    s: usize,
)
    requires
        space.well_formed(),
        is_distance_table(table, space, twists, origin),
        is_reversible(space, twists),
        s < table.len(),
        table[s as int] != SENTINEL,
    ensures
        table[s as int] > 0 ==> exists|t: Twist|
            twists.spec_contains(t) && table[(#[trigger] space.spec_step(s, t)) as int] == table[s as int]
                - 1,
        forall|t: Twist|
            table[s as int] < 254 && twists.spec_contains(t) ==> table[s as int] - 1 <= table[(
            #[trigger] space.spec_step(s, t)) as int] <= table[s as int] + 1,
{
    let d = table[s as int];
    assert(is_settled(table, space, twists, origin, s));
    if d > 0 {
        let (i, t) = choose|i: usize, t: Twist|
            twists.spec_contains(t) && reaches(space, twists, origin, i, (d - 1) as nat)
                && #[trigger] space.spec_step(i, t) == s;
        lemma_reaches_in_range(space, twists, origin, i, (d - 1) as nat);
        lemma_distance_is_least(table, space, twists, origin, i, (d - 1) as nat);
        if table[i as int] < d - 1 {
            lemma_reaches_step(space, twists, origin, i, t, table[i as int] as nat);
            lemma_reaches_monotone(
                space,
                twists,
                origin,
                s,
                (table[i as int] + 1) as nat,
                (d - 1) as nat,
            );
        }
        assert(space.spec_step(s, spec_inversed(t)) == i);
    }
    assert forall|t: Twist| table[s as int] < 254 && twists.spec_contains(t) implies table[s as int]
        - 1 <= table[(#[trigger] space.spec_step(s, t)) as int] <= table[s as int] + 1 by {
        let j = space.spec_step(s, t);
        space.lemma_step_in_range(s, t);
        lemma_reaches_step(space, twists, origin, s, t, d as nat);
        lemma_distance_is_least(table, space, twists, origin, j, (d + 1) as nat);
        assert(space.spec_step(j, spec_inversed(t)) == s);
        if table[j as int] + 1 < d {
            lemma_reaches_step(space, twists, origin, j, spec_inversed(t), table[j as int] as nat);
            lemma_reaches_monotone(
                space,
                twists,
                origin,
                s,
                (table[j as int] + 1) as nat,
                (d - 1) as nat,
            );
        }
    }
}

/// In a distance table over turns that can be undone, the descent from a
/// state that is reached gets stuck nowhere.
pub proof fn lemma_never_stuck<S: StateSpace>(
    table: Seq<u8>,
    space: S,
    twists: Twists,
    origin: usize,
    i: usize,
)
    requires
        space.well_formed(),
        is_distance_table(table, space, twists, origin),
        is_reversible(space, twists),
        i < table.len(),
        table[i as int] < 254,
    ensures
        !is_stuck(table, space, twists, i, table[i as int] as nat),
    decreases table[i as int],
{
    let d = table[i as int];
    if d > 0 {
        lemma_neighbour_distances(table, space, twists, origin, i);
        assert forall|t: Twist|
            twists.spec_contains(t) && table[space.spec_step(i, t) as int] < d implies !is_stuck(
            table,
            space,
            twists,
            #[trigger] space.spec_step(i, t),
            (d - 1) as nat,
        ) by {
            space.lemma_step_in_range(i, t);
            lemma_never_stuck(table, space, twists, origin, space.spec_step(i, t));
        }
    }
}

} // verus!
