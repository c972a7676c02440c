//! The search in two phases: the first brings the cube into the subgroup that
//! the turns of H0 generate, by iterative deepening along the distances of the
//! first pruning table; the second solves it there by a descent along the
//! distances of the second.

use crate::cube::Cube;
use crate::spaces::SubsetSpace;
use crate::text::spec_grouped;
use crate::tables::{
    is_descent, lemma_descent, lemma_descent_of_nothing, lemma_descent_unique,
    lemma_stuck_has_no_descent, DirectionsTable, DistanceTable,
};
use crate::twist::{lemma_twist_index, Twist, Twists};
use crate::twister::AllTwister;
use vstd::prelude::*;
use vstd::string::StringExecFns;

verus! {

/// `ToFormattedString::to_formatted_string` writes a number with its digits
/// in groups, as the locale it is given has them. The locale here is `de_CH`,
/// which has groups of three digits and a right single quotation mark between
/// them.
#[verifier::external_body]
fn grouped(n: usize) -> (text: String)
    ensures
        text@ == spec_grouped(n as nat),
{
    num_format::ToFormattedString::to_formatted_string(&n, &num_format::Locale::de_CH)
}

/// A label, a colon and a number with its digits in groups.
pub fn stat_line(label: &str, n: usize) -> (line: String)
    ensures
        line@ == label@ + ": "@ + spec_grouped(n as nat),
{
    let mut line = String::from_str(label);
    line.append(": ");
    line.append(grouped(n).as_str());
    line
}

/// The message of a search that found no solution within its bound.
pub open spec fn spec_no_solution() -> Seq<char> {
    "No solution found"@
}

/// The solver with its tables and its counters.
pub struct TwoPhaseSolver {
    twister: AllTwister,
    phase_1: DirectionsTable,
    phase_2: DistanceTable,
    corners: DistanceTable,
    pub phase_1_probes: usize,
    pub phase_2_probes: usize,
    pub subset_cuts: usize,
    pub corner_probes: usize,
    pub corner_cuts: usize,
}

/// Five numbers of steps, in the order of the counters: the probes of the
/// first and of the second phase, the subset cuts, the corner probes and the
/// corner cuts.
pub type Steps = (nat, nat, nat, nat, nat);

/// The steps `a` and the steps `b` together.
pub open spec fn steps_sum(a: Steps, b: Steps) -> Steps {
    (a.0 + b.0, a.1 + b.1, a.2 + b.2, a.3 + b.3, a.4 + b.4)
}

/// A counter that stood at `n` after `more` steps: it stops at the greatest
/// number that it can hold.
pub open spec fn spec_counted(n: usize, more: nat) -> usize {
    if n + more <= usize::MAX {
        (n + more) as usize
    } else {
        usize::MAX
    }
}

/// The five counters that stood at `counts`, after the steps `more`.
pub open spec fn counted_by(counts: (usize, usize, usize, usize, usize), more: Steps) -> (
    usize,
    usize,
    usize,
    usize,
    usize,
) {
    (
        spec_counted(counts.0, more.0),
        spec_counted(counts.1, more.1),
        spec_counted(counts.2, more.2),
        spec_counted(counts.3, more.3),
        spec_counted(counts.4, more.4),
    )
}

/// Counting the steps `a` and then the steps `b` is counting both at once.
pub proof fn lemma_counted_twice(counts: (usize, usize, usize, usize, usize), a: Steps, b: Steps)
    ensures
        counted_by(counted_by(counts, a), b) == counted_by(counts, steps_sum(a, b)),
{
}

/// One more, where the counter can hold it.
fn counted(n: usize) -> (r: usize)
    ensures
        r == if n < usize::MAX {
            n + 1
        } else {
            n as int
        },
{
    if n < usize::MAX {
        n + 1
    } else {
        n
    }
}

impl TwoPhaseSolver {
    /// Whether the move tables are what the cubies say and each pruning table
    /// has an entry for every state of its space.
    pub closed spec fn well_formed(&self) -> bool {
        &&& self.twister.well_formed()
        &&& self.phase_1@.len() == 2217093120
        &&& self.phase_2@.len() == 19508428800
        &&& self.corners@.len() == 88179840
    }

    /// The five counters: the probes of the first and of the second phase,
    /// the subset cuts, the corner probes and the corner cuts.
    pub closed spec fn spec_counts(&self) -> (usize, usize, usize, usize, usize) {
        (
            self.phase_1_probes,
            self.phase_2_probes,
            self.subset_cuts,
            self.corner_probes,
            self.corner_cuts,
        )
    }

    /// The move tables.
    pub closed spec fn spec_twister(&self) -> AllTwister {
        self.twister
    }

    /// Whether `path` is the descent of the second phase from `cube`: as many
    /// turns of H0 as the second table gives for `cube`, each the first that
    /// leads nearer.
    pub open spec fn is_phase_2_descent(&self, cube: Cube, path: Seq<Twist>) -> bool {
        is_descent(
            self.spec_phase_2()@,
            (SubsetSpace { twister: &self.spec_twister() }),
            Twists::spec_h0(),
            cube.spec_subset().spec_index() as usize,
            self.spec_phase_2()@[cube.spec_subset().spec_index()] as nat,
            path,
        )
    }

    /// Whether the second phase alone solves `cube` in at most `budget`
    /// turns: its descent exists, is no longer than that, and ends at the
    /// solved cube.
    pub open spec fn solves_in_phase_2(&self, cube: Cube, budget: int) -> bool {
        exists|path: Seq<Twist>|
            #[trigger] self.is_phase_2_descent(cube, path) && path.len() <= budget
                && cube.spec_twisted_by(path) == Cube::spec_solved()
    }

    /// What the second phase does depends on its table and the move tables
    /// alone.
    pub proof fn lemma_phase_2_by_its_tables(self, other: Self, cube: Cube, budget: int)
        requires
            self.spec_phase_2() == other.spec_phase_2(),
            self.spec_twister() == other.spec_twister(),
        ensures
            forall|path: Seq<Twist>|
                #[trigger] self.is_phase_2_descent(cube, path) == other.is_phase_2_descent(cube, path),
            self.solves_in_phase_2(cube, budget) == other.solves_in_phase_2(cube, budget),
    {
        if self.solves_in_phase_2(cube, budget) {
            let path = choose|path: Seq<Twist>|
                #[trigger] self.is_phase_2_descent(cube, path) && path.len() <= budget
                    && cube.spec_twisted_by(path) == Cube::spec_solved();
            assert(other.is_phase_2_descent(cube, path));
        }
        if other.solves_in_phase_2(cube, budget) {
            let path = choose|path: Seq<Twist>|
                #[trigger] other.is_phase_2_descent(cube, path) && path.len() <= budget
                    && cube.spec_twisted_by(path) == Cube::spec_solved();
            assert(self.is_phase_2_descent(cube, path));
        }
    }

    /// The table of the first phase.
    pub closed spec fn spec_phase_1(&self) -> DirectionsTable {
        self.phase_1
    }

    /// The table of the second phase.
    pub closed spec fn spec_phase_2(&self) -> DistanceTable {
        self.phase_2
    }

    /// The table of the corners.
    pub closed spec fn spec_corners(&self) -> DistanceTable {
        self.corners
    }

    /// What the second phase finds for `cube` within `budget` turns: its
    /// descent, where that is short enough and ends at the solved cube.
    pub open spec fn spec_search_phase_2(&self, cube: Cube, budget: nat) -> Option<Seq<Twist>> {
        if self.solves_in_phase_2(cube, budget as int) {
            Some(
                choose|path: Seq<Twist>|
                    #[trigger] self.is_phase_2_descent(cube, path) && path.len() <= budget
                        && cube.spec_twisted_by(path) == Cube::spec_solved(),
            )
        } else {
            None
        }
    }

    /// Whether the corners alone need more turns than are left. The table of
    /// the corners is asked only where fewer than nine turns are left.
    pub open spec fn spec_corner_cut(&self, cube: Cube, p1_depth: nat, p2_depth: nat) -> bool {
        p1_depth + p2_depth < 9 && self.spec_corners()@[cube.spec_corners_index()] > p1_depth
            + p2_depth
    }

    /// Whether the first phase, with `p1_depth` turns left, goes on from
    /// `cube` with the turn `t`. Where the first table gives `p1_depth` for the
    /// cube, only a turn that leads nearer; where it gives one less, no turn
    /// that leads further off; no turn of the face that `previous` turned; and
    /// as the last turn of the phase no turn of H0.
    pub open spec fn spec_allowed(
        &self,
        cube: Cube,
        p1_depth: nat,
        previous: Option<Twist>,
        t: Twist,
    ) -> bool {
        let entry = self.spec_phase_1()@[cube.spec_coset().spec_index()];
        let subset_distance = entry.spec_distance() as nat;
        &&& p1_depth == subset_distance ==> entry.spec_less().spec_contains(t)
        &&& p1_depth == subset_distance + 1 ==> !entry.spec_more().spec_contains(t)
        &&& previous matches Some(last) ==> t.spec_face() != last.spec_face()
        &&& p1_depth == 1 ==> !Twists::spec_h0().spec_contains(t)
    }

    /// What the first phase finds from `cube` with `p1_depth` turns of its own
    /// and `p2_depth` turns for the second phase, where `previous` led to
    /// `cube`. With no turn left it is what the second phase finds. Else it is
    /// nothing where the corners need more turns than are left or the cube
    /// lies in the subgroup already, and otherwise what the allowed turns give,
    /// tried in ascending order.
    pub open spec fn spec_search_phase_1(
        &self,
        cube: Cube,
        p1_depth: nat,
        p2_depth: nat,
        previous: Option<Twist>,
    ) -> Option<Seq<Twist>>
        decreases p1_depth, 19nat,
    {
        if p1_depth == 0 {
            self.spec_search_phase_2(cube, p2_depth)
        } else if self.spec_corner_cut(cube, p1_depth, p2_depth) {
            None
        } else if cube.spec_coset() == Cube::spec_solved().spec_coset() {
            None
        } else {
            self.spec_search_turns(cube, p1_depth, p2_depth, previous, 0)
        }
    }

    /// What the turns from the `k`-th on give: the first allowed turn after
    /// which the search finds something, in front of what it finds.
    pub open spec fn spec_search_turns(
        &self,
        cube: Cube,
        p1_depth: nat,
        p2_depth: nat,
        previous: Option<Twist>,
        k: nat,
    ) -> Option<Seq<Twist>>
        decreases p1_depth, 18 - k,
    {
        if p1_depth == 0 || k >= 18 {
            None
        } else {
            let t = Twist::spec_from(k as int);
            if self.spec_allowed(cube, p1_depth, previous, t) {
                match self.spec_search_phase_1(
                    cube.spec_twisted(t),
                    (p1_depth - 1) as nat,
                    p2_depth,
                    Some(t),
                ) {
                    Some(rest) => Some(seq![t] + rest),
                    None => self.spec_search_turns(cube, p1_depth, p2_depth, previous, k + 1),
                }
            } else {
                self.spec_search_turns(cube, p1_depth, p2_depth, previous, k + 1)
            }
        }
    }

    /// The steps that the first phase counts on the way to what
    /// `spec_search_phase_1` finds: one probe of the first phase for the cube
    /// itself; with no turn left one probe of the second phase; else a corner
    /// probe where fewer than nine turns are left, a corner cut or a subset
    /// cut where the search ends there, and otherwise the steps that the
    /// allowed turns count.
    pub open spec fn spec_probes_phase_1(
        &self,
        cube: Cube,
        p1_depth: nat,
        p2_depth: nat,
        previous: Option<Twist>,
    ) -> Steps
        decreases p1_depth, 19nat,
    {
        let corner_probes: nat = if p1_depth + p2_depth < 9 {
            1
        } else {
            0
        };
        if p1_depth == 0 {
            (1, 1, 0, 0, 0)
        } else if self.spec_corner_cut(cube, p1_depth, p2_depth) {
            (1, 0, 0, 1, 1)
        } else if cube.spec_coset() == Cube::spec_solved().spec_coset() {
            (1, 0, 1, corner_probes, 0)
        } else {
            steps_sum(
                (1, 0, 0, corner_probes, 0),
                self.spec_probes_turns(cube, p1_depth, p2_depth, previous, 0),
            )
        }
    }

    /// The steps that the turns from the `k`-th on count: those of each
    /// allowed turn up to the first after which the search finds something.
    pub open spec fn spec_probes_turns(
        &self,
        cube: Cube,
        p1_depth: nat,
        p2_depth: nat,
        previous: Option<Twist>,
        k: nat,
    ) -> Steps
        decreases p1_depth, 18 - k,
    {
        if p1_depth == 0 || k >= 18 {
            (0, 0, 0, 0, 0)
        } else {
            let t = Twist::spec_from(k as int);
            if self.spec_allowed(cube, p1_depth, previous, t) {
                let here = self.spec_probes_phase_1(
                    cube.spec_twisted(t),
                    (p1_depth - 1) as nat,
                    p2_depth,
                    Some(t),
                );
                if self.spec_search_phase_1(
                    cube.spec_twisted(t),
                    (p1_depth - 1) as nat,
                    p2_depth,
                    Some(t),
                ) is Some {
                    here
                } else {
                    steps_sum(here, self.spec_probes_turns(cube, p1_depth, p2_depth, previous, k + 1))
                }
            } else {
                self.spec_probes_turns(cube, p1_depth, p2_depth, previous, k + 1)
            }
        }
    }

    /// What the second phase finds depends on its table and the move tables
    /// alone.
    pub proof fn lemma_search_phase_2_by_its_tables(self, other: Self, cube: Cube, budget: nat)
        requires
            self.spec_phase_2() == other.spec_phase_2(),
            self.spec_twister() == other.spec_twister(),
        ensures
            self.spec_search_phase_2(cube, budget) == other.spec_search_phase_2(cube, budget),
    {
        self.lemma_phase_2_by_its_tables(other, cube, budget as int);
        if self.solves_in_phase_2(cube, budget as int) {
            let first = self.spec_search_phase_2(cube, budget)->Some_0;
            let second = other.spec_search_phase_2(cube, budget)->Some_0;
            assert(self.is_phase_2_descent(cube, first));
            assert(other.is_phase_2_descent(cube, second));
            assert(self.is_phase_2_descent(cube, second));
            lemma_descent_unique(
                self.spec_phase_2()@,
                (SubsetSpace { twister: &self.spec_twister() }),
                Twists::spec_h0(),
                cube.spec_subset().spec_index() as usize,
                self.spec_phase_2()@[cube.spec_subset().spec_index()] as nat,
                first,
                second,
            );
        }
    }

    /// What the first phase finds, and the steps that it counts, depend on
    /// the tables alone, not on where the counters stand.
    pub proof fn lemma_search_by_its_tables(
        self,
        other: Self,
        cube: Cube,
        p1_depth: nat,
        p2_depth: nat,
        previous: Option<Twist>,
    )
        requires
            self.spec_phase_1() == other.spec_phase_1(),
            self.spec_phase_2() == other.spec_phase_2(),
            self.spec_corners() == other.spec_corners(),
            self.spec_twister() == other.spec_twister(),
        ensures
            self.spec_search_phase_1(cube, p1_depth, p2_depth, previous)
                == other.spec_search_phase_1(cube, p1_depth, p2_depth, previous),
            self.spec_probes_phase_1(cube, p1_depth, p2_depth, previous)
                == other.spec_probes_phase_1(cube, p1_depth, p2_depth, previous),
        decreases p1_depth, 19nat,
    {
        if p1_depth == 0 {
            self.lemma_search_phase_2_by_its_tables(other, cube, p2_depth);
        } else {
            self.lemma_turns_by_its_tables(other, cube, p1_depth, p2_depth, previous, 0);
        }
    }

    /// The same of the turns from the `k`-th on.
    pub proof fn lemma_turns_by_its_tables(
        self,
        other: Self,
        cube: Cube,
        p1_depth: nat,
        p2_depth: nat,
        previous: Option<Twist>,
        k: nat,
    )
        requires
            self.spec_phase_1() == other.spec_phase_1(),
            self.spec_phase_2() == other.spec_phase_2(),
            self.spec_corners() == other.spec_corners(),
            self.spec_twister() == other.spec_twister(),
        ensures
            self.spec_search_turns(cube, p1_depth, p2_depth, previous, k)
                == other.spec_search_turns(cube, p1_depth, p2_depth, previous, k),
            self.spec_probes_turns(cube, p1_depth, p2_depth, previous, k)
                == other.spec_probes_turns(cube, p1_depth, p2_depth, previous, k),
        decreases p1_depth, 18 - k,
    {
        if p1_depth > 0 && k < 18 {
            let t = Twist::spec_from(k as int);
            self.lemma_search_by_its_tables(
                other,
                cube.spec_twisted(t),
                (p1_depth - 1) as nat,
                p2_depth,
                Some(t),
            );
            self.lemma_turns_by_its_tables(other, cube, p1_depth, p2_depth, previous, k + 1);
        }
    }

    /// Whether `turns` holds the allowed turns, each once, in ascending order.
    pub open spec fn spec_is_turn_list(
        &self,
        cube: Cube,
        p1_depth: nat,
        previous: Option<Twist>,
        turns: Seq<Twist>,
    ) -> bool {
        &&& forall|a: int, b: int|
            0 <= a < b < turns.len() ==> turns[a].spec_index() < turns[b].spec_index()
        &&& forall|a: int|
            0 <= a < turns.len() ==> self.spec_allowed(cube, p1_depth, previous, #[trigger] turns[a])
        &&& forall|u: Twist| self.spec_allowed(cube, p1_depth, previous, u) ==> turns.contains(u)
    }

    /// Which turns are allowed depends on the first table alone.
    proof fn lemma_allowed_by_its_tables(
        self,
        other: Self,
        cube: Cube,
        p1_depth: nat,
        previous: Option<Twist>,
        turns: Seq<Twist>,
    )
        requires
            self.spec_phase_1() == other.spec_phase_1(),
            self.spec_is_turn_list(cube, p1_depth, previous, turns),
        ensures
            other.spec_is_turn_list(cube, p1_depth, previous, turns),
    {
        assert forall|u: Twist|
            self.spec_allowed(cube, p1_depth, previous, u) == other.spec_allowed(
                cube,
                p1_depth,
                previous,
                u,
            ) by {}
    }

    /// Turns that are not allowed count for nothing: where none of the turns
    /// from the `from`-th to before the `to`-th is allowed, the turns from the
    /// `from`-th on give what those from the `to`-th on give.
    pub proof fn lemma_turns_skipped(
        self,
        cube: Cube,
        p1_depth: nat,
        p2_depth: nat,
        previous: Option<Twist>,
        from: nat,
        to: nat,
    )
        requires
            from <= to <= 18,
            forall|j: int|
                from <= j < to ==> !self.spec_allowed(
                    cube,
                    p1_depth,
                    previous,
                    #[trigger] Twist::spec_from(j),
                ),
        ensures
            self.spec_search_turns(cube, p1_depth, p2_depth, previous, from)
                == self.spec_search_turns(cube, p1_depth, p2_depth, previous, to),
            self.spec_probes_turns(cube, p1_depth, p2_depth, previous, from)
                == self.spec_probes_turns(cube, p1_depth, p2_depth, previous, to),
        decreases to - from,
    {
        if from < to {
            assert(!self.spec_allowed(cube, p1_depth, previous, Twist::spec_from(from as int)));
            self.lemma_turns_skipped(cube, p1_depth, p2_depth, previous, from + 1, to);
        }
    }

    /// No turn between the turns of the list that were tried and the next of
    /// the list is allowed.
    proof fn lemma_gap(
        self,
        cube: Cube,
        p1_depth: nat,
        previous: Option<Twist>,
        turns: Seq<Twist>,
        k: int,
        lower: nat,
        upper: nat,
    )
        requires
            self.spec_is_turn_list(cube, p1_depth, previous, turns),
            0 <= k <= turns.len(),
            upper <= 18,
            forall|a: int| 0 <= a < k ==> (#[trigger] turns[a]).spec_index() < lower,
            forall|a: int| k <= a < turns.len() ==> (#[trigger] turns[a]).spec_index() >= upper,
        ensures
            forall|j: int|
                lower <= j < upper ==> !self.spec_allowed(
                    cube,
                    p1_depth,
                    previous,
                    #[trigger] Twist::spec_from(j),
                ),
    {
        assert forall|j: int| lower <= j < upper implies !self.spec_allowed(
            cube,
            p1_depth,
            previous,
            #[trigger] Twist::spec_from(j),
        ) by {
            let u = Twist::spec_from(j);
            lemma_twist_index(u);
            if self.spec_allowed(cube, p1_depth, previous, u) {
                assert(turns.contains(u));
                let a = choose|a: int| 0 <= a < turns.len() && turns[a] == u;
                assert(turns[a].spec_index() == j);
            }
        }
    }

    /// What the turns from the `lower`-th on give, where the `k`-th turn of
    /// the list is the first of them that is allowed.
    proof fn lemma_turn_tried(
        self,
        cube: Cube,
        p1_depth: nat,
        p2_depth: nat,
        previous: Option<Twist>,
        turns: Seq<Twist>,
        k: int,
        lower: nat,
    )
        requires
            p1_depth > 0,
            self.spec_is_turn_list(cube, p1_depth, previous, turns),
            0 <= k < turns.len(),
            forall|a: int| 0 <= a < k ==> (#[trigger] turns[a]).spec_index() < lower,
            forall|a: int| k <= a < turns.len() ==> (#[trigger] turns[a]).spec_index() >= lower,
        ensures
            lower <= turns[k].spec_index() < 18,
            forall|a: int|
                k < a < turns.len() ==> (#[trigger] turns[a]).spec_index() > turns[k].spec_index(),
            self.spec_search_turns(cube, p1_depth, p2_depth, previous, lower) == (
            match self.spec_search_phase_1(
                cube.spec_twisted(turns[k]),
                (p1_depth - 1) as nat,
                p2_depth,
                Some(turns[k]),
            ) {
                Some(rest) => Some(seq![turns[k]] + rest),
                None => self.spec_search_turns(
                    cube,
                    p1_depth,
                    p2_depth,
                    previous,
                    (turns[k].spec_index() + 1) as nat,
                ),
            }),
            self.spec_probes_turns(cube, p1_depth, p2_depth, previous, lower) == (
            if self.spec_search_phase_1(
                cube.spec_twisted(turns[k]),
                (p1_depth - 1) as nat,
                p2_depth,
                Some(turns[k]),
            ) is Some {
                self.spec_probes_phase_1(
                    cube.spec_twisted(turns[k]),
                    (p1_depth - 1) as nat,
                    p2_depth,
                    Some(turns[k]),
                )
            } else {
                steps_sum(
                    self.spec_probes_phase_1(
                        cube.spec_twisted(turns[k]),
                        (p1_depth - 1) as nat,
                        p2_depth,
                        Some(turns[k]),
                    ),
                    self.spec_probes_turns(
                        cube,
                        p1_depth,
                        p2_depth,
                        previous,
                        (turns[k].spec_index() + 1) as nat,
                    ),
                )
            }),
    {
        let t = turns[k];
        let at = t.spec_index() as nat;
        lemma_twist_index(t);
        assert(turns[k].spec_index() >= lower);
        assert forall|a: int| k <= a < turns.len() implies (#[trigger] turns[a]).spec_index()
            >= at by {
            if a > k {
                assert(turns[k].spec_index() < turns[a].spec_index());
            }
        }
        self.lemma_gap(cube, p1_depth, previous, turns, k, lower, at);
        self.lemma_turns_skipped(cube, p1_depth, p2_depth, previous, lower, at);
        assert(Twist::spec_from(at as int) == t);
        assert(self.spec_allowed(cube, p1_depth, previous, turns[k]));
    }

    /// When every turn of the list was tried, no turn is left.
    proof fn lemma_turns_done(
        self,
        cube: Cube,
        p1_depth: nat,
        p2_depth: nat,
        previous: Option<Twist>,
        turns: Seq<Twist>,
        lower: nat,
    )
        requires
            lower <= 18,
            self.spec_is_turn_list(cube, p1_depth, previous, turns),
            forall|a: int| 0 <= a < turns.len() ==> (#[trigger] turns[a]).spec_index() < lower,
        ensures
            self.spec_search_turns(cube, p1_depth, p2_depth, previous, lower) is None,
            self.spec_probes_turns(cube, p1_depth, p2_depth, previous, lower) == (
                0nat,
                0nat,
                0nat,
                0nat,
                0nat,
            ),
    {
        self.lemma_gap(cube, p1_depth, previous, turns, turns.len() as int, lower, 18);
        self.lemma_turns_skipped(cube, p1_depth, p2_depth, previous, lower, 18);
    }

    /// The allowed turns: all turns, cut down by what the first table says of
    /// the distance, by the face of the turn before, and by H0 at the last
    /// turn of the phase.
    fn allowed_turns(&self, cube: Cube, p1_depth: usize, previous: Option<Twist>) -> (turns: Vec<
        Twist,
    >)
        requires
            self.well_formed(),
            cube.well_formed(),
        ensures
            self.spec_is_turn_list(cube, p1_depth as nat, previous, turns@),
    {
        let coset_index = cube.coset_index() as usize;
        let subset_distance = self.phase_1.distance(coset_index) as usize;
        let less = self.phase_1.less_distance(coset_index);
        let more = self.phase_1.more_distance(coset_index);
        let mut twists = Twists::all();
        if p1_depth == subset_distance {
            twists.keep_only(less);
        } else if p1_depth == subset_distance + 1 {
            twists.unset_twists(more);
        }
        let ghost by_distance = twists;
        proof {
            assert forall|u: Twist|
                by_distance.spec_contains(u) <==> ((p1_depth == subset_distance
                    ==> less.spec_contains(u)) && (p1_depth == subset_distance + 1
                    ==> !more.spec_contains(u))) by {}
        }
        match previous {
            Some(last_twist) => {
                let face = Twists::face_of(last_twist);
                twists.unset_twists(face);
                proof {
                    assert forall|u: Twist|
                        twists.spec_contains(u) <==> (by_distance.spec_contains(u) && (
                        previous matches Some(last) ==> u.spec_face() != last.spec_face())) by {
                        assert(face.spec_contains(u) <==> u.spec_face() == last_twist.spec_face());
                    }
                }
            },
            None => {
                proof {
                    assert forall|u: Twist|
                        twists.spec_contains(u) <==> (by_distance.spec_contains(u) && (
                        previous matches Some(last) ==> u.spec_face() != last.spec_face())) by {}
                }
            },
        }
        let ghost by_face = twists;
        if p1_depth == 1 {
            let h0 = Twists::h0();
            twists.unset_twists(h0);
            proof {
                assert forall|u: Twist|
                    twists.spec_contains(u) <==> (by_face.spec_contains(u) && (p1_depth == 1
                        ==> !Twists::spec_h0().spec_contains(u))) by {
                    assert(h0.spec_contains(u) == Twists::spec_h0().spec_contains(u));
                }
            }
        } else {
            proof {
                assert forall|u: Twist|
                    twists.spec_contains(u) <==> (by_face.spec_contains(u) && (p1_depth == 1
                        ==> !Twists::spec_h0().spec_contains(u))) by {}
            }
        }
        proof {
            assert forall|u: Twist|
                twists.spec_contains(u) <==> self.spec_allowed(cube, p1_depth as nat, previous, u) by {
                assert(twists.spec_contains(u) <==> (by_face.spec_contains(u) && (p1_depth == 1
                    ==> !Twists::spec_h0().spec_contains(u))));
                assert(by_face.spec_contains(u) <==> (by_distance.spec_contains(u) && (
                previous matches Some(last) ==> u.spec_face() != last.spec_face())));
                assert(by_distance.spec_contains(u) <==> ((p1_depth == subset_distance
                    ==> less.spec_contains(u)) && (p1_depth == subset_distance + 1
                    ==> !more.spec_contains(u))));
            }
        }
        let turns = twists.iter();
        proof {
            assert forall|a: int| 0 <= a < turns@.len() implies self.spec_allowed(
                cube,
                p1_depth as nat,
                previous,
                #[trigger] turns@[a],
            ) by {
                assert(twists.spec_contains(turns@[a]));
            }
            assert forall|u: Twist|
                self.spec_allowed(cube, p1_depth as nat, previous, u) implies turns@.contains(u) by {
                assert(twists.spec_contains(u));
            }
        }
        turns
    }

    pub fn new(phase_1: DirectionsTable, phase_2: DistanceTable, corners: DistanceTable) -> (r:
        Self)
        requires
            phase_1@.len() == 2217093120,
            phase_2@.len() == 19508428800,
            corners@.len() == 88179840,
        ensures
            r.well_formed(),
            r.spec_twister().well_formed(),
            r.spec_phase_1() == phase_1,
            r.spec_phase_2() == phase_2,
            r.spec_corners() == corners,
            r.spec_counts() == (0usize, 0usize, 0usize, 0usize, 0usize),
    {
        Self {
            twister: AllTwister::new(),
            phase_1,
            phase_2,
            corners,
            phase_1_probes: 0,
            phase_2_probes: 0,
            subset_cuts: 0,
            corner_probes: 0,
            corner_cuts: 0,
        }
    }

    /// The five counters, one line each.
    pub fn stats(&self) -> (lines: Vec<String>)
        ensures
            lines@.len() == 5,
            lines@[0]@ == "Phase 1 probes"@ + ": "@ + spec_grouped(self.spec_counts().0 as nat),
            lines@[1]@ == "Phase 2 probes"@ + ": "@ + spec_grouped(self.spec_counts().1 as nat),
            lines@[2]@ == "Subset cuts"@ + ": "@ + spec_grouped(self.spec_counts().2 as nat),
            lines@[3]@ == "Corner probes"@ + ": "@ + spec_grouped(self.spec_counts().3 as nat),
            lines@[4]@ == "Corner cuts"@ + ": "@ + spec_grouped(self.spec_counts().4 as nat),
    {
        let mut lines: Vec<String> = Vec::with_capacity(5);
        lines.push(stat_line("Phase 1 probes", self.phase_1_probes));
        lines.push(stat_line("Phase 2 probes", self.phase_2_probes));
        lines.push(stat_line("Subset cuts", self.subset_cuts));
        lines.push(stat_line("Corner probes", self.corner_probes));
        lines.push(stat_line("Corner cuts", self.corner_cuts));
        lines
    }

    /// The least number of turns that the first phase can do with: what the
    /// first table gives for `cube`.
    pub open spec fn spec_first_depth(&self, cube: Cube) -> nat {
        self.spec_phase_1()@[cube.spec_coset().spec_index()].spec_distance() as nat
    }

    /// What the search finds where, of `max` turns in all, the first phase
    /// gets `depth`.
    pub open spec fn spec_search_at_depth(&self, cube: Cube, depth: nat, max: nat) -> Option<
        Seq<Twist>,
    > {
        self.spec_search_phase_1(cube, depth, (max - depth) as nat, None)
    }

    /// The steps that the search counts where, of `max` turns in all, the
    /// first phase gets `depth`.
    pub open spec fn spec_probes_at_depth(&self, cube: Cube, depth: nat, max: nat) -> Steps {
        self.spec_probes_phase_1(cube, depth, (max - depth) as nat, None)
    }

    /// The steps that `solve` counts from the depth `depth` on: those of each
    /// depth up to the first at which the search finds something, and up to
    /// `max` where it finds nothing.
    pub open spec fn spec_solve_probes(&self, cube: Cube, depth: nat, max: nat) -> Steps
        decreases max + 1 - depth,
    {
        if depth > max {
            (0, 0, 0, 0, 0)
        } else if self.spec_search_at_depth(cube, depth, max) is Some {
            self.spec_probes_at_depth(cube, depth, max)
        } else {
            steps_sum(
                self.spec_probes_at_depth(cube, depth, max),
                self.spec_solve_probes(cube, depth + 1, max),
            )
        }
    }

    /// With no turn the second phase solves the solved cube, where its table
    /// gives the solved cube the distance 0.
    pub proof fn lemma_solved_in_no_turn(self, budget: nat)
        requires
            self.spec_phase_2()@[0] == 0,
        ensures
            self.spec_search_phase_2(Cube::spec_solved(), budget) == Some(Seq::<Twist>::empty()),
    {
        let cube = Cube::spec_solved();
        let none = Seq::<Twist>::empty();
        assert(cube.spec_subset().spec_index() == 0);
        assert(self.is_phase_2_descent(cube, none));
        assert(cube.spec_twisted_by(none) == cube);
        assert(self.solves_in_phase_2(cube, budget as int));
        let found = self.spec_search_phase_2(cube, budget)->Some_0;
        assert(self.is_phase_2_descent(cube, found));
        assert(found =~= none);
    }

    /// A sequence of at most `max_solution_length` turns that solves `cube`,
    /// or the message that the search found none. The first phase is tried
    /// with every number of turns from what the first table gives for the cube
    /// up to the bound, and the first that finds something decides.
    #[verifier::rlimit(100)]
    pub fn solve(&mut self, cube: Cube, max_solution_length: usize) -> (r: Result<
        Vec<Twist>,
        String,
    >)
        requires
            old(self).well_formed(),
            cube.well_formed(),
        ensures
            final(self).well_formed(),
            final(self).spec_phase_1() == old(self).spec_phase_1(),
            final(self).spec_phase_2() == old(self).spec_phase_2(),
            final(self).spec_corners() == old(self).spec_corners(),
            final(self).spec_twister() == old(self).spec_twister(),
            final(self).spec_counts() == counted_by(
                old(self).spec_counts(),
                old(self).spec_solve_probes(
                    cube,
                    old(self).spec_first_depth(cube),
                    max_solution_length as nat,
                ),
            ),
            r is Ok <==> exists|d: nat|
                old(self).spec_first_depth(cube) <= d <= max_solution_length && (
                #[trigger] old(self).spec_search_at_depth(cube, d, max_solution_length as nat))
                    is Some,
            r matches Ok(solution) ==> exists|d: nat|
                old(self).spec_first_depth(cube) <= d <= max_solution_length
                    && #[trigger] old(self).spec_search_at_depth(
                    cube,
                    d,
                    max_solution_length as nat,
                ) == Some(solution@) && forall|e: nat|
                    old(self).spec_first_depth(cube) <= e < d ==> (#[trigger] old(self).spec_search_at_depth(cube, e, max_solution_length as nat)) is None,
            r matches Ok(solution) ==> solution@.len() <= max_solution_length
                && cube.spec_twisted_by(solution@) == Cube::spec_solved(),
            r matches Err(message) ==> message@ == spec_no_solution(),
            old(self).spec_first_depth(cube) > max_solution_length ==> r is Err,
            cube == Cube::spec_solved() && old(self).spec_first_depth(cube) == 0 && old(self).spec_phase_2()@[0] == 0 ==> r is Ok && r->Ok_0@.len() == 0,
            cube.spec_coset() == Cube::spec_solved().spec_coset() && old(self).spec_first_depth(cube)
                == 0 ==> (r is Ok <==> old(self).solves_in_phase_2(
                cube,
                max_solution_length as int,
            )) && (r is Ok ==> old(self).is_phase_2_descent(cube, r->Ok_0@) && final(self).spec_counts() == counted_by(old(self).spec_counts(), (1, 1, 0, 0, 0)) && forall|k: int|
                0 <= k < r->Ok_0@.len() ==> Twists::spec_h0().spec_contains(#[trigger] r->Ok_0@[k])),
    {
        let first = self.phase_1.distance(cube.coset_index() as usize) as usize;
        let ghost max = max_solution_length as nat;
        let mut depth = first;
        let mut more = depth <= max_solution_length;
        let ghost mut done: Steps = (0, 0, 0, 0, 0);
        while more
            invariant
                self.well_formed(),
                cube.well_formed(),
                max == max_solution_length,
                first == old(self).spec_first_depth(cube),
                first <= depth,
                more ==> depth <= max_solution_length,
                self.spec_phase_1() == old(self).spec_phase_1(),
                self.spec_phase_2() == old(self).spec_phase_2(),
                self.spec_corners() == old(self).spec_corners(),
                self.spec_twister() == old(self).spec_twister(),
                self.spec_counts() == counted_by(old(self).spec_counts(), done),
                more ==> forall|e: nat|
                    first <= e < depth ==> (#[trigger] old(self).spec_search_at_depth(cube, e, max))
                        is None,
                !more ==> forall|e: nat|
                    first <= e <= max ==> (#[trigger] old(self).spec_search_at_depth(cube, e, max))
                        is None,
                more ==> old(self).spec_solve_probes(cube, first as nat, max) == steps_sum(
                    done,
                    old(self).spec_solve_probes(cube, depth as nat, max),
                ),
                !more ==> old(self).spec_solve_probes(cube, first as nat, max) == done,
                more && depth == first ==> done == (0nat, 0nat, 0nat, 0nat, 0nat),
                cube == Cube::spec_solved() && first == 0 && old(self).spec_phase_2()@[0] == 0
                    ==> more && depth == 0,
                cube.spec_coset() == Cube::spec_solved().spec_coset() && first == 0 ==> (more
                    && depth == 0) || !old(self).solves_in_phase_2(cube, max as int),
            decreases
                    max_solution_length - depth + if more {
                        1int
                    } else {
                        0int
                    },
        {
            let ghost at_call = *self;
            let found = self.search_phase_1(cube, depth, max_solution_length - depth, None);
            let ghost here = old(self).spec_probes_at_depth(cube, depth as nat, max);
            proof {
                at_call.lemma_search_by_its_tables(
                    *old(self),
                    cube,
                    depth as nat,
                    (max - depth) as nat,
                    None,
                );
                lemma_counted_twice(old(self).spec_counts(), done, here);
                if cube == Cube::spec_solved() && first == 0 && old(self).spec_phase_2()@[0] == 0 {
                    old(self).lemma_solved_in_no_turn(max);
                }
            }
            match found {
                Some(solution) => {
                    proof {
                        assert(old(self).spec_search_at_depth(cube, depth as nat, max) == Some(
                            solution@,
                        ));
                        if cube.spec_coset() == Cube::spec_solved().spec_coset() && first == 0 {
                            assert(depth == 0);
                            assert(old(self).is_phase_2_descent(cube, solution@));
                            lemma_descent(
                                old(self).spec_phase_2()@,
                                (SubsetSpace { twister: &old(self).spec_twister() }),
                                Twists::spec_h0(),
                                cube.spec_subset().spec_index() as usize,
                                old(self).spec_phase_2()@[cube.spec_subset().spec_index()] as nat,
                                solution@,
                            );
                        }
                    }
                    return Ok(solution);
                },
                None => {},
            }
            proof {
                assert(old(self).spec_search_at_depth(cube, depth as nat, max) is None);
                done = steps_sum(done, here);
            }
            if depth == max_solution_length {
                proof {
                    assert(old(self).spec_solve_probes(cube, (depth + 1) as nat, max) == (
                        0nat,
                        0nat,
                        0nat,
                        0nat,
                        0nat,
                    ));
                }
                more = false;
            } else {
                depth += 1;
            }
        }
        Err("No solution found".to_owned())
    }

    /// What `spec_search_phase_1` says: a sequence of `p1_depth` turns that
    /// brings `cube` into the subgroup, and then of at most `p2_depth` turns
    /// that solve it there; `None` where the search finds none. `previous` is
    /// the turn that led to `cube`. The counters go on by the steps of the
    /// search.
    #[verifier::rlimit(100)]
    fn search_phase_1(
        &mut self,
        cube: Cube,
        p1_depth: usize,
        p2_depth: usize,
        previous: Option<Twist>,
    ) -> (r: Option<Vec<Twist>>)
        requires
            old(self).well_formed(),
            cube.well_formed(),
            p1_depth + p2_depth <= usize::MAX,
        ensures
            final(self).well_formed(),
            final(self).spec_phase_1() == old(self).spec_phase_1(),
            final(self).spec_phase_2() == old(self).spec_phase_2(),
            final(self).spec_corners() == old(self).spec_corners(),
            final(self).spec_twister() == old(self).spec_twister(),
            final(self).spec_counts() == counted_by(
                old(self).spec_counts(),
                old(self).spec_probes_phase_1(cube, p1_depth as nat, p2_depth as nat, previous),
            ),
            r is Some <==> old(self).spec_search_phase_1(
                cube,
                p1_depth as nat,
                p2_depth as nat,
                previous,
            ) is Some,
            r matches Some(solution) ==> old(self).spec_search_phase_1(
                cube,
                p1_depth as nat,
                p2_depth as nat,
                previous,
            ) == Some(solution@),
            r matches Some(solution) ==> solution@.len() <= p1_depth + p2_depth
                && cube.spec_twisted_by(solution@) == Cube::spec_solved(),
        decreases p1_depth,
    {
        self.phase_1_probes = counted(self.phase_1_probes);

        if p1_depth == 0 {
            let ghost at_call = *self;
            let found = self.search_phase_2(cube, p2_depth);
            proof {
                at_call.lemma_search_phase_2_by_its_tables(*old(self), cube, p2_depth as nat);
            }
            return found;
        }
        if p1_depth + p2_depth < 9 {
            self.corner_probes = counted(self.corner_probes);
            let corner_distance = self.corners.distance(cube.corners_index() as usize) as usize;
            if corner_distance > p1_depth + p2_depth {
                self.corner_cuts = counted(self.corner_cuts);
                return None;
            }
        }
        if cube.in_subset() {
            self.subset_cuts = counted(self.subset_cuts);
            return None;
        }
        let turns = self.allowed_turns(cube, p1_depth, previous);
        proof {
            self.lemma_allowed_by_its_tables(*old(self), cube, p1_depth as nat, previous, turns@);
        }
        let ghost head: Steps = (
            1,
            0,
            0,
            if p1_depth + p2_depth < 9 {
                1nat
            } else {
                0nat
            },
            0,
        );
        let ghost mut lower: nat = 0;
        let ghost mut done: Steps = (0, 0, 0, 0, 0);
        for k in 0..turns.len()
            invariant
                self.well_formed(),
                cube.well_formed(),
                p1_depth > 0,
                p1_depth + p2_depth <= usize::MAX,
                self.spec_phase_1() == old(self).spec_phase_1(),
                self.spec_phase_2() == old(self).spec_phase_2(),
                self.spec_corners() == old(self).spec_corners(),
                self.spec_twister() == old(self).spec_twister(),
                !old(self).spec_corner_cut(cube, p1_depth as nat, p2_depth as nat),
                cube.spec_coset() != Cube::spec_solved().spec_coset(),
                head == (
                    1nat,
                    0nat,
                    0nat,
                    if p1_depth + p2_depth < 9 {
                        1nat
                    } else {
                        0nat
                    },
                    0nat,
                ),
                lower <= 18,
                old(self).spec_is_turn_list(cube, p1_depth as nat, previous, turns@),
                forall|a: int| 0 <= a < k ==> (#[trigger] turns@[a]).spec_index() < lower,
                forall|a: int| k <= a < turns@.len() ==> (#[trigger] turns@[a]).spec_index() >= lower,
                old(self).spec_search_turns(cube, p1_depth as nat, p2_depth as nat, previous, 0)
                    == old(self).spec_search_turns(
                    cube,
                    p1_depth as nat,
                    p2_depth as nat,
                    previous,
                    lower,
                ),
                old(self).spec_probes_turns(cube, p1_depth as nat, p2_depth as nat, previous, 0)
                    == steps_sum(
                    done,
                    old(self).spec_probes_turns(
                        cube,
                        p1_depth as nat,
                        p2_depth as nat,
                        previous,
                        lower,
                    ),
                ),
                self.spec_counts() == counted_by(old(self).spec_counts(), steps_sum(head, done)),
        {
            let twist = turns[k];
            proof {
                old(self).lemma_turn_tried(
                    cube,
                    p1_depth as nat,
                    p2_depth as nat,
                    previous,
                    turns@,
                    k as int,
                    lower,
                );
            }
            let next_cube = cube.twisted(&self.twister, twist);
            let ghost at_call = *self;
            let found = self.search_phase_1(next_cube, p1_depth - 1, p2_depth, Some(twist));
            let ghost here = old(self).spec_probes_phase_1(
                next_cube,
                (p1_depth - 1) as nat,
                p2_depth as nat,
                Some(twist),
            );
            proof {
                at_call.lemma_search_by_its_tables(
                    *old(self),
                    next_cube,
                    (p1_depth - 1) as nat,
                    p2_depth as nat,
                    Some(twist),
                );
                lemma_counted_twice(old(self).spec_counts(), steps_sum(head, done), here);
            }
            match found {
                Some(rest) => {
                    let mut solution: Vec<Twist> = Vec::with_capacity(p1_depth + p2_depth);
                    solution.push(twist);
                    let mut rest = rest;
                    let ghost tail = rest@;
                    solution.append(&mut rest);
                    proof {
                        assert(solution@.skip(1) =~= tail);
                        assert(solution@[0] == twist);
                        assert(solution@ =~= seq![twist] + tail);
                    }
                    return Some(solution);
                },
                None => {},
            }
            proof {
                done = steps_sum(done, here);
                lower = (twist.spec_index() + 1) as nat;
            }
        }
        proof {
            old(self).lemma_turns_done(
                cube,
                p1_depth as nat,
                p2_depth as nat,
                previous,
                turns@,
                lower,
            );
        }
        None
    }

    /// A descent of at most `budget` turns of H0 along the distances of the
    /// second table that solves `cube`; `None` where the distance is above the
    /// budget, the table has no descent, or the descent does not end at the
    /// solved cube.
    #[verifier::rlimit(50)]
    fn search_phase_2(&mut self, cube: Cube, budget: usize) -> (r: Option<Vec<Twist>>)
        requires
            old(self).well_formed(),
            cube.well_formed(),
        ensures
            final(self).well_formed(),
            final(self).spec_phase_1() == old(self).spec_phase_1(),
            final(self).spec_phase_2() == old(self).spec_phase_2(),
            final(self).spec_corners() == old(self).spec_corners(),
            final(self).spec_twister() == old(self).spec_twister(),
            final(self).spec_counts() == counted_by(old(self).spec_counts(), (0, 1, 0, 0, 0)),
            r is Some <==> old(self).spec_search_phase_2(cube, budget as nat) is Some,
            r matches Some(solution) ==> old(self).spec_search_phase_2(cube, budget as nat) == Some(
                solution@,
            ),
            r matches Some(solution) ==> solution@.len() <= budget && cube.spec_twisted_by(solution@)
                == Cube::spec_solved(),
            cube == Cube::spec_solved() && old(self).spec_phase_2()@[0] == 0 ==> r is Some
                && r->Some_0@.len() == 0,
            r is Some <==> old(self).solves_in_phase_2(cube, budget as int),
            r is Some ==> old(self).is_phase_2_descent(cube, r->Some_0@),
    {
        self.phase_2_probes = counted(self.phase_2_probes);
        proof {
            self.lemma_phase_2_by_its_tables(*old(self), cube, budget as int);
            self.lemma_search_phase_2_by_its_tables(*old(self), cube, budget as nat);
        }
        let size = self.phase_2.len();
        let subset_cube = cube.to_subset();
        let phase_2_distance = self.phase_2.distance(subset_cube.index() as usize) as usize;
        if phase_2_distance > budget {
            proof {
                assert forall|path: Seq<Twist>| #[trigger]
                    self.is_phase_2_descent(cube, path) implies path.len() > budget by {
                    lemma_descent(
                        self.phase_2@,
                        (SubsetSpace { twister: &self.twister }),
                        Twists::spec_h0(),
                        subset_cube.spec_index() as usize,
                        phase_2_distance as nat,
                        path,
                    );
                }
                assert(!self.solves_in_phase_2(cube, budget as int));
            }
            return None;
        }
        let h0 = Twists::h0();
        let space = SubsetSpace { twister: &self.twister };
        let start = subset_cube.index() as usize;
        match self.phase_2.solution_in(&space, h0, start) {
            Some(solution) => {
                proof {
                    lemma_descent(
                        self.phase_2@,
                        space,
                        h0,
                        start,
                        phase_2_distance as nat,
                        solution@,
                    );
                }
                let end = cube.twisted_by(&self.twister, &solution);
                proof {
                    assert(self.is_phase_2_descent(cube, solution@));
                    assert forall|path: Seq<Twist>| #[trigger]
                        self.is_phase_2_descent(cube, path) implies path == solution@ by {
                        lemma_descent_unique(
                            self.phase_2@,
                            space,
                            h0,
                            start,
                            phase_2_distance as nat,
                            path,
                            solution@,
                        );
                    }
                }
                if end.is_solved() {
                    proof {
                        assert(self.solves_in_phase_2(cube, budget as int));
                        let found = self.spec_search_phase_2(cube, budget as nat)->Some_0;
                        assert(self.is_phase_2_descent(cube, found));
                        assert(found == solution@);
                    }
                    Some(solution)
                } else {
                    proof {
                        assert(!self.solves_in_phase_2(cube, budget as int));
                    }
                    None
                }
            },
            None => {
                proof {
                    lemma_descent_of_nothing(self.phase_2@, space, h0, start, Seq::empty());
                    assert forall|path: Seq<Twist>| !#[trigger] self.is_phase_2_descent(cube, path) by {
                        lemma_stuck_has_no_descent(
                            self.phase_2@,
                            space,
                            h0,
                            start,
                            phase_2_distance as nat,
                            path,
                        );
                    }
                    assert(!self.solves_in_phase_2(cube, budget as int));
                }
                None
            },
        }
    }
}

} // verus!
