//! Which paths inside an intersection cross. A vehicle that is about to
//! enter one of two crossing paths has to come to terms with the vehicles on
//! the other.

use crate::arena::Id;
use crate::driver::yielding::{TurnType, YieldResolver};
use crate::road::{copy_ids, ids_below, Intersection, Road, Segment};
use crate::vector::Vec3;
use vstd::prelude::*;

verus! {

/// The points at which a path is sampled: both ends and nine between them.
pub const SAMPLES: usize = 11;

/// From one sample to the next, in progress along the path: a tenth.
pub const SAMPLE_STEP: i64 = 100_000;

/// Two paths that come closer than this cross: 2 m.
pub const CONFLICT_DISTANCE: i64 = 2_000_000;

impl Road {
    /// The `i`-th sample of segment `s`: the point at `i` tenths of the path.
    pub open spec fn sample_spec(&self, s: int, i: int) -> Vec3 {
        let segment = self.segments@[s];
        segment.geometry.position_at_spec(
            self.nodes@[segment.from.id as int].position,
            self.nodes@[segment.to.id as int].position,
            (i * SAMPLE_STEP) as i64,
        )
    }

    /// Whether sample `i` of segment `a` and sample `j` of segment `b` are
    /// close.
    pub open spec fn near(&self, a: int, b: int, i: int, j: int) -> bool {
        self.sample_spec(a, i).distance_spec(self.sample_spec(b, j)) < CONFLICT_DISTANCE
    }

    /// Whether the paths of segments `a` and `b` come close: some sample of
    /// the one is close to some sample of the other.
    pub open spec fn close_spec(&self, a: int, b: int) -> bool {
        exists|i: int, j: int| 0 <= i < SAMPLES && 0 <= j < SAMPLES && #[trigger] self.near(a, b, i, j)
    }

    /// Whether segment `a` is a ramp onto a roundabout and `b` the arc of
    /// its circle that ends where the ramp ends.
    pub open spec fn merges_spec(&self, a: int, b: int) -> bool {
        &&& self.segments@[a].turn_type is RoundaboutEntry
        &&& self.segments@[b].turn_type is RoundaboutCircle
        &&& self.segments@[a].to.id == self.segments@[b].to.id
    }

    /// Whether the paths of segments `a` and `b` cross, inside an
    /// intersection under `resolver`: on a roundabout only a ramp and the arc
    /// it merges into, elsewhere any two paths that come close.
    pub open spec fn crossing_spec(&self, resolver: YieldResolver, a: int, b: int) -> bool {
        match resolver {
            YieldResolver::Roundabout => self.merges_spec(a, b) || self.merges_spec(b, a),
            YieldResolver::RightOfWay => self.close_spec(a, b),
        }
    }

    /// The samples of `segment`, from its start to its end.
    pub fn samples(&self, segment: Id<Segment>) -> (r: Vec<Vec3>)
        requires
            self.wf(),
            segment.id < self.segments@.len(),
        ensures
            r@.len() == SAMPLES,
            forall|i: int| 0 <= i < SAMPLES ==> #[trigger] r@[i] == self.sample_spec(
                segment.id as int,
                i,
            ),
    {
        proof {
            assert(self.wired(segment.id as int));
        }
        let path = self.segments.get(&segment);
        let from = self.nodes.get(&path.from).position;
        let to = self.nodes.get(&path.to).position;
        let mut out: Vec<Vec3> = Vec::new();
        let mut i: usize = 0;
        while i < SAMPLES
            invariant
                i <= SAMPLES,
                segment.id < self.segments@.len(),
                *path == self.segments@[segment.id as int],
                from == self.nodes@[path.from.id as int].position,
                to == self.nodes@[path.to.id as int].position,
                out@.len() == i,
                forall|k: int| 0 <= k < i ==> #[trigger] out@[k] == self.sample_spec(
                    segment.id as int,
                    k,
                ),
            decreases SAMPLES - i,
        {
            let progress: i64 = (i as i64) * SAMPLE_STEP;
            out.push(path.geometry.position_at(from, to, progress));
            i += 1;
        }
        out
    }

    /// Whether the paths of `a` and `b` come close.
    pub fn close(&self, a: Id<Segment>, b: Id<Segment>) -> (r: bool)
        requires
            self.wf(),
            a.id < self.segments@.len(),
            b.id < self.segments@.len(),
        ensures
            r == self.close_spec(a.id as int, b.id as int),
    {
        let first = self.samples(a);
        let second = self.samples(b);
        let mut i: usize = 0;
        while i < SAMPLES
            invariant
                i <= SAMPLES,
                first@.len() == SAMPLES,
                second@.len() == SAMPLES,
                forall|k: int| 0 <= k < SAMPLES ==> #[trigger] first@[k] == self.sample_spec(
                    a.id as int,
                    k,
                ),
                forall|k: int| 0 <= k < SAMPLES ==> #[trigger] second@[k] == self.sample_spec(
                    b.id as int,
                    k,
                ),
                forall|x: int, y: int|
                    0 <= x < i && 0 <= y < SAMPLES ==> !#[trigger] self.near(
                        a.id as int,
                        b.id as int,
                        x,
                        y,
                    ),
            decreases SAMPLES - i,
        {
            let mut j: usize = 0;
            while j < SAMPLES
                invariant
                    i < SAMPLES,
                    j <= SAMPLES,
                    first@.len() == SAMPLES,
                    second@.len() == SAMPLES,
                    first@[i as int] == self.sample_spec(a.id as int, i as int),
                    forall|k: int| 0 <= k < SAMPLES ==> #[trigger] second@[k] == self.sample_spec(
                        b.id as int,
                        k,
                    ),
                    forall|y: int|
                        0 <= y < j ==> !#[trigger] self.near(a.id as int, b.id as int, i as int, y),
                decreases SAMPLES - j,
            {
                if first[i].distance(second[j]) < CONFLICT_DISTANCE {
                    proof {
                        assert(self.near(a.id as int, b.id as int, i as int, j as int));
                    }
                    return true;
                }
                j += 1;
            }
            i += 1;
        }
        false
    }

    /// Whether `a` is a ramp that merges into the arc `b`.
    pub fn merges(&self, a: Id<Segment>, b: Id<Segment>) -> (r: bool)
        requires
            a.id < self.segments@.len(),
            b.id < self.segments@.len(),
        ensures
            r == self.merges_spec(a.id as int, b.id as int),
    {
        let ramp = self.segments.get(&a);
        let arc = self.segments.get(&b);
        match (ramp.turn_type, arc.turn_type) {
            (TurnType::RoundaboutEntry, TurnType::RoundaboutCircle) => ramp.to.id == arc.to.id,
            _ => false,
        }
    }

    /// Whether the paths of `a` and `b` cross, inside an intersection under
    /// `resolver`.
    pub fn crossing(&self, resolver: YieldResolver, a: Id<Segment>, b: Id<Segment>) -> (r: bool)
        requires
            self.wf(),
            a.id < self.segments@.len(),
            b.id < self.segments@.len(),
        ensures
            r == self.crossing_spec(resolver, a.id as int, b.id as int),
    {
        match resolver {
            YieldResolver::Roundabout => self.merges(a, b) || self.merges(b, a),
            YieldResolver::RightOfWay => self.close(a, b),
        }
    }
}

impl Intersection {
    /// Equal but for the table of conflicts.
    pub open spec fn same_but_conflicts(&self, o: &Intersection) -> bool {
        &&& self.same_place(o)
        &&& self.arrival_counter == o.arrival_counter
    }
}

/// Conflicts are mutual: the table holds a pair in one order exactly if it
/// holds it in the other.
pub proof fn lemma_conflicts_symmetric(
    intersection: &Intersection,
    node_count: int,
    segment_count: int,
    a: int,
    b: int,
)
    requires
        intersection.wf(node_count, segment_count),
    ensures
        intersection.conflicting(a, b) == intersection.conflicting(b, a),
{
    if intersection.conflicting(a, b) {
        let k = choose|k: int|
            0 <= k < intersection.conflicts@.len() && (#[trigger] intersection.conflicts@[k]).0.id
                == a && intersection.conflicts@[k].1.id == b;
        assert(intersection.conflicting(
            intersection.conflicts@[k].1.id as int,
            intersection.conflicts@[k].0.id as int,
        ));
    }
    if intersection.conflicting(b, a) {
        let k = choose|k: int|
            0 <= k < intersection.conflicts@.len() && (#[trigger] intersection.conflicts@[k]).0.id
                == b && intersection.conflicts@[k].1.id == a;
        assert(intersection.conflicting(
            intersection.conflicts@[k].1.id as int,
            intersection.conflicts@[k].0.id as int,
        ));
    }
}

impl Road {
    /// The conflicts of the path at position `i` of `incoming` with the
    /// paths at the positions after it and before `j`, each in both orders.
    pub open spec fn conflict_row_spec(
        &self,
        resolver: YieldResolver,
        incoming: Seq<Id<Segment>>,
        i: int,
        j: int,
    ) -> Seq<(Id<Segment>, Id<Segment>)>
        decreases j - i,
    {
        if j <= i + 1 {
            Seq::empty()
        } else {
            let before = self.conflict_row_spec(resolver, incoming, i, j - 1);
            if self.crossing_spec(resolver, incoming[i].id as int, incoming[j - 1].id as int) {
                before.push((incoming[i], incoming[j - 1])).push((incoming[j - 1], incoming[i]))
            } else {
                before
            }
        }
    }

    /// The conflicts among the paths of `incoming`, for the pairs whose
    /// first path stands at a position before `i`.
    pub open spec fn conflict_rows_spec(
        &self,
        resolver: YieldResolver,
        incoming: Seq<Id<Segment>>,
        i: int,
    ) -> Seq<(Id<Segment>, Id<Segment>)>
        decreases i,
    {
        if i <= 0 {
            Seq::empty()
        } else {
            self.conflict_rows_spec(resolver, incoming, i - 1) + self.conflict_row_spec(
                resolver,
                incoming,
                i - 1,
                incoming.len() as int,
            )
        }
    }

    /// The state after `added` was appended to the table of intersection
    /// `at`, with nothing else changed.
    pub open spec fn conflicts_added(
        &self,
        before: &Road,
        at: int,
        added: Seq<(Id<Segment>, Id<Segment>)>,
    ) -> bool {
        &&& self.nodes@ == before.nodes@
        &&& self.segments@ == before.segments@
        &&& self.intersections@.len() == before.intersections@.len()
        &&& forall|i: int|
            0 <= i < self.intersections@.len() && i != at ==> self.intersections@[i]
                == before.intersections@[i]
        &&& self.intersections@[at].same_but_conflicts(&before.intersections@[at])
        &&& self.intersections@[at].conflicts@ == before.intersections@[at].conflicts@ + added
    }

    /// Records that the paths `a` and `b` of intersection `at` cross.
    #[verifier::rlimit(40)]
    pub fn add_conflict(&mut self, at: Id<Intersection>, a: Id<Segment>, b: Id<Segment>)
        requires
            old(self).wf(),
            at.id < old(self).intersections@.len(),
            a.id < old(self).segments@.len(),
            b.id < old(self).segments@.len(),
        ensures
            final(self).wf(),
            final(self).conflicts_added(old(self), at.id as int, seq![(a, b), (b, a)]),
    {
        let x = self.intersections.get_mut(&at);
        x.conflicts.push((a, b));
        x.conflicts.push((b, a));
        proof {
            let was = old(self).intersections@[at.id as int];
            let now = self.intersections@[at.id as int];
            assert(now.conflicts@ =~= was.conflicts@ + seq![(a, b), (b, a)]);
            assert(self.nodes@ =~= old(self).nodes@);
            assert(self.segments@ =~= old(self).segments@);
            assert forall|s: int| 0 <= s < self.segments@.len() implies self.wired(s) by {
                assert(old(self).wired(s));
            }
            let nodes = self.nodes@.len() as int;
            let segments = self.segments@.len() as int;
            assert(was.wf(nodes, segments));
            let n = was.conflicts@.len() as int;
            assert forall|k: int| 0 <= k < now.conflicts@.len() implies {
                &&& (#[trigger] now.conflicts@[k]).0.id < segments
                &&& now.conflicts@[k].1.id < segments
                &&& now.conflicting(now.conflicts@[k].1.id as int, now.conflicts@[k].0.id as int)
            } by {
                if k < n {
                    assert(now.conflicts@[k] == was.conflicts@[k]);
                    let j = choose|j: int|
                        0 <= j < was.conflicts@.len() && (#[trigger] was.conflicts@[j]).0.id
                            == was.conflicts@[k].1.id && was.conflicts@[j].1.id
                            == was.conflicts@[k].0.id;
                    assert(now.conflicts@[j] == was.conflicts@[j]);
                } else if k == n {
                    assert(now.conflicts@[n + 1].0.id == b.id);
                } else {
                    assert(now.conflicts@[n].0.id == a.id);
                }
            }
            assert forall|i: int| 0 <= i < self.intersections@.len() implies (
            #[trigger] self.intersections@[i]).wf(nodes, segments) by {
                if i != at.id {
                    assert(old(self).intersections@[i].wf(nodes, segments));
                }
            }
        }
    }

    /// Records the paths of intersection `at` that cross: every pair of
    /// them is examined once.
    #[verifier::rlimit(40)]
    pub fn record_conflicts_at(&mut self, at: Id<Intersection>)
        requires
            old(self).wf(),
            at.id < old(self).intersections@.len(),
        ensures
            final(self).wf(),
            final(self).conflicts_added(
                old(self),
                at.id as int,
                old(self).conflict_rows_spec(
                    old(self).intersections@[at.id as int].yield_resolver,
                    old(self).intersections@[at.id as int].incoming@,
                    old(self).intersections@[at.id as int].incoming@.len() as int,
                ),
            ),
    {
        let resolver = self.intersections.get(&at).yield_resolver;
        let incoming = copy_ids(&self.intersections.get(&at).incoming);
        let ghost x = at.id as int;
        let ghost nodes = self.nodes@.len() as int;
        let ghost segments = self.segments@.len() as int;
        proof {
            assert(old(self).intersections@[x].wf(nodes, segments));
            assert(self.intersections@[x].conflicts@ =~= old(self).intersections@[x].conflicts@
                + old(self).conflict_rows_spec(resolver, incoming@, 0));
        }
        let mut i: usize = 0;
        while i < incoming.len()
            invariant
                self.wf(),
                x == at.id,
                0 <= x < old(self).intersections@.len(),
                i <= incoming@.len(),
                resolver == old(self).intersections@[x].yield_resolver,
                incoming@ == old(self).intersections@[x].incoming@,
                ids_below(incoming@, old(self).segments@.len() as int),
                self.conflicts_added(
                    old(self),
                    x,
                    old(self).conflict_rows_spec(resolver, incoming@, i as int),
                ),
            decreases incoming@.len() - i,
        {
            let ghost rows = old(self).conflict_rows_spec(resolver, incoming@, i as int);
            let mut j: usize = i + 1;
            proof {
                assert(rows + old(self).conflict_row_spec(resolver, incoming@, i as int, i + 1)
                    =~= rows);
            }
            while j < incoming.len()
                invariant
                    self.wf(),
                    x == at.id,
                    0 <= x < old(self).intersections@.len(),
                    i < incoming@.len(),
                    i < j <= incoming@.len(),
                    resolver == old(self).intersections@[x].yield_resolver,
                    incoming@ == old(self).intersections@[x].incoming@,
                    ids_below(incoming@, old(self).segments@.len() as int),
                    rows == old(self).conflict_rows_spec(resolver, incoming@, i as int),
                    self.conflicts_added(
                        old(self),
                        x,
                        rows + old(self).conflict_row_spec(resolver, incoming@, i as int, j as int),
                    ),
                decreases incoming@.len() - j,
            {
                let a = incoming[i];
                let b = incoming[j];
                let ghost row = old(self).conflict_row_spec(resolver, incoming@, i as int, j as int);
                let ghost mid = *self;
                proof {
                    lemma_same_crossing(old(self), self, resolver, a.id as int, b.id as int);
                }
                if self.crossing(resolver, a, b) {
                    self.add_conflict(at, a, b);
                    proof {
                        assert(self.intersections@[x].conflicts@ =~= old(
                            self,
                        ).intersections@[x].conflicts@ + (rows + row.push((a, b)).push((b, a))));
                    }
                }
                proof {
                    assert(rows + old(self).conflict_row_spec(
                        resolver,
                        incoming@,
                        i as int,
                        j + 1,
                    ) =~= if old(self).crossing_spec(resolver, a.id as int, b.id as int) {
                        rows + row.push((a, b)).push((b, a))
                    } else {
                        rows + row
                    });
                }
                j += 1;
            }
            i += 1;
        }
    }

    /// The state after the crossing paths of every intersection were
    /// recorded: the nodes and the segments are as before, and the table of
    /// every intersection holds, after what it held, the conflicts among its
    /// paths.
    pub open spec fn conflicts_recorded(&self, before: &Road) -> bool {
        &&& self.nodes@ == before.nodes@
        &&& self.segments@ == before.segments@
        &&& self.intersections@.len() == before.intersections@.len()
        &&& forall|i: int|
            0 <= i < self.intersections@.len() ==> {
                &&& (#[trigger] self.intersections@[i]).same_but_conflicts(
                    &before.intersections@[i],
                )
                &&& self.intersections@[i].conflicts@ == before.intersections@[i].conflicts@
                    + before.conflict_rows_spec(
                    before.intersections@[i].yield_resolver,
                    before.intersections@[i].incoming@,
                    before.intersections@[i].incoming@.len() as int,
                )
            }
    }

    /// Records the crossing paths of every intersection.
    pub fn record_conflicts(&mut self)
        requires
            old(self).wf(),
        ensures
            final(self).wf(),
            final(self).conflicts_recorded(old(self)),
    {
        let mut i: usize = 0;
        while i < self.intersections.len()
            invariant
                self.wf(),
                i <= self.intersections@.len(),
                self.nodes@ == old(self).nodes@,
                self.segments@ == old(self).segments@,
                self.intersections@.len() == old(self).intersections@.len(),
                forall|k: int|
                    i <= k < self.intersections@.len() ==> self.intersections@[k] == old(
                        self,
                    ).intersections@[k],
                forall|k: int|
                    0 <= k < i ==> {
                        &&& (#[trigger] self.intersections@[k]).same_but_conflicts(
                            &old(self).intersections@[k],
                        )
                        &&& self.intersections@[k].conflicts@ == old(
                            self,
                        ).intersections@[k].conflicts@ + old(self).conflict_rows_spec(
                            old(self).intersections@[k].yield_resolver,
                            old(self).intersections@[k].incoming@,
                            old(self).intersections@[k].incoming@.len() as int,
                        )
                    },
            decreases self.intersections@.len() - i,
        {
            let ghost mid = *self;
            self.record_conflicts_at(Id::new(i));
            proof {
                let resolver = mid.intersections@[i as int].yield_resolver;
                let incoming = mid.intersections@[i as int].incoming@;
                lemma_same_rows(old(self), &mid, resolver, incoming, incoming.len() as int);
            }
            i += 1;
        }
    }
}

/// Whether two paths cross depends on the nodes and the segments alone.
pub proof fn lemma_same_crossing(one: &Road, other: &Road, resolver: YieldResolver, a: int, b: int)
    requires
        one.nodes@ == other.nodes@,
        one.segments@ == other.segments@,
    ensures
        one.crossing_spec(resolver, a, b) == other.crossing_spec(resolver, a, b),
{
    assert forall|i: int, j: int| one.near(a, b, i, j) == other.near(a, b, i, j) by {}
    if one.close_spec(a, b) {
        let (i, j) = choose|i: int, j: int|
            0 <= i < SAMPLES && 0 <= j < SAMPLES && #[trigger] one.near(a, b, i, j);
        assert(other.near(a, b, i, j));
    }
    if other.close_spec(a, b) {
        let (i, j) = choose|i: int, j: int|
            0 <= i < SAMPLES && 0 <= j < SAMPLES && #[trigger] other.near(a, b, i, j);
        assert(one.near(a, b, i, j));
    }
}

/// The conflicts among given paths depend on the nodes and the segments
/// alone.
pub proof fn lemma_same_rows(
    one: &Road,
    other: &Road,
    resolver: YieldResolver,
    incoming: Seq<Id<Segment>>,
    i: int,
)
    requires
        one.nodes@ == other.nodes@,
        one.segments@ == other.segments@,
    ensures
        one.conflict_rows_spec(resolver, incoming, i) == other.conflict_rows_spec(
            resolver,
            incoming,
            i,
        ),
    decreases i,
{
    if i > 0 {
        lemma_same_rows(one, other, resolver, incoming, i - 1);
        lemma_same_row(one, other, resolver, incoming, i - 1, incoming.len() as int);
    }
}

proof fn lemma_same_row(
    one: &Road,
    other: &Road,
    resolver: YieldResolver,
    incoming: Seq<Id<Segment>>,
    i: int,
    j: int,
)
    requires
        one.nodes@ == other.nodes@,
        one.segments@ == other.segments@,
    ensures
        one.conflict_row_spec(resolver, incoming, i, j) == other.conflict_row_spec(
            resolver,
            incoming,
            i,
            j,
        ),
    decreases j - i,
{
    if j > i + 1 {
        lemma_same_row(one, other, resolver, incoming, i, j - 1);
        lemma_same_crossing(one, other, resolver, incoming[i].id as int, incoming[j - 1].id as int);
    }
}

} // verus!
