//! Routes through the network: the fewest segments from one node to another.

use crate::arena::Id;
use crate::road::{copy_ids, lists, Node, Road, Segment};
use vstd::prelude::*;

verus! {

impl Road {
    /// Whether a vehicle at node `a` may take segment `s`: the node lists it
    /// as outgoing.
    pub open spec fn departs(&self, a: int, s: Id<Segment>) -> bool {
        &&& 0 <= a < self.nodes@.len()
        &&& s.id < self.segments@.len()
        &&& lists(self.nodes@[a].outgoing@, s.id as int)
    }

    /// Whether the segments of `route`, driven one after the other from node
    /// `a`, lead to node `b`: each of them departs from the node at which
    /// the one before ends.
    pub open spec fn leads(&self, a: int, route: Seq<Id<Segment>>, b: int) -> bool
        decreases route.len(),
    {
        if route.len() == 0 {
            a == b
        } else {
            &&& self.departs(a, route[0])
            &&& self.leads(self.segments@[route[0].id as int].to.id as int, route.drop_first(), b)
        }
    }

    /// Whether `route` is a way from node `a` to node `b` of at least one
    /// segment.
    pub open spec fn is_route(&self, a: int, route: Seq<Id<Segment>>, b: int) -> bool {
        route.len() > 0 && self.leads(a, route, b)
    }

    /// Whether there is a way from node `a` to node `b`.
    pub open spec fn reachable(&self, a: int, b: int) -> bool {
        exists|route: Seq<Id<Segment>>| #[trigger] self.is_route(a, route, b)
    }

    /// Whether no way from node `a` to node `b` has fewer than `hops`
    /// segments.
    pub open spec fn at_least(&self, a: int, b: int, hops: int) -> bool {
        forall|other: Seq<Id<Segment>>| #[trigger] self.is_route(a, other, b) ==> hops <= other.len()
    }

    /// A way goes on by any segment that departs where it ends.
    pub proof fn lemma_leads_push(&self, a: int, route: Seq<Id<Segment>>, b: int, s: Id<Segment>)
        requires
            self.leads(a, route, b),
            self.departs(b, s),
        ensures
            self.leads(a, route.push(s), self.segments@[s.id as int].to.id as int),
        decreases route.len(),
    {
        let more = route.push(s);
        if route.len() == 0 {
            assert(more.drop_first() =~= Seq::<Id<Segment>>::empty());
            assert(self.leads(
                self.segments@[s.id as int].to.id as int,
                more.drop_first(),
                self.segments@[s.id as int].to.id as int,
            ));
        } else {
            let next = self.segments@[route[0].id as int].to.id as int;
            self.lemma_leads_push(next, route.drop_first(), b, s);
            assert(more.drop_first() =~= route.drop_first().push(s));
        }
    }

    /// Two ways, the second from where the first ends, make one way.
    pub proof fn lemma_leads_join(
        &self,
        a: int,
        first: Seq<Id<Segment>>,
        b: int,
        second: Seq<Id<Segment>>,
        c: int,
    )
        requires
            self.leads(a, first, b),
            self.leads(b, second, c),
        ensures
            self.leads(a, first + second, c),
        decreases first.len(),
    {
        if first.len() == 0 {
            assert(first + second =~= second);
        } else {
            let next = self.segments@[first[0].id as int].to.id as int;
            self.lemma_leads_join(next, first.drop_first(), b, second, c);
            assert((first + second).drop_first() =~= first.drop_first() + second);
        }
    }

    /// A way can be cut in two at any place: the result is the node there.
    pub proof fn lemma_leads_cut(&self, a: int, route: Seq<Id<Segment>>, c: int, k: int) -> (b: int)
        requires
            self.wf(),
            0 <= a < self.nodes@.len(),
            self.leads(a, route, c),
            0 <= k <= route.len(),
        ensures
            0 <= b < self.nodes@.len(),
            self.leads(a, route.take(k), b),
            self.leads(b, route.skip(k), c),
        decreases k,
    {
        if k == 0 {
            assert(route.take(0) =~= Seq::<Id<Segment>>::empty());
            assert(route.skip(0) =~= route);
            a
        } else {
            assert(self.wired(route[0].id as int));
            let next = self.segments@[route[0].id as int].to.id as int;
            let b = self.lemma_leads_cut(next, route.drop_first(), c, k - 1);
            assert(route.take(k).drop_first() =~= route.drop_first().take(k - 1));
            assert(route.skip(k) =~= route.drop_first().skip(k - 1));
            b
        }
    }

    /// A way of one segment.
    pub proof fn lemma_leads_one(&self, a: int, s: Id<Segment>)
        requires
            self.departs(a, s),
        ensures
            self.is_route(a, seq![s], self.segments@[s.id as int].to.id as int),
    {
        assert(self.leads(a, Seq::empty(), a));
        self.lemma_leads_push(a, Seq::empty(), a, s);
        assert(Seq::<Id<Segment>>::empty().push(s) =~= seq![s]);
    }
}

/// The ways found so far, one for each node: an empty one where none was
/// found yet.
pub type Ways = Vec<Vec<Id<Segment>>>;

/// Whether a way to node `v` was found.
pub open spec fn found(ways: Seq<Vec<Id<Segment>>>, v: int) -> bool {
    0 <= v < ways.len() && ways[v]@.len() > 0
}

impl Road {
    /// Every way found leads from `start` to its node, has at most `hops`
    /// segments, and no way to that node has fewer.
    pub open spec fn sound(&self, start: int, ways: Seq<Vec<Id<Segment>>>, hops: int) -> bool {
        &&& ways.len() == self.nodes@.len()
        &&& forall|v: int|
            0 <= v < ways.len() && #[trigger] found(ways, v) ==> {
                &&& self.leads(start, ways[v]@, v)
                &&& ways[v]@.len() <= hops
                &&& self.at_least(start, v, ways[v]@.len() as int)
            }
    }

    /// A way was found to every node to which one of at most `hops`
    /// segments leads.
    pub open spec fn complete(&self, start: int, ways: Seq<Vec<Id<Segment>>>, hops: int) -> bool {
        forall|route: Seq<Id<Segment>>, v: int|
            0 <= v < ways.len() && #[trigger] self.is_route(start, route, v) && route.len() <= hops
                ==> found(ways, v)
    }
}

/// `frontier` holds the nodes whose way has `hops` segments, and all of them.
pub open spec fn is_frontier(ways: Seq<Vec<Id<Segment>>>, frontier: Seq<usize>, hops: int) -> bool {
    &&& forall|i: int|
        0 <= i < frontier.len() ==> (#[trigger] frontier[i]) < ways.len()
            && ways[frontier[i] as int]@.len() == hops
    &&& forall|v: int|
        0 <= v < ways.len() && (#[trigger] ways[v])@.len() == hops ==> frontier.contains(v as usize)
}

/// The nodes to which no way was found.
pub open spec fn unvisited(ways: Seq<Vec<Id<Segment>>>) -> Set<int> {
    Set::new(|v: int| 0 <= v < ways.len() && !found(ways, v))
}

impl Road {
    /// The nodes one segment away from `start`. Of several segments to one
    /// node the last listed is kept.
    #[verifier::rlimit(40)]
    fn first_level(&self, start: Id<Node>) -> (r: (Ways, Vec<usize>))
        requires
            self.wf(),
            start.id < self.nodes@.len(),
        ensures
            self.sound(start.id as int, r.0@, 1),
            self.complete(start.id as int, r.0@, 1),
            is_frontier(r.0@, r.1@, 1),
    {
        let ghost a = start.id as int;
        let mut ways: Ways = Vec::new();
        let mut n: usize = 0;
        while n < self.nodes.len()
            invariant
                n <= self.nodes@.len(),
                ways@.len() == n,
                forall|v: int| 0 <= v < n ==> !found(ways@, v),
            decreases self.nodes@.len() - n,
        {
            let ghost before = ways@;
            ways.push(Vec::new());
            proof {
                assert forall|v: int| 0 <= v < n + 1 implies !found(ways@, v) by {
                    if v < n {
                        assert(!found(before, v));
                    }
                }
            }
            n += 1;
        }
        let mut frontier: Vec<usize> = Vec::new();
        let outgoing = &self.nodes.get(&start).outgoing;
        let mut k: usize = 0;
        while k < outgoing.len()
            invariant
                self.wf(),
                a == start.id,
                0 <= a < self.nodes@.len(),
                *outgoing == self.nodes@[a].outgoing,
                k <= outgoing@.len(),
                ways@.len() == self.nodes@.len(),
                forall|v: int|
                    0 <= v < ways@.len() && #[trigger] found(ways@, v) ==> {
                        &&& ways@[v]@.len() == 1
                        &&& self.departs(a, ways@[v]@[0])
                        &&& self.segments@[ways@[v]@[0].id as int].to.id == v
                    },
                forall|j: int|
                    0 <= j < k ==> found(
                        ways@,
                        self.segments@[(#[trigger] outgoing@[j]).id as int].to.id as int,
                    ),
                forall|i: int|
                    0 <= i < frontier@.len() ==> (#[trigger] frontier@[i]) < ways@.len() && found(
                        ways@,
                        frontier@[i] as int,
                    ),
                forall|v: int|
                    0 <= v < ways@.len() && found(ways@, v) ==> #[trigger] frontier@.contains(
                        v as usize,
                    ),
            decreases outgoing@.len() - k,
        {
            proof {
                assert(self.nodes@[a].wf(self.segments@.len() as int));
            }
            let segment = outgoing[k];
            proof {
                assert(self.wired(segment.id as int));
            }
            let w = self.segments.get(&segment).to.id;
            let ghost before = ways@;
            let ghost front = frontier@;
            if ways[w].len() == 0 {
                frontier.push(w);
            }
            let mut way: Vec<Id<Segment>> = Vec::new();
            way.push(segment);
            ways.set(w, way);
            proof {
                assert(ways@[w as int]@[0] == segment);
                assert(ways@[w as int]@.len() == 1);
                assert(found(ways@, w as int));
                assert forall|v: int| 0 <= v < ways@.len() && #[trigger] found(ways@, v) implies {
                    &&& ways@[v]@.len() == 1
                    &&& self.departs(a, ways@[v]@[0])
                    &&& self.segments@[ways@[v]@[0].id as int].to.id == v
                } by {
                    if v != w {
                        assert(found(before, v));
                    }
                }
                assert forall|i: int| 0 <= i < frontier@.len() implies (
                #[trigger] frontier@[i]) < ways@.len() && found(ways@, frontier@[i] as int) by {
                    if i < front.len() {
                        assert(found(before, front[i] as int));
                    }
                }
                assert forall|v: int|
                    0 <= v < ways@.len() && found(ways@, v) implies #[trigger] frontier@.contains(
                    v as usize,
                ) by {
                    if v == w {
                        if found(before, v) {
                            assert(front.contains(v as usize));
                            let i = choose|i: int| 0 <= i < front.len() && front[i] == v as usize;
                            assert(frontier@[i] == v as usize);
                        } else {
                            assert(frontier@[front.len() as int] == w);
                        }
                    } else {
                        assert(found(before, v));
                        assert(front.contains(v as usize));
                        let i = choose|i: int| 0 <= i < front.len() && front[i] == v as usize;
                        assert(frontier@[i] == v as usize);
                    }
                }
                assert forall|j: int| 0 <= j < k + 1 implies found(
                    ways@,
                    self.segments@[(#[trigger] outgoing@[j]).id as int].to.id as int,
                ) by {
                    assert(self.wired(outgoing@[j].id as int));
                    let t = self.segments@[outgoing@[j].id as int].to.id as int;
                    if t != w {
                        assert(found(before, t));
                        assert(ways@[t] == before[t]);
                    }
                }
            }
            k += 1;
        }
        proof {
            assert forall|v: int| 0 <= v < ways@.len() && #[trigger] found(ways@, v) implies {
                &&& self.leads(a, ways@[v]@, v)
                &&& ways@[v]@.len() <= 1
                &&& self.at_least(a, v, ways@[v]@.len() as int)
            } by {
                self.lemma_leads_one(a, ways@[v]@[0]);
                assert(ways@[v]@ =~= seq![ways@[v]@[0]]);
            }
            assert forall|route: Seq<Id<Segment>>, v: int|
                0 <= v < ways@.len() && #[trigger] self.is_route(a, route, v) && route.len()
                    <= 1 implies found(ways@, v) by {
                let s = route[0];
                assert(route.drop_first().len() == 0);
                assert(self.leads(self.segments@[s.id as int].to.id as int, route.drop_first(), v));
                let j = choose|j: int|
                    0 <= j < outgoing@.len() && (#[trigger] outgoing@[j]).id == s.id;
                assert(found(ways@, self.segments@[outgoing@[j].id as int].to.id as int));
            }
            assert forall|v: int|
                0 <= v < ways@.len() && (#[trigger] ways@[v])@.len() == 1 implies frontier@.contains(
                v as usize,
            ) by {
                assert(found(ways@, v));
            }
        }
        (ways, frontier)
    }
}

/// What one more level of the search has made of the ways `old`: the ways
/// found before are kept, and each new one leads from `start` to its node in
/// `hops + 1` segments.
pub open spec fn grown(
    road: &Road,
    start: int,
    old: Seq<Vec<Id<Segment>>>,
    ways: Seq<Vec<Id<Segment>>>,
    next: Seq<usize>,
    hops: int,
) -> bool {
    &&& ways.len() == old.len()
    &&& forall|v: int| 0 <= v < old.len() && #[trigger] found(old, v) ==> ways[v]@ == old[v]@
    &&& forall|v: int|
        0 <= v < ways.len() && #[trigger] found(ways, v) && !found(old, v) ==> {
            &&& ways[v]@.len() == hops + 1
            &&& road.leads(start, ways[v]@, v)
            &&& next.contains(v as usize)
        }
    &&& forall|i: int|
        0 <= i < next.len() ==> (#[trigger] next[i]) < ways.len() && found(ways, next[i] as int)
            && !found(old, next[i] as int)
}

/// Whether a way was found to the end of every segment that departs from
/// node `b` and stands before position `k` in its list.
pub open spec fn explored(road: &Road, ways: Seq<Vec<Id<Segment>>>, b: int, k: int) -> bool {
    forall|j: int|
        0 <= j < k ==> found(
            ways,
            road.segments@[(#[trigger] road.nodes@[b].outgoing@[j]).id as int].to.id as int,
        )
}

impl Road {
    /// After a level, the search is sound and complete for one more hop.
    #[verifier::rlimit(40)]
    proof fn lemma_level(
        &self,
        start: int,
        old: Seq<Vec<Id<Segment>>>,
        frontier: Seq<usize>,
        ways: Seq<Vec<Id<Segment>>>,
        next: Seq<usize>,
        hops: int,
    )
        requires
            self.wf(),
            0 <= start < self.nodes@.len(),
            hops >= 1,
            self.sound(start, old, hops),
            self.complete(start, old, hops),
            is_frontier(old, frontier, hops),
            grown(self, start, old, ways, next, hops),
            forall|i: int|
                0 <= i < frontier.len() ==> explored(
                    self,
                    ways,
                    #[trigger] frontier[i] as int,
                    self.nodes@[frontier[i] as int].outgoing@.len() as int,
                ),
        ensures
            self.sound(start, ways, hops + 1),
            self.complete(start, ways, hops + 1),
            is_frontier(ways, next, hops + 1),
    {
        self.nodes.lemma_len();
        assert forall|v: int| 0 <= v < ways.len() && #[trigger] found(ways, v) implies {
            &&& self.leads(start, ways[v]@, v)
            &&& ways[v]@.len() <= hops + 1
            &&& self.at_least(start, v, ways[v]@.len() as int)
        } by {
            if found(old, v) {
            } else {
                assert forall|other: Seq<Id<Segment>>| #[trigger]
                    self.is_route(start, other, v) implies hops + 1 <= other.len() by {
                    if other.len() <= hops {
                        assert(found(old, v));
                    }
                }
            }
        }
        assert forall|route: Seq<Id<Segment>>, v: int|
            0 <= v < ways.len() && #[trigger] self.is_route(start, route, v) && route.len() <= hops
                + 1 implies found(ways, v) by {
            if route.len() <= hops {
                assert(found(old, v));
            } else {
                let b = self.lemma_leads_cut(start, route, v, hops);
                let head = route.take(hops);
                let tail = route.skip(hops);
                let s = tail[0];
                assert(self.is_route(start, head, b));
                assert(found(old, b));
                assert(tail.drop_first().len() == 0);
                assert(self.leads(self.segments@[s.id as int].to.id as int, tail.drop_first(), v));
                if old[b]@.len() < hops {
                    self.lemma_leads_push(start, old[b]@, b, s);
                    assert(self.is_route(start, old[b]@.push(s), v));
                    assert(found(old, v));
                } else {
                    assert(frontier.contains(b as usize));
                    let i = choose|i: int| 0 <= i < frontier.len() && frontier[i] == b as usize;
                    assert(explored(
                        self,
                        ways,
                        frontier[i] as int,
                        self.nodes@[frontier[i] as int].outgoing@.len() as int,
                    ));
                    let j = choose|j: int|
                        0 <= j < self.nodes@[b].outgoing@.len() && (
                        #[trigger] self.nodes@[b].outgoing@[j]).id == s.id;
                    assert(found(
                        ways,
                        self.segments@[self.nodes@[b].outgoing@[j].id as int].to.id as int,
                    ));
                }
            }
        }
        assert forall|v: int|
            0 <= v < ways.len() && (#[trigger] ways[v])@.len() == hops + 1 implies next.contains(
            v as usize,
        ) by {
            assert(found(ways, v));
            if found(old, v) {
                assert(ways[v]@ == old[v]@);
            }
        }
    }

    /// Goes on from the nodes of `frontier` by every segment that departs
    /// from them: a way is found to each node that had none. Returns the
    /// ways and the nodes found.
    #[verifier::rlimit(40)]
    fn next_level(&self, start: Id<Node>, ways: Ways, frontier: &Vec<usize>, Ghost(hops): Ghost<int>) -> (r: (
        Ways,
        Vec<usize>,
    ))
        requires
            self.wf(),
            start.id < self.nodes@.len(),
            hops >= 1,
            self.sound(start.id as int, ways@, hops),
            self.complete(start.id as int, ways@, hops),
            is_frontier(ways@, frontier@, hops),
        ensures
            self.sound(start.id as int, r.0@, hops + 1),
            self.complete(start.id as int, r.0@, hops + 1),
            is_frontier(r.0@, r.1@, hops + 1),
            grown(self, start.id as int, ways@, r.0@, r.1@, hops),
    {
        let ghost a = start.id as int;
        let ghost old = ways@;
        let mut ways = ways;
        let mut next: Vec<usize> = Vec::new();
        let mut i: usize = 0;
        while i < frontier.len()
            invariant
                self.wf(),
                a == start.id,
                0 <= a < self.nodes@.len(),
                hops >= 1,
                self.sound(a, old, hops),
                is_frontier(old, frontier@, hops),
                i <= frontier@.len(),
                grown(self, a, old, ways@, next@, hops),
                forall|x: int|
                    0 <= x < i ==> explored(
                        self,
                        ways@,
                        #[trigger] frontier@[x] as int,
                        self.nodes@[frontier@[x] as int].outgoing@.len() as int,
                    ),
            decreases frontier@.len() - i,
        {
            let v = frontier[i];
            let outgoing = &self.nodes.get(&Id::new(v)).outgoing;
            let mut k: usize = 0;
            while k < outgoing.len()
                invariant
                    self.wf(),
                    a == start.id,
                    0 <= a < self.nodes@.len(),
                    hops >= 1,
                    self.sound(a, old, hops),
                    is_frontier(old, frontier@, hops),
                    i < frontier@.len(),
                    v == frontier@[i as int],
                    v < self.nodes@.len(),
                    *outgoing == self.nodes@[v as int].outgoing,
                    k <= outgoing@.len(),
                    grown(self, a, old, ways@, next@, hops),
                    forall|x: int|
                        0 <= x < i ==> explored(
                            self,
                            ways@,
                            #[trigger] frontier@[x] as int,
                            self.nodes@[frontier@[x] as int].outgoing@.len() as int,
                        ),
                    explored(self, ways@, v as int, k as int),
                decreases outgoing@.len() - k,
            {
                proof {
                    assert(self.nodes@[v as int].wf(self.segments@.len() as int));
                }
                let segment = outgoing[k];
                proof {
                    assert(self.wired(segment.id as int));
                }
                let w = self.segments.get(&segment).to.id;
                let ghost before = ways@;
                let ghost front = next@;
                if ways[w].len() == 0 {
                    let mut way = copy_ids(&ways[v]);
                    way.push(segment);
                    ways.set(w, way);
                    next.push(w);
                    proof {
                        assert(found(old, v as int));
                        assert(before[v as int]@ == old[v as int]@);
                        self.lemma_leads_push(a, old[v as int]@, v as int, segment);
                        assert(!found(old, w as int)) by {
                            if found(old, w as int) {
                                assert(before[w as int]@ == old[w as int]@);
                            }
                        }
                        assert(next@[front.len() as int] == w);
                        assert forall|x: int|
                            0 <= x < ways@.len() && #[trigger] found(ways@, x) && !found(
                                old,
                                x,
                            ) implies {
                            &&& ways@[x]@.len() == hops + 1
                            &&& self.leads(a, ways@[x]@, x)
                            &&& next@.contains(x as usize)
                        } by {
                            if x != w {
                                assert(found(before, x));
                                assert(front.contains(x as usize));
                                let y = choose|y: int| 0 <= y < front.len() && front[y] == x as usize;
                                assert(next@[y] == x as usize);
                            }
                        }
                        assert forall|y: int| 0 <= y < next@.len() implies (#[trigger] next@[y])
                            < ways@.len() && found(ways@, next@[y] as int) && !found(
                            old,
                            next@[y] as int,
                        ) by {
                            if y < front.len() {
                                assert(found(before, front[y] as int));
                            }
                        }
                        assert forall|x: int| 0 <= x < old.len() && #[trigger] found(
                            old,
                            x,
                        ) implies ways@[x]@ == old[x]@ by {
                            assert(before[x]@ == old[x]@);
                        }
                    }
                }
                proof {
                    lemma_explored_kept(self, before, ways@, w as int);
                    assert(found(ways@, w as int));
                    assert forall|x: int| 0 <= x < i implies explored(
                        self,
                        ways@,
                        #[trigger] frontier@[x] as int,
                        self.nodes@[frontier@[x] as int].outgoing@.len() as int,
                    ) by {
                        assert(explored(
                            self,
                            before,
                            frontier@[x] as int,
                            self.nodes@[frontier@[x] as int].outgoing@.len() as int,
                        ));
                    }
                    assert(explored(self, before, v as int, k as int));
                    assert(explored(self, ways@, v as int, k + 1));
                }
                k += 1;
            }
            i += 1;
        }
        proof {
            self.lemma_level(a, old, frontier@, ways@, next@, hops);
        }
        (ways, next)
    }
}

/// What was explored stays explored when ways are only added.
proof fn lemma_explored_kept(
    road: &Road,
    before: Seq<Vec<Id<Segment>>>,
    ways: Seq<Vec<Id<Segment>>>,
    w: int,
)
    requires
        ways.len() == before.len(),
        forall|x: int| 0 <= x < before.len() && x != w ==> ways[x] == before[x],
        0 <= w < ways.len() ==> found(before, w) ==> found(ways, w),
    ensures
        forall|b: int, k: int| #[trigger] explored(road, before, b, k) ==> explored(road, ways, b, k),
{
    assert forall|b: int, k: int| #[trigger] explored(road, before, b, k) implies explored(
        road,
        ways,
        b,
        k,
    ) by {
        assert forall|j: int| 0 <= j < k implies found(
            ways,
            road.segments@[(#[trigger] road.nodes@[b].outgoing@[j]).id as int].to.id as int,
        ) by {
            let t = road.segments@[road.nodes@[b].outgoing@[j].id as int].to.id as int;
            assert(found(before, t));
        }
    }
}

impl Road {
    /// Once a level of the search has found nothing, nothing is left to
    /// find: a way was found to every node to which any way leads.
    proof fn lemma_closed(
        &self,
        start: int,
        ways: Seq<Vec<Id<Segment>>>,
        hops: int,
        route: Seq<Id<Segment>>,
        v: int,
    )
        requires
            self.wf(),
            0 <= start < self.nodes@.len(),
            0 <= v < self.nodes@.len(),
            hops >= 1,
            self.sound(start, ways, hops),
            self.complete(start, ways, hops),
            forall|x: int| 0 <= x < ways.len() ==> (#[trigger] ways[x])@.len() != hops,
            self.is_route(start, route, v),
        ensures
            found(ways, v),
        decreases route.len(),
    {
        if route.len() > hops {
            let b = self.lemma_leads_cut(start, route, v, hops);
            let head = route.take(hops);
            let tail = route.skip(hops);
            assert(self.is_route(start, head, b));
            assert(found(ways, b));
            assert(ways[b]@.len() != hops);
            self.lemma_leads_join(start, ways[b]@, b, tail, v);
            self.lemma_closed(start, ways, hops, ways[b]@ + tail, v);
        }
    }
}

/// The nodes without a way are among the nodes.
proof fn lemma_unvisited_finite(ways: Seq<Vec<Id<Segment>>>)
    ensures
        unvisited(ways).finite(),
{
    vstd::set_lib::lemma_int_range(0, ways.len() as int);
    assert(unvisited(ways).subset_of(vstd::set_lib::set_int_range(0, ways.len() as int)));
    vstd::set_lib::lemma_len_subset(
        unvisited(ways),
        vstd::set_lib::set_int_range(0, ways.len() as int),
    );
}

/// The first segment of a way of fewest segments from `current` to
/// `destination`, and the way itself; `None` where the two are one node or
/// no way leads from the one to the other.
#[verifier::rlimit(40)]
pub fn next_segment_toward(road: &Road, current: Id<Node>, destination: Id<Node>) -> (r: Option<
    (Id<Segment>, Vec<Id<Segment>>),
>)
    requires
        road.wf(),
        current.id < road.nodes@.len(),
        destination.id < road.nodes@.len(),
    ensures
        r is None <==> current.id == destination.id || !road.reachable(
            current.id as int,
            destination.id as int,
        ),
        r matches Some((first, route)) ==> {
            &&& road.is_route(current.id as int, route@, destination.id as int)
            &&& road.at_least(current.id as int, destination.id as int, route@.len() as int)
            &&& first == route@[0]
        },
{
    if current.id == destination.id {
        return None;
    }
    let ghost a = current.id as int;
    let ghost b = destination.id as int;
    let (first_ways, first_frontier) = road.first_level(current);
    let mut ways = first_ways;
    let mut frontier = first_frontier;
    let ghost mut hops: int = 1;
    loop
        invariant
            road.wf(),
            a == current.id,
            b == destination.id,
            a != b,
            0 <= a < road.nodes@.len(),
            0 <= b < road.nodes@.len(),
            hops >= 1,
            road.sound(a, ways@, hops),
            road.complete(a, ways@, hops),
            is_frontier(ways@, frontier@, hops),
        decreases unvisited(ways@).len(),
    {
        if ways[destination.id].len() > 0 {
            let route = copy_ids(&ways[destination.id]);
            proof {
                assert(found(ways@, b));
                assert(road.is_route(a, route@, b));
                assert(road.reachable(a, b));
            }
            return Some((route[0], route));
        }
        if frontier.len() == 0 {
            proof {
                if road.reachable(a, b) {
                    let route = choose|route: Seq<Id<Segment>>| #[trigger] road.is_route(a, route, b);
                    assert forall|x: int| 0 <= x < ways@.len() implies (#[trigger] ways@[x])@.len()
                        != hops by {
                        if ways@[x]@.len() == hops {
                            assert(frontier@.contains(x as usize));
                        }
                    }
                    road.lemma_closed(a, ways@, hops, route, b);
                }
            }
            return None;
        }
        let ghost old = ways@;
        let (more_ways, more_frontier) = road.next_level(current, ways, &frontier, Ghost(hops));
        ways = more_ways;
        frontier = more_frontier;
        proof {
            hops = hops + 1;
            lemma_unvisited_finite(old);
            if frontier@.len() > 0 {
                let w = frontier@[0] as int;
                assert(!found(old, w));
                assert(unvisited(old).contains(w));
                assert(!unvisited(ways@).contains(w));
                assert forall|x: int| unvisited(ways@).contains(x) implies unvisited(old).contains(
                    x,
                ) by {
                    if found(old, x) {
                        assert(ways@[x]@ == old[x]@);
                    }
                }
                unvisited(ways@).lemma_subset_not_in_lt(unvisited(old), w);
            }
        }
        if frontier.len() == 0 {
            proof {
                assert(!found(ways@, b)) by {
                    if found(ways@, b) {
                        assert(!found(old, b));
                        assert(frontier@.contains(b as usize));
                    }
                }
                if road.reachable(a, b) {
                    let route = choose|route: Seq<Id<Segment>>| #[trigger] road.is_route(a, route, b);
                    assert forall|x: int| 0 <= x < ways@.len() implies (#[trigger] ways@[x])@.len()
                        != hops by {
                        if ways@[x]@.len() == hops {
                            assert(frontier@.contains(x as usize));
                        }
                    }
                    road.lemma_closed(a, ways@, hops, route, b);
                }
            }
            return None;
        }
    }
}

} // verus!
