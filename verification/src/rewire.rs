//! The elementary changes of wiring out of which `finalize` is made. Each one
//! keeps the network well formed.

use crate::arena::Id;
use crate::road::{ids_below, lemma_lists_push, lists, Intersection, Node, Road, Segment};
use vstd::prelude::*;

verus! {

/// `list` without the entries that name `segment`.
pub open spec fn without_spec(list: Seq<Id<Segment>>, segment: Id<Segment>) -> Seq<Id<Segment>> {
    list.filter(|x: Id<Segment>| x.id != segment.id)
}

/// What is left of a list after one segment was taken out still names every
/// other segment that it named, and no segment that it did not name.
pub proof fn lemma_without(list: Seq<Id<Segment>>, segment: Id<Segment>)
    ensures
        without_spec(list, segment).len() <= list.len(),
        !lists(without_spec(list, segment), segment.id as int),
        forall|s: int| s != segment.id && lists(list, s) ==> lists(without_spec(list, segment), s),
        forall|bound: int| ids_below(list, bound) ==> ids_below(without_spec(list, segment), bound),
{
    let pred = |x: Id<Segment>| x.id != segment.id;
    let out = list.filter(pred);
    list.lemma_filter_len(pred);
    #[allow(deprecated)]
    list.filter_lemma(pred);
    assert forall|s: int| s != segment.id && lists(list, s) implies lists(out, s) by {
        let k = choose|k: int| 0 <= k < list.len() && (#[trigger] list[k]).id == s;
        assert(pred(list[k]));
        assert(out.contains(list[k]));
        let j = choose|j: int| 0 <= j < out.len() && out[j] == list[k];
        assert(out[j].id == s);
    }
    assert forall|bound: int| ids_below(list, bound) implies ids_below(out, bound) by {
        assert forall|j: int| 0 <= j < out.len() implies (#[trigger] out[j]).id < bound by {
            assert(out.contains(out[j]));
            list.lemma_filter_contains_rev(pred, out[j]);
            let k = choose|k: int| 0 <= k < list.len() && list[k] == out[j];
            assert(list[k].id < bound);
        }
    }
    if lists(out, segment.id as int) {
        let j = choose|j: int| 0 <= j < out.len() && (#[trigger] out[j]).id == segment.id;
        assert(pred(out[j]));
    }
}

/// `list` without the entries that name `segment`, in the same order.
pub fn without(list: &Vec<Id<Segment>>, segment: Id<Segment>) -> (r: Vec<Id<Segment>>)
    ensures
        r@ == without_spec(list@, segment),
{
    let ghost pred = |x: Id<Segment>| x.id != segment.id;
    let mut out: Vec<Id<Segment>> = Vec::new();
    let mut i: usize = 0;
    proof {
        reveal(Seq::filter);
        assert(list@.take(0) =~= Seq::<Id<Segment>>::empty());
    }
    while i < list.len()
        invariant
            i <= list@.len(),
            pred == (|x: Id<Segment>| x.id != segment.id),
            out@ == list@.take(i as int).filter(pred),
        decreases list@.len() - i,
    {
        proof {
            reveal(Seq::filter);
            assert(list@.take(i + 1).drop_last() =~= list@.take(i as int));
            assert(list@.take(i + 1).last() == list@[i as int]);
        }
        if list[i].id != segment.id {
            out.push(list[i]);
        }
        i += 1;
    }
    proof {
        assert(list@.take(list@.len() as int) =~= list@);
    }
    out
}

impl Road {
    /// The state after segment `s` was changed into `segment` and the lists
    /// of node `n` into `incoming` and `outgoing`, nothing else.
    pub open spec fn rewired(
        &self,
        before: &Road,
        s: int,
        segment: Segment,
        n: int,
        incoming: Seq<Id<Segment>>,
        outgoing: Seq<Id<Segment>>,
    ) -> bool {
        &&& self.intersections@ == before.intersections@
        &&& self.segments@ == before.segments@.update(s, segment)
        &&& self.nodes@.len() == before.nodes@.len()
        &&& forall|m: int|
            0 <= m < self.nodes@.len() && m != n ==> (#[trigger] self.nodes@[m]).same_as(
                &before.nodes@[m],
            )
        &&& self.nodes@[n].same_point(&before.nodes@[n])
        &&& self.nodes@[n].incoming@ == incoming
        &&& self.nodes@[n].outgoing@ == outgoing
    }

    /// Lets `segment` end at `node` and lists it there as incoming. The node
    /// at which it ended before keeps it in its list.
    pub fn retarget(&mut self, segment: Id<Segment>, node: Id<Node>)
        requires
            old(self).wf(),
            segment.id < old(self).segments@.len(),
            node.id < old(self).nodes@.len(),
        ensures
            final(self).wf(),
            final(self).rewired(
                old(self),
                segment.id as int,
                (Segment { to: node, ..old(self).segments@[segment.id as int] }),
                node.id as int,
                old(self).nodes@[node.id as int].incoming@.push(segment),
                old(self).nodes@[node.id as int].outgoing@,
            ),
    {
        self.segments.get_mut(&segment).to = node;
        self.nodes.get_mut(&node).incoming.push(segment);
        proof {
            assert(self.segments@ =~= old(self).segments@.update(
                segment.id as int,
                (Segment { to: node, ..old(self).segments@[segment.id as int] }),
            ));
            lemma_lists_push(old(self).nodes@[node.id as int].incoming@, segment);
            lemma_lists_push(old(self).nodes@[node.id as int].outgoing@, segment);
            assert(old(self).wired(segment.id as int));
            let f = self.segments@[segment.id as int].from.id as int;
            let t = self.segments@[segment.id as int].to.id as int;
            assert(f == node.id || self.nodes@[f].same_as(&old(self).nodes@[f]));
            assert(t == node.id || self.nodes@[t].same_as(&old(self).nodes@[t]));
            self.lemma_rewired_wf(old(self), segment.id as int, node.id as int);
        }
    }

    /// Lets `segment` start from `node` and lists it there as outgoing. The
    /// node from which it started before keeps it in its list.
    pub fn resource(&mut self, segment: Id<Segment>, node: Id<Node>)
        requires
            old(self).wf(),
            segment.id < old(self).segments@.len(),
            node.id < old(self).nodes@.len(),
        ensures
            final(self).wf(),
            final(self).rewired(
                old(self),
                segment.id as int,
                (Segment { from: node, ..old(self).segments@[segment.id as int] }),
                node.id as int,
                old(self).nodes@[node.id as int].incoming@,
                old(self).nodes@[node.id as int].outgoing@.push(segment),
            ),
    {
        self.segments.get_mut(&segment).from = node;
        self.nodes.get_mut(&node).outgoing.push(segment);
        proof {
            assert(self.segments@ =~= old(self).segments@.update(
                segment.id as int,
                (Segment { from: node, ..old(self).segments@[segment.id as int] }),
            ));
            lemma_lists_push(old(self).nodes@[node.id as int].incoming@, segment);
            lemma_lists_push(old(self).nodes@[node.id as int].outgoing@, segment);
            assert(old(self).wired(segment.id as int));
            let f = self.segments@[segment.id as int].from.id as int;
            let t = self.segments@[segment.id as int].to.id as int;
            assert(f == node.id || self.nodes@[f].same_as(&old(self).nodes@[f]));
            assert(t == node.id || self.nodes@[t].same_as(&old(self).nodes@[t]));
            self.lemma_rewired_wf(old(self), segment.id as int, node.id as int);
        }
    }

    /// A change of one segment and of one node's lists keeps the network well
    /// formed where the lists only grew, the segment's ends are nodes of the
    /// network, and both list it.
    proof fn lemma_rewired_wf(&self, before: &Road, s: int, n: int)
        requires
            before.wf(),
            0 <= s < before.segments@.len(),
            0 <= n < before.nodes@.len(),
            self.rewired(
                before,
                s,
                self.segments@[s],
                n,
                self.nodes@[n].incoming@,
                self.nodes@[n].outgoing@,
            ),
            self.nodes@[n].wf(self.segments@.len() as int),
            forall|x: int|
                lists(before.nodes@[n].incoming@, x) ==> lists(self.nodes@[n].incoming@, x),
            forall|x: int|
                lists(before.nodes@[n].outgoing@, x) ==> lists(self.nodes@[n].outgoing@, x),
            self.wired(s),
        ensures
            self.wf(),
    {
        assert forall|m: int| 0 <= m < self.nodes@.len() implies (#[trigger] self.nodes@[m]).wf(
            self.segments@.len() as int,
        ) by {
            assert(before.nodes@[m].wf(before.segments@.len() as int));
        }
        assert forall|x: int| 0 <= x < self.segments@.len() implies self.wired(x) by {
            if x != s {
                assert(before.wired(x));
                let f = before.segments@[x].from.id as int;
                let t = before.segments@[x].to.id as int;
                assert(self.nodes@[f].outgoing@ == before.nodes@[f].outgoing@ || f == n);
                assert(self.nodes@[t].incoming@ == before.nodes@[t].incoming@ || t == n);
            }
        }
        assert forall|i: int| 0 <= i < self.intersections@.len() implies (
        #[trigger] self.intersections@[i]).wf(
            self.nodes@.len() as int,
            self.segments@.len() as int,
        ) by {
            assert(before.intersections@[i].wf(
                before.nodes@.len() as int,
                before.segments@.len() as int,
            ));
        }
    }

    /// Appends an intersection.
    pub fn add_intersection(&mut self, intersection: Intersection) -> (r: Id<Intersection>)
        requires
            old(self).wf(),
            intersection.wf(old(self).nodes@.len() as int, old(self).segments@.len() as int),
        ensures
            final(self).wf(),
            final(self).nodes@ == old(self).nodes@,
            final(self).segments@ == old(self).segments@,
            final(self).intersections@ == old(self).intersections@.push(intersection),
            r.id == old(self).intersections@.len(),
    {
        let id = self.intersections.allocate(intersection);
        proof {
            assert forall|s: int| 0 <= s < self.segments@.len() implies self.wired(s) by {
                assert(old(self).wired(s));
            }
        }
        id
    }

    /// Whether no segment starts from or ends at node `n`.
    pub open spec fn unused(&self, n: int) -> bool {
        forall|s: int|
            0 <= s < self.segments@.len() ==> (#[trigger] self.segments@[s]).from.id != n
                && self.segments@[s].to.id != n
    }

    /// Empties both lists of a node that no segment uses any more.
    pub fn clear_connections(&mut self, node: Id<Node>)
        requires
            old(self).wf(),
            node.id < old(self).nodes@.len(),
            old(self).unused(node.id as int),
        ensures
            final(self).wf(),
            final(self).segments@ == old(self).segments@,
            final(self).intersections@ == old(self).intersections@,
            final(self).nodes@.len() == old(self).nodes@.len(),
            forall|m: int|
                0 <= m < final(self).nodes@.len() && m != node.id ==> (
                #[trigger] final(self).nodes@[m]).same_as(&old(self).nodes@[m]),
            final(self).nodes@[node.id as int].same_point(&old(self).nodes@[node.id as int]),
            final(self).nodes@[node.id as int].incoming@.len() == 0,
            final(self).nodes@[node.id as int].outgoing@.len() == 0,
    {
        let n = self.nodes.get_mut(&node);
        n.incoming.clear();
        n.outgoing.clear();
        proof {
            assert(self.segments@ =~= old(self).segments@);
            assert forall|m: int| 0 <= m < self.nodes@.len() implies (
            #[trigger] self.nodes@[m]).wf(self.segments@.len() as int) by {
                assert(old(self).nodes@[m].wf(old(self).segments@.len() as int));
            }
            assert forall|x: int| 0 <= x < self.segments@.len() implies self.wired(x) by {
                assert(old(self).wired(x));
                assert(old(self).segments@[x].from.id != node.id);
            }
            assert forall|i: int| 0 <= i < self.intersections@.len() implies (
            #[trigger] self.intersections@[i]).wf(
                self.nodes@.len() as int,
                self.segments@.len() as int,
            ) by {
                assert(old(self).intersections@[i].wf(
                    old(self).nodes@.len() as int,
                    old(self).segments@.len() as int,
                ));
            }
        }
    }
}

} // verus!
