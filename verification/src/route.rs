//! A route: a fixed departure waypoint, member waypoints, and the
//! solved visiting order over them.

use vstd::prelude::*;

use crate::position::Position;
use crate::solver::{
    best_rotation, best_tour, greedy_order, has_id, heuristic_walk, ids_of, index_of_id,
    is_reordering, lemma_reordering_elements, lemma_walk_order_perm, minimal_tour, node_vec,
    nodes_of, rotations_order, solved, tour_len, tour_length, unique_ids, Node, WalkRule,
};
use crate::waypoint::WayPoint;

verus! {

broadcast use vstd::seq_lib::group_to_multiset_ensures;

/// A fixed departure waypoint, a collection of member waypoints with
/// unique ids (the departure is never a member), and a visiting order
/// over exactly those members.
#[derive(Debug, Clone)]
pub struct Route {
    start: WayPoint,
    waypoints: Vec<WayPoint>,
    order: Vec<i32>,
}

impl Route {
    /// The departure waypoint.
    pub closed spec fn departure(self) -> WayPoint {
        self.start
    }

    /// The member waypoints, in insertion order.
    pub closed spec fn members(self) -> Seq<WayPoint> {
        self.waypoints@
    }

    /// The visiting order over the member ids.
    pub closed spec fn visiting(self) -> Seq<i32> {
        self.order@
    }

    /// The members as solver nodes.
    pub open spec fn nodes(self) -> Seq<Node> {
        nodes_of(self.members())
    }

    /// The full itinerary: the departure id followed by the visiting
    /// order.
    pub open spec fn complete_spec(self) -> Seq<i32> {
        seq![self.departure().id] + self.visiting()
    }

    /// The total travel length of the full itinerary.
    pub open spec fn length(self) -> int {
        tour_len(self.nodes(), self.departure().position, self.visiting())
    }

    pub open spec fn wf(self) -> bool {
        &&& self.departure().wf()
        &&& forall|i: int| 0 <= i < self.members().len() ==> (#[trigger] self.members()[i]).wf()
        &&& unique_ids(self.nodes())
        &&& !has_id(self.nodes(), self.departure().id)
        &&& is_reordering(self.visiting(), ids_of(self.nodes()))
    }

    /// A fresh route with no members.
    pub fn new(start: WayPoint) -> (r: Self)
        requires
            start.wf(),
        ensures
            r.departure() == start,
            r.members() == Seq::<WayPoint>::empty(),
            r.visiting() == Seq::<i32>::empty(),
            r.wf(),
    {
        let r = Route { start, waypoints: Vec::new(), order: Vec::new() };
        proof {
            assert(r.visiting().to_multiset() =~= ids_of(r.nodes()).to_multiset());
        }
        r
    }

    /// Add a member waypoint. A waypoint carrying the departure id is
    /// ignored; one carrying an existing member id replaces that
    /// member; otherwise it is appended, and appended to the visiting
    /// order too.
    pub fn add(&mut self, point: WayPoint)
        requires
            old(self).wf(),
            point.wf(),
        ensures
            final(self).wf(),
            final(self).departure() == old(self).departure(),
            point.id == old(self).departure().id ==> final(self).members() == old(self).members()
                && final(self).visiting() == old(self).visiting(),
            point.id != old(self).departure().id && has_id(old(self).nodes(), point.id)
                ==> final(self).members() == old(self).members().update(
                index_of_id(old(self).nodes(), point.id),
                point,
            ) && final(self).visiting() == old(self).visiting(),
            point.id != old(self).departure().id && !has_id(old(self).nodes(), point.id)
                ==> final(self).members() == old(self).members().push(point)
                && final(self).visiting() == old(self).visiting().push(point.id),
    {
        if point.id == self.start.id {
            return ;
        }
        let n = self.waypoints.len();
        for i in 0..n
            invariant
                n == self.waypoints@.len(),
                *self == *old(self),
                old(self).wf(),
                point.wf(),
                point.id != old(self).departure().id,
                forall|k: int| 0 <= k < i ==> (#[trigger] self.waypoints@[k]).id != point.id,
        {
            if self.waypoints[i].id == point.id {
                proof {
                    assert(old(self).nodes()[i as int].0 == point.id);
                    assert(has_id(old(self).nodes(), point.id));
                    let j = index_of_id(old(self).nodes(), point.id);
                    assert(0 <= j < old(self).nodes().len() && old(self).nodes()[j].0 == point.id);
                    assert(j == i as int);
                }
                self.waypoints[i] = point;
                proof {
                    assert(ids_of(self.nodes()) =~= ids_of(old(self).nodes()));
                    assert(unique_ids(self.nodes())) by {
                        assert(forall|k: int|
                            0 <= k < self.nodes().len() ==> (#[trigger] self.nodes()[k]).0
                                == old(self).nodes()[k].0);
                    }
                    assert(!has_id(self.nodes(), self.departure().id)) by {
                        if has_id(self.nodes(), self.departure().id) {
                            let w = choose|w: int|
                                0 <= w < self.nodes().len() && self.nodes()[w].0 == self
                                    .departure().id;
                            assert(old(self).nodes()[w].0 == self.departure().id);
                        }
                    }
                }
                return ;
            }
        }
        let id = point.id;
        self.waypoints.push(point);
        self.order.push(id);
        proof {
            assert(!has_id(old(self).nodes(), point.id)) by {
                if has_id(old(self).nodes(), point.id) {
                    let w = choose|w: int|
                        0 <= w < old(self).nodes().len() && old(self).nodes()[w].0 == point.id;
                    assert(old(self).waypoints@[w].id == point.id);
                }
            }
            assert(self.nodes() =~= old(self).nodes().push((point.id, point.position)));
            assert(ids_of(self.nodes()) =~= ids_of(old(self).nodes()).push(point.id));
            assert(unique_ids(self.nodes())) by {
                assert forall|a: int, b: int| 0 <= a < b < self.nodes().len() implies (
                #[trigger] self.nodes()[a]).0 != (#[trigger] self.nodes()[b]).0 by {
                    if b == self.nodes().len() - 1 {
                        assert(old(self).nodes()[a].0 != point.id);
                    }
                }
            }
            assert(!has_id(self.nodes(), self.departure().id)) by {
                if has_id(self.nodes(), self.departure().id) {
                    let w = choose|w: int|
                        0 <= w < self.nodes().len() && self.nodes()[w].0 == self.departure().id;
                    assert(w < self.nodes().len() - 1);
                    assert(old(self).nodes()[w].0 == self.departure().id);
                }
            }
            assert(self.visiting().to_multiset() == ids_of(self.nodes()).to_multiset());
        }
    }

    /// The departure waypoint.
    pub fn start(&self) -> (r: &WayPoint)
        ensures
            *r == self.departure(),
    {
        &self.start
    }

    /// Replace the departure waypoint; members and order are kept.
    pub fn set_departue(&mut self, start: WayPoint)
        requires
            old(self).wf(),
            start.wf(),
            !has_id(old(self).nodes(), start.id),
        ensures
            final(self).wf(),
            final(self).departure() == start,
            final(self).members() == old(self).members(),
            final(self).visiting() == old(self).visiting(),
    {
        self.start = start;
    }

    /// Look an id up: the departure itself, a member, or nothing.
    pub fn get(&self, id: &i32) -> (r: Option<&WayPoint>)
        requires
            self.wf(),
        ensures
            *id == self.departure().id ==> (r matches Some(w) && *w == self.departure()),
            *id != self.departure().id && has_id(self.nodes(), *id) ==> (r matches Some(w) && *w
                == self.members()[index_of_id(self.nodes(), *id)]),
            *id != self.departure().id && !has_id(self.nodes(), *id) ==> r is None,
    {
        if self.start.id == *id {
            return Some(&self.start);
        }
        let n = self.waypoints.len();
        for i in 0..n
            invariant
                n == self.waypoints@.len(),
                self.wf(),
                forall|k: int| 0 <= k < i ==> (#[trigger] self.waypoints@[k]).id != *id,
        {
            if self.waypoints[i].id == *id {
                proof {
                    assert(self.nodes()[i as int].0 == *id);
                    assert(has_id(self.nodes(), *id));
                    let j = index_of_id(self.nodes(), *id);
                    assert(0 <= j < self.nodes().len() && self.nodes()[j].0 == *id);
                    assert(j == i as int);
                }
                return Some(&self.waypoints[i]);
            }
        }
        proof {
            if has_id(self.nodes(), *id) {
                let w = choose|w: int|
                    0 <= w < self.nodes().len() && self.nodes()[w].0 == *id;
                assert(self.waypoints@[w].id == *id);
            }
        }
        None
    }

    /// The current visiting order.
    pub fn order(&self) -> (r: &Vec<i32>)
        ensures
            r@ == self.visiting(),
    {
        &self.order
    }

    /// The full itinerary: the departure id followed by the visiting
    /// order.
    pub fn complete(&self) -> (r: Vec<i32>)
        ensures
            r@ == self.complete_spec(),
    {
        let mut out: Vec<i32> = Vec::new();
        out.push(self.start.id);
        let n = self.order.len();
        for i in 0..n
            invariant
                n == self.order@.len(),
                out@ =~= seq![self.departure().id] + self.order@.take(i as int),
        {
            out.push(self.order[i]);
            proof {
                assert(out@ =~= seq![self.departure().id] + self.order@.take(i as int + 1));
            }
        }
        proof {
            assert(self.order@.take(n as int) =~= self.order@);
        }
        out
    }

    /// The total travel length of the full itinerary, summed over its
    /// consecutive pairs.
    pub fn len(&self) -> (r: u128)
        requires
            self.wf(),
        ensures
            r == self.length(),
    {
        let ns = node_vec(&self.waypoints);
        proof {
            self.lemma_wf_order_in_nodes();
        }
        tour_length(&ns, &self.start.position, &self.order)
    }

    proof fn lemma_wf_order_in_nodes(self)
        requires
            self.wf(),
        ensures
            forall|k: int| 0 <= k < self.visiting().len() ==> has_id(
                self.nodes(),
                #[trigger] self.visiting()[k],
            ),
    {
        lemma_reordering_elements(self.visiting(), ids_of(self.nodes()));
        assert forall|k: int| 0 <= k < self.visiting().len() implies has_id(
            self.nodes(),
            #[trigger] self.visiting()[k],
        ) by {
            let w = choose|w: int|
                0 <= w < ids_of(self.nodes()).len() && ids_of(self.nodes())[w] == self.visiting(
                )[k];
            assert(self.nodes()[w].0 == self.visiting()[k]);
        }
    }

    /// Solve with the strategy the member count calls for: the exact
    /// search below ten members, the nearest-neighbour heuristic from
    /// ten up.
    pub fn build_best(&mut self)
        requires
            old(self).wf(),
        ensures
            final(self).wf(),
            final(self).departure() == old(self).departure(),
            final(self).members() == old(self).members(),
            solved(
                final(self).nodes(),
                final(self).departure().position,
                final(self).visiting(),
            ),
    {
        proof {
            assert(old(self).visiting().to_multiset().len() == old(self).visiting().len());
            assert(ids_of(old(self).nodes()).to_multiset().len() == ids_of(
                old(self).nodes(),
            ).len());
        }
        if self.order.len() < 10 {
            self.find_route_bruteforce();
        } else {
            self.find_route_greedy();
        }
    }

    /// Solve exactly: make the visiting order one of minimal total
    /// length over every possible order, by full enumeration.
    pub fn find_route_bruteforce(&mut self)
        requires
            old(self).wf(),
        ensures
            final(self).wf(),
            final(self).departure() == old(self).departure(),
            final(self).members() == old(self).members(),
            minimal_tour(
                final(self).nodes(),
                final(self).departure().position,
                final(self).visiting(),
            ),
    {
        let ns = node_vec(&self.waypoints);
        proof {
            self.lemma_wf_order_in_nodes();
        }
        let ghost oldorder = self.order@;
        let (blen, ord) = best_tour(&ns, &self.start.position, &self.order);
        self.order = ord;
        proof {
            assert(self.nodes() == old(self).nodes());
            assert(self.visiting().to_multiset() == ids_of(self.nodes()).to_multiset());
            assert forall|p: Seq<i32>| is_reordering(p, ids_of(self.nodes())) implies tour_len(
                self.nodes(),
                self.departure().position,
                self.visiting(),
            ) <= tour_len(self.nodes(), self.departure().position, p) by {
                assert(is_reordering(p, oldorder));
                assert(blen <= tour_len(ns@, self.departure().position, p));
            }
        }
    }

    /// Solve heuristically: make the visiting order the single-start
    /// nearest-neighbour walk departing from the route's start.
    pub fn find_route_greedy(&mut self)
        requires
            old(self).wf(),
        ensures
            final(self).wf(),
            final(self).departure() == old(self).departure(),
            final(self).members() == old(self).members(),
            final(self).visiting() == greedy_order(
                final(self).nodes(),
                final(self).departure().position,
            ),
    {
        let ns = node_vec(&self.waypoints);
        let ord = heuristic_walk(&ns, &self.start.position, WalkRule::Nearest);
        proof {
            lemma_walk_order_perm(ns@, self.start.position, WalkRule::Nearest);
        }
        self.order = ord;
    }

    /// Solve heuristically by rotation sampling: run one walk under
    /// `rule` per possible starting member and keep the order whose
    /// total length from the route's start is smallest.
    pub fn find_route_rotations(&mut self, rule: WalkRule)
        requires
            old(self).wf(),
        ensures
            final(self).wf(),
            final(self).departure() == old(self).departure(),
            final(self).members() == old(self).members(),
            final(self).visiting() == rotations_order(
                final(self).nodes(),
                final(self).departure().position,
                rule,
            ),
    {
        let ns = node_vec(&self.waypoints);
        let (_, ord) = best_rotation(&ns, &self.start.position, rule);
        self.order = ord;
    }
}

/// The last visited id of a well-formed route names one of its
/// members.
pub proof fn lemma_visiting_last_is_member(r: Route)
    requires
        r.wf(),
        r.visiting().len() > 0,
    ensures
        has_id(r.nodes(), r.visiting().last()),
        0 <= index_of_id(r.nodes(), r.visiting().last()) < r.members().len(),
{
    lemma_reordering_elements(r.visiting(), ids_of(r.nodes()));
    let lid = r.visiting().last();
    assert(ids_of(r.nodes()).contains(r.visiting()[r.visiting().len() - 1]));
    let w = choose|w: int| 0 <= w < ids_of(r.nodes()).len() && ids_of(r.nodes())[w] == lid;
    assert(r.nodes()[w].0 == lid);
    assert(has_id(r.nodes(), lid));
    let j = index_of_id(r.nodes(), lid);
    assert(0 <= j < r.nodes().len() && r.nodes()[j].0 == lid);
}

/// Law: a well-formed route's complete itinerary holds one entry per
/// member plus the departure, visits no id twice, and its total
/// length is never negative.
pub proof fn lemma_complete_itinerary(r: Route)
    requires
        r.wf(),
    ensures
        r.complete_spec().len() == r.members().len() + 1,
        r.complete_spec().no_duplicates(),
        r.length() >= 0,
{
    crate::solver::lemma_tour_len_nonneg(r.nodes(), r.departure().position, r.visiting());
    assert(r.visiting().to_multiset().len() == r.visiting().len());
    assert(ids_of(r.nodes()).to_multiset().len() == ids_of(r.nodes()).len());
    // The member ids are pairwise distinct, so the visiting order is too.
    assert(ids_of(r.nodes()).no_duplicates()) by {
        assert(forall|i: int|
            0 <= i < r.nodes().len() ==> ids_of(r.nodes())[i] == (#[trigger] r.nodes()[i]).0);
    }
    ids_of(r.nodes()).lemma_multiset_has_no_duplicates();
    r.visiting().lemma_multiset_has_no_duplicates_conv();
    // The departure id is in neither.
    assert(!r.visiting().contains(r.departure().id)) by {
        if r.visiting().contains(r.departure().id) {
            assert(r.visiting().to_multiset().count(r.departure().id) > 0);
            assert(ids_of(r.nodes()).contains(r.departure().id));
            let w = choose|w: int|
                0 <= w < ids_of(r.nodes()).len() && ids_of(r.nodes())[w] == r.departure().id;
            assert(r.nodes()[w].0 == r.departure().id);
            assert(has_id(r.nodes(), r.departure().id));
        }
    }
    assert forall|i: int, j: int|
        0 <= i < j < r.complete_spec().len() implies r.complete_spec()[i] != r.complete_spec(
    )[j] by {
        if i == 0 {
            assert(r.complete_spec()[j] == r.visiting()[j - 1]);
            if r.visiting()[j - 1] == r.departure().id {
                assert(r.visiting().contains(r.departure().id));
            }
        } else {
            assert(r.complete_spec()[i] == r.visiting()[i - 1]);
            assert(r.complete_spec()[j] == r.visiting()[j - 1]);
        }
    }
}

} // verus!
