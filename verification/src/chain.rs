//! Composition of independently solved sub-routes into one itinerary,
//! handing the departure point on between legs.

use vstd::prelude::*;

use crate::route::Route;
use crate::solver::{has_id, ids_of, index_of_id, is_reordering, nodes_of, solved, unique_ids};
use crate::waypoint::WayPoint;

verus! {

broadcast use vstd::seq_lib::group_to_multiset_ensures;

/// One cluster of a chained itinerary: an anchor waypoint that stands
/// for the cluster in the top-level solve, and the cluster's members.
#[derive(Debug, Clone)]
pub struct Cluster {
    pub anchor: WayPoint,
    pub members: Vec<WayPoint>,
}

impl Cluster {
    pub open spec fn wf(self) -> bool {
        &&& self.anchor.wf()
        &&& forall|i: int| 0 <= i < self.members@.len() ==> (#[trigger] self.members@[i]).wf()
        &&& unique_ids(nodes_of(self.members@))
    }
}

/// The cluster anchors, in order.
pub open spec fn anchors_of(cs: Seq<Cluster>) -> Seq<WayPoint> {
    cs.map_values(|c: Cluster| c.anchor)
}

pub open spec fn has_cluster(cs: Seq<Cluster>, id: i32) -> bool {
    exists|i: int| 0 <= i < cs.len() && (#[trigger] cs[i]).anchor.id == id
}

pub open spec fn cluster_index(cs: Seq<Cluster>, id: i32) -> int {
    choose|i: int| 0 <= i < cs.len() && (#[trigger] cs[i]).anchor.id == id
}

/// What a chain run expects of its inputs: everything well-formed,
/// and the departure id, the anchor ids and all member ids pairwise
/// distinct.
pub open spec fn chain_wf(start: WayPoint, cs: Seq<Cluster>) -> bool {
    &&& start.wf()
    &&& forall|i: int| 0 <= i < cs.len() ==> (#[trigger] cs[i]).wf()
    &&& forall|i: int| 0 <= i < cs.len() ==> (#[trigger] cs[i]).anchor.id != start.id
    &&& forall|i: int, j: int|
        0 <= i < j < cs.len() ==> (#[trigger] cs[i]).anchor.id != (#[trigger] cs[j]).anchor.id
    &&& forall|i: int, v: int|
        0 <= i < cs.len() && 0 <= v < cs[i].members@.len() ==> (#[trigger] cs[i].members@[v]).id
            != start.id
    &&& forall|i: int, v: int, w: int|
        0 <= i < cs.len() && 0 <= v < cs[i].members@.len() && 0 <= w < cs.len() ==> (
        #[trigger] cs[i].members@[v]).id != (#[trigger] cs[w]).anchor.id
    &&& forall|i: int, v: int, w: int, u: int|
        0 <= i < cs.len() && 0 <= v < cs[i].members@.len() && 0 <= w < cs.len() && 0 <= u
            < cs[w].members@.len() && i != w ==> (#[trigger] cs[i].members@[v]).id != (
        #[trigger] cs[w].members@[u]).id
}

/// What chaining leaves behind, leg by leg: walking `order` (the
/// solved anchor order), each nonempty cluster contributes one solved
/// leg whose departure is the previous leg's last visited member (or
/// the initial departure), while an empty or unknown id contributes
/// nothing and does not advance the departure.
pub open spec fn chain_ok(
    cs: Seq<Cluster>,
    order: Seq<i32>,
    dep: WayPoint,
    legs: Seq<Route>,
) -> bool
    decreases order.len(),
{
    if order.len() == 0 {
        legs.len() == 0
    } else if !has_cluster(cs, order[0]) || cs[cluster_index(cs, order[0])].members@.len() == 0 {
        chain_ok(cs, order.drop_first(), dep, legs)
    } else {
        let c = cs[cluster_index(cs, order[0])];
        &&& legs.len() > 0
        &&& {
            let leg = legs[0];
            &&& leg.wf()
            &&& leg.departure() == dep
            &&& leg.members() == c.members@
            &&& solved(leg.nodes(), dep.position, leg.visiting())
            &&& leg.visiting().len() > 0
            &&& chain_ok(
                cs,
                order.drop_first(),
                leg.members()[index_of_id(leg.nodes(), leg.visiting().last())],
                legs.drop_first(),
            )
        }
    }
}

/// The concatenation of the legs' visiting orders.
pub open spec fn legs_orders(legs: Seq<Route>) -> Seq<i32>
    decreases legs.len(),
{
    if legs.len() == 0 {
        Seq::empty()
    } else {
        legs[0].visiting() + legs_orders(legs.drop_first())
    }
}

/// The summed travel length of the legs.
pub open spec fn legs_length(legs: Seq<Route>) -> int
    decreases legs.len(),
{
    if legs.len() == 0 {
        0
    } else {
        legs[0].length() + legs_length(legs.drop_first())
    }
}

/// The waypoint a leg hands on: its last visited member.
pub open spec fn leg_handoff(leg: Route) -> WayPoint {
    leg.members()[index_of_id(leg.nodes(), leg.visiting().last())]
}

/// The departure left after walking `order` with `legs`, mirroring
/// `chain_ok` step by step.
pub open spec fn chain_dep(
    cs: Seq<Cluster>,
    order: Seq<i32>,
    dep: WayPoint,
    legs: Seq<Route>,
) -> WayPoint
    decreases order.len(),
{
    if order.len() == 0 {
        dep
    } else if !has_cluster(cs, order[0]) || cs[cluster_index(cs, order[0])].members@.len() == 0 {
        chain_dep(cs, order.drop_first(), dep, legs)
    } else if legs.len() == 0 {
        dep
    } else {
        chain_dep(cs, order.drop_first(), leg_handoff(legs[0]), legs.drop_first())
    }
}

/// Chained runs compose: walking `o1` and then `o2` is one walk of
/// `o1 + o2`, with the departure handed on in between.
pub proof fn lemma_chain_ok_append(
    cs: Seq<Cluster>,
    o1: Seq<i32>,
    o2: Seq<i32>,
    dep: WayPoint,
    l1: Seq<Route>,
    l2: Seq<Route>,
)
    requires
        chain_ok(cs, o1, dep, l1),
        chain_ok(cs, o2, chain_dep(cs, o1, dep, l1), l2),
    ensures
        chain_ok(cs, o1 + o2, dep, l1 + l2),
    decreases o1.len(),
{
    if o1.len() == 0 {
        assert(l1.len() == 0);
        assert(o1 + o2 =~= o2);
        assert(l1 + l2 =~= l2);
    } else {
        let rest = o1.drop_first();
        assert((o1 + o2)[0] == o1[0]);
        assert((o1 + o2).drop_first() =~= rest + o2);
        if !has_cluster(cs, o1[0]) || cs[cluster_index(cs, o1[0])].members@.len() == 0 {
            lemma_chain_ok_append(cs, rest, o2, dep, l1, l2);
        } else {
            let leg = l1[0];
            assert((l1 + l2)[0] == leg);
            assert((l1 + l2).drop_first() =~= l1.drop_first() + l2);
            lemma_chain_ok_append(cs, rest, o2, leg_handoff(leg), l1.drop_first(), l2);
        }
    }
}

/// The departure handed on by a composed walk is the one the second
/// part hands on, given the first part's result in between.
pub proof fn lemma_chain_dep_append(
    cs: Seq<Cluster>,
    o1: Seq<i32>,
    o2: Seq<i32>,
    dep: WayPoint,
    l1: Seq<Route>,
    l2: Seq<Route>,
)
    requires
        chain_ok(cs, o1, dep, l1),
        chain_ok(cs, o2, chain_dep(cs, o1, dep, l1), l2),
    ensures
        chain_dep(cs, o1 + o2, dep, l1 + l2) == chain_dep(
            cs,
            o2,
            chain_dep(cs, o1, dep, l1),
            l2,
        ),
    decreases o1.len(),
{
    if o1.len() == 0 {
        assert(l1.len() == 0);
        assert(o1 + o2 =~= o2);
        assert(l1 + l2 =~= l2);
    } else {
        let rest = o1.drop_first();
        assert((o1 + o2)[0] == o1[0]);
        assert((o1 + o2).drop_first() =~= rest + o2);
        if !has_cluster(cs, o1[0]) || cs[cluster_index(cs, o1[0])].members@.len() == 0 {
            lemma_chain_dep_append(cs, rest, o2, dep, l1, l2);
        } else {
            let leg = l1[0];
            assert((l1 + l2)[0] == leg);
            assert((l1 + l2).drop_first() =~= l1.drop_first() + l2);
            lemma_chain_dep_append(cs, rest, o2, leg_handoff(leg), l1.drop_first(), l2);
        }
    }
}

/// Under `chain_ok`, the handed-on departure is the initial one or a
/// member of some cluster named by the walked order.
pub proof fn lemma_chain_dep_src(cs: Seq<Cluster>, order: Seq<i32>, dep: WayPoint, legs: Seq<Route>)
    requires
        chain_ok(cs, order, dep, legs),
    ensures
        chain_dep(cs, order, dep, legs) == dep || exists|j: int, v: int|
            0 <= j < order.len() && has_cluster(cs, order[j]) && 0 <= v < cs[cluster_index(
                cs,
                order[j],
            )].members@.len() && chain_dep(cs, order, dep, legs) == #[trigger] cs[cluster_index(
                cs,
                order[j],
            )].members@[v],
    decreases order.len(),
{
    if order.len() == 0 {
    } else {
        let rest = order.drop_first();
        let out = chain_dep(cs, order, dep, legs);
        if !has_cluster(cs, order[0]) || cs[cluster_index(cs, order[0])].members@.len() == 0 {
            lemma_chain_dep_src(cs, rest, dep, legs);
            if out != dep {
                let (j, v) = choose|j: int, v: int|
                    0 <= j < rest.len() && has_cluster(cs, rest[j]) && 0 <= v < cs[cluster_index(
                        cs,
                        rest[j],
                    )].members@.len() && chain_dep(cs, rest, dep, legs) == #[trigger] cs[
                        cluster_index(cs, rest[j])
                    ].members@[v];
                assert(order[j + 1] == rest[j]);
                assert(has_cluster(cs, order[j + 1]));
                assert(out == cs[cluster_index(cs, order[j + 1])].members@[v]);
            }
        } else {
            let leg = legs[0];
            let mid = leg_handoff(leg);
            lemma_chain_dep_src(cs, rest, mid, legs.drop_first());
            if chain_dep(cs, rest, mid, legs.drop_first()) == mid {
                // the handoff itself is a member of the first walked cluster
                assert(leg.members() == cs[cluster_index(cs, order[0])].members@);
                crate::route::lemma_visiting_last_is_member(leg);
                let v = index_of_id(leg.nodes(), leg.visiting().last());
                assert(has_cluster(cs, order[0]));
                assert(out == cs[cluster_index(cs, order[0])].members@[v]);
            } else {
                let (j, v) = choose|j: int, v: int|
                    0 <= j < rest.len() && has_cluster(cs, rest[j]) && 0 <= v < cs[cluster_index(
                        cs,
                        rest[j],
                    )].members@.len() && chain_dep(cs, rest, mid, legs.drop_first()) == #[trigger] cs[
                        cluster_index(cs, rest[j])
                    ].members@[v];
                assert(order[j + 1] == rest[j]);
                assert(has_cluster(cs, order[j + 1]));
                assert(out == cs[cluster_index(cs, order[j + 1])].members@[v]);
            }
        }
    }
}



/// Chain the clusters into one itinerary: solve a top-level route
/// over the anchors to fix the cluster order, then solve one
/// sub-route per nonempty cluster in that order, handing the last
/// visited waypoint of each leg on as the next leg's departure.
pub fn chain(start: &WayPoint, clusters: &Vec<Cluster>) -> (r: (Route, Vec<Route>))
    requires
        chain_wf(*start, clusters@),
    ensures
        r.0.wf(),
        r.0.departure() == *start,
        r.0.members() == anchors_of(clusters@),
        solved(r.0.nodes(), start.position, r.0.visiting()),
        chain_ok(clusters@, r.0.visiting(), *start, r.1@),
{
    let cn = clusters.len();
    let mut top = Route::new(start.duplicate());
    for i in 0..cn
        invariant
            cn == clusters@.len(),
            chain_wf(*start, clusters@),
            top.wf(),
            top.departure() == *start,
            top.members() =~= anchors_of(clusters@).take(i as int),
    {
        proof {
            assert(!has_id(top.nodes(), clusters@[i as int].anchor.id)) by {
                if has_id(top.nodes(), clusters@[i as int].anchor.id) {
                    let w = choose|w: int|
                        0 <= w < top.nodes().len() && top.nodes()[w].0 == clusters@[
                            i as int
                        ].anchor.id;
                    assert(top.members()[w] == clusters@[w].anchor);
                }
            }
        }
        top.add(clusters[i].anchor.duplicate());
        proof {
            assert(top.members() =~= anchors_of(clusters@).take(i as int + 1));
        }
    }
    proof {
        assert(top.members() =~= anchors_of(clusters@));
    }
    top.build_best();
    proof {
        crate::route::lemma_complete_itinerary(top);
    }
    let ghost ord = top.visiting();
    let order = top.order().clone();
    proof {
        assert(order@ =~= ord);
        assert(ord.no_duplicates()) by {
            assert forall|a: int, b: int|
                0 <= a < ord.len() && 0 <= b < ord.len() && a != b implies ord[a] != ord[b] by {
                assert(top.complete_spec()[a + 1] == ord[a]);
                assert(top.complete_spec()[b + 1] == ord[b]);
            }
        }
        assert(ord.take(0) =~= Seq::<i32>::empty());
    }
    let n = order.len();
    let mut legs: Vec<Route> = Vec::new();
    let mut dep: WayPoint = start.duplicate();
    for i in 0..n
        invariant
            n == ord.len(),
            order@ == ord,
            cn == clusters@.len(),
            chain_wf(*start, clusters@),
            ord.no_duplicates(),
            dep.wf(),
            chain_ok(clusters@, ord.take(i as int), *start, legs@),
            dep == chain_dep(clusters@, ord.take(i as int), *start, legs@),
    {
        let oid = order[i];
        let mut found: Option<usize> = None;
        for c in 0..cn
            invariant
                cn == clusters@.len(),
                found is None ==> forall|k: int|
                    0 <= k < c ==> (#[trigger] clusters@[k]).anchor.id != oid,
                found matches Some(ci) ==> 0 <= ci < cn && clusters@[ci as int].anchor.id == oid,
        {
            if found.is_none() && clusters[c].anchor.id == oid {
                found = Some(c);
            }
        }
        let ghost pre = ord.take(i as int);
        let ghost step = seq![oid];
        proof {
            assert(pre + step =~= ord.take(i as int + 1));
            assert(step[0] == oid);
            assert(step.drop_first() =~= Seq::<i32>::empty());
        }
        match found {
            None => {
                proof {
                    assert(!has_cluster(clusters@, oid)) by {
                        if has_cluster(clusters@, oid) {
                            let w = choose|w: int|
                                0 <= w < clusters@.len() && (#[trigger] clusters@[w]).anchor.id
                                    == oid;
                            assert(false);
                        }
                    }
                    assert(chain_ok(clusters@, Seq::<i32>::empty(), dep, Seq::<Route>::empty()));
                    assert(chain_dep(clusters@, Seq::<i32>::empty(), dep, Seq::<Route>::empty())
                        == dep);
                    assert(chain_ok(clusters@, step, dep, Seq::<Route>::empty()));
                    assert(chain_dep(clusters@, step, dep, Seq::<Route>::empty()) == dep);
                    lemma_chain_ok_append(
                        clusters@,
                        pre,
                        step,
                        *start,
                        legs@,
                        Seq::<Route>::empty(),
                    );
                    assert(legs@ + Seq::<Route>::empty() =~= legs@);
                    lemma_chain_dep_append(clusters@, pre, step, *start, legs@, Seq::<Route>::empty());
                }
            },
            Some(ci) => {
                proof {
                    assert(has_cluster(clusters@, oid));
                    let cix = cluster_index(clusters@, oid);
                    assert(0 <= cix < clusters@.len() && clusters@[cix].anchor.id == oid);
                    if cix != ci as int {
                        if cix < ci as int {
                            assert(clusters@[cix].anchor.id != clusters@[ci as int].anchor.id);
                        } else {
                            assert(clusters@[ci as int].anchor.id != clusters@[cix].anchor.id);
                        }
                    }
                    assert(cix == ci as int);
                }
                if clusters[ci].members.len() == 0 {
                    proof {
                        assert(chain_ok(
                            clusters@,
                            Seq::<i32>::empty(),
                            dep,
                            Seq::<Route>::empty(),
                        ));
                        assert(chain_dep(
                            clusters@,
                            Seq::<i32>::empty(),
                            dep,
                            Seq::<Route>::empty(),
                        ) == dep);
                        assert(chain_ok(clusters@, step, dep, Seq::<Route>::empty()));
                        assert(chain_dep(clusters@, step, dep, Seq::<Route>::empty()) == dep);
                        lemma_chain_ok_append(
                            clusters@,
                            pre,
                            step,
                            *start,
                            legs@,
                            Seq::<Route>::empty(),
                        );
                        assert(legs@ + Seq::<Route>::empty() =~= legs@);
                        lemma_chain_dep_append(
                            clusters@,
                            pre,
                            step,
                            *start,
                            legs@,
                            Seq::<Route>::empty(),
                        );
                    }
                } else {
                    // the departure never collides with this cluster's members
                    proof {
                        lemma_chain_dep_src(clusters@, pre, *start, legs@);
                        assert forall|v: int|
                            0 <= v < clusters@[ci as int].members@.len() implies (
                        #[trigger] clusters@[ci as int].members@[v]).id != dep.id by {
                            if dep == *start {
                            } else {
                                let (j, w) = choose|j: int, w: int|
                                    0 <= j < pre.len() && has_cluster(clusters@, pre[j]) && 0 <= w
                                        < clusters@[cluster_index(clusters@, pre[j])].members@.len()
                                        && chain_dep(clusters@, pre, *start, legs@)
                                        == #[trigger] clusters@[cluster_index(clusters@, pre[j])]
                                        .members@[w];
                                assert(dep == clusters@[cluster_index(clusters@, pre[j])]
                                    .members@[w]);
                                let cj = cluster_index(clusters@, pre[j]);
                                assert(0 <= cj < clusters@.len() && clusters@[cj].anchor.id
                                    == pre[j]);
                                assert(pre[j] == ord[j]);
                                if cj == ci as int {
                                    assert(ord[j] == ord[i as int]);
                                    assert(false);
                                }
                            }
                        }
                    }
                    let mn = clusters[ci].members.len();
                    let mut leg = Route::new(dep.duplicate());
                    for v in 0..mn
                        invariant
                            cn == clusters@.len(),
                            0 <= ci < cn,
                            mn == clusters@[ci as int].members@.len(),
                            chain_wf(*start, clusters@),
                            dep.wf(),
                            forall|u: int|
                                0 <= u < clusters@[ci as int].members@.len() ==> (
                                #[trigger] clusters@[ci as int].members@[u]).id != dep.id,
                            leg.wf(),
                            leg.departure() == dep,
                            leg.members() =~= clusters@[ci as int].members@.take(v as int),
                    {
                        proof {
                            assert(clusters@[ci as int].wf());
                            assert(!has_id(leg.nodes(), clusters@[ci as int].members@[
                                v as int
                            ].id)) by {
                                if has_id(leg.nodes(), clusters@[ci as int].members@[v as int].id) {
                                    let w = choose|w: int|
                                        0 <= w < leg.nodes().len() && leg.nodes()[w].0 == clusters@[
                                            ci as int
                                        ].members@[v as int].id;
                                    assert(nodes_of(clusters@[ci as int].members@)[w].0
                                        == clusters@[ci as int].members@[w].id);
                                    assert(nodes_of(clusters@[ci as int].members@)[v as int].0
                                        == clusters@[ci as int].members@[v as int].id);
                                }
                            }
                        }
                        leg.add(clusters[ci].members[v].duplicate());
                        proof {
                            assert(leg.members() =~= clusters@[ci as int].members@.take(
                                v as int + 1,
                            ));
                        }
                    }
                    proof {
                        assert(leg.members() =~= clusters@[ci as int].members@);
                    }
                    leg.build_best();
                    proof {
                        assert(leg.visiting().to_multiset().len() == leg.visiting().len());
                        assert(ids_of(leg.nodes()).to_multiset().len() == ids_of(
                            leg.nodes(),
                        ).len());
                        assert(leg.visiting().len() == clusters@[ci as int].members@.len());
                        crate::route::lemma_visiting_last_is_member(leg);
                    }
                    let lid = leg.order()[leg.order().len() - 1];
                    proof {
                        assert(lid == leg.visiting().last());
                        assert(lid != leg.departure().id);
                    }
                    let nextdep = match leg.get(&lid) {
                        Some(w) => w.duplicate(),
                        None => {
                            proof {
                                assert(false);
                            }
                            dep.duplicate()
                        },
                    };
                    let ghost oldlegs = legs@;
                    let ghost olddep = dep;
                    legs.push(leg);
                    proof {
                        let thelg = legs@.last();
                        let lstep = seq![thelg];
                        assert(nextdep == leg_handoff(thelg));
                        assert(lstep[0] == thelg);
                        assert(lstep.drop_first() =~= Seq::<Route>::empty());
                        assert(chain_ok(
                            clusters@,
                            Seq::<i32>::empty(),
                            leg_handoff(thelg),
                            Seq::<Route>::empty(),
                        ));
                        assert(chain_dep(
                            clusters@,
                            Seq::<i32>::empty(),
                            leg_handoff(thelg),
                            Seq::<Route>::empty(),
                        ) == leg_handoff(thelg));
                        assert(chain_ok(clusters@, step, olddep, lstep));
                        assert(chain_dep(clusters@, step, olddep, lstep) == leg_handoff(thelg));
                        lemma_chain_ok_append(clusters@, pre, step, *start, oldlegs, lstep);
                        lemma_chain_dep_append(clusters@, pre, step, *start, oldlegs, lstep);
                        assert(oldlegs + lstep =~= legs@);
                    }
                    dep = nextdep;
                }
            },
        }
    }
    proof {
        assert(ord.take(n as int) =~= ord);
    }
    (top, legs)
}



pub proof fn lemma_legs_length_nonneg(legs: Seq<Route>)
    ensures
        legs_length(legs) >= 0,
    decreases legs.len(),
{
    if legs.len() > 0 {
        crate::solver::lemma_tour_len_nonneg(
            legs[0].nodes(),
            legs[0].departure().position,
            legs[0].visiting(),
        );
        lemma_legs_length_nonneg(legs.drop_first());
    }
}

/// The summed travel length of the chained legs.
pub fn chain_length(legs: &Vec<Route>) -> (r: u128)
    requires
        forall|i: int| 0 <= i < legs@.len() ==> (#[trigger] legs@[i]).wf(),
        legs_length(legs@) <= u128::MAX,
    ensures
        r == legs_length(legs@),
{
    let n = legs.len();
    let mut acc: u128 = 0;
    proof {
        assert(legs@.skip(0) =~= legs@);
    }
    for i in 0..n
        invariant
            n == legs@.len(),
            forall|k: int| 0 <= k < legs@.len() ==> (#[trigger] legs@[k]).wf(),
            legs_length(legs@) <= u128::MAX,
            acc + legs_length(legs@.skip(i as int)) == legs_length(legs@),
            acc >= 0,
    {
        proof {
            let suf = legs@.skip(i as int);
            assert(suf[0] == legs@[i as int]);
            assert(suf.drop_first() =~= legs@.skip(i as int + 1));
            assert(legs_length(suf) == legs@[i as int].length() + legs_length(
                legs@.skip(i as int + 1),
            ));
            lemma_legs_length_nonneg(legs@.skip(i as int + 1));
            crate::solver::lemma_tour_len_nonneg(
                legs@[i as int].nodes(),
                legs@[i as int].departure().position,
                legs@[i as int].visiting(),
            );
        }
        let l = legs[i].len();
        acc = acc + l;
    }
    proof {
        assert(legs@.skip(n as int) =~= Seq::<Route>::empty());
    }
    acc
}

/// The complete chained itinerary: the departure id, then each leg's
/// visiting order in turn (each leg's own departure, being the
/// previous leg's last stop, is not repeated).
pub fn chain_itinerary(start: &WayPoint, legs: &Vec<Route>) -> (r: Vec<i32>)
    ensures
        r@ == seq![start.id] + legs_orders(legs@),
{
    let n = legs.len();
    let mut out: Vec<i32> = Vec::new();
    out.push(start.id);
    proof {
        assert(legs@.skip(0) =~= legs@);
        assert(out@ =~= seq![start.id]);
    }
    for i in 0..n
        invariant
            n == legs@.len(),
            out@ + legs_orders(legs@.skip(i as int)) =~= seq![start.id] + legs_orders(legs@),
    {
        let ghost suf = legs@.skip(i as int);
        proof {
            assert(suf[0] == legs@[i as int]);
            assert(suf.drop_first() =~= legs@.skip(i as int + 1));
        }
        let m = legs[i].order().len();
        let ghost before = out@;
        for j in 0..m
            invariant
                n == legs@.len(),
                0 <= i < n,
                m == legs@[i as int].visiting().len(),
                out@ =~= before + legs@[i as int].visiting().take(j as int),
        {
            let x = legs[i].order()[j];
            out.push(x);
            proof {
                assert(out@ =~= before + legs@[i as int].visiting().take(j as int + 1));
            }
        }
        proof {
            assert(legs@[i as int].visiting().take(m as int) =~= legs@[i as int].visiting());
            assert(out@ =~= before + legs@[i as int].visiting());
            assert(legs_orders(suf) == legs@[i as int].visiting() + legs_orders(
                legs@.skip(i as int + 1),
            ));
            assert(out@ + legs_orders(legs@.skip(i as int + 1)) =~= before + legs_orders(suf));
        }
    }
    proof {
        assert(legs_orders(legs@.skip(n as int)) =~= Seq::<i32>::empty());
        assert(out@ + legs_orders(legs@.skip(n as int)) =~= out@);
    }
    out
}

} // verus!
