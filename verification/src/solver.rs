//! The route-solving engine over plain nodes (an id with a position):
//! travel-length specifications, the exact permutation search, the
//! heuristic walks, and the laws that relate them.

use vstd::prelude::*;

use crate::position::{dist, lemma_dist_bound, lemma_dist_metric, Position, DIST_MAX};
use crate::waypoint::WayPoint;

verus! {

broadcast use vstd::seq_lib::group_to_multiset_ensures;

/// A node of a routing instance: an identifier together with its position.
pub type Node = (i32, Position);

pub open spec fn ids_of(ns: Seq<Node>) -> Seq<i32> {
    ns.map_values(|n: Node| n.0)
}

pub open spec fn all_wf(ns: Seq<Node>) -> bool {
    forall|i: int| 0 <= i < ns.len() ==> (#[trigger] ns[i]).1.wf()
}

pub open spec fn unique_ids(ns: Seq<Node>) -> bool {
    forall|i: int, j: int| 0 <= i < j < ns.len() ==> (#[trigger] ns[i]).0 != (#[trigger] ns[j]).0
}

pub open spec fn has_id(ns: Seq<Node>, id: i32) -> bool {
    exists|i: int| 0 <= i < ns.len() && (#[trigger] ns[i]).0 == id
}

pub open spec fn index_of_id(ns: Seq<Node>, id: i32) -> int {
    choose|i: int| 0 <= i < ns.len() && (#[trigger] ns[i]).0 == id
}

/// The position of the node carrying `id`.
pub open spec fn pos_of(ns: Seq<Node>, id: i32) -> Position {
    ns[index_of_id(ns, id)].1
}

/// Total travel length of visiting `ids` in order, departing from `from`.
pub open spec fn tour_len(ns: Seq<Node>, from: Position, ids: Seq<i32>) -> int
    decreases ids.len(),
{
    if ids.len() == 0 {
        0
    } else {
        dist(from, pos_of(ns, ids[0])) + tour_len(ns, pos_of(ns, ids[0]), ids.drop_first())
    }
}

/// Travel length of the path `ids` itself, with no external departure
/// point: the sum of the distances between consecutive entries.
pub open spec fn path_len(ns: Seq<Node>, ids: Seq<i32>) -> int {
    if ids.len() == 0 {
        0
    } else {
        tour_len(ns, pos_of(ns, ids[0]), ids.drop_first())
    }
}

/// `a` visits exactly the same ids as `b`, in some order.
pub open spec fn is_reordering(a: Seq<i32>, b: Seq<i32>) -> bool {
    a.to_multiset() == b.to_multiset()
}

/// `order` visits every node once and no other order departing from
/// `from` is strictly shorter.
pub open spec fn minimal_tour(ns: Seq<Node>, from: Position, order: Seq<i32>) -> bool {
    &&& is_reordering(order, ids_of(ns))
    &&& forall|p: Seq<i32>|
        is_reordering(p, ids_of(ns)) ==> tour_len(ns, from, order) <= tour_len(ns, from, p)
}

/// `order` visits every node once and no other order is a strictly
/// shorter stand-alone path.
pub open spec fn minimal_path(ns: Seq<Node>, order: Seq<i32>) -> bool {
    &&& is_reordering(order, ids_of(ns))
    &&& forall|p: Seq<i32>|
        is_reordering(p, ids_of(ns)) ==> path_len(ns, order) <= path_len(ns, p)
}

pub proof fn lemma_tour_len_nonneg(ns: Seq<Node>, from: Position, ids: Seq<i32>)
    ensures
        tour_len(ns, from, ids) >= 0,
    decreases ids.len(),
{
    if ids.len() > 0 {
        lemma_dist_metric(from, pos_of(ns, ids[0]));
        lemma_tour_len_nonneg(ns, pos_of(ns, ids[0]), ids.drop_first());
    }
}

pub proof fn lemma_tour_len_bound(ns: Seq<Node>, from: Position, ids: Seq<i32>)
    requires
        all_wf(ns),
        from.wf(),
        forall|k: int| 0 <= k < ids.len() ==> has_id(ns, #[trigger] ids[k]),
    ensures
        0 <= tour_len(ns, from, ids) <= ids.len() * DIST_MAX,
    decreases ids.len(),
{
    if ids.len() == 0 {
    } else {
        let p0 = pos_of(ns, ids[0]);
        assert(p0.wf()) by {
            assert(has_id(ns, ids[0]));
        }
        lemma_dist_bound(from, p0);
        assert(forall|k: int|
            0 <= k < ids.drop_first().len() ==> has_id(ns, #[trigger] ids.drop_first()[k]));
        lemma_tour_len_bound(ns, p0, ids.drop_first());
        assert(ids.len() * DIST_MAX == (ids.len() - 1) * DIST_MAX + DIST_MAX) by (nonlinear_arith)
        {
        }
    }
}

/// A sequence of waypoints as solver nodes.
pub open spec fn nodes_of(ws: Seq<WayPoint>) -> Seq<Node> {
    ws.map_values(|w: WayPoint| (w.id, w.position))
}

/// Extract the solver nodes of a waypoint collection.
pub(crate) fn node_vec(ws: &Vec<WayPoint>) -> (ns: Vec<Node>)
    ensures
        ns@ == nodes_of(ws@),
{
    let n = ws.len();
    let mut ns: Vec<Node> = Vec::new();
    for i in 0..n
        invariant
            n == ws@.len(),
            ns@.len() == i,
            forall|k: int|
                0 <= k < i ==> #[trigger] ns@[k] == (ws@[k].id, ws@[k].position),
    {
        let id = ws[i].id;
        let p = ws[i].position;
        ns.push((id, p));
    }
    proof {
        assert(ns@ =~= nodes_of(ws@));
    }
    ns
}

/// Find the position of the node carrying `id` by linear scan.
pub(crate) fn find_pos(ns: &Vec<Node>, id: i32) -> (p: Position)
    requires
        unique_ids(ns@),
        has_id(ns@, id),
    ensures
        p == pos_of(ns@, id),
{
    let n = ns.len();
    for i in 0..n
        invariant
            n == ns@.len(),
            unique_ids(ns@),
            has_id(ns@, id),
            forall|k: int| 0 <= k < i ==> (#[trigger] ns@[k]).0 != id,
    {
        if ns[i].0 == id {
            proof {
                let j = index_of_id(ns@, id);
                assert(0 <= j < ns@.len() && ns@[j].0 == id);
                assert(j == i as int);
            }
            return ns[i].1;
        }
    }
    proof {
        let j = index_of_id(ns@, id);
        assert(0 <= j < ns@.len() && ns@[j].0 == id);
        assert(false);
    }
    unreached()
}

/// Compute the travel length of visiting `ids` in order from `from`.
pub(crate) fn tour_length(ns: &Vec<Node>, from: &Position, ids: &Vec<i32>) -> (r: u128)
    requires
        all_wf(ns@),
        unique_ids(ns@),
        from.wf(),
        forall|k: int| 0 <= k < ids@.len() ==> has_id(ns@, #[trigger] ids@[k]),
    ensures
        r == tour_len(ns@, *from, ids@),
{
    let n = ids.len();
    let mut acc: u128 = 0;
    let mut cur: Position = *from;
    proof {
        assert(ids@.skip(0) =~= ids@);
    }
    for i in 0..n
        invariant
            n == ids@.len(),
            all_wf(ns@),
            unique_ids(ns@),
            from.wf(),
            cur.wf(),
            forall|k: int| 0 <= k < ids@.len() ==> has_id(ns@, #[trigger] ids@[k]),
            acc + tour_len(ns@, cur, ids@.skip(i as int)) == tour_len(ns@, *from, ids@),
            acc <= i * DIST_MAX,
    {
        let p = find_pos(ns, ids[i]);
        let d = Position::distance(&cur, &p);
        proof {
            let rest = ids@.skip(i as int);
            assert(rest[0] == ids@[i as int]);
            assert(rest.drop_first() =~= ids@.skip(i as int + 1));
            assert(tour_len(ns@, cur, rest) == dist(cur, p) + tour_len(
                ns@,
                p,
                ids@.skip(i as int + 1),
            ));
            assert(acc + d <= (i + 1) * DIST_MAX) by (nonlinear_arith)
                requires
                    acc <= i * DIST_MAX,
                    d <= DIST_MAX,
                    i >= 0,
            {
            }
            assert((i + 1) * (DIST_MAX as int) <= 0xffffffffffffffffu64 * (DIST_MAX as int))
                by (nonlinear_arith)
                requires
                    0 <= i + 1 <= 0xffffffffffffffffu64,
            {
            }
        }
        acc = acc + d as u128;
        cur = p;
    }
    proof {
        assert(ids@.skip(n as int) =~= Seq::<i32>::empty());
    }
    acc
}

pub proof fn lemma_reordering_elements(a: Seq<i32>, b: Seq<i32>)
    requires
        is_reordering(a, b),
    ensures
        a.len() == b.len(),
        forall|k: int| 0 <= k < a.len() ==> b.contains(#[trigger] a[k]),
{
    assert(a.to_multiset().len() == a.len());
    assert(b.to_multiset().len() == b.len());
    assert forall|k: int| 0 <= k < a.len() implies b.contains(a[k]) by {
        assert(a.contains(a[k]));
        assert(a.to_multiset().count(a[k]) > 0);
    }
}

/// Mapping two sequences with the same multiset gives two sequences
/// with the same multiset.
pub proof fn lemma_map_preserves_multiset<A, B>(s1: Seq<A>, s2: Seq<A>, f: spec_fn(A) -> B)
    requires
        s1.to_multiset() == s2.to_multiset(),
    ensures
        s1.map_values(f).to_multiset() == s2.map_values(f).to_multiset(),
    decreases s1.len(),
{
    assert(s1.to_multiset().len() == s1.len());
    assert(s2.to_multiset().len() == s2.len());
    if s1.len() == 0 {
        assert(s1.map_values(f).to_multiset() =~= s2.map_values(f).to_multiset());
    } else {
        let x = s1.last();
        assert(s1.contains(x));
        assert(s1.to_multiset().count(x) > 0);
        assert(s2.to_multiset().count(x) > 0);
        assert(s2.contains(x));
        let w = choose|w: int| 0 <= w < s2.len() && s2[w] == x;
        assert(s1.drop_last() =~= s1.remove(s1.len() - 1));
        assert(s1.remove(s1.len() - 1).to_multiset() == s1.to_multiset().remove(x));
        assert(s2.remove(w).to_multiset() == s2.to_multiset().remove(x));
        lemma_map_preserves_multiset(s1.drop_last(), s2.remove(w), f);
        assert(s1.map_values(f) =~= s1.drop_last().map_values(f).push(f(x)));
        assert(s1.map_values(f).to_multiset() == s1.drop_last().map_values(f).to_multiset().insert(
            f(x),
        ));
        assert(s2.remove(w).map_values(f) =~= s2.map_values(f).remove(w)) by {
            assert forall|k: int| 0 <= k < s2.len() - 1 implies s2.remove(w).map_values(f)[k]
                == s2.map_values(f).remove(w)[k] by {
                if k < w {
                    assert(s2.remove(w)[k] == s2[k]);
                } else {
                    assert(s2.remove(w)[k] == s2[k + 1]);
                }
            }
        }
        assert(s2.map_values(f).remove(w).to_multiset() == s2.map_values(f).to_multiset().remove(
            s2.map_values(f)[w],
        ));
        assert(s2.map_values(f)[w] == f(x));
        assert(s2.map_values(f).contains(s2.map_values(f)[w]));
        assert(s2.map_values(f).to_multiset().count(f(x)) > 0);
        assert(s2.map_values(f).to_multiset() =~= s2.map_values(f).to_multiset().remove(
            f(x),
        ).insert(f(x)));
    }
}

/// The shortest way to visit every id of `remaining`, departing from
/// `from`: an order and its length, minimal over every reordering.
/// Orders are enumerated by recursion on the first visited id, taking
/// the ids of `remaining` in their given order, and the first order
/// that attains the minimum wins.
pub(crate) fn best_tour(ns: &Vec<Node>, from: &Position, remaining: &Vec<i32>) -> (res: (
    u128,
    Vec<i32>,
))
    requires
        all_wf(ns@),
        unique_ids(ns@),
        from.wf(),
        forall|k: int| 0 <= k < remaining@.len() ==> has_id(ns@, #[trigger] remaining@[k]),
    ensures
        is_reordering(res.1@, remaining@),
        res.0 == tour_len(ns@, *from, res.1@),
        forall|p: Seq<i32>| is_reordering(p, remaining@) ==> res.0 <= tour_len(ns@, *from, p),
    decreases remaining@.len(),
{
    let n = remaining.len();
    if n == 0 {
        let res = (0u128, Vec::<i32>::new());
        proof {
            assert(res.1@.to_multiset() =~= remaining@.to_multiset());
            assert forall|p: Seq<i32>| is_reordering(p, remaining@) implies res.0 <= tour_len(
                ns@,
                *from,
                p,
            ) by {
                assert(p.to_multiset().len() == p.len());
                assert(remaining@.to_multiset().len() == remaining@.len());
            }
        }
        return res;
    }
    let mut best_len: u128 = 0;
    let mut best_ord: Vec<i32> = Vec::new();
    let mut have: bool = false;
    for i in 0..n
        invariant
            n == remaining@.len(),
            n > 0,
            all_wf(ns@),
            unique_ids(ns@),
            from.wf(),
            forall|k: int| 0 <= k < remaining@.len() ==> has_id(ns@, #[trigger] remaining@[k]),
            have <==> i > 0,
            have ==> is_reordering(best_ord@, remaining@),
            have ==> best_len == tour_len(ns@, *from, best_ord@),
            forall|p: Seq<i32>|
                is_reordering(p, remaining@) && (exists|j: int|
                    0 <= j < i && p[0] == remaining@[j]) ==> best_len <= tour_len(ns@, *from, p),
    {
        let id = remaining[i];
        let p = find_pos(ns, id);
        let mut rest = remaining.clone();
        proof {
            assert(rest@ =~= remaining@);
        }
        rest.remove(i);
        proof {
            assert forall|k: int| 0 <= k < rest@.len() implies has_id(
                ns@,
                #[trigger] rest@[k],
            ) by {
                assert(rest@[k] == if k < i { remaining@[k] } else { remaining@[k + 1] });
            }
        }
        let (sub_len, sub_ord) = best_tour(ns, &p, &rest);
        let d = Position::distance(from, &p);
        proof {
            lemma_reordering_elements(sub_ord@, rest@);
            assert forall|k: int| 0 <= k < sub_ord@.len() implies has_id(
                ns@,
                #[trigger] sub_ord@[k],
            ) by {
                let w = choose|w: int| 0 <= w < rest@.len() && rest@[w] == sub_ord@[k];
                assert(has_id(ns@, rest@[w]));
            }
            lemma_tour_len_bound(ns@, p, sub_ord@);
            assert(sub_ord@.len() * (DIST_MAX as int) + DIST_MAX <= 0xffffffffffffffffu64
                * (DIST_MAX as int) + DIST_MAX) by (nonlinear_arith)
                requires
                    0 <= sub_ord@.len() <= 0xffffffffffffffffu64,
            {
            }
        }
        let cand: u128 = d as u128 + sub_len;
        let mut ord: Vec<i32> = Vec::new();
        ord.push(id);
        let mut tail = sub_ord;
        ord.append(&mut tail);
        proof {
            // cand is the length of visiting `ord` from `from`.
            assert(ord@ =~= sub_ord@.insert(0, id));
            assert(ord@[0] == id);
            assert(ord@.drop_first() =~= sub_ord@);
            assert(pos_of(ns@, id) == p);
            assert(cand == tour_len(ns@, *from, ord@));
            // `ord` is a reordering of `remaining`.
            assert(remaining@[i as int] == id);
            assert(remaining@.contains(id));
            assert(remaining@.remove(i as int).to_multiset() == remaining@.to_multiset().remove(
                id,
            ));
            assert(remaining@.to_multiset().count(id) > 0);
            assert(remaining@.to_multiset() =~= remaining@.to_multiset().remove(id).insert(id));
            assert(ord@.to_multiset() == sub_ord@.to_multiset().insert(id));
            assert(ord@.to_multiset() == remaining@.to_multiset());
        }
        let improves = !have || cand < best_len;
        if improves {
            best_len = cand;
            best_ord = ord;
        }
        have = true;
        proof {
            // Any reordering starting with an id seen so far is no
            // shorter than the best kept so far.
            assert forall|q: Seq<i32>|
                is_reordering(q, remaining@) && (exists|j: int|
                    0 <= j < i + 1 && q[0] == remaining@[j]) implies best_len <= tour_len(
                ns@,
                *from,
                q,
            ) by {
                let j = choose|j: int| 0 <= j < i + 1 && q[0] == remaining@[j];
                assert(q.to_multiset().len() == q.len());
                assert(remaining@.to_multiset().len() == remaining@.len());
                if q[0] == id {
                    assert(q.drop_first() =~= q.remove(0));
                    assert(q.remove(0).to_multiset() == q.to_multiset().remove(q[0]));
                    assert(q.drop_first().to_multiset() == rest@.to_multiset());
                    assert(is_reordering(q.drop_first(), rest@));
                    assert(tour_len(ns@, *from, q) == dist(*from, p) + tour_len(
                        ns@,
                        p,
                        q.drop_first(),
                    ));
                    assert(sub_len <= tour_len(ns@, p, q.drop_first()));
                    assert(best_len <= cand);
                } else {
                    assert(0 <= j < i && q[0] == remaining@[j]);
                }
            }
        }
    }
    proof {
        assert forall|q: Seq<i32>| is_reordering(q, remaining@) implies best_len <= tour_len(
            ns@,
            *from,
            q,
        ) by {
            assert(q.to_multiset().len() == q.len());
            assert(remaining@.to_multiset().len() == remaining@.len());
            assert(q.contains(q[0]));
            assert(q.to_multiset().count(q[0]) > 0);
            assert(remaining@.to_multiset().count(q[0]) > 0);
            assert(remaining@.contains(q[0]));
        }
    }
    (best_len, best_ord)
}

/// Which remaining node a heuristic walk advances to next: the nearest
/// unvisited node (classic nearest neighbour) or the farthest one.
#[derive(Debug, Clone, Copy, PartialEq, Eq, Structural)]
pub enum WalkRule {
    Nearest,
    Farthest,
}

/// Whether a candidate at distance `d_cand` beats the current choice at
/// distance `d_cur` under `rule`. Ties never beat an earlier choice.
pub open spec fn better(rule: WalkRule, d_cand: int, d_cur: int) -> bool {
    match rule {
        WalkRule::Nearest => d_cand < d_cur,
        WalkRule::Farthest => d_cand > d_cur,
    }
}

/// The first index of `ns` whose distance to `from` no other index
/// beats under `rule`.
pub open spec fn extremal_idx(ns: Seq<Node>, from: Position, rule: WalkRule) -> int
    decreases ns.len(),
{
    if ns.len() <= 1 {
        0
    } else {
        let r = extremal_idx(ns.drop_first(), from, rule) + 1;
        if better(rule, dist(from, ns[r].1), dist(from, ns[0].1)) {
            r
        } else {
            0
        }
    }
}

pub proof fn lemma_extremal_idx(ns: Seq<Node>, from: Position, rule: WalkRule)
    requires
        ns.len() > 0,
    ensures
        0 <= extremal_idx(ns, from, rule) < ns.len(),
        forall|k: int|
            0 <= k < ns.len() ==> !better(
                rule,
                dist(from, (#[trigger] ns[k]).1),
                dist(from, ns[extremal_idx(ns, from, rule)].1),
            ),
        forall|k: int|
            0 <= k < extremal_idx(ns, from, rule) ==> better(
                rule,
                dist(from, ns[extremal_idx(ns, from, rule)].1),
                dist(from, (#[trigger] ns[k]).1),
            ),
    decreases ns.len(),
{
    if ns.len() > 1 {
        let tail = ns.drop_first();
        lemma_extremal_idx(tail, from, rule);
        let r = extremal_idx(tail, from, rule) + 1;
        let e = extremal_idx(ns, from, rule);
        assert(forall|k: int| 0 <= k < tail.len() ==> tail[k] == ns[k + 1]);
        assert forall|k: int|
            0 <= k < ns.len() implies !better(
            rule,
            dist(from, (#[trigger] ns[k]).1),
            dist(from, ns[e].1),
        ) by {
            if k > 0 {
                assert(!better(rule, dist(from, tail[k - 1].1), dist(from, tail[r - 1].1)));
            }
        }
        assert forall|k: int|
            0 <= k < e implies better(
            rule,
            dist(from, ns[e].1),
            dist(from, (#[trigger] ns[k]).1),
        ) by {
            if k > 0 {
                assert(better(rule, dist(from, tail[r - 1].1), dist(from, tail[k - 1].1)));
            }
        }
    }
}

pub proof fn lemma_extremal_idx_unique(ns: Seq<Node>, from: Position, rule: WalkRule, e: int)
    requires
        0 <= e < ns.len(),
        forall|k: int|
            0 <= k < ns.len() ==> !better(
                rule,
                dist(from, (#[trigger] ns[k]).1),
                dist(from, ns[e].1),
            ),
        forall|k: int|
            0 <= k < e ==> better(rule, dist(from, ns[e].1), dist(from, (#[trigger] ns[k]).1)),
    ensures
        e == extremal_idx(ns, from, rule),
{
    lemma_extremal_idx(ns, from, rule);
    let f = extremal_idx(ns, from, rule);
    if e < f {
        assert(better(rule, dist(from, ns[f].1), dist(from, ns[e].1)));
    } else if f < e {
        assert(better(rule, dist(from, ns[e].1), dist(from, ns[f].1)));
    }
}

/// The order a heuristic walk visits `ns`, departing from `from`:
/// repeatedly advance to the remaining node that `rule` prefers,
/// earliest listed first on ties.
pub open spec fn walk_order(ns: Seq<Node>, from: Position, rule: WalkRule) -> Seq<i32>
    decreases ns.len(),
    via walk_order_decreases
{
    if ns.len() == 0 {
        Seq::empty()
    } else {
        let j = extremal_idx(ns, from, rule);
        seq![ns[j].0] + walk_order(ns.remove(j), ns[j].1, rule)
    }
}

#[via_fn]
proof fn walk_order_decreases(ns: Seq<Node>, from: Position, rule: WalkRule) {
    if ns.len() > 0 {
        lemma_extremal_idx(ns, from, rule);
    }
}

/// The single-start nearest-neighbour order.
pub open spec fn greedy_order(ns: Seq<Node>, from: Position) -> Seq<i32> {
    walk_order(ns, from, WalkRule::Nearest)
}

/// What a solve of `ns` departing from `from` leaves behind: below
/// ten members the exact minimum, from ten up the nearest-neighbour
/// walk.
pub open spec fn solved(ns: Seq<Node>, from: Position, order: Seq<i32>) -> bool {
    if ns.len() < 10 {
        minimal_tour(ns, from, order)
    } else {
        order == greedy_order(ns, from)
    }
}

pub proof fn lemma_ids_of_remove(ns: Seq<Node>, j: int)
    requires
        0 <= j < ns.len(),
    ensures
        ids_of(ns.remove(j)) =~= ids_of(ns).remove(j),
{
    assert forall|k: int| 0 <= k < ns.len() - 1 implies ids_of(ns.remove(j))[k] == ids_of(
        ns,
    ).remove(j)[k] by {
        if k < j {
            assert(ns.remove(j)[k] == ns[k]);
        } else {
            assert(ns.remove(j)[k] == ns[k + 1]);
        }
    }
}

pub proof fn lemma_walk_order_perm(ns: Seq<Node>, from: Position, rule: WalkRule)
    ensures
        is_reordering(walk_order(ns, from, rule), ids_of(ns)),
        walk_order(ns, from, rule).len() == ns.len(),
    decreases ns.len(),
{
    if ns.len() == 0 {
        assert(walk_order(ns, from, rule).to_multiset() =~= ids_of(ns).to_multiset());
        assert(ids_of(ns).to_multiset().len() == ids_of(ns).len());
    } else {
        let j = extremal_idx(ns, from, rule);
        lemma_extremal_idx(ns, from, rule);
        lemma_walk_order_perm(ns.remove(j), ns[j].1, rule);
        let tail = walk_order(ns.remove(j), ns[j].1, rule);
        let w = walk_order(ns, from, rule);
        assert(w =~= tail.insert(0, ns[j].0));
        assert(w.to_multiset() == tail.to_multiset().insert(ns[j].0));
        lemma_ids_of_remove(ns, j);
        assert(ids_of(ns).remove(j).to_multiset() == ids_of(ns).to_multiset().remove(
            ids_of(ns)[j],
        ));
        assert(ids_of(ns)[j] == ns[j].0);
        assert(ids_of(ns).contains(ids_of(ns)[j]));
        assert(ids_of(ns).to_multiset().count(ns[j].0) > 0);
        assert(ids_of(ns).to_multiset() =~= ids_of(ns).to_multiset().remove(ns[j].0).insert(
            ns[j].0,
        ));
        assert(w.to_multiset().len() == w.len());
        assert(ids_of(ns).to_multiset().len() == ids_of(ns).len());
    }
}

/// Visit `ns` by the heuristic walk under `rule`, departing from `from`.
pub(crate) fn heuristic_walk(ns: &Vec<Node>, from: &Position, rule: WalkRule) -> (r: Vec<i32>)
    requires
        all_wf(ns@),
        from.wf(),
    ensures
        r@ == walk_order(ns@, *from, rule),
{
    let ghost target = walk_order(ns@, *from, rule);
    let n = ns.len();
    let mut pool: Vec<Node> = Vec::new();
    for i in 0..n
        invariant
            n == ns@.len(),
            pool@ =~= ns@.take(i as int),
    {
        pool.push(ns[i]);
        proof {
            assert(pool@ =~= ns@.take(i as int + 1));
        }
    }
    proof {
        assert(pool@ =~= ns@);
    }
    let mut out: Vec<i32> = Vec::new();
    let mut cur: Position = *from;
    while pool.len() > 0
        invariant
            all_wf(pool@),
            cur.wf(),
            out@ + walk_order(pool@, cur, rule) =~= target,
        decreases pool.len(),
    {
        let m = pool.len();
        let mut b: usize = 0;
        let mut bd: u64 = Position::distance(&cur, &pool[0].1);
        for k in 1..m
            invariant
                m == pool@.len(),
                0 <= b < m,
                all_wf(pool@),
                cur.wf(),
                bd == dist(cur, pool@[b as int].1),
                forall|t: int|
                    0 <= t < k ==> !better(rule, dist(cur, (#[trigger] pool@[t]).1), bd as int),
                forall|t: int|
                    0 <= t < b ==> better(rule, bd as int, dist(cur, (#[trigger] pool@[t]).1)),
        {
            let d = Position::distance(&cur, &pool[k].1);
            let take = match rule {
                WalkRule::Nearest => d < bd,
                WalkRule::Farthest => d > bd,
            };
            if take {
                b = k;
                bd = d;
            }
        }
        proof {
            lemma_extremal_idx_unique(pool@, cur, rule, b as int);
        }
        let ghost oldpool = pool@;
        let ghost oldout = out@;
        let chosen = pool[b];
        out.push(chosen.0);
        pool.remove(b);
        proof {
            assert(pool@ == oldpool.remove(b as int));
            assert(walk_order(oldpool, cur, rule) == seq![chosen.0] + walk_order(
                pool@,
                chosen.1,
                rule,
            ));
            assert(out@ + walk_order(pool@, chosen.1, rule) =~= oldout + walk_order(
                oldpool,
                cur,
                rule,
            ));
            assert(all_wf(pool@)) by {
                assert forall|t: int| 0 <= t < pool@.len() implies (#[trigger] pool@[t]).1.wf()
                by {
                    if t < b {
                        assert(pool@[t] == oldpool[t]);
                    } else {
                        assert(pool@[t] == oldpool[t + 1]);
                    }
                }
            }
        }
        cur = chosen.1;
    }
    proof {
        assert(out@ + walk_order(pool@, cur, rule) =~= out@);
    }
    out
}

/// The order produced by forcing the walk to begin at node `j` and
/// continuing with the heuristic walk under `rule`.
pub open spec fn rotation_walk(ns: Seq<Node>, j: int, rule: WalkRule) -> Seq<i32> {
    seq![ns[j].0] + walk_order(ns.remove(j), ns[j].1, rule)
}

/// The best rotation among starting choices `0 .. k`, judged by the
/// travel length anchored at `anchor`; the first minimum wins.
pub open spec fn best_rotation_upto(
    ns: Seq<Node>,
    anchor: Position,
    rule: WalkRule,
    k: int,
) -> Seq<i32>
    decreases k,
{
    if k <= 1 {
        rotation_walk(ns, 0, rule)
    } else {
        let prev = best_rotation_upto(ns, anchor, rule, k - 1);
        let cand = rotation_walk(ns, k - 1, rule);
        if tour_len(ns, anchor, cand) < tour_len(ns, anchor, prev) {
            cand
        } else {
            prev
        }
    }
}

/// The rotation-sampling order: run one walk per possible starting
/// node and keep the one whose anchored travel length is smallest.
pub open spec fn rotations_order(ns: Seq<Node>, anchor: Position, rule: WalkRule) -> Seq<i32> {
    if ns.len() == 0 {
        Seq::empty()
    } else {
        best_rotation_upto(ns, anchor, rule, ns.len() as int)
    }
}

pub proof fn lemma_rotation_walk_perm(ns: Seq<Node>, j: int, rule: WalkRule)
    requires
        0 <= j < ns.len(),
    ensures
        is_reordering(rotation_walk(ns, j, rule), ids_of(ns)),
        rotation_walk(ns, j, rule).len() == ns.len(),
    decreases ns.len(),
{
    lemma_walk_order_perm(ns.remove(j), ns[j].1, rule);
    let tail = walk_order(ns.remove(j), ns[j].1, rule);
    let w = rotation_walk(ns, j, rule);
    assert(w =~= tail.insert(0, ns[j].0));
    assert(w.to_multiset() == tail.to_multiset().insert(ns[j].0));
    lemma_ids_of_remove(ns, j);
    assert(ids_of(ns).remove(j).to_multiset() == ids_of(ns).to_multiset().remove(ids_of(ns)[j]));
    assert(ids_of(ns)[j] == ns[j].0);
    assert(ids_of(ns).contains(ids_of(ns)[j]));
    assert(ids_of(ns).to_multiset().count(ns[j].0) > 0);
    assert(ids_of(ns).to_multiset() =~= ids_of(ns).to_multiset().remove(ns[j].0).insert(ns[j].0));
    assert(w.to_multiset().len() == w.len());
    assert(ids_of(ns).to_multiset().len() == ids_of(ns).len());
}

/// Try every node of `ns` as the forced first stop of a heuristic walk
/// under `rule` and keep the order whose travel length from `anchor`
/// is smallest; the earliest-listed starting node wins ties.
pub(crate) fn best_rotation(ns: &Vec<Node>, anchor: &Position, rule: WalkRule) -> (res: (
    u128,
    Vec<i32>,
))
    requires
        all_wf(ns@),
        unique_ids(ns@),
        anchor.wf(),
    ensures
        res.1@ == rotations_order(ns@, *anchor, rule),
        res.0 == tour_len(ns@, *anchor, res.1@),
        is_reordering(res.1@, ids_of(ns@)),
{
    let n = ns.len();
    if n == 0 {
        let res = (0u128, Vec::<i32>::new());
        proof {
            assert(res.1@.to_multiset() =~= ids_of(ns@).to_multiset());
        }
        return res;
    }
    let mut best_len: u128 = 0;
    let mut best_ord: Vec<i32> = Vec::new();
    for j in 0..n
        invariant
            n == ns@.len(),
            n > 0,
            all_wf(ns@),
            unique_ids(ns@),
            anchor.wf(),
            j > 0 ==> best_ord@ == best_rotation_upto(ns@, *anchor, rule, j as int),
            j > 0 ==> best_len == tour_len(ns@, *anchor, best_ord@),
            j > 0 ==> is_reordering(best_ord@, ids_of(ns@)),
    {
        let mut rest: Vec<Node> = Vec::new();
        for k in 0..n
            invariant
                n == ns@.len(),
                0 <= j < n,
                rest@ =~= if k <= j {
                    ns@.take(k as int)
                } else {
                    ns@.remove(j as int).take(k as int - 1)
                },
        {
            if k != j {
                rest.push(ns[k]);
            }
            proof {
                if k < j {
                    assert(rest@ =~= ns@.take(k as int + 1));
                } else {
                    assert(rest@ =~= ns@.remove(j as int).take(k as int));
                }
            }
        }
        proof {
            assert(rest@ =~= ns@.remove(j as int));
            assert(all_wf(rest@)) by {
                assert forall|t: int| 0 <= t < rest@.len() implies (#[trigger] rest@[t]).1.wf()
                by {
                    if t < j {
                        assert(rest@[t] == ns@[t]);
                    } else {
                        assert(rest@[t] == ns@[t + 1]);
                    }
                }
            }
        }
        let first = ns[j];
        let tail = heuristic_walk(&rest, &first.1, rule);
        let mut ord: Vec<i32> = Vec::new();
        ord.push(first.0);
        let mut tl = tail;
        ord.append(&mut tl);
        proof {
            assert(ord@ =~= rotation_walk(ns@, j as int, rule));
            lemma_rotation_walk_perm(ns@, j as int, rule);
            lemma_reordering_elements(ord@, ids_of(ns@));
            assert forall|k: int| 0 <= k < ord@.len() implies has_id(ns@, #[trigger] ord@[k]) by {
                let w = choose|w: int| 0 <= w < ids_of(ns@).len() && ids_of(ns@)[w] == ord@[k];
                assert(ns@[w].0 == ord@[k]);
            }
        }
        let len_j = tour_length(ns, anchor, &ord);
        if j == 0 || len_j < best_len {
            best_len = len_j;
            best_ord = ord;
        }
        proof {
            if j > 0 {
                assert(best_rotation_upto(ns@, *anchor, rule, j as int + 1) == if tour_len(
                    ns@,
                    *anchor,
                    rotation_walk(ns@, j as int, rule),
                ) < tour_len(ns@, *anchor, best_rotation_upto(ns@, *anchor, rule, j as int)) {
                    rotation_walk(ns@, j as int, rule)
                } else {
                    best_rotation_upto(ns@, *anchor, rule, j as int)
                });
            }
        }
    }
    (best_len, best_ord)
}

/// Compute the stand-alone travel length of the path `ids`.
pub(crate) fn path_length(ns: &Vec<Node>, ids: &Vec<i32>) -> (r: u128)
    requires
        all_wf(ns@),
        unique_ids(ns@),
        forall|k: int| 0 <= k < ids@.len() ==> has_id(ns@, #[trigger] ids@[k]),
    ensures
        r == path_len(ns@, ids@),
{
    if ids.len() == 0 {
        return 0;
    }
    let first = find_pos(ns, ids[0]);
    let n = ids.len();
    let mut rest: Vec<i32> = Vec::new();
    for k in 1..n
        invariant
            n == ids@.len(),
            rest@ =~= ids@.subrange(1, k as int),
    {
        rest.push(ids[k]);
        proof {
            assert(rest@ =~= ids@.subrange(1, k as int + 1));
        }
    }
    proof {
        assert(rest@ =~= ids@.drop_first());
        assert(first.wf()) by {
            let j = index_of_id(ns@, ids@[0]);
            assert(has_id(ns@, ids@[0]));
            assert(0 <= j < ns@.len() && ns@[j].0 == ids@[0]);
            assert(ns@[j].1.wf());
        }
    }
    tour_length(ns, &first, &rest)
}

/// The shortest way to visit every id of `remaining` as a stand-alone
/// path, with no external departure point: minimal over every
/// reordering, enumerated by the forced first id, first minimum wins.
pub(crate) fn best_path(ns: &Vec<Node>, remaining: &Vec<i32>) -> (res: (u128, Vec<i32>))
    requires
        all_wf(ns@),
        unique_ids(ns@),
        forall|k: int| 0 <= k < remaining@.len() ==> has_id(ns@, #[trigger] remaining@[k]),
    ensures
        is_reordering(res.1@, remaining@),
        res.0 == path_len(ns@, res.1@),
        forall|p: Seq<i32>| is_reordering(p, remaining@) ==> res.0 <= path_len(ns@, p),
{
    let n = remaining.len();
    if n == 0 {
        let res = (0u128, Vec::<i32>::new());
        proof {
            assert(res.1@.to_multiset() =~= remaining@.to_multiset());
            assert forall|p: Seq<i32>| is_reordering(p, remaining@) implies res.0 <= path_len(
                ns@,
                p,
            ) by {
                assert(p.to_multiset().len() == p.len());
                assert(remaining@.to_multiset().len() == remaining@.len());
            }
        }
        return res;
    }
    let mut best_len: u128 = 0;
    let mut best_ord: Vec<i32> = Vec::new();
    let mut have: bool = false;
    for i in 0..n
        invariant
            n == remaining@.len(),
            n > 0,
            all_wf(ns@),
            unique_ids(ns@),
            forall|k: int| 0 <= k < remaining@.len() ==> has_id(ns@, #[trigger] remaining@[k]),
            have <==> i > 0,
            have ==> is_reordering(best_ord@, remaining@),
            have ==> best_len == path_len(ns@, best_ord@),
            forall|p: Seq<i32>|
                is_reordering(p, remaining@) && (exists|j: int|
                    0 <= j < i && p[0] == remaining@[j]) ==> best_len <= path_len(ns@, p),
    {
        let id = remaining[i];
        let p = find_pos(ns, id);
        proof {
            assert(p.wf()) by {
                let j = index_of_id(ns@, id);
                assert(has_id(ns@, id));
                assert(0 <= j < ns@.len() && ns@[j].0 == id);
            }
        }
        let mut rest = remaining.clone();
        proof {
            assert(rest@ =~= remaining@);
        }
        rest.remove(i);
        proof {
            assert forall|k: int| 0 <= k < rest@.len() implies has_id(
                ns@,
                #[trigger] rest@[k],
            ) by {
                assert(rest@[k] == if k < i { remaining@[k] } else { remaining@[k + 1] });
            }
        }
        let (cand, sub_ord) = best_tour(ns, &p, &rest);
        let mut ord: Vec<i32> = Vec::new();
        ord.push(id);
        let mut tail = sub_ord;
        ord.append(&mut tail);
        proof {
            assert(ord@ =~= sub_ord@.insert(0, id));
            assert(ord@[0] == id);
            assert(ord@.drop_first() =~= sub_ord@);
            assert(pos_of(ns@, id) == p);
            assert(cand == path_len(ns@, ord@));
            assert(remaining@[i as int] == id);
            assert(remaining@.contains(id));
            assert(remaining@.remove(i as int).to_multiset() == remaining@.to_multiset().remove(
                id,
            ));
            assert(remaining@.to_multiset().count(id) > 0);
            assert(remaining@.to_multiset() =~= remaining@.to_multiset().remove(id).insert(id));
            assert(ord@.to_multiset() == sub_ord@.to_multiset().insert(id));
            assert(ord@.to_multiset() == remaining@.to_multiset());
        }
        let improves = !have || cand < best_len;
        if improves {
            best_len = cand;
            best_ord = ord;
        }
        have = true;
        proof {
            assert forall|q: Seq<i32>|
                is_reordering(q, remaining@) && (exists|j: int|
                    0 <= j < i + 1 && q[0] == remaining@[j]) implies best_len <= path_len(
                ns@,
                q,
            ) by {
                let j = choose|j: int| 0 <= j < i + 1 && q[0] == remaining@[j];
                assert(q.to_multiset().len() == q.len());
                assert(remaining@.to_multiset().len() == remaining@.len());
                if q[0] == id {
                    assert(q.drop_first() =~= q.remove(0));
                    assert(q.remove(0).to_multiset() == q.to_multiset().remove(q[0]));
                    assert(q.drop_first().to_multiset() == rest@.to_multiset());
                    assert(is_reordering(q.drop_first(), rest@));
                    assert(path_len(ns@, q) == tour_len(ns@, p, q.drop_first()));
                    assert(cand <= path_len(ns@, q));
                } else {
                    assert(0 <= j < i && q[0] == remaining@[j]);
                }
            }
        }
    }
    proof {
        assert forall|q: Seq<i32>| is_reordering(q, remaining@) implies best_len <= path_len(
            ns@,
            q,
        ) by {
            assert(q.to_multiset().len() == q.len());
            assert(remaining@.to_multiset().len() == remaining@.len());
            assert(q.contains(q[0]));
            assert(q.to_multiset().count(q[0]) > 0);
            assert(remaining@.to_multiset().count(q[0]) > 0);
            assert(remaining@.contains(q[0]));
        }
    }
    (best_len, best_ord)
}

/// The best rotation among starting choices `0 .. k`, judged by
/// stand-alone path length; the first minimum wins.
pub open spec fn best_path_rotation_upto(ns: Seq<Node>, rule: WalkRule, k: int) -> Seq<i32>
    decreases k,
{
    if k <= 1 {
        rotation_walk(ns, 0, rule)
    } else {
        let prev = best_path_rotation_upto(ns, rule, k - 1);
        let cand = rotation_walk(ns, k - 1, rule);
        if path_len(ns, cand) < path_len(ns, prev) {
            cand
        } else {
            prev
        }
    }
}

/// The stand-alone rotation-sampling order: one walk per possible
/// starting node, keeping the one whose own path length is smallest.
pub open spec fn path_rotations_order(ns: Seq<Node>, rule: WalkRule) -> Seq<i32> {
    if ns.len() == 0 {
        Seq::empty()
    } else {
        best_path_rotation_upto(ns, rule, ns.len() as int)
    }
}

/// Try every node of `ns` as the forced first stop of a heuristic
/// walk under `rule` and keep the order whose own path length is
/// smallest; the earliest-listed starting node wins ties.
pub(crate) fn best_path_rotation(ns: &Vec<Node>, rule: WalkRule) -> (res: (u128, Vec<i32>))
    requires
        all_wf(ns@),
        unique_ids(ns@),
    ensures
        res.1@ == path_rotations_order(ns@, rule),
        res.0 == path_len(ns@, res.1@),
        is_reordering(res.1@, ids_of(ns@)),
{
    let n = ns.len();
    if n == 0 {
        let res = (0u128, Vec::<i32>::new());
        proof {
            assert(res.1@.to_multiset() =~= ids_of(ns@).to_multiset());
        }
        return res;
    }
    let mut best_len: u128 = 0;
    let mut best_ord: Vec<i32> = Vec::new();
    for j in 0..n
        invariant
            n == ns@.len(),
            n > 0,
            all_wf(ns@),
            unique_ids(ns@),
            j > 0 ==> best_ord@ == best_path_rotation_upto(ns@, rule, j as int),
            j > 0 ==> best_len == path_len(ns@, best_ord@),
            j > 0 ==> is_reordering(best_ord@, ids_of(ns@)),
    {
        let mut rest: Vec<Node> = Vec::new();
        for k in 0..n
            invariant
                n == ns@.len(),
                0 <= j < n,
                rest@ =~= if k <= j {
                    ns@.take(k as int)
                } else {
                    ns@.remove(j as int).take(k as int - 1)
                },
        {
            if k != j {
                rest.push(ns[k]);
            }
            proof {
                if k < j {
                    assert(rest@ =~= ns@.take(k as int + 1));
                } else {
                    assert(rest@ =~= ns@.remove(j as int).take(k as int));
                }
            }
        }
        proof {
            assert(rest@ =~= ns@.remove(j as int));
            assert(all_wf(rest@)) by {
                assert forall|t: int| 0 <= t < rest@.len() implies (#[trigger] rest@[t]).1.wf()
                by {
                    if t < j {
                        assert(rest@[t] == ns@[t]);
                    } else {
                        assert(rest@[t] == ns@[t + 1]);
                    }
                }
            }
        }
        let first = ns[j];
        let tail = heuristic_walk(&rest, &first.1, rule);
        let mut ord: Vec<i32> = Vec::new();
        ord.push(first.0);
        let mut tl = tail;
        ord.append(&mut tl);
        proof {
            assert(ord@ =~= rotation_walk(ns@, j as int, rule));
            lemma_rotation_walk_perm(ns@, j as int, rule);
            lemma_reordering_elements(ord@, ids_of(ns@));
            assert forall|k: int| 0 <= k < ord@.len() implies has_id(ns@, #[trigger] ord@[k]) by {
                let w = choose|w: int| 0 <= w < ids_of(ns@).len() && ids_of(ns@)[w] == ord@[k];
                assert(ns@[w].0 == ord@[k]);
            }
        }
        let len_j = path_length(ns, &ord);
        if j == 0 || len_j < best_len {
            best_len = len_j;
            best_ord = ord;
        }
        proof {
            if j > 0 {
                assert(best_path_rotation_upto(ns@, rule, j as int + 1) == if path_len(
                    ns@,
                    rotation_walk(ns@, j as int, rule),
                ) < path_len(ns@, best_path_rotation_upto(ns@, rule, j as int)) {
                    rotation_walk(ns@, j as int, rule)
                } else {
                    best_path_rotation_upto(ns@, rule, j as int)
                });
            }
        }
    }
    (best_len, best_ord)
}

/// Law: two exact solves of the same members from the same departure
/// find the same total length, whichever minimal orders each returns.
pub proof fn lemma_exact_length_deterministic(
    ns: Seq<Node>,
    from: Position,
    o1: Seq<i32>,
    o2: Seq<i32>,
)
    requires
        minimal_tour(ns, from, o1),
        minimal_tour(ns, from, o2),
    ensures
        tour_len(ns, from, o1) == tour_len(ns, from, o2),
{
}

/// Law: an exact solve is never longer than any order that visits the
/// same members, so in particular never longer than a heuristic one.
pub proof fn lemma_exact_at_most(ns: Seq<Node>, from: Position, exact: Seq<i32>, other: Seq<i32>)
    requires
        minimal_tour(ns, from, exact),
        is_reordering(other, ids_of(ns)),
    ensures
        tour_len(ns, from, exact) <= tour_len(ns, from, other),
{
}

/// Law: an exact solve is never longer than the nearest-neighbour
/// walk over the same members.
pub proof fn lemma_exact_at_most_greedy(ns: Seq<Node>, from: Position, exact: Seq<i32>)
    requires
        minimal_tour(ns, from, exact),
    ensures
        tour_len(ns, from, exact) <= tour_len(ns, from, greedy_order(ns, from)),
{
    lemma_walk_order_perm(ns, from, WalkRule::Nearest);
}

pub proof fn lemma_best_rotation_upto_perm(ns: Seq<Node>, anchor: Position, rule: WalkRule, k: int)
    requires
        ns.len() > 0,
        1 <= k <= ns.len(),
    ensures
        is_reordering(best_rotation_upto(ns, anchor, rule, k), ids_of(ns)),
    decreases k,
{
    if k <= 1 {
        lemma_rotation_walk_perm(ns, 0, rule);
    } else {
        lemma_best_rotation_upto_perm(ns, anchor, rule, k - 1);
        lemma_rotation_walk_perm(ns, k - 1, rule);
    }
}

pub proof fn lemma_rotations_order_perm(ns: Seq<Node>, anchor: Position, rule: WalkRule)
    ensures
        is_reordering(rotations_order(ns, anchor, rule), ids_of(ns)),
    decreases ns.len(),
{
    if ns.len() == 0 {
        assert(rotations_order(ns, anchor, rule).to_multiset() =~= ids_of(ns).to_multiset());
    } else {
        lemma_best_rotation_upto_perm(ns, anchor, rule, ns.len() as int);
    }
}

/// Law: an exact solve is never longer than the rotation-sampling
/// walk over the same members, under either walk rule.
pub proof fn lemma_exact_at_most_rotations(
    ns: Seq<Node>,
    from: Position,
    exact: Seq<i32>,
    rule: WalkRule,
)
    requires
        minimal_tour(ns, from, exact),
    ensures
        tour_len(ns, from, exact) <= tour_len(ns, from, rotations_order(ns, from, rule)),
{
    lemma_rotations_order_perm(ns, from, rule);
}

/// Law: with no members the only minimal order is empty, with length
/// zero; with a single member it visits exactly that member, with
/// length the distance from the departure to it.
pub proof fn lemma_minimal_tour_boundary(ns: Seq<Node>, from: Position, o: Seq<i32>)
    requires
        minimal_tour(ns, from, o),
    ensures
        ns.len() == 0 ==> o == Seq::<i32>::empty() && tour_len(ns, from, o) == 0,
        ns.len() == 1 ==> o == seq![ns[0].0] && tour_len(ns, from, o) == dist(from, ns[0].1),
{
    assert(o.to_multiset().len() == o.len());
    assert(ids_of(ns).to_multiset().len() == ids_of(ns).len());
    if ns.len() == 0 {
        assert(o =~= Seq::<i32>::empty());
    } else if ns.len() == 1 {
        assert(o.len() == 1);
        assert(o.contains(o[0]));
        assert(o.to_multiset().count(o[0]) > 0);
        assert(ids_of(ns).to_multiset().count(o[0]) > 0);
        assert(ids_of(ns).contains(o[0]));
        let w = choose|w: int| 0 <= w < ids_of(ns).len() && ids_of(ns)[w] == o[0];
        assert(w == 0);
        assert(o[0] == ns[0].0);
        assert(o =~= seq![ns[0].0]);
        let j = index_of_id(ns, ns[0].0);
        assert(ns[0].0 == ids_of(ns)[0]);
        assert(has_id(ns, ns[0].0));
        assert(0 <= j < 1);
        assert(pos_of(ns, ns[0].0) == ns[0].1);
        assert(o.drop_first().len() == 0);
        assert(tour_len(ns, pos_of(ns, o[0]), o.drop_first()) == 0);
        assert(tour_len(ns, from, o) == dist(from, pos_of(ns, o[0])) + tour_len(
            ns,
            pos_of(ns, o[0]),
            o.drop_first(),
        ));
        assert(tour_len(ns, from, o) == dist(from, ns[0].1));
    }
}

} // verus!
