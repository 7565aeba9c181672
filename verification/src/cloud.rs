//! The ordinal component: places whose visiting order is derived from
//! their parsed names rather than from geometry, with the geometric
//! solvers available for comparison.

use vstd::prelude::*;

use crate::naming::{parse_place_name, parse_place_name_exec};
use crate::position::{dist, Position};
use crate::solver::{
    best_path, best_path_rotation, has_id, ids_of, index_of_id, is_reordering,
    lemma_reordering_elements, minimal_path, path_len, path_length, path_rotations_order, pos_of,
    unique_ids, Node, WalkRule,
};

verus! {

broadcast use vstd::seq_lib::group_to_multiset_ensures;

/// The one failure of the ordinal component: a waypoint name that
/// does not follow the six-token naming convention.
#[derive(Debug, Clone, Copy, PartialEq, Eq, Structural)]
pub enum CloudError {
    MalformedName,
}

/// A place: identity and position, with the ordinal key (cloud index,
/// belt number) parsed from its name.
#[derive(Debug, Clone)]
pub struct Place {
    id: i32,
    name: String,
    position: Position,
    cloud_number: u32,
    belt_number: i32,
}

/// The ordinal sort key of a place: cloud index, then belt number,
/// with the id carried along.
pub type OrdKey = (u32, i32, i32);

impl Place {
    pub closed spec fn spec_id(self) -> i32 {
        self.id
    }

    pub closed spec fn spec_name(self) -> Seq<char> {
        self.name@
    }

    pub closed spec fn spec_position(self) -> Position {
        self.position
    }

    pub closed spec fn spec_cloud(self) -> u32 {
        self.cloud_number
    }

    pub closed spec fn spec_belt(self) -> i32 {
        self.belt_number
    }

    pub open spec fn wf(self) -> bool {
        &&& self.spec_position().wf()
        &&& parse_place_name(self.spec_name()) == Some((self.spec_cloud(), self.spec_belt()))
    }

    /// Build a place by parsing its name against the six-token naming
    /// convention; a name that does not follow it is rejected.
    pub fn new(id: &i32, name: &String, position: &Position) -> (r: Result<Self, CloudError>)
        requires
            position.wf(),
        ensures
            parse_place_name(name@) is Some ==> (r matches Ok(p) && p.spec_id() == *id
                && p.spec_name() == name@ && p.spec_position() == *position && parse_place_name(
                name@,
            ) == Some((p.spec_cloud(), p.spec_belt())) && p.wf()),
            parse_place_name(name@) is None ==> r == Result::<Place, CloudError>::Err(
                CloudError::MalformedName,
            ),
    {
        match parse_place_name_exec(name.as_str()) {
            Some((c, b)) => Ok(
                Place {
                    id: *id,
                    name: name.clone(),
                    position: *position,
                    cloud_number: c,
                    belt_number: b,
                },
            ),
            None => Err(CloudError::MalformedName),
        }
    }

    /// The parsed cloud (Roman-numeral) index.
    pub fn cloud_number(&self) -> (r: u32)
        ensures
            r == self.spec_cloud(),
    {
        self.cloud_number
    }

    /// The parsed trailing belt number.
    pub fn belt_number(&self) -> (r: i32)
        ensures
            r == self.spec_belt(),
    {
        self.belt_number
    }
}

pub open spec fn place_nodes(ps: Seq<Place>) -> Seq<Node> {
    ps.map_values(|p: Place| (p.spec_id(), p.spec_position()))
}

pub open spec fn key_of(p: Place) -> OrdKey {
    (p.spec_cloud(), p.spec_belt(), p.spec_id())
}

pub open spec fn keys_of(ps: Seq<Place>) -> Seq<OrdKey> {
    ps.map_values(|p: Place| key_of(p))
}

/// Strict ordinal order: by cloud index, then by belt number.
pub open spec fn key_before(a: OrdKey, b: OrdKey) -> bool {
    a.0 < b.0 || (a.0 == b.0 && a.1 < b.1)
}

/// Insert `k` behind every key it is not strictly before: a stable
/// insertion.
pub open spec fn insert_key(s: Seq<OrdKey>, k: OrdKey) -> Seq<OrdKey>
    decreases s.len(),
{
    if s.len() == 0 {
        seq![k]
    } else if key_before(k, s.last()) {
        insert_key(s.drop_last(), k).push(s.last())
    } else {
        s.push(k)
    }
}

/// Stable insertion sort by the ordinal order.
pub open spec fn sort_keys(s: Seq<OrdKey>) -> Seq<OrdKey>
    decreases s.len(),
{
    if s.len() == 0 {
        s
    } else {
        insert_key(sort_keys(s.drop_last()), s.last())
    }
}

/// The ids of the places, sorted by their ordinal keys.
pub open spec fn sorted_ids(ps: Seq<Place>) -> Seq<i32> {
    sort_keys(keys_of(ps)).map_values(|k: OrdKey| k.2)
}

pub proof fn lemma_insert_key_perm(s: Seq<OrdKey>, k: OrdKey)
    ensures
        insert_key(s, k).to_multiset() == s.to_multiset().insert(k),
        insert_key(s, k).len() == s.len() + 1,
    decreases s.len(),
{
    if s.len() == 0 {
        assert(insert_key(s, k) =~= Seq::<OrdKey>::empty().push(k));
        assert(Seq::<OrdKey>::empty().push(k).to_multiset() == Seq::<
            OrdKey,
        >::empty().to_multiset().insert(k));
        assert(s.to_multiset() =~= Seq::<OrdKey>::empty().to_multiset());
    } else if key_before(k, s.last()) {
        lemma_insert_key_perm(s.drop_last(), k);
        assert(s.drop_last() =~= s.remove(s.len() - 1));
        assert(s.remove(s.len() - 1).to_multiset() == s.to_multiset().remove(s.last()));
        assert(s.contains(s.last()));
        assert(s.to_multiset().count(s.last()) > 0);
        assert(insert_key(s, k).to_multiset() == insert_key(s.drop_last(), k).to_multiset().insert(
            s.last(),
        ));
        assert(insert_key(s, k).to_multiset() =~= s.to_multiset().insert(k));
    } else {
    }
}

pub proof fn lemma_sort_keys_perm(s: Seq<OrdKey>)
    ensures
        sort_keys(s).to_multiset() == s.to_multiset(),
        sort_keys(s).len() == s.len(),
    decreases s.len(),
{
    if s.len() > 0 {
        lemma_sort_keys_perm(s.drop_last());
        lemma_insert_key_perm(sort_keys(s.drop_last()), s.last());
        assert(s =~= s.drop_last().push(s.last()));
        assert(s.drop_last().push(s.last()).to_multiset() == s.drop_last().to_multiset().insert(
            s.last(),
        ));
    }
}

/// Law: the ordinal sort is ascending: no later key is strictly
/// before an earlier one.
pub proof fn lemma_sort_keys_sorted(s: Seq<OrdKey>)
    ensures
        forall|i: int, j: int|
            0 <= i <= j < sort_keys(s).len() ==> !key_before(
                #[trigger] sort_keys(s)[j],
                #[trigger] sort_keys(s)[i],
            ),
    decreases s.len(),
{
    if s.len() > 0 {
        lemma_sort_keys_sorted(s.drop_last());
        lemma_insert_key_sorted(sort_keys(s.drop_last()), s.last());
    }
}

pub proof fn lemma_insert_key_sorted(s: Seq<OrdKey>, k: OrdKey)
    requires
        forall|i: int, j: int|
            0 <= i <= j < s.len() ==> !key_before(#[trigger] s[j], #[trigger] s[i]),
    ensures
        forall|i: int, j: int|
            0 <= i <= j < insert_key(s, k).len() ==> !key_before(
                #[trigger] insert_key(s, k)[j],
                #[trigger] insert_key(s, k)[i],
            ),
    decreases s.len(),
{
    lemma_insert_key_perm(s, k);
    let out = insert_key(s, k);
    if s.len() == 0 {
    } else if key_before(k, s.last()) {
        assert(forall|i: int, j: int|
            0 <= i <= j < s.drop_last().len() ==> !key_before(
                #[trigger] s.drop_last()[j],
                #[trigger] s.drop_last()[i],
            ));
        lemma_insert_key_sorted(s.drop_last(), k);
        let inner = insert_key(s.drop_last(), k);
        lemma_insert_key_elements(s.drop_last(), k);
        assert forall|i: int, j: int|
            0 <= i <= j < out.len() implies !key_before(#[trigger] out[j], #[trigger] out[i]) by {
            if j < out.len() - 1 {
                assert(out[i] == inner[i] && out[j] == inner[j]);
            } else if i < out.len() - 1 {
                assert(out[j] == s.last());
                assert(out[i] == inner[i]);
                // every element of `inner` is `k` or from `s.drop_last()`,
                // and the last of `s` is not strictly before either
                if inner[i] == k {
                    assert(!key_before(s.last(), k));
                } else {
                    let w = choose|w: int|
                        0 <= w < s.drop_last().len() && s.drop_last()[w] == inner[i];
                    assert(s[w] == inner[i]);
                    assert(!key_before(s.last(), s[w]));
                }
            }
        }
    } else {
        assert forall|i: int, j: int|
            0 <= i <= j < out.len() implies !key_before(#[trigger] out[j], #[trigger] out[i]) by {
            if j == out.len() - 1 && i < j {
                assert(out[i] == s[i]);
                assert(!key_before(s.last(), s[i]));
                assert(!key_before(k, s.last()));
            }
        }
    }
}

pub proof fn lemma_insert_key_elements(s: Seq<OrdKey>, k: OrdKey)
    ensures
        forall|i: int|
            0 <= i < insert_key(s, k).len() ==> (#[trigger] insert_key(s, k)[i] == k || s.contains(
                insert_key(s, k)[i],
            )),
    decreases s.len(),
{
    if s.len() == 0 {
    } else if key_before(k, s.last()) {
        lemma_insert_key_elements(s.drop_last(), k);
        let inner = insert_key(s.drop_last(), k);
        lemma_insert_key_perm(s.drop_last(), k);
        assert forall|i: int|
            0 <= i < insert_key(s, k).len() implies (#[trigger] insert_key(s, k)[i] == k
            || s.contains(insert_key(s, k)[i])) by {
            if i < insert_key(s, k).len() - 1 {
                assert(insert_key(s, k)[i] == inner[i]);
                if inner[i] != k {
                    let w = choose|w: int|
                        0 <= w < s.drop_last().len() && s.drop_last()[w] == inner[i];
                    assert(s[w] == inner[i]);
                }
            } else {
                assert(insert_key(s, k)[i] == s.last());
                assert(s.contains(s.last()));
            }
        }
    } else {
        assert forall|i: int|
            0 <= i < insert_key(s, k).len() implies (#[trigger] insert_key(s, k)[i] == k
            || s.contains(insert_key(s, k)[i])) by {
            if i < s.len() {
                assert(insert_key(s, k)[i] == s[i]);
                assert(s.contains(s[i]));
            }
        }
    }
}

/// Insert one key into an already sorted vector, keeping it stable.
fn insert_sorted(v: &mut Vec<OrdKey>, k: OrdKey)
    ensures
        final(v)@ == insert_key(old(v)@, k),
    decreases old(v)@.len(),
{
    if v.len() == 0 {
        v.push(k);
        proof {
            assert(v@ =~= seq![k]);
        }
        return ;
    }
    let last = v[v.len() - 1];
    if k.0 < last.0 || (k.0 == last.0 && k.1 < last.1) {
        let ghost before = v@;
        v.pop();
        proof {
            assert(v@ =~= before.drop_last());
        }
        insert_sorted(v, k);
        v.push(last);
    } else {
        v.push(k);
    }
}

/// A cloud of places, each with an ordinal key parsed from its name.
#[derive(Debug, Clone)]
pub struct Cloud {
    places: Vec<Place>,
}

impl Cloud {
    pub closed spec fn spec_places(self) -> Seq<Place> {
        self.places@
    }

    pub open spec fn nodes(self) -> Seq<Node> {
        place_nodes(self.spec_places())
    }

    pub open spec fn wf(self) -> bool {
        &&& forall|i: int|
            0 <= i < self.spec_places().len() ==> (#[trigger] self.spec_places()[i]).wf()
        &&& unique_ids(self.nodes())
    }

    pub fn new() -> (r: Self)
        ensures
            r.spec_places() == Seq::<Place>::empty(),
            r.wf(),
    {
        Cloud { places: Vec::new() }
    }

    /// The name of the place carrying `id`, if any.
    pub fn get_name(&self, id: &i32) -> (r: Option<String>)
        requires
            self.wf(),
        ensures
            has_id(self.nodes(), *id) ==> (r matches Some(s) && s@ == self.spec_places()[
                index_of_id(self.nodes(), *id)
            ].spec_name()),
            !has_id(self.nodes(), *id) ==> r is None,
    {
        let n = self.places.len();
        for i in 0..n
            invariant
                n == self.spec_places().len(),
                self.wf(),
                forall|k: int| 0 <= k < i ==> (#[trigger] self.spec_places()[k]).spec_id() != *id,
        {
            if self.places[i].id == *id {
                proof {
                    assert(self.nodes()[i as int].0 == *id);
                    assert(has_id(self.nodes(), *id));
                    let j = index_of_id(self.nodes(), *id);
                    assert(0 <= j < self.nodes().len() && self.nodes()[j].0 == *id);
                    assert(j == i as int);
                }
                return Some(self.places[i].name.clone());
            }
        }
        proof {
            if has_id(self.nodes(), *id) {
                let w = choose|w: int| 0 <= w < self.nodes().len() && self.nodes()[w].0 == *id;
                assert(self.spec_places()[w].spec_id() == *id);
            }
        }
        None
    }

    /// Parse and add a place. A malformed name is rejected and the
    /// cloud is unchanged; a place with an existing id replaces it.
    pub fn add(&mut self, id: &i32, name: &String, position: &Position) -> (r: Result<
        (),
        CloudError,
    >)
        requires
            old(self).wf(),
            position.wf(),
        ensures
            final(self).wf(),
            parse_place_name(name@) is None ==> r == Result::<(), CloudError>::Err(
                CloudError::MalformedName,
            ) && final(self).spec_places() == old(self).spec_places(),
            parse_place_name(name@) is Some ==> r is Ok && {
                let p = final(self).spec_places().last();
                &&& final(self).spec_places().len() == (if has_id(old(self).nodes(), *id) {
                    old(self).spec_places().len()
                } else {
                    old(self).spec_places().len() + 1
                })
                &&& (!has_id(old(self).nodes(), *id) ==> final(self).spec_places().drop_last()
                    == old(self).spec_places() && p.spec_id() == *id && p.spec_name() == name@
                    && p.spec_position() == *position && parse_place_name(name@) == Some(
                    (p.spec_cloud(), p.spec_belt()),
                ))
                &&& (has_id(old(self).nodes(), *id) ==> {
                    let j = index_of_id(old(self).nodes(), *id);
                    let q = final(self).spec_places()[j];
                    &&& forall|k: int|
                        0 <= k < old(self).spec_places().len() && k != j
                            ==> final(self).spec_places()[k] == old(self).spec_places()[k]
                    &&& q.spec_id() == *id
                    &&& q.spec_name() == name@
                    &&& q.spec_position() == *position
                    &&& parse_place_name(name@) == Some((q.spec_cloud(), q.spec_belt()))
                })
            },
    {
        let place = match Place::new(id, name, position) {
            Ok(p) => p,
            Err(e) => {
                return Err(e);
            },
        };
        let n = self.places.len();
        for i in 0..n
            invariant
                n == self.spec_places().len(),
                *self == *old(self),
                old(self).wf(),
                place.wf(),
                place.spec_id() == *id,
                place.spec_name() == name@,
                place.spec_position() == *position,
                parse_place_name(name@) == Some((place.spec_cloud(), place.spec_belt())),
                forall|k: int| 0 <= k < i ==> (#[trigger] self.spec_places()[k]).spec_id() != *id,
        {
            if self.places[i].id == *id {
                proof {
                    assert(old(self).nodes()[i as int].0 == *id);
                    assert(has_id(old(self).nodes(), *id));
                    let j = index_of_id(old(self).nodes(), *id);
                    assert(0 <= j < old(self).nodes().len() && old(self).nodes()[j].0 == *id);
                    assert(j == i as int);
                }
                self.places[i] = place;
                proof {
                    let ghost prev = old(self).nodes();
                    assert(unique_ids(self.nodes())) by {
                        assert(forall|k: int|
                            0 <= k < self.nodes().len() ==> (#[trigger] self.nodes()[k]).0
                                == prev[k].0);
                    }
                }
                return Ok(());
            }
        }
        proof {
            assert(!has_id(old(self).nodes(), *id)) by {
                if has_id(old(self).nodes(), *id) {
                    let w = choose|w: int|
                        0 <= w < old(self).nodes().len() && old(self).nodes()[w].0 == *id;
                    assert(old(self).spec_places()[w].spec_id() == *id);
                }
            }
        }
        self.places.push(place);
        proof {
            assert(self.spec_places().drop_last() =~= old(self).spec_places());
            assert(unique_ids(self.nodes())) by {
                assert forall|a: int, b: int| 0 <= a < b < self.nodes().len() implies (
                #[trigger] self.nodes()[a]).0 != (#[trigger] self.nodes()[b]).0 by {
                    if b == self.nodes().len() - 1 {
                        assert(old(self).nodes()[a].0 != *id);
                    } else {
                        assert(old(self).nodes()[a].0 != old(self).nodes()[b].0);
                    }
                }
            }
        }
        Ok(())
    }

    /// The distance between two distinct places, or nothing where one
    /// of the ids is unknown or the two are equal.
    pub fn distance_between(&self, a: &i32, b: &i32) -> (r: Option<u64>)
        requires
            self.wf(),
        ensures
            *a != *b && has_id(self.nodes(), *a) && has_id(self.nodes(), *b) ==> (r matches Some(d)
                && d == dist(pos_of(self.nodes(), *a), pos_of(self.nodes(), *b))),
            !(*a != *b && has_id(self.nodes(), *a) && has_id(self.nodes(), *b)) ==> r is None,
    {
        if *a == *b {
            return None;
        }
        let pa = match self.find_place_pos(a) {
            Some(p) => p,
            None => {
                return None;
            },
        };
        let pb = match self.find_place_pos(b) {
            Some(p) => p,
            None => {
                return None;
            },
        };
        Some(Position::distance(&pa, &pb))
    }

    /// The position of the place carrying `id`, if any.
    fn find_place_pos(&self, id: &i32) -> (r: Option<Position>)
        requires
            self.wf(),
        ensures
            has_id(self.nodes(), *id) ==> (r matches Some(p) && p == pos_of(self.nodes(), *id)
                && p.wf()),
            !has_id(self.nodes(), *id) ==> r is None,
    {
        let n = self.places.len();
        for i in 0..n
            invariant
                n == self.spec_places().len(),
                self.wf(),
                forall|k: int| 0 <= k < i ==> (#[trigger] self.spec_places()[k]).spec_id() != *id,
        {
            if self.places[i].id == *id {
                proof {
                    assert(self.nodes()[i as int].0 == *id);
                    assert(has_id(self.nodes(), *id));
                    let j = index_of_id(self.nodes(), *id);
                    assert(0 <= j < self.nodes().len() && self.nodes()[j].0 == *id);
                    assert(j == i as int);
                    assert(self.spec_places()[i as int].wf());
                }
                return Some(self.places[i].position);
            }
        }
        proof {
            if has_id(self.nodes(), *id) {
                let w = choose|w: int| 0 <= w < self.nodes().len() && self.nodes()[w].0 == *id;
                assert(self.spec_places()[w].spec_id() == *id);
            }
        }
        None
    }

    /// The nodes of all places.
    fn place_node_vec(&self) -> (ns: Vec<Node>)
        ensures
            ns@ == self.nodes(),
    {
        let n = self.places.len();
        let mut ns: Vec<Node> = Vec::new();
        for i in 0..n
            invariant
                n == self.spec_places().len(),
                ns@.len() == i,
                forall|k: int|
                    0 <= k < i ==> #[trigger] ns@[k] == (
                        self.spec_places()[k].spec_id(),
                        self.spec_places()[k].spec_position(),
                    ),
        {
            let id = self.places[i].id;
            let p = self.places[i].position;
            ns.push((id, p));
        }
        proof {
            assert(ns@ =~= self.nodes());
        }
        ns
    }

    /// The ids of all places, sorted ascending by their ordinal keys
    /// (cloud index, then belt number); equal keys keep their
    /// insertion order.
    fn get_ids_sorted_by_name(&self) -> (r: Vec<i32>)
        requires
            self.wf(),
        ensures
            r@ == sorted_ids(self.spec_places()),
            is_reordering(r@, ids_of(self.nodes())),
            forall|k: int| 0 <= k < r@.len() ==> has_id(self.nodes(), #[trigger] r@[k]),
    {
        let n = self.places.len();
        let mut sorted: Vec<OrdKey> = Vec::new();
        for i in 0..n
            invariant
                n == self.spec_places().len(),
                self.wf(),
                sorted@ == sort_keys(keys_of(self.spec_places()).take(i as int)),
        {
            let p = &self.places[i];
            let k: OrdKey = (p.cloud_number, p.belt_number, p.id);
            insert_sorted(&mut sorted, k);
            proof {
                let keys = keys_of(self.spec_places());
                assert(keys.take(i as int + 1).drop_last() =~= keys.take(i as int));
                assert(keys.take(i as int + 1).last() == key_of(self.spec_places()[i as int]));
                assert(k == key_of(self.spec_places()[i as int]));
            }
        }
        proof {
            assert(keys_of(self.spec_places()).take(n as int) =~= keys_of(self.spec_places()));
        }
        let m = sorted.len();
        let mut out: Vec<i32> = Vec::new();
        for i in 0..m
            invariant
                m == sorted@.len(),
                sorted@ == sort_keys(keys_of(self.spec_places())),
                out@.len() == i,
                forall|k: int| 0 <= k < i ==> #[trigger] out@[k] == sorted@[k].2,
        {
            out.push(sorted[i].2);
        }
        proof {
            assert(out@ =~= sorted_ids(self.spec_places()));
            let keys = keys_of(self.spec_places());
            lemma_sort_keys_perm(keys);
            crate::solver::lemma_map_preserves_multiset(
                sort_keys(keys),
                keys,
                |k: OrdKey| k.2,
            );
            assert(keys.map_values(|k: OrdKey| k.2) =~= ids_of(self.nodes()));
            assert(is_reordering(out@, ids_of(self.nodes())));
            lemma_reordering_elements(out@, ids_of(self.nodes()));
            assert forall|k: int| 0 <= k < out@.len() implies has_id(
                self.nodes(),
                #[trigger] out@[k],
            ) by {
                let w = choose|w: int|
                    0 <= w < ids_of(self.nodes()).len() && ids_of(self.nodes())[w] == out@[k];
                assert(self.nodes()[w].0 == out@[k]);
            }
        }
        out
    }

    /// The ordinal route: the places in ascending ordinal-key order,
    /// with the travel length of that path.
    pub fn get_ordinal_route(&self) -> (r: (u128, Vec<i32>))
        requires
            self.wf(),
        ensures
            r.1@ == sorted_ids(self.spec_places()),
            r.0 == path_len(self.nodes(), r.1@),
            is_reordering(r.1@, ids_of(self.nodes())),
    {
        let points = self.get_ids_sorted_by_name();
        let ns = self.place_node_vec();
        let length = path_length(&ns, &points);
        (length, points)
    }

    /// The best stand-alone route over all places: with at most two
    /// places the ordinal order itself; below ten the exact minimum
    /// over every order; from ten up the rotation-sampling walk that
    /// repeatedly advances to the farthest remaining place.
    pub fn get_best_route(&self) -> (r: (u128, Vec<i32>))
        requires
            self.wf(),
        ensures
            r.0 == path_len(self.nodes(), r.1@),
            is_reordering(r.1@, ids_of(self.nodes())),
            self.spec_places().len() <= 2 ==> r.1@ == sorted_ids(self.spec_places()),
            2 < self.spec_places().len() < 10 ==> minimal_path(self.nodes(), r.1@),
            self.spec_places().len() >= 10 ==> r.1@ == path_rotations_order(
                self.nodes(),
                WalkRule::Farthest,
            ),
    {
        let n = self.places.len();
        let points = self.get_ids_sorted_by_name();
        let ns = self.place_node_vec();
        if n == 0 {
            proof {
                assert(points@.to_multiset().len() == points@.len());
                assert(ids_of(self.nodes()).to_multiset().len() == ids_of(self.nodes()).len());
            }
            return (0, points);
        } else if n == 1 {
            proof {
                assert(points@.to_multiset().len() == points@.len());
                assert(ids_of(self.nodes()).to_multiset().len() == ids_of(self.nodes()).len());
                assert(points@.drop_first().len() == 0);
            }
            return (0, points);
        } else if n == 2 {
            let length = path_length(&ns, &points);
            return (length, points);
        } else if n < 10 {
            let (length, order) = best_path(&ns, &points);
            proof {
                assert forall|p: Seq<i32>| is_reordering(p, ids_of(self.nodes())) implies path_len(
                    self.nodes(),
                    order@,
                ) <= path_len(self.nodes(), p) by {
                    assert(is_reordering(p, points@));
                }
            }
            return (length, order);
        } else {
            let (length, order) = best_path_rotation(&ns, WalkRule::Farthest);
            return (length, order);
        }
    }
}

} // verus!
