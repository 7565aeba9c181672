use evetech::{Position, Route, WalkRule, WayPoint};

fn wp(id: i32, x: i64, y: i64, z: i64) -> WayPoint {
    WayPoint::new(id, "wp", &Position::new(x, y, z))
}

fn tour(start: &WayPoint, stops: &[&WayPoint]) -> u128 {
    let mut total: u128 = 0;
    let mut cur = start;
    for s in stops {
        total += cur.distance_to(s) as u128;
        cur = s;
    }
    total
}

#[test]
fn boundary_no_members() {
    let mut route = Route::new(wp(10, 0, 0, 0));
    route.build_best();
    assert_eq!(route.order().len(), 0);
    assert_eq!(route.len(), 0);
    assert_eq!(route.complete(), vec![10]);
}

#[test]
fn boundary_single_member() {
    let mut route = Route::new(wp(10, 0, 0, 0));
    route.add(wp(1, 3, 4, 0));
    route.build_best();
    assert_eq!(route.order(), &vec![1]);
    assert_eq!(route.len(), 5);
    assert_eq!(route.complete(), vec![10, 1]);
}

#[test]
fn exact_two_members_prefers_near_then_far() {
    let mut route = Route::new(wp(10, 0, 0, 0));
    route.add(wp(1, 1, 0, 0));
    route.add(wp(2, 2, 0, 0));
    route.build_best();
    assert_eq!(route.order(), &vec![1, 2]);
    assert_eq!(route.len(), 2);
}

#[test]
fn exact_three_members_beats_every_permutation() {
    let start = wp(10, 0, 0, 0);
    let a = wp(1, 3, 0, 0);
    let b = wp(2, 0, 4, 0);
    let c = wp(3, 0, 0, 5);
    let mut route = Route::new(start.clone());
    route.add(a.clone());
    route.add(b.clone());
    route.add(c.clone());
    route.build_best();
    let best = route.len();
    let perms: [[&WayPoint; 3]; 6] = [
        [&a, &b, &c],
        [&a, &c, &b],
        [&b, &a, &c],
        [&b, &c, &a],
        [&c, &a, &b],
        [&c, &b, &a],
    ];
    let mut min = u128::MAX;
    for p in perms.iter() {
        let l = tour(&start, p);
        assert!(best <= l);
        if l < min {
            min = l;
        }
    }
    assert_eq!(best, min);
}

#[test]
fn greedy_twelve_collinear_is_sorted_and_optimal() {
    let mut route = Route::new(wp(100, 0, 0, 0));
    for i in 1..=12 {
        route.add(wp(i, i as i64, 0, 0));
    }
    route.build_best();
    assert_eq!(route.order(), &(1..=12).collect::<Vec<i32>>());
    assert_eq!(route.len(), 12);
}

#[test]
fn complete_has_one_entry_per_member_plus_start_and_no_duplicates() {
    let mut route = Route::new(wp(100, 0, 0, 0));
    for i in 1..=7 {
        route.add(wp(i, (i * i) as i64, -i as i64, 3));
    }
    route.build_best();
    let complete = route.complete();
    assert_eq!(complete.len(), 8);
    for i in 0..complete.len() {
        for j in (i + 1)..complete.len() {
            assert_ne!(complete[i], complete[j]);
        }
    }
}

#[test]
fn exact_length_is_deterministic_on_resolve() {
    let mut route = Route::new(wp(100, 0, 0, 0));
    for i in 1..=6 {
        route.add(wp(i, (13 * i % 7) as i64, (5 * i % 11) as i64, i as i64));
    }
    route.find_route_bruteforce();
    let first = route.len();
    let first_order = route.order().clone();
    route.find_route_bruteforce();
    assert_eq!(route.len(), first);
    assert_eq!(route.order(), &first_order);
}

#[test]
fn exact_no_longer_than_heuristics() {
    let points: [(i32, i64, i64, i64); 7] = [
        (1, 10, 3, -4),
        (2, -5, 12, 0),
        (3, 7, 7, 7),
        (4, 0, -9, 2),
        (5, 14, 0, 1),
        (6, -2, -2, -2),
        (7, 4, 11, -6),
    ];
    let start = wp(100, 0, 0, 0);
    let mut exact = Route::new(start.clone());
    let mut greedy = Route::new(start.clone());
    let mut rot_far = Route::new(start.clone());
    let mut rot_near = Route::new(start.clone());
    for (id, x, y, z) in points.iter() {
        exact.add(wp(*id, *x, *y, *z));
        greedy.add(wp(*id, *x, *y, *z));
        rot_far.add(wp(*id, *x, *y, *z));
        rot_near.add(wp(*id, *x, *y, *z));
    }
    exact.find_route_bruteforce();
    greedy.find_route_greedy();
    rot_far.find_route_rotations(WalkRule::Farthest);
    rot_near.find_route_rotations(WalkRule::Nearest);
    assert!(exact.len() <= greedy.len());
    assert!(exact.len() <= rot_far.len());
    assert!(exact.len() <= rot_near.len());
}

#[test]
fn add_replaces_on_same_id_and_ignores_start_id() {
    let mut route = Route::new(wp(10, 0, 0, 0));
    route.add(wp(1, 5, 0, 0));
    route.add(wp(2, 9, 0, 0));
    // same id: the waypoint is replaced, the order is unchanged
    route.add(wp(1, 6, 0, 0));
    assert_eq!(route.order(), &vec![1, 2]);
    assert_eq!(route.get(&1).unwrap().position, Position::new(6, 0, 0));
    // the departure id is never added as a member
    route.add(wp(10, 7, 7, 7));
    assert_eq!(route.order(), &vec![1, 2]);
}

#[test]
fn get_finds_start_members_and_nothing_else() {
    let mut route = Route::new(wp(10, 0, 0, 0));
    route.add(wp(1, 5, 0, 0));
    assert_eq!(route.get(&10).unwrap().id, 10);
    assert_eq!(route.get(&1).unwrap().id, 1);
    assert!(route.get(&99).is_none());
}

#[test]
fn set_departue_changes_the_start() {
    let mut route = Route::new(wp(10, 0, 0, 0));
    route.add(wp(1, 2, 0, 0));
    route.set_departue(wp(20, 1, 0, 0));
    assert_eq!(route.start().id, 20);
    route.build_best();
    assert_eq!(route.len(), 1);
}

#[test]
fn rotations_with_farthest_rule_on_line() {
    // forced first stop 1, then always the farthest remaining
    let mut route = Route::new(wp(100, 0, 0, 0));
    for i in 1..=4 {
        route.add(wp(i, i as i64, 0, 0));
    }
    route.find_route_rotations(WalkRule::Farthest);
    // starting at 1: 1, 4, 2, 3 has length 1 + 3 + 2 + 1 = 7;
    // other rotations are longer or equal, the first minimum wins
    assert_eq!(route.order(), &vec![1, 4, 2, 3]);
    assert_eq!(route.len(), 7);
}
