use evetech::chain::{chain, chain_itinerary, chain_length, Cluster};
use evetech::{Position, WayPoint};

fn wp(id: i32, x: i64) -> WayPoint {
    WayPoint::new(id, "wp", &Position::new(x, 0, 0))
}

#[test]
fn two_clusters_hand_the_departure_on() {
    let start = wp(100, 0);
    let clusters = vec![
        Cluster { anchor: wp(201, 1), members: vec![wp(1, 1)] },
        Cluster { anchor: wp(202, 5), members: vec![wp(2, 5)] },
    ];
    let (top, legs) = chain(&start, &clusters);
    assert_eq!(top.order(), &vec![201, 202]);
    assert_eq!(legs.len(), 2);
    // the first leg departs from the start, the second from the first
    // leg's last visited waypoint
    assert_eq!(legs[0].start().id, 100);
    assert_eq!(legs[0].order(), &vec![1]);
    assert_eq!(legs[1].start().id, 1);
    assert_eq!(legs[1].order(), &vec![2]);
    assert_eq!(chain_length(&legs), 5);
    assert_eq!(chain_itinerary(&start, &legs), vec![100, 1, 2]);
}

#[test]
fn empty_cluster_contributes_nothing() {
    let start = wp(100, 0);
    let clusters = vec![
        Cluster { anchor: wp(201, 2), members: vec![] },
        Cluster { anchor: wp(202, 3), members: vec![wp(1, 3)] },
    ];
    let (top, legs) = chain(&start, &clusters);
    assert_eq!(top.order().len(), 2);
    assert_eq!(legs.len(), 1);
    assert_eq!(legs[0].start().id, 100);
    assert_eq!(legs[0].order(), &vec![1]);
    assert_eq!(chain_length(&legs), 3);
    assert_eq!(chain_itinerary(&start, &legs), vec![100, 1]);
}

#[test]
fn clusters_are_visited_in_solved_anchor_order() {
    let start = wp(100, 0);
    // the nearer anchor comes first, whatever the input order
    let clusters = vec![
        Cluster { anchor: wp(202, 9), members: vec![wp(21, 9), wp(22, 10)] },
        Cluster { anchor: wp(201, 2), members: vec![wp(11, 2), wp(12, 3)] },
    ];
    let (top, legs) = chain(&start, &clusters);
    assert_eq!(top.order(), &vec![201, 202]);
    assert_eq!(legs.len(), 2);
    assert_eq!(legs[0].order(), &vec![11, 12]);
    assert_eq!(legs[1].start().id, 12);
    assert_eq!(legs[1].order(), &vec![21, 22]);
    // 0 -> 2 -> 3, then 3 -> 9 -> 10
    assert_eq!(chain_length(&legs), 10);
    assert_eq!(chain_itinerary(&start, &legs), vec![100, 11, 12, 21, 22]);
}
