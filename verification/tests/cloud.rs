use evetech::{Cloud, CloudError, Place, Position};

#[test]
fn place_parses_six_token_names() {
    let name = String::from("Arifsdald II - Asteroid Belt 1");
    let place = Place::new(&40132822, &name, &Position::new(1, 2, 3)).unwrap();
    assert_eq!(place.cloud_number(), 2);
    assert_eq!(place.belt_number(), 1);
}

#[test]
fn place_reads_the_roman_token() {
    let place = Place::new(&7, &String::from("Sys X - Asteroid Belt 3"), &Position::zero()).unwrap();
    assert_eq!(place.cloud_number(), 10);
    assert_eq!(place.belt_number(), 3);
    let other =
        Place::new(&8, &String::from("Sys XIV - Asteroid Belt 12"), &Position::zero()).unwrap();
    assert_eq!(other.cloud_number(), 14);
    assert_eq!(other.belt_number(), 12);
}

#[test]
fn place_rejects_wrong_token_count() {
    let r = Place::new(&1, &String::from("Arifsdald II - Belt 1"), &Position::zero());
    assert_eq!(r.unwrap_err(), CloudError::MalformedName);
}

#[test]
fn place_rejects_bad_roman_token() {
    let r = Place::new(&1, &String::from("Arifsdald 2q - Asteroid Belt 1"), &Position::zero());
    assert_eq!(r.unwrap_err(), CloudError::MalformedName);
}

#[test]
fn place_rejects_a_non_numeric_belt_token() {
    let r = Place::new(&1, &String::from("Arifsdald II - Asteroid Belt one"), &Position::zero());
    assert_eq!(r.unwrap_err(), CloudError::MalformedName);
}

#[test]
fn place_rejects_an_overlong_roman_token() {
    // a token too long to be a numeral is refused without reading it
    let name = format!("Sys {} - Asteroid Belt 1", "I".repeat(4097));
    let r = Place::new(&1, &name, &Position::zero());
    assert_eq!(r.unwrap_err(), CloudError::MalformedName);
}

#[test]
fn cloud_add_and_get_name() {
    let mut cloud = Cloud::new();
    let name = String::from("Arifsdald I - Asteroid Belt 1");
    cloud.add(&11, &name, &Position::new(1, 0, 0)).unwrap();
    assert_eq!(cloud.get_name(&11), Some(name));
    assert_eq!(cloud.get_name(&99), None);
    let bad = cloud.add(&12, &String::from("just two"), &Position::zero());
    assert_eq!(bad, Err(CloudError::MalformedName));
}

#[test]
fn cloud_distance_between() {
    let mut cloud = Cloud::new();
    cloud.add(&1, &String::from("Sys I - Asteroid Belt 1"), &Position::new(0, 0, 0)).unwrap();
    cloud.add(&2, &String::from("Sys I - Asteroid Belt 2"), &Position::new(3, 4, 0)).unwrap();
    assert_eq!(cloud.distance_between(&1, &2), Some(5));
    assert_eq!(cloud.distance_between(&2, &1), Some(5));
    assert_eq!(cloud.distance_between(&1, &1), None);
    assert_eq!(cloud.distance_between(&1, &9), None);
}

#[test]
fn ordinal_route_sorts_by_cloud_then_belt() {
    let mut cloud = Cloud::new();
    cloud.add(&31, &String::from("Sys III - Asteroid Belt 1"), &Position::new(6, 0, 0)).unwrap();
    cloud.add(&12, &String::from("Sys I - Asteroid Belt 2"), &Position::new(2, 0, 0)).unwrap();
    cloud.add(&11, &String::from("Sys I - Asteroid Belt 1"), &Position::new(0, 0, 0)).unwrap();
    cloud.add(&21, &String::from("Sys II - Asteroid Belt 1"), &Position::new(4, 0, 0)).unwrap();
    let (length, order) = cloud.get_ordinal_route();
    assert_eq!(order, vec![11, 12, 21, 31]);
    assert_eq!(length, 6);
}

#[test]
fn best_route_boundaries() {
    let mut cloud = Cloud::new();
    assert_eq!(cloud.get_best_route(), (0, vec![]));
    cloud.add(&1, &String::from("Sys I - Asteroid Belt 1"), &Position::new(5, 0, 0)).unwrap();
    assert_eq!(cloud.get_best_route(), (0, vec![1]));
    cloud.add(&2, &String::from("Sys I - Asteroid Belt 2"), &Position::new(8, 4, 0)).unwrap();
    assert_eq!(cloud.get_best_route(), (5, vec![1, 2]));
}

#[test]
fn best_route_small_is_exact() {
    let mut cloud = Cloud::new();
    // ordinal order would be 1, 2, 3 but the shortest path is 2, 1, 3 or 3, 1, 2
    cloud.add(&1, &String::from("Sys I - Asteroid Belt 1"), &Position::new(0, 0, 0)).unwrap();
    cloud.add(&2, &String::from("Sys I - Asteroid Belt 2"), &Position::new(-1, 0, 0)).unwrap();
    cloud.add(&3, &String::from("Sys I - Asteroid Belt 3"), &Position::new(10, 0, 0)).unwrap();
    let (length, order) = cloud.get_best_route();
    assert_eq!(length, 11);
    assert_eq!(order, vec![2, 1, 3]);
}

#[test]
fn best_route_large_walks_from_the_farthest() {
    let mut cloud = Cloud::new();
    for i in 1..=12 {
        let name = format!("Sys I - Asteroid Belt {}", i);
        cloud.add(&i, &name, &Position::new(i as i64, 0, 0)).unwrap();
    }
    let (length, order) = cloud.get_best_route();
    // the walk forced to start at 1 repeatedly hops to the farthest
    // remaining belt and is the shortest of the twelve rotations
    assert_eq!(order, vec![1, 12, 2, 11, 3, 10, 4, 9, 5, 8, 6, 7]);
    assert_eq!(length, 66);
}

#[test]
fn name_tokenization_ignores_extra_whitespace() {
    let place = Place::new(
        &5,
        &String::from("  Sys   II \t -  Asteroid  Belt  7  "),
        &Position::zero(),
    )
    .unwrap();
    assert_eq!(place.cloud_number(), 2);
    assert_eq!(place.belt_number(), 7);
}

#[test]
fn belt_numbers_follow_signed_decimal_syntax() {
    let neg = Place::new(&1, &String::from("Sys I - Asteroid Belt -3"), &Position::zero()).unwrap();
    assert_eq!(neg.belt_number(), -3);
    let plus = Place::new(&2, &String::from("Sys I - Asteroid Belt +4"), &Position::zero()).unwrap();
    assert_eq!(plus.belt_number(), 4);
    let min =
        Place::new(&3, &String::from("Sys I - Asteroid Belt -2147483648"), &Position::zero())
            .unwrap();
    assert_eq!(min.belt_number(), i32::MIN);
    // one past the largest value is no number, so the name is malformed
    let over = Place::new(&4, &String::from("Sys I - Asteroid Belt 2147483648"), &Position::zero());
    assert_eq!(over.unwrap_err(), CloudError::MalformedName);
}

#[test]
fn name_tokenization_splits_on_unicode_whitespace() {
    let name = String::from("Sys\u{00A0}III\u{2003}-\u{3000}Asteroid\u{2028}Belt\u{0085}9");
    let place = Place::new(&6, &name, &Position::zero()).unwrap();
    assert_eq!(place.cloud_number(), 3);
    assert_eq!(place.belt_number(), 9);
}

#[test]
fn cloud_add_replaces_an_existing_id() {
    let mut cloud = Cloud::new();
    cloud.add(&1, &String::from("Sys I - Asteroid Belt 1"), &Position::new(0, 0, 0)).unwrap();
    cloud.add(&2, &String::from("Sys I - Asteroid Belt 2"), &Position::new(9, 0, 0)).unwrap();
    let renamed = String::from("Sys II - Asteroid Belt 5");
    cloud.add(&1, &renamed, &Position::new(1, 0, 0)).unwrap();
    assert_eq!(cloud.get_name(&1), Some(renamed));
    assert_eq!(cloud.distance_between(&1, &2), Some(8));
    // the replaced place also moved in the ordinal order
    let (_, order) = cloud.get_ordinal_route();
    assert_eq!(order, vec![2, 1]);
}
