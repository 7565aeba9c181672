use evetech::alliance::Alliance;
use evetech::killmails::Item;
use evetech::market;
use evetech::messages::{Characters, HandleResult, Id, Lost, Who};
use evetech::universe::{
    AsteroidBelt, Category, Constellation, DogmaEffects, Group, Moon, Planet, PlanetarySystem,
    Region, Star, Stargate, StargateDestination,
};
use evetech::{ItemType, Names, Object, Position, SearchResult, Status, Uid};

fn empty_search() -> SearchResult {
    SearchResult {
        agents: None,
        alliances: None,
        characters: None,
        constellations: None,
        corporations: None,
        factions: None,
        inventory_types: None,
        regions: None,
        stations: None,
        systems: None,
    }
}

#[test]
fn object_new_sets_fields() {
    let obj = Object::new(2115657646, "Jovian Researcher");
    assert_eq!(obj.id, 2115657646);
    assert_eq!(obj.name, "Jovian Researcher");
}

#[test]
fn search_result_one() {
    let mut sr = empty_search();
    assert!(sr.one(ItemType::Agents).is_none());
    sr.agents = Some(vec![Object::new(7, "first"), Object::new(8, "second")]);
    let one = sr.one(ItemType::Agents).unwrap();
    assert_eq!(one.id, 7);
    assert_eq!(one.name, "first");
}

#[test]
fn id_and_lost_builders() {
    let id = Id::from(42);
    assert_eq!(id, Id::from(42));
    assert_ne!(id, Id::from(43));
    let lost = Lost::from("system", 30002080, "character", 2114350216);
    assert_eq!(lost.area, "system");
    assert_eq!(lost.aid, 30002080);
    assert_eq!(lost.subject, "character");
    assert_eq!(lost.sid, 2114350216);
}

#[test]
fn message_records_hold_their_values() {
    let who = Who { names: String::from("Seb Odessa") };
    let chars = Characters { names: vec![String::from("Seb Odessa")] };
    assert_eq!(who.names, "Seb Odessa");
    assert_eq!(chars.names.len(), 1);
    assert_ne!(HandleResult::Handled, HandleResult::Close);
}

#[test]
fn catalog_records_hold_their_values() {
    let alliance = Alliance {
        creator_corporation_id: 98241771,
        creator_id: 379226154,
        date_founded: String::from("2013-08-23T05:45:11Z"),
        executor_corporation_id: Some(98688253),
        faction_id: None,
        name: String::from("Fraternity."),
        ticker: String::from("FRT"),
    };
    assert_eq!(alliance.ticker, "FRT");
    let names = Names {
        id: 21918,
        name: String::from("Republic Fleet Phased Plasma L"),
        category: evetech::Category::InventoryType,
    };
    assert_eq!(names.category, evetech::Category::InventoryType);
    let status = Status {
        players: 25000,
        server_version: String::from("2694020"),
        start_time: String::from("2024-08-27T11:02:25Z"),
        vip: None,
    };
    assert!(status.players > 0);
    let uid = Uid::Killmail(120461567, String::from("hash"));
    assert!(matches!(uid, Uid::Killmail(120461567, _)));
    let item = Item {
        flag: 93,
        item_type_id: 31724,
        quantity_destroyed: Some(1),
        quantity_dropped: None,
        singleton: 0,
    };
    assert_eq!(item.item_type_id, 31724);
    let group = market::Group {
        market_group_id: 4,
        name: String::from("Ships"),
        parent_group_id: None,
        description: String::new(),
        types: vec![],
    };
    assert_eq!(group.name, "Ships");
}

#[test]
fn universe_records_hold_their_values() {
    let region = Region {
        region_id: 10000042,
        name: String::from("Metropolis"),
        description: None,
        constellations: vec![20000306],
    };
    assert_eq!(region.name, "Metropolis");
    let constellation = Constellation {
        constellation_id: 20000306,
        name: String::from("Fribrodi"),
        position: Position::new(1, 2, 3),
        region_id: 10000042,
        systems: vec![30002080],
    };
    assert_eq!(constellation.systems, vec![30002080]);
    let star = Star {
        name: String::from("Arifsdald - Star"),
        age: 9106202069,
        spectral_class: String::from("K2 V"),
        temperature: 4567,
        radius: 590000000,
        solar_system_id: 30002080,
        type_id: 45038,
    };
    assert_eq!(star.solar_system_id, 30002080);
    let planet = Planet {
        planet_id: 40132802,
        name: String::from("Arifsdald I"),
        position: Position::new(100, 200, 300),
        system_id: 30002080,
        type_id: 13,
    };
    let moon = Moon {
        moon_id: 40132803,
        name: String::from("Arifsdald I - Moon 1"),
        position: planet.position.clone(),
        system_id: 30002080,
    };
    assert_eq!(moon.position, planet.position);
    let belt = AsteroidBelt {
        name: String::from("Arifsdald II - Asteroid Belt 1"),
        position: Position::new(5, 5, 5),
        system_id: 30002080,
    };
    assert_eq!(belt.system_id, 30002080);
    let gate = Stargate {
        stargate_id: 50011094,
        name: String::from("Stargate (Dudreda)"),
        position: Position::new(9, 9, 9),
        destination: StargateDestination { stargate_id: 50011053, system_id: 30002086 },
        system_id: 30002080,
        type_id: 29624,
    };
    assert_eq!(gate.destination.system_id, 30002086);
    let ps = PlanetarySystem {
        planet_id: 40132802,
        asteroid_belts: Some(vec![40132822]),
        moons: None,
    };
    assert_eq!(ps.asteroid_belts, Some(vec![40132822]));
    let category = Category {
        category_id: 3,
        name: String::from("Station"),
        published: false,
        groups: vec![15],
    };
    let group = Group {
        group_id: 15,
        name: String::from("Station"),
        category_id: 3,
        published: false,
        types: vec![1138],
    };
    assert_eq!(category.groups, vec![group.group_id]);
    let effect = DogmaEffects { effect_id: 4, is_default: false };
    assert!(!effect.is_default);
}
