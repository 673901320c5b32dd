use dungeon_core::data_model::{Direction, EntityType as ViewKind, WorldError};
use dungeon_core::gen_plan::{DefinedMonsterPlan, MonstersPlan, RoomPlan, WorldPlan};
use dungeon_core::world::{EntityType, Room, World};
use dungeon_core::Guid;

fn room_plan(x: isize, y: isize) -> RoomPlan {
    RoomPlan { x, y, description: None, monsters: None, hp_regen: None }
}

fn monster(hp: u32, dp: u32) -> DefinedMonsterPlan {
    DefinedMonsterPlan { description: Some(String::from("A test monster")), dp, hp }
}

fn world_from(rooms: Vec<RoomPlan>) -> World {
    let plan = WorldPlan { rooms, spawn_x: 0, spawn_y: 0 };
    World::generate(&plan)
}

/// The identifier of the entity with the given hit points.
fn guid_with_hp(world: &World, hp: u32) -> Guid {
    for (g, e) in &world.entities {
        if e.hp == hp {
            return *g;
        }
    }
    panic!("no entity with that hp");
}

#[test]
fn materialization_counts_and_locations() {
    let mut rooms = vec![room_plan(0, 0), room_plan(0, 1), room_plan(1, 1)];
    rooms[1].monsters = Some(MonstersPlan::Random(2));
    rooms[2].monsters = Some(MonstersPlan::Defined(vec![monster(40, 5)]));
    let world = world_from(rooms);
    assert_eq!(world.rooms.len(), 3);
    assert_eq!(world.entities.len(), 3);
    // Every entity stands where its room stands and is listed there.
    for (g, e) in &world.entities {
        let room = &world
            .rooms
            .iter()
            .find(|(c, _)| *c == e.location)
            .expect("entity in a missing room")
            .1;
        assert!(room.guids.contains(g));
    }
    // The spawned rooms list exactly their monster counts.
    assert_eq!(world.rooms[0].1.guids.len(), 0);
    assert_eq!(world.rooms[1].1.guids.len(), 2);
    assert_eq!(world.rooms[2].1.guids.len(), 1);
}

#[test]
fn random_monsters_stats_stay_in_range() {
    let mut rooms = vec![room_plan(0, 0)];
    rooms[0].monsters = Some(MonstersPlan::Random(8));
    let world = world_from(rooms);
    assert_eq!(world.entities.len(), 8);
    for (_, e) in &world.entities {
        assert!((30..=150).contains(&e.hp));
        assert_eq!(e.hp, e.max_hp);
        assert!((10..=30).contains(&e.dp));
        assert!(matches!(e.kind, EntityType::Monster(_)));
    }
}

#[test]
fn connect_gives_a_fresh_full_health_player() {
    let mut world = world_from(vec![room_plan(0, 0), room_plan(0, 1)]);
    let status = world.connect(0).unwrap();
    assert_eq!(status.total_life, 100);
    assert!(status.room.entities.contains(&status.guid));
    let player = world.get_entity(status.guid).unwrap();
    assert_eq!(player.hp, 100);
    assert_eq!(player.max_hp, 100);
    assert_eq!(player.dp, 10);
    assert!(matches!(player.kind, EntityType::Player));
}

#[test]
fn connect_fails_without_a_spawn_room() {
    let mut world = World::new();
    assert!(matches!(world.connect(0), Err(WorldError::Wall)));
}

#[test]
fn exits_are_listed_north_south_east_west() {
    let world = world_from(vec![
        room_plan(0, 0),
        room_plan(0, 1),
        room_plan(0, -1),
        room_plan(1, 0),
        room_plan(-1, 0),
    ]);
    let mut world = world;
    let status = world.connect(0).unwrap();
    assert_eq!(
        status.room.paths,
        vec![Direction::N, Direction::S, Direction::E, Direction::W]
    );
}

#[test]
fn move_into_a_wall_changes_nothing_but_activity() {
    let mut world = world_from(vec![room_plan(0, 0)]);
    let status = world.connect(0).unwrap();
    let r = world.move_direction(status.guid, Direction::N, 5);
    assert!(matches!(r, Err(WorldError::Wall)));
    let player = world.get_entity(status.guid).unwrap();
    assert_eq!(player.location, world.spawn);
    assert_eq!(player.afk_since, 5);
    assert!(world.rooms[0].1.guids.contains(&status.guid));
    assert_eq!(world.rooms[0].1.guids.len(), 1);
}

#[test]
fn move_applies_regen_capped_at_max_hp() {
    let mut rooms = vec![room_plan(0, 0), room_plan(0, 1)];
    rooms[1].hp_regen = Some(7);
    let mut world = world_from(rooms);
    let status = world.connect(0).unwrap();
    // Wound the player so the regeneration is visible.
    for pair in &mut world.entities {
        if pair.0 == status.guid {
            pair.1.hp = 50;
        }
    }
    let view = world.move_direction(status.guid, Direction::N, 1).unwrap();
    assert!(view.entities.contains(&status.guid));
    let player = world.get_entity(status.guid).unwrap();
    assert_eq!(player.hp, 57);
    assert_eq!(player.location, world.rooms[1].0);
    assert!(!world.rooms[0].1.guids.contains(&status.guid));
    assert!(world.rooms[1].1.guids.contains(&status.guid));
    // Moving back caps at the maximum: 57 stays 57 in a room without regen.
    let back = world.move_direction(status.guid, Direction::S, 2).unwrap();
    assert!(back.entities.contains(&status.guid));
    assert_eq!(world.get_entity(status.guid).unwrap().hp, 57);
}

#[test]
fn attack_without_death_reports_both_sides() {
    let mut rooms = vec![room_plan(0, 0)];
    rooms[0].monsters = Some(MonstersPlan::Defined(vec![monster(20, 10), monster(15, 12)]));
    let mut world = world_from(rooms);
    let attacker = guid_with_hp(&world, 20);
    let defender = guid_with_hp(&world, 15);
    let fight = world.attack(attacker, defender, 3).unwrap();
    assert_eq!(fight.attacker.hp, 8);
    assert_eq!(fight.attacker.dp, 10);
    assert_eq!(fight.defender.hp, 5);
    assert_eq!(fight.defender.dp, 12);
    assert_eq!(world.get_entity(attacker).unwrap().hp, 8);
    assert_eq!(world.get_entity(defender).unwrap().hp, 5);
}

#[test]
fn attack_where_the_attacker_dies_reports_a_death() {
    let mut rooms = vec![room_plan(0, 0)];
    rooms[0].monsters = Some(MonstersPlan::Defined(vec![monster(5, 10), monster(20, 8)]));
    let mut world = world_from(rooms);
    let attacker = guid_with_hp(&world, 5);
    let defender = guid_with_hp(&world, 20);
    let r = world.attack(attacker, defender, 3);
    assert!(matches!(r, Err(WorldError::Disappeared)));
    // The attacker is gone for good; the defender survives at 10.
    assert!(world.get_entity(attacker).is_err());
    assert!(!world.rooms[0].1.guids.contains(&attacker));
    assert_eq!(world.get_entity(defender).unwrap().hp, 10);
    assert!(world.rooms[0].1.guids.contains(&defender));
}

#[test]
fn attack_removes_a_defender_at_zero() {
    let mut rooms = vec![room_plan(0, 0)];
    rooms[0].monsters = Some(MonstersPlan::Defined(vec![monster(50, 1), monster(1, 1)]));
    let mut world = world_from(rooms);
    let attacker = guid_with_hp(&world, 50);
    let defender = guid_with_hp(&world, 1);
    let fight = world.attack(attacker, defender, 0).unwrap();
    assert_eq!(fight.defender.hp, 0);
    assert!(world.get_entity(defender).is_err());
    assert!(!world.rooms[0].1.guids.contains(&defender));
}

#[test]
fn attack_on_unknown_guids_fails() {
    let mut world = world_from(vec![room_plan(0, 0)]);
    let status = world.connect(0).unwrap();
    let ghost = Guid { serial: 999, tag: 7 };
    assert!(matches!(
        world.attack(ghost, status.guid, 0),
        Err(WorldError::EntityNotFound(g)) if g == ghost
    ));
    assert!(matches!(
        world.attack(status.guid, ghost, 0),
        Err(WorldError::EntityNotFound(g)) if g == ghost
    ));
}

#[test]
fn inspect_between_rooms_is_a_room_mismatch() {
    let mut rooms = vec![room_plan(0, 0), room_plan(3, 3)];
    rooms[1].monsters = Some(MonstersPlan::Defined(vec![monster(40, 5)]));
    let mut world = world_from(rooms);
    let status = world.connect(0).unwrap();
    let far = guid_with_hp(&world, 40);
    assert!(matches!(
        world.look_entity(status.guid, far),
        Err(WorldError::DiffRoom)
    ));
    assert!(matches!(
        world.attack(status.guid, far, 0),
        Err(WorldError::DiffRoom)
    ));
}

#[test]
fn inspect_a_co_located_monster() {
    let mut rooms = vec![room_plan(0, 0)];
    rooms[0].monsters = Some(MonstersPlan::Defined(vec![monster(40, 5)]));
    let mut world = world_from(rooms);
    let status = world.connect(0).unwrap();
    let target = guid_with_hp(&world, 40);
    let view = world.look_entity(status.guid, target).unwrap();
    assert_eq!(view.life, 40);
    assert_eq!(view.total_life, 40);
    assert_eq!(view.description, "A test monster");
    assert!(matches!(view.kind, ViewKind::Monster));
}

#[test]
fn look_shows_the_current_room() {
    let mut rooms = vec![room_plan(0, 0)];
    rooms[0].description = Some(String::from("The entrance hall"));
    let mut world = world_from(rooms);
    let status = world.connect(0).unwrap();
    let view = world.look(status.guid).unwrap();
    assert_eq!(view.description, "The entrance hall");
    assert!(view.entities.contains(&status.guid));
}

#[test]
fn idle_players_are_evicted_and_active_ones_kept() {
    let mut world = world_from(vec![room_plan(0, 0)]);
    let idler = world.connect(0).unwrap();
    let active = world.connect(30).unwrap();
    world.disconnect_afk_players(61).unwrap();
    assert!(world.get_entity(idler.guid).is_err());
    assert!(!world.rooms[0].1.guids.contains(&idler.guid));
    assert!(world.get_entity(active.guid).is_ok());
    assert!(world.rooms[0].1.guids.contains(&active.guid));
}

#[test]
fn even_a_failed_move_counts_as_activity() {
    let mut world = world_from(vec![room_plan(0, 0)]);
    let status = world.connect(0).unwrap();
    // Bumping into a wall at time 30 still refreshes the activity stamp.
    let _ = world.move_direction(status.guid, Direction::N, 30);
    world.disconnect_afk_players(61).unwrap();
    assert!(world.get_entity(status.guid).is_ok());
}

#[test]
fn monsters_are_never_evicted() {
    let mut rooms = vec![room_plan(0, 0)];
    rooms[0].monsters = Some(MonstersPlan::Defined(vec![monster(40, 5)]));
    let mut world = world_from(rooms);
    world.disconnect_afk_players(1_000_000).unwrap();
    assert_eq!(world.entities.len(), 1);
}

#[test]
fn occupant_list_rejects_duplicates_and_reports_absences() {
    let mut room = Room {
        description: String::from("A room"),
        guids: Vec::new(),
        hp_regen: None,
    };
    let g = Guid { serial: 1, tag: 2 };
    assert!(room.add_guid(g).is_ok());
    assert!(matches!(room.add_guid(g), Err(WorldError::Other(_))));
    assert!(room.remove_guid(g).is_ok());
    assert!(matches!(room.remove_guid(g), Err(WorldError::DiffRoom)));
}

#[test]
fn error_texts_carry_their_wire_tags() {
    assert!(WorldError::Wall.to_json_string().contains("MUR"));
    assert!(WorldError::DiffRoom.to_json_string().contains("DIFFSALLE"));
    assert!(WorldError::Disappeared.to_json_string().contains("MORT"));
    assert!(WorldError::Other(String::from("no entry"))
        .to_json_string()
        .contains("no entry"));
}

#[test]
fn not_found_becomes_disappeared_only_for_the_caller() {
    let me = Guid { serial: 4, tag: 4 };
    let other = Guid { serial: 5, tag: 5 };
    let err = WorldError::EntityNotFound(me);
    assert!(matches!(err.check_not_found(me), WorldError::Disappeared));
    assert!(matches!(
        err.check_not_found(other),
        WorldError::EntityNotFound(g) if g == me
    ));
    assert!(matches!(WorldError::Wall.check_not_found(me), WorldError::Wall));
}
