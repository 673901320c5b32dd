use dungeon_core::decimal::{isize_to_string, u64_to_string};
use dungeon_core::gen_plan::{MonstersPlan, RoomPlan, WorldPlan};
use dungeon_core::seed::Seeder;

#[test]
fn decimal_renders_exact_digits() {
    assert_eq!(u64_to_string(0), "0");
    assert_eq!(u64_to_string(7), "7");
    assert_eq!(u64_to_string(12345), "12345");
    assert_eq!(isize_to_string(-42), "-42");
    assert_eq!(isize_to_string(1000), "1000");
}

#[test]
fn difficulty_matches_the_formula() {
    // q = 3*3 + 4*4 = 25; the least k with k*k*113*150 >= 22720*25 is 6:
    // 6*6*16950 = 610200 >= 568000, while 5*5*16950 = 423750 < 568000.
    assert_eq!(WorldPlan::get_difficulty_multiplier(150, (3, 4)), 6);
    assert_eq!(WorldPlan::get_difficulty_multiplier(150, (0, 0)), 0);
    // Farther out the difficulty grows.
    assert!(
        WorldPlan::get_difficulty_multiplier(150, (20, 20))
            > WorldPlan::get_difficulty_multiplier(150, (3, 4))
    );
}

fn plan_from(seed: &str) -> WorldPlan {
    let seeder = Seeder::try_from_seed(String::from(seed)).unwrap();
    WorldPlan::from_seeder(seeder)
}

#[test]
fn generated_plans_are_byte_identical_across_runs() {
    let a = plan_from("00ff17c4deadbeef0123456789abcdef00ff17c4deadbeef01");
    let b = plan_from("00ff17c4deadbeef0123456789abcdef00ff17c4deadbeef01");
    assert_eq!(a, b);
}

#[test]
fn generated_plan_starts_at_spawn() {
    let plan = plan_from("a3f91c0b77e24d58");
    assert_eq!(plan.spawn_x, 0);
    assert_eq!(plan.spawn_y, 0);
    assert!(!plan.rooms.is_empty());
    assert_eq!(plan.rooms[0].x, 0);
    assert_eq!(plan.rooms[0].y, 0);
    let desc = plan.rooms[0].description.as_ref().unwrap();
    assert!(desc.starts_with("Welcome! This is the spawn room."));
}

#[test]
fn generated_plan_has_distinct_connected_rooms() {
    let plan = plan_from("a3f91c0b77e24d5800112233445566778899aabbccddeeff");
    let n = plan.rooms.len();
    assert!(n >= 2);
    for i in 0..n {
        for j in (i + 1)..n {
            assert!(
                !(plan.rooms[i].x == plan.rooms[j].x && plan.rooms[i].y == plan.rooms[j].y),
                "rooms share coordinates"
            );
        }
    }
    for i in 1..n {
        let mut adjacent_to_earlier = false;
        for j in 0..i {
            let dx = (plan.rooms[i].x - plan.rooms[j].x).abs();
            let dy = (plan.rooms[i].y - plan.rooms[j].y).abs();
            if dx + dy == 1 {
                adjacent_to_earlier = true;
                break;
            }
        }
        assert!(adjacent_to_earlier, "room not attached to the walk");
    }
}

#[test]
fn generated_rooms_follow_the_recipe() {
    let plan = plan_from("a3f91c0b77e24d5800112233445566778899aabbccddeeff");
    assert!(plan.rooms[0].monsters.is_none());
    assert!(plan.rooms[0].hp_regen.is_none());
    for room in plan.rooms.iter().skip(1) {
        let desc = room.description.as_ref().unwrap();
        assert!(desc.starts_with("You are at coordinates ("));
        match room.monsters.as_ref().unwrap() {
            MonstersPlan::Random(n) => assert!(*n >= 1),
            MonstersPlan::Defined(_) => panic!("generated rooms use random populations"),
        }
        if let Some(r) = room.hp_regen {
            assert!(r >= 1);
            assert!(desc.contains("and regenerates"));
        }
    }
}

#[test]
fn normalization_keeps_the_last_blueprint_per_cell() {
    let mk = |x: isize, y: isize, text: &str, regen: Option<u32>| RoomPlan {
        x,
        y,
        description: Some(String::from(text)),
        monsters: None,
        hp_regen: regen,
    };
    let mut plan = WorldPlan::new();
    plan.rooms.push(mk(1, 1, "first", None));
    plan.rooms.push(mk(0, 0, "spawn", None));
    plan.rooms.push(mk(1, 1, "second", Some(3)));
    let normalized = plan.normalized();
    assert_eq!(normalized.rooms.len(), 2);
    let room = normalized
        .rooms
        .iter()
        .find(|r| r.x == 1 && r.y == 1)
        .unwrap();
    assert_eq!(room.description.as_deref(), Some("second"));
    assert_eq!(room.hp_regen, Some(3));
}

#[test]
fn seeded_world_accepts_connections() {
    let plan = plan_from("5e11aa09c2734f68d1b0");
    let mut world = dungeon_core::world::World::generate(&plan);
    let status = world.connect(0).unwrap();
    assert_eq!(status.total_life, 100);
    // Walking through any listed exit lands in an existing room.
    if let Some(d) = status.room.paths.first() {
        world.move_direction(status.guid, *d, 1).unwrap();
    }
}

#[test]
fn bounding_box_getters() {
    let mut plan = WorldPlan::new();
    let mk = |x: isize, y: isize| dungeon_core::gen_plan::RoomPlan {
        x,
        y,
        description: None,
        monsters: None,
        hp_regen: None,
    };
    plan.rooms.push(mk(-2, 1));
    plan.rooms.push(mk(3, -4));
    assert_eq!(plan.get_width(), 6);
    assert_eq!(plan.get_height(), 6);
    assert_eq!(plan.get_x_offset(), 2);
    assert_eq!(plan.get_y_offset(), 4);
}

#[test]
fn empty_plan_bounding_box_covers_the_origin() {
    let plan = WorldPlan::new();
    assert_eq!(plan.get_width(), 1);
    assert_eq!(plan.get_height(), 1);
    assert_eq!(plan.get_x_offset(), 0);
    assert_eq!(plan.get_y_offset(), 0);
}
