//! Topology plans: the generation-time blueprint of a world — an ordered
//! list of room blueprints plus spawn coordinates — and the seeded
//! procedural generator that builds a connected plan from a sampler.
use vstd::prelude::*;
use vstd::string::*;
use crate::decimal::{dec_int, dec_nat, isize_to_string, u64_to_string};
use crate::seed::{Seeder, u32_at};

verus! {

/// An explicitly defined monster: optional flavor text, damage, hit points.
#[derive(Debug, PartialEq)]
pub struct DefinedMonsterPlan {
    pub description: Option<String>,
    pub dp: u32,
    pub hp: u32,
}

/// A room's monster population: either a count of randomly statted
/// monsters or an explicit list of definitions.
#[derive(Debug, PartialEq)]
pub enum MonstersPlan {
    Defined(Vec<DefinedMonsterPlan>),
    Random(usize),
}

/// One room blueprint: its coordinates, optional description, optional
/// monster population, and optional regeneration amount.
#[derive(Debug, PartialEq)]
pub struct RoomPlan {
    pub x: isize,
    pub y: isize,
    pub description: Option<String>,
    pub monsters: Option<MonstersPlan>,
    pub hp_regen: Option<u32>,
}

/// A topology plan: room blueprints plus the spawn point.
#[derive(Debug, PartialEq)]
pub struct WorldPlan {
    pub rooms: Vec<RoomPlan>,
    pub spawn_x: isize,
    pub spawn_y: isize,
}

/// How many monsters a population specifies.
pub open spec fn monsters_count(mp: MonstersPlan) -> int {
    match mp {
        MonstersPlan::Defined(l) => l@.len() as int,
        MonstersPlan::Random(n) => n as int,
    }
}

/// How many monsters a room blueprint specifies.
pub open spec fn room_monsters(rp: RoomPlan) -> int {
    match rp.monsters {
        Some(mp) => monsters_count(mp),
        None => 0,
    }
}

/// The total number of monsters the first `n` blueprints specify.
pub open spec fn plan_total(rooms: Seq<RoomPlan>, n: int) -> int
    decreases n,
{
    if n <= 0 {
        0
    } else {
        plan_total(rooms, n - 1) + room_monsters(rooms[n - 1])
    }
}

/// The monster total over a longer prefix is never smaller.
pub proof fn lemma_plan_total_mono(rooms: Seq<RoomPlan>, a: int, b: int)
    requires
        0 <= a <= b,
    ensures
        plan_total(rooms, a) <= plan_total(rooms, b),
    decreases b,
{
    if a < b {
        lemma_plan_total_mono(rooms, a, b - 1);
    }
}

/// Every explicitly defined monster has at least one hit point, so that a
/// materialized world never holds an entity at zero.
pub open spec fn plan_rooms_wf(rooms: Seq<RoomPlan>) -> bool {
    forall|i: int|
        0 <= i < rooms.len() ==> match (#[trigger] rooms[i]).monsters {
            Some(MonstersPlan::Defined(l)) => forall|j: int| 0 <= j < l@.len() ==> (#[trigger] l@[j]).hp >= 1,
            _ => true,
        }
}

/// No two blueprints share coordinates.
pub open spec fn plan_coords_distinct(rooms: Seq<RoomPlan>) -> bool {
    forall|i: int, j: int|
        #![trigger rooms[i], rooms[j]]
        0 <= i < j < rooms.len() ==> !(rooms[i].x == rooms[j].x && rooms[i].y == rooms[j].y)
}

/// Two grid cells are cardinal neighbors: they differ by one step along
/// exactly one axis.
pub open spec fn cardinal_adjacent(ax: int, ay: int, bx: int, by: int) -> bool {
    (ax == bx && (by == ay + 1 || by == ay - 1)) || (ay == by && (bx == ax + 1 || bx == ax - 1))
}

/// Every room after the first is cardinally adjacent to an earlier one, so
/// every room is reachable from the first by a chain of adjacent rooms.
pub open spec fn plan_chain_connected(rooms: Seq<RoomPlan>) -> bool {
    forall|i: int|
        1 <= i < rooms.len() ==> exists|j: int|
            0 <= j < i && cardinal_adjacent(
                rooms[j].x as int,
                rooms[j].y as int,
                (#[trigger] rooms[i]).x as int,
                rooms[i].y as int,
            )
}

/// `path` is a walk through existing rooms that starts at the first room
/// (the spawn) and steps only between cardinally adjacent rooms.
pub open spec fn is_chain(rooms: Seq<RoomPlan>, path: Seq<int>) -> bool {
    &&& path.len() >= 1
    &&& path[0] == 0
    &&& (forall|k: int| 0 <= k < path.len() ==> 0 <= #[trigger] path[k] < rooms.len())
    &&& (forall|k: int|
        0 <= k < path.len() - 1 ==> cardinal_adjacent(
            rooms[#[trigger] path[k]].x as int,
            rooms[path[k]].y as int,
            rooms[path[k + 1]].x as int,
            rooms[path[k + 1]].y as int,
        ))
}

/// In a chain-connected plan every room is reachable from the first via a
/// chain of cardinally adjacent existing rooms: the connectivity guarantee
/// of the generator, stated as a law.
pub proof fn lemma_chain_reachable(rooms: Seq<RoomPlan>, i: int)
    requires
        plan_chain_connected(rooms),
        0 <= i < rooms.len(),
    ensures
        exists|path: Seq<int>| #[trigger] is_chain(rooms, path) && path.last() == i,
    decreases i,
{
    if i == 0 {
        let path = seq![0int];
        assert(is_chain(rooms, path) && path.last() == 0);
    } else {
        let j = choose|j: int|
            0 <= j < i && cardinal_adjacent(
                rooms[j].x as int,
                rooms[j].y as int,
                rooms[i].x as int,
                rooms[i].y as int,
            );
        lemma_chain_reachable(rooms, j);
        let p = choose|p: Seq<int>| #[trigger] is_chain(rooms, p) && p.last() == j;
        let path = p.push(i);
        assert(is_chain(rooms, path)) by {
            assert(path[0] == p[0]);
            assert(forall|k: int| 0 <= k < p.len() ==> path[k] == #[trigger] p[k]);
            assert forall|k: int|
                0 <= k < path.len() - 1 implies cardinal_adjacent(
                rooms[#[trigger] path[k]].x as int,
                rooms[path[k]].y as int,
                rooms[path[k + 1]].x as int,
                rooms[path[k + 1]].y as int,
            ) by {
                if k < p.len() - 1 {
                    assert(path[k] == p[k] && path[k + 1] == p[k + 1]);
                } else {
                    assert(path[k] == p.last() && path[k + 1] == i);
                }
            }
        }
        assert(path.last() == i);
    }
}

/// A bound on every room's monster count bounds the plan's total.
pub proof fn lemma_plan_total_bound(rooms: Seq<RoomPlan>, n: int, cap: int)
    requires
        0 <= n <= rooms.len(),
        forall|i: int| 0 <= i < rooms.len() ==> room_monsters(#[trigger] rooms[i]) <= cap,
    ensures
        plan_total(rooms, n) <= n * cap,
    decreases n,
{
    if n > 0 {
        lemma_plan_total_bound(rooms, n - 1, cap);
        assert(room_monsters(rooms[n - 1]) <= cap);
        assert((n - 1) * cap + cap == n * cap) by (nonlinear_arith);
    } else {
        assert(n * cap == 0) by (nonlinear_arith)
            requires
                n == 0,
        {}
    }
}

/// `k` is the difficulty for a room count and a squared distance `q` from
/// spawn: the least integer at or above `8·d/R`, where `d = sqrt(q)` and
/// `R = sqrt(room_count/pi)`, with `pi` approximated by `355/113`. Squaring
/// both sides gives the integer characterization below.
pub open spec fn is_difficulty(room_count: int, q: int, k: int) -> bool {
    &&& k * k * 113 * room_count >= 22720 * q
    &&& (k == 0 || (k - 1) * (k - 1) * 113 * room_count < 22720 * q)
}

/// The difficulty characterization pins down exactly one value: together
/// with the exact sampler and description contracts, every quantity the
/// generator derives is a function of the seed and the call order alone.
pub proof fn lemma_difficulty_unique(room_count: int, q: int, k1: int, k2: int)
    requires
        room_count >= 1,
        q >= 0,
        k1 >= 0,
        k2 >= 0,
        is_difficulty(room_count, q, k1),
        is_difficulty(room_count, q, k2),
    ensures
        k1 == k2,
{
    if k1 < k2 {
        assert((k2 - 1) * (k2 - 1) * 113 * room_count >= k1 * k1 * 113 * room_count)
            by (nonlinear_arith)
            requires
                0 <= k1 <= k2 - 1,
                room_count >= 1,
        {}
    }
    if k2 < k1 {
        assert((k1 - 1) * (k1 - 1) * 113 * room_count >= k2 * k2 * 113 * room_count)
            by (nonlinear_arith)
            requires
                0 <= k2 <= k1 - 1,
                room_count >= 1,
        {}
    }
}

/// What the generator guarantees of every non-spawn room it places, for
/// the drawn target room count: its difficulty `d` is the exact integer
/// characterization at its coordinates, its population is a drawn 1..=3
/// random monsters times `d`, its regeneration is absent or exactly `d`
/// (the coin flip), and its description is composed from the coordinates,
/// the difficulty and the regeneration amount.
pub open spec fn generated_room_ok(rp: RoomPlan, target: int) -> bool {
    exists|d: int|
        {
            &&& #[trigger] is_difficulty(target, rp.x * rp.x + rp.y * rp.y, d)
            &&& d >= 1
            &&& (rp.monsters matches Some(MonstersPlan::Random(n)) && (n == d || n == 2 * d || n
                == 3 * d))
            &&& (rp.hp_regen is None || rp.hp_regen == Some(d as u32))
            &&& (rp.description matches Some(s) && s@ == room_description_text(
                rp.x as int,
                rp.y as int,
                d,
                if rp.hp_regen is None {
                    0
                } else {
                    d
                },
            ))
        }
}

/// The text a generated non-spawn room carries.
pub open spec fn room_description_text(x: int, y: int, d: int, regen: int) -> Seq<char> {
    ("You are at coordinates (")@ + dec_int(x) + (",")@ + dec_int(y) + (
    "). This room has a difficulty of ")@ + dec_nat(d) + (if regen > 0 {
        (" and regenerates ")@ + dec_nat(regen) + (" HP")@
    } else {
        Seq::<char>::empty()
    })
}

/// The text the spawn room carries, naming the number of other rooms.
pub open spec fn spawn_description_text(others: int) -> Seq<char> {
    ("Welcome! This is the spawn room. There are ")@ + dec_nat(others) + (" other ")@ + (if others
        > 1 {
        ("rooms")@
    } else {
        ("room")@
    }) + (" to explore")@
}

/// Composes a generated room's description from its coordinates, its
/// difficulty, and its regeneration amount when there is one.
fn room_description(x: isize, y: isize, d: u32, regen: u32) -> (r: String)
    ensures
        r@ == room_description_text(x as int, y as int, d as int, regen as int),
{
    let mut s = ("You are at coordinates (").to_owned();
    s = s.concat(isize_to_string(x).as_str());
    s = s.concat(",");
    s = s.concat(isize_to_string(y).as_str());
    s = s.concat("). This room has a difficulty of ");
    s = s.concat(u64_to_string(d as u64).as_str());
    if regen > 0 {
        s = s.concat(" and regenerates ");
        s = s.concat(u64_to_string(regen as u64).as_str());
        s = s.concat(" HP");
    }
    proof {
        assert(s@ =~= room_description_text(x as int, y as int, d as int, regen as int));
    }
    s
}

/// Composes the spawn room's description.
fn spawn_description(others: u64) -> (r: String)
    ensures
        r@ == spawn_description_text(others as int),
{
    let mut s = ("Welcome! This is the spawn room. There are ").to_owned();
    s = s.concat(u64_to_string(others).as_str());
    s = s.concat(" other ");
    if others > 1 {
        s = s.concat("rooms");
    } else {
        s = s.concat("room");
    }
    s = s.concat(" to explore");
    proof {
        assert(s@ =~= spawn_description_text(others as int));
    }
    s
}

/// A room built by one placement step of the walk satisfies the
/// generator's per-room recipe: the difficulty at its (non-origin) cell,
/// a population of `cnt` in 1..=3 times that difficulty, regeneration
/// absent or equal to the difficulty, and the composed description.
proof fn lemma_room_recipe(rp: RoomPlan, target: int, d: int, cnt: int)
    requires
        !(rp.x == 0 && rp.y == 0),
        is_difficulty(target, rp.x * rp.x + rp.y * rp.y, d),
        d >= 0,
        1 <= cnt <= 3,
        rp.monsters matches Some(MonstersPlan::Random(n)) && n == cnt * d,
        rp.hp_regen is None ==> (rp.description matches Some(s) && s@ == room_description_text(
            rp.x as int,
            rp.y as int,
            d,
            0,
        )),
        rp.hp_regen is Some ==> rp.hp_regen == Some(d as u32) && (rp.description matches Some(s)
            && s@ == room_description_text(rp.x as int, rp.y as int, d, d)),
    ensures
        generated_room_ok(rp, target),
{
    assert(rp.x * rp.x + rp.y * rp.y >= 1) by (nonlinear_arith)
        requires
            !(rp.x as int == 0 && rp.y as int == 0),
    {}
    assert(d >= 1);
    assert(generated_room_ok(rp, target)) by {
        assert(is_difficulty(target, rp.x * rp.x + rp.y * rp.y, d));
        assert(rp.monsters matches Some(MonstersPlan::Random(m)) && (m == d || m == 2 * d || m
            == 3 * d)) by {
            if cnt == 1 {
            } else if cnt == 2 {
            } else {
                assert(cnt == 3);
            }
        }
    }
}

/// Appending a room that meets the recipe keeps every non-spawn room of
/// the plan meeting it.
proof fn lemma_push_recipe(rs0: Seq<RoomPlan>, rs1: Seq<RoomPlan>, rp: RoomPlan, target: int)
    requires
        rs1 == rs0.push(rp),
        forall|i: int| 1 <= i < rs0.len() ==> generated_room_ok(#[trigger] rs0[i], target),
        generated_room_ok(rp, target),
    ensures
        forall|i: int| 1 <= i < rs1.len() ==> generated_room_ok(#[trigger] rs1[i], target),
{
    assert forall|i: int| 1 <= i < rs1.len() implies generated_room_ok(
        #[trigger] rs1[i],
        target,
    ) by {
        if i < rs0.len() {
            assert(rs1[i] == rs0[i]);
        } else {
            assert(rs1[i] == rp);
        }
    }
}

/// Appending a room on a free cell keeps the plan's coordinates distinct.
proof fn lemma_push_distinct(rs0: Seq<RoomPlan>, rs1: Seq<RoomPlan>, rp: RoomPlan)
    requires
        rs1 == rs0.push(rp),
        plan_coords_distinct(rs0),
        !(exists|i: int|
            0 <= i < rs0.len() && (#[trigger] rs0[i]).x == rp.x && rs0[i].y == rp.y),
    ensures
        plan_coords_distinct(rs1),
{
    let n = rs0.len() as int;
    assert(forall|i: int| 0 <= i < n ==> (#[trigger] rs1[i]) == rs0[i]);
    assert(rs1[n] == rp);
    assert forall|i: int, j: int|
        #![trigger rs1[i], rs1[j]]
        0 <= i < j < rs1.len() implies !(rs1[i].x == rs1[j].x && rs1[i].y == rs1[j].y) by {
        if j < n {
            assert(rs1[i] == rs0[i] && rs1[j] == rs0[j]);
        } else {
            assert(rs1[i] == rs0[i]);
            assert(!(rs0[i].x == rp.x && rs0[i].y == rp.y));
        }
    }
}

/// Appending a room next to an existing one keeps the plan's rooms
/// chain-connected.
proof fn lemma_push_chain(rs0: Seq<RoomPlan>, rs1: Seq<RoomPlan>, base_i: int, rp: RoomPlan)
    requires
        rs1 == rs0.push(rp),
        0 <= base_i < rs0.len(),
        plan_chain_connected(rs0),
        cardinal_adjacent(rs0[base_i].x as int, rs0[base_i].y as int, rp.x as int, rp.y as int),
    ensures
        plan_chain_connected(rs1),
{
    let n = rs0.len() as int;
    assert(forall|i: int| 0 <= i < n ==> (#[trigger] rs1[i]) == rs0[i]);
    assert(rs1[n] == rp);
    assert forall|i: int|
        1 <= i < rs1.len() implies exists|j: int|
        0 <= j < i && cardinal_adjacent(
            rs1[j].x as int,
            rs1[j].y as int,
            (#[trigger] rs1[i]).x as int,
            rs1[i].y as int,
        ) by {
        if i < n {
            let j0 = choose|j: int|
                0 <= j < i && cardinal_adjacent(
                    rs0[j].x as int,
                    rs0[j].y as int,
                    rs0[i].x as int,
                    rs0[i].y as int,
                );
            assert(rs1[j0] == rs0[j0] && rs1[i] == rs0[i]);
            assert(cardinal_adjacent(
                rs1[j0].x as int,
                rs1[j0].y as int,
                rs1[i].x as int,
                rs1[i].y as int,
            ));
        } else {
            assert(rs1[base_i] == rs0[base_i]);
            assert(cardinal_adjacent(
                rs1[base_i].x as int,
                rs1[base_i].y as int,
                rs1[i].x as int,
                rs1[i].y as int,
            ));
        }
    }
}

/// Appending a room also keeps the plan's blueprint well-formedness, the
/// coordinate bound, and the per-room monster cap.
proof fn lemma_push_room_bounds(rs0: Seq<RoomPlan>, rs1: Seq<RoomPlan>, rp: RoomPlan)
    requires
        rs1 == rs0.push(rp),
        plan_rooms_wf(rs0),
        forall|i: int|
            0 <= i < rs0.len() ==> -i <= (#[trigger] rs0[i]).x <= i && -i <= rs0[i].y <= i,
        forall|i: int| 0 <= i < rs0.len() ==> room_monsters(#[trigger] rs0[i]) <= 10000000,
        -(rs0.len() as int) <= rp.x <= rs0.len() as int,
        -(rs0.len() as int) <= rp.y <= rs0.len() as int,
        room_monsters(rp) <= 10000000,
        match rp.monsters {
            Some(MonstersPlan::Defined(l)) => forall|j: int|
                0 <= j < l@.len() ==> (#[trigger] l@[j]).hp >= 1,
            _ => true,
        },
    ensures
        plan_rooms_wf(rs1),
        forall|i: int|
            0 <= i < rs1.len() ==> -i <= (#[trigger] rs1[i]).x <= i && -i <= rs1[i].y <= i,
        forall|i: int| 0 <= i < rs1.len() ==> room_monsters(#[trigger] rs1[i]) <= 10000000,
{
    let n = rs0.len() as int;
    assert(forall|i: int| 0 <= i < n ==> (#[trigger] rs1[i]) == rs0[i]);
    assert(rs1[n] == rp);
    assert(plan_rooms_wf(rs1)) by {
        assert forall|i: int|
            0 <= i < rs1.len() implies match (#[trigger] rs1[i]).monsters {
            Some(MonstersPlan::Defined(l)) => forall|j2: int|
                0 <= j2 < l@.len() ==> (#[trigger] l@[j2]).hp >= 1,
            _ => true,
        } by {
            if i < n {
                assert(rs1[i] == rs0[i]);
            }
        }
    }
    assert forall|i: int|
        0 <= i < rs1.len() implies -i <= (#[trigger] rs1[i]).x <= i && -i <= rs1[i].y <= i by {
        if i < n {
            assert(rs1[i] == rs0[i]);
        }
    }
    assert forall|i: int|
        0 <= i < rs1.len() implies room_monsters(#[trigger] rs1[i]) <= 10000000 by {
        if i < n {
            assert(rs1[i] == rs0[i]);
        }
    }
}

/// `rp` appears among the first `k` blueprints of `orig` and no later one
/// of those `k` shares its coordinates.
pub open spec fn is_last_before(orig: Seq<RoomPlan>, k: int, rp: RoomPlan) -> bool {
    exists|j: int|
        0 <= j < k && (#[trigger] orig[j]) == rp && (forall|j2: int|
            j < j2 < k ==> !((#[trigger] orig[j2]).x == rp.x && orig[j2].y == rp.y))
}

/// `rp` is the last blueprint of `orig` at its cell: it appears in `orig`
/// and no later blueprint shares its coordinates.
pub open spec fn is_last_blueprint(orig: Seq<RoomPlan>, rp: RoomPlan) -> bool {
    is_last_before(orig, orig.len() as int, rp)
}

/// The index of a blueprint at `(x, y)`, if any.
fn find_coords(rooms: &Vec<RoomPlan>, x: isize, y: isize) -> (r: Option<usize>)
    ensures
        match r {
            Some(i) => i < rooms@.len() && rooms@[i as int].x == x && rooms@[i as int].y == y,
            None => forall|i: int|
                0 <= i < rooms@.len() ==> !((#[trigger] rooms@[i]).x == x && rooms@[i].y == y),
        },
{
    let mut i: usize = 0;
    while i < rooms.len()
        invariant
            i <= rooms@.len(),
            forall|j: int| 0 <= j < i ==> !((#[trigger] rooms@[j]).x == x && rooms@[j].y == y),
        decreases rooms@.len() - i,
    {
        if rooms[i].x == x && rooms[i].y == y {
            return Some(i);
        }
        i = i + 1;
    }
    None
}

/// True when some blueprint already occupies `(x, y)`.
fn contains_coords(rooms: &Vec<RoomPlan>, x: isize, y: isize) -> (r: bool)
    ensures
        r == exists|i: int|
            0 <= i < rooms@.len() && (#[trigger] rooms@[i]).x == x && rooms@[i].y == y,
{
    let mut i: usize = 0;
    while i < rooms.len()
        invariant
            i <= rooms@.len(),
            forall|j: int| 0 <= j < i ==> !((#[trigger] rooms@[j]).x == x && rooms@[j].y == y),
        decreases rooms@.len() - i,
    {
        if rooms[i].x == x && rooms[i].y == y {
            return true;
        }
        i = i + 1;
    }
    false
}

impl WorldPlan {
    /// Applies the last-write-wins rule for duplicated coordinates: keeps,
    /// for each occupied cell, exactly the last blueprint that names it.
    /// The result has pairwise distinct coordinates and so meets the
    /// materializer's requirement; no cell of the input is lost.
    #[verifier::rlimit(100)]
    pub fn normalized(self) -> (r: WorldPlan)
        ensures
            plan_coords_distinct(r.rooms@),
            r.spawn_x == self.spawn_x,
            r.spawn_y == self.spawn_y,
            forall|i: int|
                0 <= i < r.rooms@.len() ==> is_last_blueprint(
                    self.rooms@,
                    #[trigger] r.rooms@[i],
                ),
            forall|j: int|
                0 <= j < self.rooms@.len() ==> exists|i: int|
                    0 <= i < r.rooms@.len() && (#[trigger] self.rooms@[j]).x == r.rooms@[i].x
                        && self.rooms@[j].y == r.rooms@[i].y,
            plan_rooms_wf(self.rooms@) ==> plan_rooms_wf(r.rooms@),
    {
        let ghost orig = self.rooms@;
        let spawn_x = self.spawn_x;
        let spawn_y = self.spawn_y;
        let mut rooms = self.rooms;
        let mut kept: Vec<RoomPlan> = Vec::new();
        while rooms.len() > 0
            invariant
                rooms@ == orig.subrange(orig.len() - rooms@.len(), orig.len() as int),
                rooms@.len() <= orig.len(),
                plan_coords_distinct(kept@),
                forall|i: int|
                    0 <= i < kept@.len() ==> is_last_before(
                        orig,
                        orig.len() - rooms@.len(),
                        #[trigger] kept@[i],
                    ),
                forall|j: int|
                    0 <= j < orig.len() - rooms@.len() ==> exists|i: int|
                        0 <= i < kept@.len() && (#[trigger] orig[j]).x == kept@[i].x && orig[j].y
                            == kept@[i].y,
            decreases rooms@.len(),
        {
            let ghost k = orig.len() - rooms@.len();
            proof {
                assert(rooms@[0] == orig[k]);
            }
            let rp = rooms.remove(0);
            proof {
                assert(rooms@ =~= orig.subrange(orig.len() - rooms@.len(), orig.len() as int));
            }
            let ghost kept0 = kept@;
            let replaced = find_coords(&kept, rp.x, rp.y);
            let ghost removed_i: int = match replaced {
                Some(i) => i as int,
                None => kept0.len() as int,
            };
            match replaced {
                Some(i) => {
                    kept.remove(i);
                },
                None => {},
            }
            let ghost kept1 = kept@;
            kept.push(rp);
            proof {
                let kept2 = kept@;
                // Survivors are exactly the old entries at other indices,
                // in order; the new last element is the fresh blueprint.
                assert(forall|m: int|
                    0 <= m < kept1.len() ==> (#[trigger] kept1[m]) == (if m < removed_i {
                        kept0[m]
                    } else {
                        kept0[m + 1]
                    }));
                assert(forall|m: int| 0 <= m < kept1.len() ==> (#[trigger] kept2[m]) == kept1[m]);
                assert(kept2.last() == orig[k]);
                // No surviving entry shares the new blueprint's cell.
                assert forall|m: int| 0 <= m < kept1.len() implies !((#[trigger] kept1[m]).x
                    == orig[k].x && kept1[m].y == orig[k].y) by {
                    if replaced is Some {
                        let m0 = if m < removed_i {
                            m
                        } else {
                            m + 1
                        };
                        assert(kept1[m] == kept0[m0]);
                        assert(kept0[removed_i].x == orig[k].x && kept0[removed_i].y == orig[
                            k
                        ].y);
                    }
                }
                assert(plan_coords_distinct(kept2)) by {
                    assert forall|a: int, b: int|
                        #![trigger kept2[a], kept2[b]]
                        0 <= a < b < kept2.len() implies !(kept2[a].x == kept2[b].x && kept2[a].y
                        == kept2[b].y) by {
                        if b < kept1.len() {
                            let a0 = if a < removed_i {
                                a
                            } else {
                                a + 1
                            };
                            let b0 = if b < removed_i {
                                b
                            } else {
                                b + 1
                            };
                            assert(kept2[a] == kept0[a0] && kept2[b] == kept0[b0]);
                        } else {
                            assert(kept2[b] == orig[k]);
                            assert(kept2[a] == kept1[a]);
                        }
                    }
                }
                assert forall|i: int|
                    0 <= i < kept2.len() implies is_last_before(
                    orig,
                    k + 1,
                    #[trigger] kept2[i],
                ) by {
                    if i < kept1.len() {
                        assert(is_last_before(orig, k, kept1[i]));
                        let j = choose|j: int|
                            0 <= j < k && (#[trigger] orig[j]) == kept1[i] && (forall|j2: int|
                                j < j2 < k ==> !((#[trigger] orig[j2]).x == kept1[i].x
                                    && orig[j2].y == kept1[i].y));
                        assert(!(orig[k].x == kept1[i].x && orig[k].y == kept1[i].y));
                        assert(0 <= j < k + 1 && orig[j] == kept2[i] && (forall|j2: int|
                            j < j2 < k + 1 ==> !((#[trigger] orig[j2]).x == kept2[i].x
                                && orig[j2].y == kept2[i].y)));
                    } else {
                        assert(kept2[i] == orig[k]);
                        assert(0 <= k < k + 1 && orig[k] == kept2[i] && (forall|j2: int|
                            k < j2 < k + 1 ==> !((#[trigger] orig[j2]).x == kept2[i].x
                                && orig[j2].y == kept2[i].y)));
                    }
                }
                assert forall|j: int| 0 <= j < k + 1 implies exists|i: int|
                    0 <= i < kept2.len() && (#[trigger] orig[j]).x == kept2[i].x && orig[j].y
                        == kept2[i].y by {
                    if j < k {
                        let i0 = choose|i: int|
                            0 <= i < kept0.len() && (#[trigger] orig[j]).x == kept0[i].x
                                && orig[j].y == kept0[i].y;
                        if replaced is Some && i0 == removed_i {
                            assert(orig[j].x == kept2[kept2.len() - 1].x && orig[j].y == kept2[
                                kept2.len() - 1
                            ].y);
                        } else {
                            let i1 = if i0 < removed_i {
                                i0
                            } else {
                                i0 - 1
                            };
                            assert(kept2[i1] == kept0[i0]);
                        }
                    } else {
                        assert(orig[j].x == kept2[kept2.len() - 1].x && orig[j].y == kept2[
                            kept2.len() - 1
                        ].y);
                    }
                }
            }
        }
        proof {
            assert(orig.subrange(orig.len() as int, orig.len() as int).len() == 0);
            assert forall|i: int|
                0 <= i < kept@.len() && plan_rooms_wf(orig) implies match (
            #[trigger] kept@[i]).monsters {
                Some(MonstersPlan::Defined(l)) => forall|j2: int|
                    0 <= j2 < l@.len() ==> (#[trigger] l@[j2]).hp >= 1,
                _ => true,
            } by {
                assert(is_last_before(orig, orig.len() as int, kept@[i]));
                let j = choose|j: int|
                    0 <= j < orig.len() && (#[trigger] orig[j]) == kept@[i] && (forall|j2: int|
                        j < j2 < orig.len() ==> !((#[trigger] orig[j2]).x == kept@[i].x
                            && orig[j2].y == kept@[i].y));
                assert(orig[j] == kept@[i]);
            }
        }
        WorldPlan { rooms: kept, spawn_x, spawn_y }
    }

    /// An empty plan with spawn at the origin.
    pub fn new() -> (r: WorldPlan)
        ensures
            r.rooms@.len() == 0,
            r.spawn_x == 0,
            r.spawn_y == 0,
    {
        WorldPlan { rooms: Vec::new(), spawn_x: 0, spawn_y: 0 }
    }

    /// The smallest x coordinate among the first `n` blueprints and 0.
    pub open spec fn min_x(rooms: Seq<RoomPlan>, n: int) -> int
        decreases n,
    {
        if n <= 0 {
            0
        } else {
            let m = Self::min_x(rooms, n - 1);
            if rooms[n - 1].x < m {
                rooms[n - 1].x as int
            } else {
                m
            }
        }
    }

    /// The largest x coordinate among the first `n` blueprints and 0.
    pub open spec fn max_x(rooms: Seq<RoomPlan>, n: int) -> int
        decreases n,
    {
        if n <= 0 {
            0
        } else {
            let m = Self::max_x(rooms, n - 1);
            if rooms[n - 1].x > m {
                rooms[n - 1].x as int
            } else {
                m
            }
        }
    }

    /// The smallest y coordinate among the first `n` blueprints and 0.
    pub open spec fn min_y(rooms: Seq<RoomPlan>, n: int) -> int
        decreases n,
    {
        if n <= 0 {
            0
        } else {
            let m = Self::min_y(rooms, n - 1);
            if rooms[n - 1].y < m {
                rooms[n - 1].y as int
            } else {
                m
            }
        }
    }

    /// The largest y coordinate among the first `n` blueprints and 0.
    pub open spec fn max_y(rooms: Seq<RoomPlan>, n: int) -> int
        decreases n,
    {
        if n <= 0 {
            0
        } else {
            let m = Self::max_y(rooms, n - 1);
            if rooms[n - 1].y > m {
                rooms[n - 1].y as int
            } else {
                m
            }
        }
    }

    /// The difficulty of a candidate room: grows with its distance from
    /// spawn relative to the expected map radius for `room_count` rooms,
    /// reaching roughly 8 at the edge. Computed exactly in integers as the
    /// least `k` whose square clears the scaled squared distance.
    pub fn get_difficulty_multiplier(room_count: u32, coords: (isize, isize)) -> (r: u32)
        requires
            1 <= room_count,
            -100000 <= coords.0 <= 100000,
            -100000 <= coords.1 <= 100000,
        ensures
            is_difficulty(
                room_count as int,
                coords.0 * coords.0 + coords.1 * coords.1,
                r as int,
            ),
            r <= 3000000,
    {
        let x = coords.0 as i128;
        let y = coords.1 as i128;
        proof {
            assert(0 <= x * x <= 10000000000) by (nonlinear_arith)
                requires
                    -100000 <= x <= 100000,
            {}
            assert(0 <= y * y <= 10000000000) by (nonlinear_arith)
                requires
                    -100000 <= y <= 100000,
            {}
        }
        let q: u128 = (x * x + y * y) as u128;
        let num: u128 = 22720 * q;
        let den: u128 = 113 * (room_count as u128);
        let mut k: u128 = 0;
        let mut stop = false;
        while !stop
            invariant
                den == 113 * room_count,
                num == 22720 * q,
                q <= 20000000000,
                113 <= den <= 113 * 4294967295,
                k <= 3000000,
                k == 0 || (k - 1) * (k - 1) * den < num,
                stop ==> k * k * den >= num,
            decreases 3000001 - k, (if stop {
                0int
            } else {
                1int
            }),
        {
            proof {
                assert(0 <= k * k <= 9000000000000) by (nonlinear_arith)
                    requires
                        0 <= k <= 3000000,
                {}
                assert(k * k * den <= 9000000000000 * (113 * 4294967295)) by (nonlinear_arith)
                    requires
                        0 <= k * k <= 9000000000000,
                        0 <= den <= 113 * 4294967295,
                {}
            }
            let kk = k * k;
            let lhs = kk * den;
            if lhs < num {
                proof {
                    assert(k < 3000000) by (nonlinear_arith)
                        requires
                            k * k * den < num,
                            num <= 22720 * 20000000000,
                            den >= 113,
                            k <= 3000000,
                    {}
                }
                k = k + 1;
            } else {
                stop = true;
            }
        }
        proof {
            assert(k * k * den == k * k * 113 * (room_count as int)) by (nonlinear_arith)
                requires
                    den == 113 * room_count,
            {}
            if k > 0 {
                assert((k - 1) * (k - 1) * den == (k - 1) * (k - 1) * 113 * (room_count as int))
                    by (nonlinear_arith)
                    requires
                        den == 113 * room_count,
                {}
            }
        }
        k as u32
    }

    /// Generates a topology plan from a sampler by a random walk: a target
    /// room count is drawn from [150, 1000], the spawn room seeds the map
    /// at the origin, and each step picks an already placed room and a
    /// direction at random, placing a new room one step away when that cell
    /// is free and retrying a few times otherwise. The walk stops at the
    /// target count or after a fixed multiple of it in attempts, so under
    /// heavy collisions the plan may stay below the target. Every room is
    /// placed next to an existing one, which makes the plan connected, and
    /// occupied cells are never reused, which keeps coordinates distinct.
    #[verifier::rlimit(100)]
    pub fn from_seeder(seeder: Seeder) -> (r: WorldPlan)
        requires
            seeder.wf(),
        ensures
            r.spawn_x == 0,
            r.spawn_y == 0,
            1 <= r.rooms@.len() <= 1000,
            r.rooms@[0].x == 0 && r.rooms@[0].y == 0,
            plan_coords_distinct(r.rooms@),
            plan_chain_connected(r.rooms@),
            plan_rooms_wf(r.rooms@),
            plan_total(r.rooms@, r.rooms@.len() as int) <= 10000000000,
            r.rooms@.len() <= 150 + u32_at(seeder.bytes(), seeder.cur()) % 851,
            forall|i: int|
                1 <= i < r.rooms@.len() ==> generated_room_ok(
                    #[trigger] r.rooms@[i],
                    150 + u32_at(seeder.bytes(), seeder.cur()) % 851,
                ),
            r.rooms@[0].monsters is None,
            r.rooms@[0].hp_regen is None,
            (r.rooms@[0].description matches Some(s) && s@ == spawn_description_text(
                r.rooms@.len() - 1,
            )),
    {
        let mut sampler = seeder;
        let target = sampler.seed_u32_bounded(150, 1000);
        proof {
            assert(target == 150 + u32_at(seeder.bytes(), seeder.cur()) % 851);
        }
        let mut rooms: Vec<RoomPlan> = Vec::new();
        rooms.push(RoomPlan { x: 0, y: 0, description: None, monsters: None, hp_regen: None });
        let max_iter = 4 * target;
        let mut iter: u32 = 0;
        while iter < max_iter
            invariant
                sampler.wf(),
                150 <= target <= 1000,
                target == 150 + u32_at(seeder.bytes(), seeder.cur()) % 851,
                iter <= max_iter == 4 * target,
                1 <= rooms@.len() <= target,
                rooms@[0].x == 0 && rooms@[0].y == 0,
                rooms@[0].monsters is None,
                rooms@[0].hp_regen is None,
                plan_coords_distinct(rooms@),
                plan_chain_connected(rooms@),
                plan_rooms_wf(rooms@),
                forall|i: int|
                    1 <= i < rooms@.len() ==> generated_room_ok(
                        #[trigger] rooms@[i],
                        target as int,
                    ),
                forall|i: int|
                    0 <= i < rooms@.len() ==> -i <= (#[trigger] rooms@[i]).x <= i && -i
                        <= rooms@[i].y <= i,
                forall|i: int|
                    0 <= i < rooms@.len() ==> room_monsters(#[trigger] rooms@[i]) <= 10000000,
            decreases max_iter - iter,
        {
            if rooms.len() >= target as usize {
                break;
            }
            let base_i = sampler.seed_u32_bounded(0, (rooms.len() - 1) as u32) as usize;
            let bx = rooms[base_i].x;
            let by = rooms[base_i].y;
            proof {
                assert(-1000 <= bx <= 1000 && -1000 <= by <= 1000);
            }
            let mut tries: u32 = 0;
            while tries < 4
                invariant
                    sampler.wf(),
                    150 <= target <= 1000,
                    tries <= 4,
                    1 <= rooms@.len() <= target,
                    rooms@[0].x == 0 && rooms@[0].y == 0,
                    rooms@[0].monsters is None,
                    rooms@[0].hp_regen is None,
                    plan_coords_distinct(rooms@),
                    plan_chain_connected(rooms@),
                    plan_rooms_wf(rooms@),
                    forall|i: int|
                        1 <= i < rooms@.len() ==> generated_room_ok(
                            #[trigger] rooms@[i],
                            target as int,
                        ),
                    base_i < rooms@.len(),
                    bx == rooms@[base_i as int].x,
                    by == rooms@[base_i as int].y,
                    -999 <= bx <= 999 || rooms@.len() == target,
                    forall|i: int|
                        0 <= i < rooms@.len() ==> -i <= (#[trigger] rooms@[i]).x <= i && -i
                            <= rooms@[i].y <= i,
                    forall|i: int|
                        0 <= i < rooms@.len() ==> room_monsters(#[trigger] rooms@[i]) <= 10000000,
                decreases 4 - tries,
            {
                if rooms.len() >= target as usize {
                    break;
                }
                proof {
                    assert(base_i as int <= rooms@.len() - 1 < target - 1);
                    assert(-999 <= bx <= 999 && -999 <= by <= 999);
                }
                let dir = sampler.seed_u32_bounded(0, 3);
                let cx: isize = if dir == 2 {
                    bx - 1
                } else if dir == 3 {
                    bx + 1
                } else {
                    bx
                };
                let cy: isize = if dir == 0 {
                    by + 1
                } else if dir == 1 {
                    by - 1
                } else {
                    by
                };
                proof {
                    assert(cardinal_adjacent(bx as int, by as int, cx as int, cy as int));
                }
                if !contains_coords(&rooms, cx, cy) {
                    let d = Self::get_difficulty_multiplier(target, (cx, cy));
                    proof {
                        assert(d <= 2000) by (nonlinear_arith)
                            requires
                                is_difficulty(
                                    target as int,
                                    cx as int * cx as int + cy as int * cy as int,
                                    d as int,
                                ),
                                150 <= target,
                                -1000 <= cx as int <= 1000,
                                -1000 <= cy as int <= 1000,
                                0 <= d,
                        {
                            assert(is_difficulty(
                                target as int,
                                cx as int * cx as int + cy as int * cy as int,
                                d as int,
                            ));
                        }
                    }
                    let flip = sampler.seed_u32_bounded(0, 1);
                    let regen: u32 = if flip == 1 {
                        d
                    } else {
                        0
                    };
                    let cnt = sampler.seed_u32_bounded(1, 3);
                    proof {
                        assert(cnt * d <= 6000) by (nonlinear_arith)
                            requires
                                1 <= cnt <= 3,
                                0 <= d <= 2000,
                        {}
                    }
                    let mc = (cnt * d) as usize;
                    let desc = room_description(cx, cy, d, regen);
                    let ghost rs0 = rooms@;
                    rooms.push(
                        RoomPlan {
                            x: cx,
                            y: cy,
                            description: Some(desc),
                            monsters: Some(MonstersPlan::Random(mc)),
                            hp_regen: if regen > 0 {
                                Some(regen)
                            } else {
                                None
                            },
                        },
                    );
                    proof {
                        let rs1 = rooms@;
                        let rp = rs1[rs0.len() as int];
                        assert(room_monsters(rp) == mc as int);
                        assert(!(cx == 0 && cy == 0)) by {
                            if cx == 0 && cy == 0 {
                                assert(rs0[0].x == cx && rs0[0].y == cy);
                            }
                        }
                        lemma_room_recipe(rp, target as int, d as int, cnt as int);
                        lemma_push_recipe(rs0, rs1, rp, target as int);
                        lemma_push_distinct(rs0, rs1, rp);
                        lemma_push_chain(rs0, rs1, base_i as int, rp);
                        lemma_push_room_bounds(rs0, rs1, rp);
                    }
                    tries = 4;
                } else {
                    tries = tries + 1;
                }
            }
            iter = iter + 1;
        }
        let others = rooms.len() - 1;
        let spawn_desc = spawn_description(others as u64);
        let ghost rs0 = rooms@;
        rooms[0].description = Some(spawn_desc);
        proof {
            let rs1 = rooms@;
            assert(rs1 == rs0.update(0, rs1[0]));
            assert(rs1[0].x == rs0[0].x && rs1[0].y == rs0[0].y && rs1[0].monsters == rs0[
                0
            ].monsters);
            assert(forall|i: int| 1 <= i < rs1.len() ==> (#[trigger] rs1[i]) == rs0[i]);
            assert(plan_coords_distinct(rs1)) by {
                assert forall|i: int, j: int|
                    #![trigger rs1[i], rs1[j]]
                    0 <= i < j < rs1.len() implies !(rs1[i].x == rs1[j].x && rs1[i].y
                    == rs1[j].y) by {
                    assert(rs1[i].x == rs0[i].x && rs1[i].y == rs0[i].y);
                    assert(rs1[j].x == rs0[j].x && rs1[j].y == rs0[j].y);
                }
            }
            assert(plan_chain_connected(rs1)) by {
                assert forall|i: int|
                    1 <= i < rs1.len() implies exists|j: int|
                    0 <= j < i && cardinal_adjacent(
                        rs1[j].x as int,
                        rs1[j].y as int,
                        (#[trigger] rs1[i]).x as int,
                        rs1[i].y as int,
                    ) by {
                    let j0 = choose|j: int|
                        0 <= j < i && cardinal_adjacent(
                            rs0[j].x as int,
                            rs0[j].y as int,
                            rs0[i].x as int,
                            rs0[i].y as int,
                        );
                    assert(rs1[j0].x == rs0[j0].x && rs1[j0].y == rs0[j0].y);
                    assert(rs1[i].x == rs0[i].x && rs1[i].y == rs0[i].y);
                    assert(cardinal_adjacent(
                        rs1[j0].x as int,
                        rs1[j0].y as int,
                        rs1[i].x as int,
                        rs1[i].y as int,
                    ));
                }
            }
            assert(plan_rooms_wf(rs1)) by {
                assert forall|i: int|
                    0 <= i < rs1.len() implies match (#[trigger] rs1[i]).monsters {
                    Some(MonstersPlan::Defined(l)) => forall|j2: int|
                        0 <= j2 < l@.len() ==> (#[trigger] l@[j2]).hp >= 1,
                    _ => true,
                } by {
                    assert(rs1[i].monsters == rs0[i].monsters);
                }
            }
            assert forall|i: int|
                0 <= i < rs1.len() implies room_monsters(#[trigger] rs1[i]) <= 10000000 by {
                assert(rs1[i].monsters == rs0[i].monsters);
                assert(room_monsters(rs0[i]) <= 10000000);
            }
            lemma_plan_total_bound(rs1, rs1.len() as int, 10000000);
            assert(rs1.len() as int * 10000000 <= 10000000000) by (nonlinear_arith)
                requires
                    rs1.len() <= 1000,
            {}
            assert forall|i: int| 1 <= i < rs1.len() implies generated_room_ok(
                #[trigger] rs1[i],
                target as int,
            ) by {
                assert(rs1[i] == rs0[i]);
            }
            assert(rs1[0].monsters is None && rs1[0].hp_regen is None);
            assert(rs1[0].description matches Some(s) && s@ == spawn_description_text(
                rs1.len() - 1,
            ));
        }
        WorldPlan { rooms, spawn_x: 0, spawn_y: 0 }
    }

    /// The width of the plan's bounding box (always spanning the origin).
    pub fn get_width(&self) -> (r: usize)
        requires
            Self::max_x(self.rooms@, self.rooms@.len() as int) - Self::min_x(
                self.rooms@,
                self.rooms@.len() as int,
            ) + 1 <= usize::MAX,
        ensures
            r == Self::max_x(self.rooms@, self.rooms@.len() as int) - Self::min_x(
                self.rooms@,
                self.rooms@.len() as int,
            ) + 1,
    {
        let mut lo: isize = 0;
        let mut hi: isize = 0;
        let mut i: usize = 0;
        while i < self.rooms.len()
            invariant
                i <= self.rooms@.len(),
                lo <= 0 <= hi,
                lo == Self::min_x(self.rooms@, i as int),
                hi == Self::max_x(self.rooms@, i as int),
            decreases self.rooms@.len() - i,
        {
            if self.rooms[i].x < lo {
                lo = self.rooms[i].x;
            }
            if self.rooms[i].x > hi {
                hi = self.rooms[i].x;
            }
            i = i + 1;
        }
        ((hi as i128) - (lo as i128) + 1) as usize
    }

    /// The height of the plan's bounding box (always spanning the origin).
    pub fn get_height(&self) -> (r: usize)
        requires
            Self::max_y(self.rooms@, self.rooms@.len() as int) - Self::min_y(
                self.rooms@,
                self.rooms@.len() as int,
            ) + 1 <= usize::MAX,
        ensures
            r == Self::max_y(self.rooms@, self.rooms@.len() as int) - Self::min_y(
                self.rooms@,
                self.rooms@.len() as int,
            ) + 1,
    {
        let mut lo: isize = 0;
        let mut hi: isize = 0;
        let mut i: usize = 0;
        while i < self.rooms.len()
            invariant
                i <= self.rooms@.len(),
                lo <= 0 <= hi,
                lo == Self::min_y(self.rooms@, i as int),
                hi == Self::max_y(self.rooms@, i as int),
            decreases self.rooms@.len() - i,
        {
            if self.rooms[i].y < lo {
                lo = self.rooms[i].y;
            }
            if self.rooms[i].y > hi {
                hi = self.rooms[i].y;
            }
            i = i + 1;
        }
        ((hi as i128) - (lo as i128) + 1) as usize
    }

    /// How far the bounding box extends into negative x: the offset that
    /// shifts every room to a non-negative column.
    pub fn get_x_offset(&self) -> (r: usize)
        ensures
            r == -Self::min_x(self.rooms@, self.rooms@.len() as int),
    {
        let mut lo: isize = 0;
        let mut i: usize = 0;
        while i < self.rooms.len()
            invariant
                i <= self.rooms@.len(),
                lo <= 0,
                lo == Self::min_x(self.rooms@, i as int),
            decreases self.rooms@.len() - i,
        {
            if self.rooms[i].x < lo {
                lo = self.rooms[i].x;
            }
            i = i + 1;
        }
        (-(lo as i128)) as usize
    }

    /// How far the bounding box extends into negative y: the offset that
    /// shifts every room to a non-negative row.
    pub fn get_y_offset(&self) -> (r: usize)
        ensures
            r == -Self::min_y(self.rooms@, self.rooms@.len() as int),
    {
        let mut lo: isize = 0;
        let mut i: usize = 0;
        while i < self.rooms.len()
            invariant
                i <= self.rooms@.len(),
                lo <= 0,
                lo == Self::min_y(self.rooms@, i as int),
            decreases self.rooms@.len() - i,
        {
            if self.rooms[i].y < lo {
                lo = self.rooms[i].y;
            }
            i = i + 1;
        }
        (-(lo as i128)) as usize
    }
}

} // verus!
