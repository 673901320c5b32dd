//! The world engine: rooms keyed by coordinates, entities keyed by
//! identifier, and the operations connect, look, move, inspect, attack and
//! idle eviction. Every operation preserves the world's consistency
//! invariants: occupant lists and entity locations agree, every entity
//! stands in an existing room, identifiers are unique, and no entity is
//! retained at zero hit points.
use vstd::prelude::*;
use vstd::string::*;
use crate::assoc::{khas, kat, kidx, kunique, lemma_kappend, lemma_kidx_of, lemma_kpush,
    lemma_kupdate, lemma_kremove};
use crate::data_model;
use crate::data_model::{Direction, WorldError};
use crate::gen_plan::{DefinedMonsterPlan, MonstersPlan, RoomPlan, WorldPlan,
    lemma_plan_total_mono, monsters_count, room_monsters, plan_total, plan_rooms_wf,
    plan_coords_distinct};
use crate::guid::Guid;

verus! {

/// What an entity is: a monster carrying flavor text, or a player.
#[derive(Debug)]
pub enum EntityType {
    Monster(String),
    Player,
}

impl EntityType {
    /// True for the player variant.
    pub open spec fn is_player(self) -> bool {
        self matches EntityType::Player
    }
}

impl Clone for EntityType {
    fn clone(&self) -> (r: Self)
        ensures
            r == *self,
    {
        match self {
            EntityType::Monster(text) => EntityType::Monster(text.clone()),
            EntityType::Player => EntityType::Player,
        }
    }
}

/// Relies on fastrand::u32 over an inclusive non-empty range: the result
/// lies within the range. Which value comes back is left open.
#[verifier::external_body]
fn rand_u32_inclusive(lo: u32, hi: u32) -> (r: u32)
    requires
        lo <= hi,
    ensures
        lo <= r <= hi,
{
    fastrand::u32(lo..=hi)
}

/// The flavor text a defined monster materializes with.
pub open spec fn monster_text(d: Option<String>) -> Seq<char> {
    match d {
        Some(s) => s@,
        None => ("A simple monster")@,
    }
}

/// The description a room materializes with.
pub open spec fn room_text(d: Option<String>) -> Seq<char> {
    match d {
        Some(s) => s@,
        None => ("A room")@,
    }
}

/// A live entity: its kind, hit points, damage per hit, location, and the
/// time of its last activity.
#[derive(Debug)]
pub struct Entity {
    pub kind: EntityType,
    pub max_hp: u32,
    pub hp: u32,
    pub dp: u32,
    pub location: Coords,
    pub afk_since: u64,
}

impl Entity {
    /// A retained entity always has between 1 and `max_hp` hit points: an
    /// entity that reaches 0 is deleted, never kept.
    pub open spec fn alive(self) -> bool {
        1 <= self.hp <= self.max_hp
    }

    /// What holds of every monster the materializer creates at `location`.
    pub open spec fn monster_ok(self, location: Coords) -> bool {
        &&& self.kind matches EntityType::Monster(_)
        &&& self.alive()
        &&& self.location == location
    }

    /// A randomly statted monster: full hit points within [30, 150] and
    /// damage within [10, 30].
    fn random_monster(location: Coords) -> (r: Entity)
        ensures
            r.monster_ok(location),
            r.hp == r.max_hp,
            30 <= r.hp <= 150,
            10 <= r.dp <= 30,
    {
        let hp = rand_u32_inclusive(30, 150);
        Entity {
            kind: EntityType::Monster(("A simple monster").to_owned()),
            max_hp: hp,
            hp,
            dp: rand_u32_inclusive(10, 30),
            location,
            afk_since: 0,
        }
    }

    /// A monster materialized from an explicit definition: its stats are
    /// taken as given, its text defaults when absent.
    fn generate_monster(location: Coords, defined_monster_plan: &DefinedMonsterPlan) -> (r: Entity)
        requires
            defined_monster_plan.hp >= 1,
        ensures
            r.monster_ok(location),
            r.hp == defined_monster_plan.hp,
            r.max_hp == defined_monster_plan.hp,
            r.dp == defined_monster_plan.dp,
            r.kind matches EntityType::Monster(t) && t@ == monster_text(
                defined_monster_plan.description,
            ),
    {
        let text = match &defined_monster_plan.description {
            Some(s) => s.clone(),
            None => ("A simple monster").to_owned(),
        };
        Entity {
            kind: EntityType::Monster(text),
            max_hp: defined_monster_plan.hp,
            hp: defined_monster_plan.hp,
            dp: defined_monster_plan.dp,
            location,
            afk_since: 0,
        }
    }

    /// The monster population a blueprint specifies, in order: either
    /// `length` random monsters or one monster per explicit definition.
    fn generate_monsters(location: Coords, monsters_plan: &MonstersPlan) -> (r: Vec<Entity>)
        requires
            monsters_plan matches MonstersPlan::Defined(l) ==> forall|j: int|
                0 <= j < l@.len() ==> (#[trigger] l@[j]).hp >= 1,
        ensures
            r@.len() == monsters_count(*monsters_plan),
            forall|i: int| 0 <= i < r@.len() ==> (#[trigger] r@[i]).monster_ok(location),
            monsters_plan matches MonstersPlan::Defined(l) ==> forall|i: int|
                0 <= i < r@.len() ==> (#[trigger] r@[i]).hp == l@[i].hp && r@[i].max_hp == l@[i].hp
                    && r@[i].dp == l@[i].dp,
            monsters_plan matches MonstersPlan::Random(_) ==> forall|i: int|
                0 <= i < r@.len() ==> 30 <= (#[trigger] r@[i]).hp <= 150 && r@[i].hp
                    == r@[i].max_hp && 10 <= r@[i].dp <= 30,
    {
        match monsters_plan {
            MonstersPlan::Random(length) => {
                let mut random_monsters: Vec<Entity> = Vec::new();
                let n = *length;
                let mut j: usize = 0;
                while j < n
                    invariant
                        j <= n,
                        random_monsters@.len() == j,
                        forall|i: int|
                            0 <= i < j ==> (#[trigger] random_monsters@[i]).monster_ok(location),
                        forall|i: int|
                            0 <= i < j ==> 30 <= (#[trigger] random_monsters@[i]).hp <= 150
                                && random_monsters@[i].hp == random_monsters@[i].max_hp && 10
                                <= random_monsters@[i].dp <= 30,
                    decreases n - j,
                {
                    random_monsters.push(Entity::random_monster(location));
                    j = j + 1;
                }
                random_monsters
            },
            MonstersPlan::Defined(monster_plans) => {
                let mut defined_monsters: Vec<Entity> = Vec::new();
                let mut j: usize = 0;
                while j < monster_plans.len()
                    invariant
                        j <= monster_plans@.len(),
                        forall|i: int|
                            0 <= i < monster_plans@.len() ==> (#[trigger] monster_plans@[i]).hp
                                >= 1,
                        defined_monsters@.len() == j,
                        forall|i: int|
                            0 <= i < j ==> (#[trigger] defined_monsters@[i]).monster_ok(location),
                        forall|i: int|
                            0 <= i < j ==> (#[trigger] defined_monsters@[i]).hp
                                == monster_plans@[i].hp && defined_monsters@[i].max_hp
                                == monster_plans@[i].hp && defined_monsters@[i].dp
                                == monster_plans@[i].dp,
                    decreases monster_plans@.len() - j,
                {
                    defined_monsters.push(Entity::generate_monster(location, &monster_plans[j]));
                    j = j + 1;
                }
                defined_monsters
            },
        }
    }
}

/// A room: its text, the identifiers of the entities present, and an
/// optional amount of hit points restored to a player entering it.
#[derive(Debug)]
pub struct Room {
    pub description: String,
    pub guids: Vec<Guid>,
    pub hp_regen: Option<u32>,
}

/// A position on the unbounded grid of rooms.
#[derive(Clone, Copy, PartialEq, Eq, Structural, Hash, Debug)]
pub struct Coords {
    pub x: isize,
    pub y: isize,
}

/// The neighbor one step north, or `None` on arithmetic overflow (an
/// overflowing neighbor is simply absent, never a fault).
pub open spec fn coords_north(c: Coords) -> Option<Coords> {
    if c.y == isize::MAX {
        None
    } else {
        Some(Coords { x: c.x, y: (c.y + 1) as isize })
    }
}

/// The neighbor one step south, or `None` on overflow.
pub open spec fn coords_south(c: Coords) -> Option<Coords> {
    if c.y == isize::MIN {
        None
    } else {
        Some(Coords { x: c.x, y: (c.y - 1) as isize })
    }
}

/// The neighbor one step east, or `None` on overflow.
pub open spec fn coords_east(c: Coords) -> Option<Coords> {
    if c.x == isize::MAX {
        None
    } else {
        Some(Coords { x: (c.x + 1) as isize, y: c.y })
    }
}

/// The neighbor one step west, or `None` on overflow.
pub open spec fn coords_west(c: Coords) -> Option<Coords> {
    if c.x == isize::MIN {
        None
    } else {
        Some(Coords { x: (c.x - 1) as isize, y: c.y })
    }
}

/// The destination one step in direction `d`.
pub open spec fn step_coords(c: Coords, d: Direction) -> Option<Coords> {
    match d {
        Direction::N => coords_north(c),
        Direction::S => coords_south(c),
        Direction::E => coords_east(c),
        Direction::W => coords_west(c),
    }
}

impl Coords {
    /// The neighbor one step north, absent on overflow.
    pub fn north(&self) -> (r: Option<Coords>)
        ensures
            r == coords_north(*self),
    {
        match self.y.checked_add(1) {
            Some(y) => Some(Coords { x: self.x, y }),
            None => None,
        }
    }

    /// The neighbor one step south, absent on overflow.
    pub fn south(&self) -> (r: Option<Coords>)
        ensures
            r == coords_south(*self),
    {
        match self.y.checked_sub(1) {
            Some(y) => Some(Coords { x: self.x, y }),
            None => None,
        }
    }

    /// The neighbor one step east, absent on overflow.
    pub fn east(&self) -> (r: Option<Coords>)
        ensures
            r == coords_east(*self),
    {
        match self.x.checked_add(1) {
            Some(x) => Some(Coords { x, y: self.y }),
            None => None,
        }
    }

    /// The neighbor one step west, absent on overflow.
    pub fn west(&self) -> (r: Option<Coords>)
        ensures
            r == coords_west(*self),
    {
        match self.x.checked_sub(1) {
            Some(x) => Some(Coords { x, y: self.y }),
            None => None,
        }
    }
}

/// The hit points a room restores to a player entering it.
pub open spec fn regen_amount(room: Room) -> int {
    match room.hp_regen {
        Some(x) => x as int,
        None => 0,
    }
}

/// Hit points after entering a room that regenerates `reg`: raised
/// additively but capped at the entity's maximum.
pub open spec fn healed_hp(e: Entity, reg: int) -> int {
    if e.hp + reg <= e.max_hp {
        e.hp + reg
    } else {
        e.max_hp as int
    }
}

/// A player whose last activity is more than `threshold` old at `now` is
/// idle and subject to eviction; monsters never are.
pub open spec fn is_idle_player(e: Entity, now: u64, threshold: u64) -> bool {
    e.kind.is_player() && e.afk_since + threshold < now
}

/// The position of `g` in an occupant list.
pub open spec fn guid_index(s: Seq<Guid>, g: Guid) -> int {
    choose|i: int| 0 <= i < s.len() && s[i] == g
}

/// No occupant of the room at `c` is a player due for eviction at `now`.
pub open spec fn no_evicted_occupant(w: World, c: Coords, now: u64) -> bool {
    forall|g2: Guid|
        #![trigger w.room_at(c).guids@.contains(g2)]
        w.room_at(c).guids@.contains(g2) ==> !(w.has_entity(g2) && is_idle_player(
            w.entity_at(g2),
            now,
            w.afk_threshold,
        ))
}

/// `g` stands among the first `k` elements of `s`.
pub open spec fn among(s: Seq<Guid>, k: int, g: Guid) -> bool {
    exists|j: int| 0 <= j < k && s[j] == g
}

/// Saturating subtraction: hit points never go below zero.
pub open spec fn sat_sub(a: u32, b: u32) -> int {
    if a >= b {
        a - b
    } else {
        0
    }
}

/// The two fields of a room that no engine operation ever changes.
pub open spec fn room_static_eq(r1: Room, r2: Room) -> bool {
    r1.description == r2.description && r1.hp_regen == r2.hp_regen
}

/// `b` is `a` with only the activity time of `g` stamped to `now`: the
/// rooms, every other entity, and every field of `g` but `afk_since` are
/// unchanged. This is what a failed move or attack leaves behind, since
/// even a failed action counts as activity.
pub open spec fn only_stamped(a: World, b: World, g: Guid, now: u64) -> bool {
    &&& b.rooms@ == a.rooms@
    &&& b.spawn == a.spawn
    &&& b.afk_threshold == a.afk_threshold
    &&& b.next_serial == a.next_serial
    &&& forall|g2: Guid| #[trigger] b.has_entity(g2) <==> a.has_entity(g2)
    &&& a.has_entity(g) ==> b.entity_at(g) == (Entity { afk_since: now, ..a.entity_at(g) })
    &&& forall|g2: Guid|
        g2 != g && a.has_entity(g2) ==> #[trigger] b.entity_at(g2) == a.entity_at(g2)
}

/// Replacing one entity's fields without moving it (same key, same
/// location, still alive) preserves the world invariants and leaves every
/// other lookup unchanged.
proof fn lemma_entity_update(a: World, b: World, i: int, e2: Entity)
    requires
        a.wf(),
        0 <= i < a.entities@.len(),
        e2.location == a.entities@[i].1.location,
        e2.alive(),
        b.rooms@ == a.rooms@,
        b.spawn == a.spawn,
        b.afk_threshold == a.afk_threshold,
        b.next_serial == a.next_serial,
        b.entities@ == a.entities@.update(i, (a.entities@[i].0, e2)),
    ensures
        b.wf(),
        forall|g2: Guid| #[trigger] b.has_entity(g2) <==> a.has_entity(g2),
        b.has_entity(a.entities@[i].0),
        b.entity_at(a.entities@[i].0) == e2,
        forall|g2: Guid|
            g2 != a.entities@[i].0 && a.has_entity(g2) ==> #[trigger] b.entity_at(g2)
                == a.entity_at(g2),
{
    let es0 = a.entities@;
    let key = es0[i].0;
    lemma_kupdate(es0, i, e2);
    lemma_kidx_of(es0, i);
    assert(b.entities_in_rooms()) by {
        assert forall|i2: int| 0 <= i2 < b.entities@.len() implies {
            let g2 = (#[trigger] b.entities@[i2]).0;
            let e = b.entities@[i2].1;
            khas(b.rooms@, e.location) && kat(b.rooms@, e.location).guids@.contains(g2)
        } by {
            if i2 != i {
                assert(b.entities@[i2] == es0[i2]);
            } else {
                assert(khas(a.rooms@, es0[i].1.location));
            }
        }
    }
    assert(b.occupants_are_entities()) by {
        assert forall|i2: int, j2: int|
            0 <= i2 < b.rooms@.len() && 0 <= j2 < b.rooms@[i2].1.guids@.len() implies {
            let g2 = #[trigger] b.rooms@[i2].1.guids@[j2];
            khas(b.entities@, g2) && kat(b.entities@, g2).location == b.rooms@[i2].0
        } by {
            let g2 = b.rooms@[i2].1.guids@[j2];
            assert(khas(es0, g2) && kat(es0, g2).location == a.rooms@[i2].0);
            if g2 == key {
                assert(kat(b.entities@, g2) == e2);
                assert(kat(es0, key) == es0[i].1);
            }
        }
    }
    assert(b.entities_alive()) by {
        assert forall|i2: int| 0 <= i2 < b.entities@.len() implies (
        #[trigger] b.entities@[i2]).1.alive() by {
            if i2 != i {
                assert(b.entities@[i2] == es0[i2]);
            }
        }
    }
    assert(b.serials_bounded()) by {
        assert forall|i2: int|
            0 <= i2 < b.entities@.len() implies (#[trigger] b.entities@[i2]).0.serial
            < b.next_serial by {
            if i2 != i {
                assert(b.entities@[i2] == es0[i2]);
            } else {
                assert(b.entities@[i2].0 == es0[i].0);
            }
        }
    }
}

/// What one resolution step of a fight leaves intact, going from world `x`
/// to world `y`: every room's key, text and regeneration; every occupant
/// list but the one at `loc`; and every entity other than `g`, which was
/// removed from the world and from the list at `loc` when `removed` holds.
spec fn stage_facts(x: World, y: World, g: Guid, loc: Coords, removed: bool) -> bool {
    &&& y.room_at(loc).guids@ == (if removed {
        x.room_at(loc).guids@.remove(guid_index(x.room_at(loc).guids@, g))
    } else {
        x.room_at(loc).guids@
    })
    &&& (forall|c: Coords| #[trigger] y.has_room(c) <==> x.has_room(c))
    &&& (forall|c: Coords|
        x.has_room(c) ==> room_static_eq(#[trigger] y.room_at(c), x.room_at(c)))
    &&& (forall|c: Coords|
        x.has_room(c) && c != loc ==> #[trigger] y.room_at(c).guids == x.room_at(c).guids)
    &&& (forall|g2: Guid|
        #![trigger y.room_at(loc).guids@.contains(g2)]
        y.room_at(loc).guids@.contains(g2) <==> (x.room_at(loc).guids@.contains(g2) && (removed
            ==> g2 != g)))
    &&& (forall|g2: Guid| g2 != g ==> (#[trigger] y.has_entity(g2) <==> x.has_entity(g2)))
    &&& (forall|g2: Guid|
        g2 != g && x.has_entity(g2) ==> #[trigger] y.entity_at(g2) == x.entity_at(g2))
}

/// Composes the three resolution steps of a fight — stamping the attacker,
/// resolving the defender, resolving the attacker — into the facts the
/// attack contract states against the starting world.
proof fn lemma_attack_compose(
    a: World,
    a1: World,
    a2: World,
    b: World,
    ag: Guid,
    dg: Guid,
    loc: Coords,
    a_removed: bool,
    d_removed: bool,
)
    requires
        ag != dg,
        stage_facts(a, a1, ag, loc, false),
        stage_facts(a1, a2, dg, loc, d_removed),
        stage_facts(a2, b, ag, loc, a_removed),
    ensures
        forall|c: Coords| #[trigger] b.has_room(c) <==> a.has_room(c),
        forall|c: Coords|
            a.has_room(c) ==> room_static_eq(#[trigger] b.room_at(c), a.room_at(c)),
        forall|c: Coords|
            a.has_room(c) && c != loc ==> #[trigger] b.room_at(c).guids == a.room_at(c).guids,
        forall|g2: Guid|
            #![trigger b.room_at(loc).guids@.contains(g2)]
            b.room_at(loc).guids@.contains(g2) <==> (a.room_at(loc).guids@.contains(g2) && !(g2
                == ag && a_removed) && !(g2 == dg && d_removed)),
        forall|g2: Guid|
            g2 != ag && g2 != dg ==> (#[trigger] b.has_entity(g2) <==> a.has_entity(g2)),
        forall|g2: Guid|
            g2 != ag && g2 != dg && a.has_entity(g2) ==> #[trigger] b.entity_at(g2) == a.entity_at(
                g2,
            ),
        ({
            let l0 = a.room_at(loc).guids@;
            let l1 = if d_removed {
                l0.remove(guid_index(l0, dg))
            } else {
                l0
            };
            let l2 = if a_removed {
                l1.remove(guid_index(l1, ag))
            } else {
                l1
            };
            b.room_at(loc).guids@ == l2
        }),
{
    assert forall|c: Coords| #[trigger] b.has_room(c) <==> a.has_room(c) by {
        assert(a2.has_room(c) <==> a1.has_room(c));
        assert(a1.has_room(c) <==> a.has_room(c));
    }
    assert forall|c: Coords|
        a.has_room(c) implies room_static_eq(#[trigger] b.room_at(c), a.room_at(c)) by {
        assert(a1.has_room(c) && a2.has_room(c));
        assert(room_static_eq(a1.room_at(c), a.room_at(c)));
        assert(room_static_eq(a2.room_at(c), a1.room_at(c)));
        assert(room_static_eq(b.room_at(c), a2.room_at(c)));
    }
    assert forall|c: Coords|
        a.has_room(c) && c != loc implies #[trigger] b.room_at(c).guids == a.room_at(
        c,
    ).guids by {
        assert(a1.has_room(c) && a2.has_room(c));
        assert(a1.room_at(c).guids == a.room_at(c).guids);
        assert(a2.room_at(c).guids == a1.room_at(c).guids);
        assert(b.room_at(c).guids == a2.room_at(c).guids);
    }
    assert forall|g2: Guid|
        #![trigger b.room_at(loc).guids@.contains(g2)]
        b.room_at(loc).guids@.contains(g2) <==> (a.room_at(loc).guids@.contains(g2) && !(g2 == ag
            && a_removed) && !(g2 == dg && d_removed)) by {
        assert(a1.room_at(loc).guids@.contains(g2) <==> a.room_at(loc).guids@.contains(g2));
        assert(a2.room_at(loc).guids@.contains(g2) <==> (a1.room_at(loc).guids@.contains(g2) && (
        d_removed ==> g2 != dg)));
        assert(b.room_at(loc).guids@.contains(g2) <==> (a2.room_at(loc).guids@.contains(g2) && (
        a_removed ==> g2 != ag)));
    }
    assert forall|g2: Guid|
        g2 != ag && g2 != dg implies (#[trigger] b.has_entity(g2) <==> a.has_entity(g2)) by {
        assert(a1.has_entity(g2) <==> a.has_entity(g2));
        assert(a2.has_entity(g2) <==> a1.has_entity(g2));
    }
    assert forall|g2: Guid|
        g2 != ag && g2 != dg && a.has_entity(g2) implies #[trigger] b.entity_at(g2)
            == a.entity_at(g2) by {
        assert(a1.entity_at(g2) == a.entity_at(g2));
        assert(a2.has_entity(g2) && a1.has_entity(g2));
        assert(a2.entity_at(g2) == a1.entity_at(g2));
    }
}

/// True when `v` holds `g`.
fn contains_guid(v: &Vec<Guid>, g: Guid) -> (r: bool)
    ensures
        r == v@.contains(g),
{
    let mut i: usize = 0;
    while i < v.len()
        invariant
            i <= v@.len(),
            forall|j: int| 0 <= j < i ==> v@[j] != g,
        decreases v@.len() - i,
    {
        if v[i] == g {
            return true;
        }
        i = i + 1;
    }
    false
}

/// A copy of a vector of identifiers.
fn copy_guids(v: &Vec<Guid>) -> (r: Vec<Guid>)
    ensures
        r@ == v@,
{
    let mut r: Vec<Guid> = Vec::new();
    let mut i: usize = 0;
    while i < v.len()
        invariant
            i <= v@.len(),
            r@ == v@.subrange(0, i as int),
        decreases v@.len() - i,
    {
        r.push(v[i]);
        i = i + 1;
    }
    proof {
        assert(v@.subrange(0, v@.len() as int) =~= v@);
    }
    r
}

impl Room {
    /// Removes `g` from the occupant list. Succeeds exactly when `g` was
    /// present, removing its first occurrence; fails with `DiffRoom`
    /// otherwise, leaving the room unchanged.
    pub fn remove_guid(&mut self, guid: Guid) -> (r: Result<(), WorldError>)
        ensures
            final(self).description == old(self).description,
            final(self).hp_regen == old(self).hp_regen,
            match r {
                Ok(()) => old(self).guids@.contains(guid) && exists|i: int|
                    0 <= i < old(self).guids@.len() && old(self).guids@[i] == guid && (forall|
                        j: int,
                    | 0 <= j < i ==> old(self).guids@[j] != guid) && final(self).guids@ == old(
                        self,
                    ).guids@.remove(i),
                Err(e) => e matches WorldError::DiffRoom && !old(self).guids@.contains(guid)
                    && *final(self) == *old(self),
            },
    {
        let mut i: usize = 0;
        while i < self.guids.len()
            invariant
                i <= self.guids@.len(),
                forall|j: int| 0 <= j < i ==> self.guids@[j] != guid,
                *self == *old(self),
            decreases self.guids@.len() - i,
        {
            if self.guids[i] == guid {
                self.guids.remove(i);
                return Ok(());
            }
            i = i + 1;
        }
        Err(WorldError::DiffRoom)
    }

    /// Appends `g` to the occupant list. Fails when `g` is already present,
    /// leaving the room unchanged.
    pub fn add_guid(&mut self, guid: Guid) -> (r: Result<(), WorldError>)
        ensures
            final(self).description == old(self).description,
            final(self).hp_regen == old(self).hp_regen,
            match r {
                Ok(()) => !old(self).guids@.contains(guid) && final(self).guids@ == old(
                    self,
                ).guids@.push(guid),
                Err(e) => e matches WorldError::Other(_) && old(self).guids@.contains(guid)
                    && *final(self) == *old(self),
            },
    {
        if contains_guid(&self.guids, guid) {
            Err(WorldError::Other(("Entity is already present in this room!").to_owned()))
        } else {
            self.guids.push(guid);
            Ok(())
        }
    }
}

impl Room {
    /// Materializes one blueprint: the room with its text and regeneration
    /// amount, plus its monster population, each monster registered under a
    /// fresh identifier drawn from `next_serial`. The occupant list is
    /// exactly the monsters' identifiers, in order.
    pub fn generate_with_coords_and_entities(room_plan: &RoomPlan, next_serial: &mut u64) -> (r: (
        Coords,
        Room,
        Vec<(Guid, Entity)>,
    ))
        requires
            match room_plan.monsters {
                Some(MonstersPlan::Defined(l)) => forall|j: int|
                    0 <= j < l@.len() ==> (#[trigger] l@[j]).hp >= 1,
                _ => true,
            },
            *old(next_serial) + room_monsters(*room_plan) <= u64::MAX,
        ensures
            r.0 == (Coords { x: room_plan.x, y: room_plan.y }),
            r.1.description@ == room_text(room_plan.description),
            r.1.hp_regen == room_plan.hp_regen,
            r.2@.len() == room_monsters(*room_plan),
            r.1.guids@.len() == r.2@.len(),
            *final(next_serial) == *old(next_serial) + r.2@.len(),
            forall|j: int| 0 <= j < r.2@.len() ==> r.1.guids@[j] == (#[trigger] r.2@[j]).0,
            forall|j: int|
                0 <= j < r.2@.len() ==> (#[trigger] r.2@[j]).0.serial == *old(next_serial) + j,
            forall|j: int| 0 <= j < r.2@.len() ==> (#[trigger] r.2@[j]).1.monster_ok(r.0),
            room_plan.monsters matches Some(MonstersPlan::Defined(l)) ==> forall|j: int|
                0 <= j < r.2@.len() ==> (#[trigger] r.2@[j]).1.hp == l@[j].hp
                    && r.2@[j].1.max_hp == l@[j].hp && r.2@[j].1.dp == l@[j].dp,
            room_plan.monsters matches Some(MonstersPlan::Random(_)) ==> forall|j: int|
                0 <= j < r.2@.len() ==> 30 <= (#[trigger] r.2@[j]).1.hp <= 150 && r.2@[j].1.hp
                    == r.2@[j].1.max_hp && 10 <= r.2@[j].1.dp <= 30,
    {
        let coords = Coords { x: room_plan.x, y: room_plan.y };
        let description = match &room_plan.description {
            Some(s) => s.clone(),
            None => ("A room").to_owned(),
        };
        let mut guids: Vec<Guid> = Vec::new();
        let mut entities: Vec<(Guid, Entity)> = Vec::new();
        let ghost base = *next_serial;
        match &room_plan.monsters {
            Some(monsters_plan) => {
                let mut monsters = Entity::generate_monsters(coords, monsters_plan);
                let ghost ms0 = monsters@;
                while monsters.len() > 0
                    invariant
                        guids@.len() == entities@.len(),
                        entities@.len() + monsters@.len() == ms0.len(),
                        ms0.len() == monsters_count(*monsters_plan),
                        monsters@ == ms0.subrange(entities@.len() as int, ms0.len() as int),
                        *next_serial == base + entities@.len(),
                        base + ms0.len() <= u64::MAX,
                        forall|i: int| 0 <= i < ms0.len() ==> (#[trigger] ms0[i]).monster_ok(coords),
                        forall|j: int|
                            0 <= j < entities@.len() ==> guids@[j] == (#[trigger] entities@[j]).0,
                        forall|j: int|
                            0 <= j < entities@.len() ==> (#[trigger] entities@[j]).0.serial == base
                                + j,
                        forall|j: int|
                            0 <= j < entities@.len() ==> (#[trigger] entities@[j]).1 == ms0[j],
                    decreases monsters@.len(),
                {
                    proof {
                        assert(monsters@[0] == ms0[entities@.len() as int]);
                    }
                    let m = monsters.remove(0);
                    let g = Guid { serial: *next_serial, tag: crate::guid::random_tag() };
                    *next_serial = *next_serial + 1;
                    guids.push(g);
                    entities.push((g, m));
                    proof {
                        assert(monsters@ =~= ms0.subrange(entities@.len() as int, ms0.len() as int));
                    }
                }
                proof {
                    assert(forall|j: int|
                        0 <= j < entities@.len() ==> (#[trigger] entities@[j]).1 == ms0[j]);
                }
            },
            None => {},
        }
        (coords, Room { description, guids, hp_regen: room_plan.hp_regen }, entities)
    }
}

/// The aggregate root: rooms keyed by coordinates, entities keyed by
/// identifier, the spawn point, the idle threshold, and the next unused
/// identifier serial.
#[derive(Debug)]
pub struct World {
    pub rooms: Vec<(Coords, Room)>,
    pub entities: Vec<(Guid, Entity)>,
    pub spawn: Coords,
    pub afk_threshold: u64,
    pub next_serial: u64,
}

impl World {
    /// A room exists at `c`.
    pub open spec fn has_room(self, c: Coords) -> bool {
        khas(self.rooms@, c)
    }

    /// The room at `c`.
    pub open spec fn room_at(self, c: Coords) -> Room {
        kat(self.rooms@, c)
    }

    /// An entity is registered under `g`.
    pub open spec fn has_entity(self, g: Guid) -> bool {
        khas(self.entities@, g)
    }

    /// The entity registered under `g`.
    pub open spec fn entity_at(self, g: Guid) -> Entity {
        kat(self.entities@, g)
    }

    /// Every entity stands in an existing room whose occupant list holds
    /// its identifier.
    pub open spec fn entities_in_rooms(self) -> bool {
        forall|i: int|
            0 <= i < self.entities@.len() ==> {
                let g = (#[trigger] self.entities@[i]).0;
                let e = self.entities@[i].1;
                khas(self.rooms@, e.location) && kat(self.rooms@, e.location).guids@.contains(g)
            }
    }

    /// Every occupant listed in a room is a registered entity located at
    /// that room's coordinates.
    pub open spec fn occupants_are_entities(self) -> bool {
        forall|i: int, j: int|
            0 <= i < self.rooms@.len() && 0 <= j < self.rooms@[i].1.guids@.len() ==> {
                let g = #[trigger] self.rooms@[i].1.guids@[j];
                khas(self.entities@, g) && kat(self.entities@, g).location == self.rooms@[i].0
            }
    }

    /// No room lists the same occupant twice.
    pub open spec fn occupants_unique(self) -> bool {
        forall|i: int, j1: int, j2: int|
            #![trigger self.rooms@[i].1.guids@[j1], self.rooms@[i].1.guids@[j2]]
            0 <= i < self.rooms@.len() && 0 <= j1 < j2 < self.rooms@[i].1.guids@.len()
                ==> self.rooms@[i].1.guids@[j1] != self.rooms@[i].1.guids@[j2]
    }

    /// Every retained entity is alive.
    pub open spec fn entities_alive(self) -> bool {
        forall|i: int| 0 <= i < self.entities@.len() ==> (#[trigger] self.entities@[i]).1.alive()
    }

    /// Every handed-out identifier has a serial below the next unused one,
    /// which is what makes fresh identifiers provably new.
    pub open spec fn serials_bounded(self) -> bool {
        forall|i: int|
            0 <= i < self.entities@.len() ==> (#[trigger] self.entities@[i]).0.serial
                < self.next_serial
    }

    /// The materialized monsters carry the stats their blueprints
    /// specify: the entity under a room's j-th occupant is a randomly
    /// statted monster within hp [30,150] and damage [10,30] for a random
    /// population, and carries exactly the j-th definition's hit points
    /// and damage for a defined one; a room whose blueprint names no
    /// monsters has no occupants.
    pub open spec fn monsters_match_plan(self, plan_rooms: Seq<RoomPlan>) -> bool {
        forall|i: int, j: int|
            #![trigger self.rooms@[i].1.guids@[j]]
            0 <= i < self.rooms@.len() && i < plan_rooms.len() && 0 <= j
                < self.rooms@[i].1.guids@.len() ==> {
                let e = kat(self.entities@, self.rooms@[i].1.guids@[j]);
                match plan_rooms[i].monsters {
                    Some(MonstersPlan::Random(_)) => 30 <= e.hp <= 150 && e.hp == e.max_hp && 10
                        <= e.dp <= 30,
                    Some(MonstersPlan::Defined(l)) => j < l@.len() && e.hp == l@[j].hp && e.max_hp
                        == l@[j].hp && e.dp == l@[j].dp,
                    None => false,
                }
            }
    }

    /// The world's consistency invariants, preserved by every operation.
    pub open spec fn wf(self) -> bool {
        &&& kunique(self.rooms@)
        &&& kunique(self.entities@)
        &&& self.entities_in_rooms()
        &&& self.occupants_are_entities()
        &&& self.occupants_unique()
        &&& self.entities_alive()
        &&& self.serials_bounded()
    }

    /// An empty world: no rooms, no entities, spawn at the origin, and an
    /// idle threshold of 60 seconds.
    pub fn new() -> (r: World)
        ensures
            r.wf(),
            r.rooms@.len() == 0,
            r.entities@.len() == 0,
            r.spawn == (Coords { x: 0, y: 0 }),
            r.afk_threshold == 60,
            r.next_serial == 0,
    {
        World {
            rooms: Vec::new(),
            entities: Vec::new(),
            spawn: Coords { x: 0, y: 0 },
            afk_threshold: 60,
            next_serial: 0,
        }
    }

    /// Materializes a plan: one room per blueprint holding exactly its
    /// monsters, each monster registered under a fresh identifier and
    /// listed in its room, and the spawn point copied from the plan. The
    /// world's consistency invariants hold of the result.
    pub fn generate(world_plan: &WorldPlan) -> (r: World)
        requires
            plan_coords_distinct(world_plan.rooms@),
            plan_rooms_wf(world_plan.rooms@),
            plan_total(world_plan.rooms@, world_plan.rooms@.len() as int) <= u64::MAX,
        ensures
            r.wf(),
            r.spawn == (Coords { x: world_plan.spawn_x, y: world_plan.spawn_y }),
            r.afk_threshold == 60,
            r.next_serial == plan_total(world_plan.rooms@, world_plan.rooms@.len() as int),
            r.rooms@.len() == world_plan.rooms@.len(),
            forall|i: int|
                0 <= i < r.rooms@.len() ==> {
                    let rp = world_plan.rooms@[i];
                    &&& (#[trigger] r.rooms@[i]).0 == (Coords { x: rp.x, y: rp.y })
                    &&& r.rooms@[i].1.description@ == room_text(rp.description)
                    &&& r.rooms@[i].1.hp_regen == rp.hp_regen
                    &&& r.rooms@[i].1.guids@.len() == room_monsters(rp)
                },
            r.entities@.len() == plan_total(world_plan.rooms@, world_plan.rooms@.len() as int),
            forall|j: int|
                0 <= j < r.entities@.len() ==> (#[trigger] r.entities@[j]).1.kind matches EntityType::Monster(_),
            forall|i: int| 0 <= i < r.rooms@.len() ==> r.has_room((#[trigger] r.rooms@[i]).0),
            (exists|i: int|
                0 <= i < world_plan.rooms@.len() && (#[trigger] world_plan.rooms@[i]).x
                    == world_plan.spawn_x && world_plan.rooms@[i].y == world_plan.spawn_y)
                ==> r.has_room(r.spawn),
            r.monsters_match_plan(world_plan.rooms@),
    {
        let mut world = World::new();
        let mut serial: u64 = 0;
        let mut i: usize = 0;
        while i < world_plan.rooms.len()
            invariant
                i <= world_plan.rooms@.len(),
                plan_coords_distinct(world_plan.rooms@),
                plan_rooms_wf(world_plan.rooms@),
                plan_total(world_plan.rooms@, world_plan.rooms@.len() as int) <= u64::MAX,
                world.wf(),
                world.afk_threshold == 60,
                world.next_serial == serial,
                serial == plan_total(world_plan.rooms@, i as int),
                world.entities@.len() == serial,
                world.rooms@.len() == i,
                forall|r2: int|
                    0 <= r2 < i ==> {
                        let rp = world_plan.rooms@[r2];
                        &&& (#[trigger] world.rooms@[r2]).0 == (Coords { x: rp.x, y: rp.y })
                        &&& world.rooms@[r2].1.description@ == room_text(rp.description)
                        &&& world.rooms@[r2].1.hp_regen == rp.hp_regen
                        &&& world.rooms@[r2].1.guids@.len() == room_monsters(rp)
                    },
                forall|j: int|
                    0 <= j < world.entities@.len() ==> (
                    #[trigger] world.entities@[j]).1.kind matches EntityType::Monster(_),
                world.monsters_match_plan(world_plan.rooms@),
            decreases world_plan.rooms@.len() - i,
        {
            proof {
                lemma_plan_total_mono(
                    world_plan.rooms@,
                    i as int + 1,
                    world_plan.rooms@.len() as int,
                );
            }
            let (coords, room, mut monsters) = Room::generate_with_coords_and_entities(
                &world_plan.rooms[i],
                &mut serial,
            );
            let ghost w0 = world;
            let ghost rs0 = world.rooms@;
            let ghost es0 = world.entities@;
            let ghost batch = monsters@;
            let ghost base = world.next_serial;
            proof {
                // The new coordinates are fresh: blueprints do not repeat
                // coordinates.
                if khas(rs0, coords) {
                    let r2 = kidx(rs0, coords);
                    assert(0 <= r2 < rs0.len() && rs0[r2].0 == coords);
                    assert(world_plan.rooms@[r2].x == world_plan.rooms@[i as int].x
                        && world_plan.rooms@[r2].y == world_plan.rooms@[i as int].y);
                    assert(false);
                }
                lemma_kpush(rs0, coords, room);
                // The batch's keys are new serials, disjoint from all old ones.
                assert forall|p: int, q: int|
                    0 <= p < q < batch.len() implies (#[trigger] batch[p]).0 != (
                #[trigger] batch[q]).0 by {
                    assert(batch[p].0.serial == base + p && batch[q].0.serial == base + q);
                }
                assert forall|p: int, q: int|
                    #![trigger es0[p], batch[q]]
                    0 <= p < es0.len() && 0 <= q < batch.len() implies es0[p].0 != batch[q].0 by {
                    assert(es0[p].0.serial < base);
                    assert(batch[q].0.serial == base + q);
                }
                lemma_kappend(es0, batch);
            }
            world.rooms.push((coords, room));
            world.entities.append(&mut monsters);
            world.next_serial = serial;
            proof {
                let b = world;
                assert(b.rooms@ == rs0.push((coords, room)));
                assert(b.entities@ == es0 + batch);
                assert(b.entities_in_rooms()) by {
                    assert forall|j: int| 0 <= j < b.entities@.len() implies {
                        let g2 = (#[trigger] b.entities@[j]).0;
                        let e2 = b.entities@[j].1;
                        khas(b.rooms@, e2.location) && kat(b.rooms@, e2.location).guids@.contains(
                            g2,
                        )
                    } by {
                        if j < es0.len() {
                            assert(b.entities@[j] == es0[j]);
                            let e2 = es0[j].1;
                            lemma_kidx_of(es0, j);
                            assert(khas(rs0, e2.location));
                            assert(e2.location != coords);
                            assert(kat(b.rooms@, e2.location) == kat(rs0, e2.location));
                        } else {
                            assert(b.entities@[j] == batch[j - es0.len()]);
                            assert(batch[j - es0.len()].1.monster_ok(coords));
                            lemma_kidx_of(b.rooms@, rs0.len() as int);
                            assert(kat(b.rooms@, coords) == room);
                            assert(room.guids@[j - es0.len()] == batch[j - es0.len()].0);
                        }
                    }
                }
                assert(b.occupants_are_entities()) by {
                    assert forall|r2: int, j2: int|
                        0 <= r2 < b.rooms@.len() && 0 <= j2 < b.rooms@[r2].1.guids@.len() implies {
                        let g2 = #[trigger] b.rooms@[r2].1.guids@[j2];
                        khas(b.entities@, g2) && kat(b.entities@, g2).location == b.rooms@[r2].0
                    } by {
                        if r2 < rs0.len() {
                            assert(b.rooms@[r2] == rs0[r2]);
                            let g2 = rs0[r2].1.guids@[j2];
                            assert(khas(es0, g2) && kat(es0, g2).location == rs0[r2].0);
                        } else {
                            assert(b.rooms@[r2] == (coords, room));
                            let g2 = room.guids@[j2];
                            assert(g2 == batch[j2].0);
                            lemma_kidx_of(batch, j2);
                            assert(khas(batch, g2) && kat(batch, g2) == batch[j2].1);
                            assert(batch[j2].1.monster_ok(coords));
                        }
                    }
                }
                assert(b.occupants_unique()) by {
                    assert forall|r2: int, j1: int, j2: int|
                        0 <= r2 < b.rooms@.len() && 0 <= j1 < j2 < b.rooms@[r2].1.guids@.len()
                        implies b.rooms@[r2].1.guids@[j1] != b.rooms@[r2].1.guids@[j2] by {
                        if r2 < rs0.len() {
                            assert(b.rooms@[r2] == rs0[r2]);
                        } else {
                            assert(b.rooms@[r2].1 == room);
                            assert(room.guids@[j1] == batch[j1].0);
                            assert(room.guids@[j2] == batch[j2].0);
                            assert(batch[j1].0.serial == base + j1);
                            assert(batch[j2].0.serial == base + j2);
                        }
                    }
                }
                assert(b.entities_alive()) by {
                    assert forall|j: int| 0 <= j < b.entities@.len() implies (
                    #[trigger] b.entities@[j]).1.alive() by {
                        if j < es0.len() {
                            assert(b.entities@[j] == es0[j]);
                        } else {
                            assert(b.entities@[j] == batch[j - es0.len()]);
                            assert(batch[j - es0.len()].1.monster_ok(coords));
                        }
                    }
                }
                assert(b.serials_bounded()) by {
                    assert forall|j: int|
                        0 <= j < b.entities@.len() implies (#[trigger] b.entities@[j]).0.serial
                        < b.next_serial by {
                        if j < es0.len() {
                            assert(b.entities@[j] == es0[j]);
                            assert(es0[j].0.serial < base);
                        } else {
                            assert(b.entities@[j] == batch[j - es0.len()]);
                            assert(batch[j - es0.len()].0.serial == base + (j - es0.len()));
                        }
                    }
                }
                assert forall|j: int|
                    0 <= j < b.entities@.len() implies (
                #[trigger] b.entities@[j]).1.kind matches EntityType::Monster(_) by {
                    if j < es0.len() {
                        assert(b.entities@[j] == es0[j]);
                    } else {
                        assert(b.entities@[j] == batch[j - es0.len()]);
                        assert(batch[j - es0.len()].1.monster_ok(coords));
                    }
                }
                assert(b.monsters_match_plan(world_plan.rooms@)) by {
                    assert forall|i2: int, j2: int|
                        #![trigger b.rooms@[i2].1.guids@[j2]]
                        0 <= i2 < b.rooms@.len() && i2 < world_plan.rooms@.len() && 0 <= j2
                            < b.rooms@[i2].1.guids@.len() implies {
                        let e = kat(b.entities@, b.rooms@[i2].1.guids@[j2]);
                        match world_plan.rooms@[i2].monsters {
                            Some(MonstersPlan::Random(_)) => 30 <= e.hp <= 150 && e.hp == e.max_hp
                                && 10 <= e.dp <= 30,
                            Some(MonstersPlan::Defined(l)) => j2 < l@.len() && e.hp == l@[j2].hp
                                && e.max_hp == l@[j2].hp && e.dp == l@[j2].dp,
                            None => false,
                        }
                    } by {
                        if i2 < rs0.len() {
                            assert(b.rooms@[i2] == rs0[i2]);
                            let g2 = rs0[i2].1.guids@[j2];
                            assert(w0.rooms@[i2].1.guids@[j2] == g2);
                            assert(khas(es0, g2));
                            assert(kat(b.entities@, g2) == kat(es0, g2));
                        } else {
                            assert(b.rooms@[i2].1 == room);
                            let g2 = room.guids@[j2];
                            assert(g2 == batch[j2].0);
                            lemma_kidx_of(batch, j2);
                            assert(khas(batch, g2));
                            assert(kat(b.entities@, g2) == kat(batch, g2));
                            assert(kat(batch, g2) == batch[j2].1);
                        }
                    }
                }
            }
            i = i + 1;
        }
        world.spawn = Coords { x: world_plan.spawn_x, y: world_plan.spawn_y };
        proof {
            assert forall|i2: int|
                0 <= i2 < world.rooms@.len() implies world.has_room(
                (#[trigger] world.rooms@[i2]).0,
            ) by {
                lemma_kidx_of(world.rooms@, i2);
            }
            if exists|i2: int|
                0 <= i2 < world_plan.rooms@.len() && (#[trigger] world_plan.rooms@[i2]).x
                    == world_plan.spawn_x && world_plan.rooms@[i2].y == world_plan.spawn_y {
                let i2 = choose|i2: int|
                    0 <= i2 < world_plan.rooms@.len() && (#[trigger] world_plan.rooms@[i2]).x
                        == world_plan.spawn_x && world_plan.rooms@[i2].y == world_plan.spawn_y;
                assert(world.rooms@[i2].0 == world.spawn);
                assert(world.has_room(world.rooms@[i2].0));
            }
        }
        world
    }

    /// The index of the room at `c`, if any.
    fn find_room_idx(&self, c: Coords) -> (r: Option<usize>)
        requires
            kunique(self.rooms@),
        ensures
            match r {
                Some(i) => i < self.rooms@.len() && self.rooms@[i as int].0 == c && self.has_room(
                    c,
                ) && kidx(self.rooms@, c) == i,
                None => !self.has_room(c),
            },
    {
        let mut i: usize = 0;
        while i < self.rooms.len()
            invariant
                kunique(self.rooms@),
                i <= self.rooms@.len(),
                forall|j: int| 0 <= j < i ==> (#[trigger] self.rooms@[j]).0 != c,
            decreases self.rooms@.len() - i,
        {
            if self.rooms[i].0 == c {
                proof {
                    lemma_kidx_of(self.rooms@, i as int);
                }
                return Some(i);
            }
            i = i + 1;
        }
        None
    }

    /// The index of the entity registered under `g`, if any.
    fn find_entity_idx(&self, g: Guid) -> (r: Option<usize>)
        requires
            kunique(self.entities@),
        ensures
            match r {
                Some(i) => i < self.entities@.len() && self.entities@[i as int].0 == g
                    && self.has_entity(g) && kidx(self.entities@, g) == i,
                None => !self.has_entity(g),
            },
    {
        let mut i: usize = 0;
        while i < self.entities.len()
            invariant
                kunique(self.entities@),
                i <= self.entities@.len(),
                forall|j: int| 0 <= j < i ==> (#[trigger] self.entities@[j]).0 != g,
            decreases self.entities@.len() - i,
        {
            if self.entities[i].0 == g {
                proof {
                    lemma_kidx_of(self.entities@, i as int);
                }
                return Some(i);
            }
            i = i + 1;
        }
        None
    }

    /// A shared borrow of the entity registered under `guid`, or
    /// `EntityNotFound`.
    pub fn get_entity(&self, guid: Guid) -> (r: Result<&Entity, WorldError>)
        requires
            kunique(self.entities@),
        ensures
            match r {
                Ok(e) => self.has_entity(guid) && *e == self.entity_at(guid),
                Err(e) => e matches WorldError::EntityNotFound(g) && g == guid && !self.has_entity(
                    guid,
                ),
            },
    {
        match self.find_entity_idx(guid) {
            Some(i) => {
                proof {
                    lemma_kidx_of(self.entities@, i as int);
                }
                Ok(&self.entities[i].1)
            },
            None => Err(WorldError::EntityNotFound(guid)),
        }
    }

    /// A shared borrow of the room at `location`, or `Wall`.
    pub fn get_room(&self, location: Coords) -> (r: Result<&Room, WorldError>)
        requires
            kunique(self.rooms@),
        ensures
            match r {
                Ok(room) => self.has_room(location) && *room == self.room_at(location),
                Err(e) => e matches WorldError::Wall && !self.has_room(location),
            },
    {
        match self.find_room_idx(location) {
            Some(i) => {
                proof {
                    lemma_kidx_of(self.rooms@, i as int);
                }
                Ok(&self.rooms[i].1)
            },
            None => Err(WorldError::Wall),
        }
    }

    /// The exits of the room at `c`, in the fixed order north, south, east,
    /// west: a direction is listed exactly when a room exists one step that
    /// way.
    pub open spec fn exits_seq(self, c: Coords) -> Seq<Direction> {
        self.exit_part(coords_north(c), Direction::N) + self.exit_part(
            coords_south(c),
            Direction::S,
        ) + self.exit_part(coords_east(c), Direction::E) + self.exit_part(
            coords_west(c),
            Direction::W,
        )
    }

    /// A single candidate exit: present when the neighbor exists and has a
    /// room.
    pub open spec fn exit_part(self, oc: Option<Coords>, d: Direction) -> Seq<Direction> {
        match oc {
            Some(cc) => if self.has_room(cc) {
                seq![d]
            } else {
                Seq::empty()
            },
            None => Seq::empty(),
        }
    }

    /// Computes the exits of the room at `coords`, enumerating north,
    /// south, east, west in that order.
    fn get_directions_for_coordinates(&self, coords: Coords) -> (r: Vec<Direction>)
        requires
            kunique(self.rooms@),
        ensures
            r@ == self.exits_seq(coords),
    {
        let mut directions: Vec<Direction> = Vec::new();
        if let Some(c) = coords.north() {
            if self.find_room_idx(c).is_some() {
                directions.push(Direction::N);
            }
        }
        proof {
            assert(directions@ =~= self.exit_part(coords_north(coords), Direction::N));
        }
        let ghost before_s = directions@;
        if let Some(c) = coords.south() {
            if self.find_room_idx(c).is_some() {
                directions.push(Direction::S);
            }
        }
        proof {
            assert(directions@ =~= before_s + self.exit_part(coords_south(coords), Direction::S));
        }
        let ghost before_e = directions@;
        if let Some(c) = coords.east() {
            if self.find_room_idx(c).is_some() {
                directions.push(Direction::E);
            }
        }
        proof {
            assert(directions@ =~= before_e + self.exit_part(coords_east(coords), Direction::E));
        }
        let ghost before_w = directions@;
        if let Some(c) = coords.west() {
            if self.find_room_idx(c).is_some() {
                directions.push(Direction::W);
            }
        }
        proof {
            assert(directions@ =~= before_w + self.exit_part(coords_west(coords), Direction::W));
            assert(directions@ =~= self.exits_seq(coords));
        }
        directions
    }

    /// Connects a new player: a fresh identifier is registered at spawn
    /// with 100 of 100 hit points and 10 damage, and the spawn room's
    /// occupant list gains it. Succeeds exactly when a room exists at
    /// spawn; fails with `Wall`, changing nothing, otherwise.
    pub fn connect(&mut self, now: u64) -> (r: Result<data_model::Status, WorldError>)
        requires
            old(self).wf(),
            old(self).next_serial < u64::MAX,
        ensures
            final(self).wf(),
            !old(self).has_room(old(self).spawn) ==> *final(self) == *old(self) && (r matches Err(
                WorldError::Wall,
            )),
            old(self).has_room(old(self).spawn) ==> (r matches Ok(st) && {
                let spawn = old(self).spawn;
                let player = (Entity {
                    kind: EntityType::Player,
                    max_hp: 100,
                    hp: 100,
                    dp: 10,
                    location: spawn,
                    afk_since: now,
                });
                &&& st.guid.serial == old(self).next_serial
                &&& !old(self).has_entity(st.guid)
                &&& final(self).next_serial == old(self).next_serial + 1
                &&& final(self).spawn == spawn
                &&& final(self).afk_threshold == old(self).afk_threshold
                &&& final(self).entities@ == old(self).entities@.push((st.guid, player))
                &&& final(self).has_entity(st.guid)
                &&& final(self).entity_at(st.guid) == player
                &&& (forall|g2: Guid|
                    g2 != st.guid && old(self).has_entity(g2)
                        ==> #[trigger] final(self).entity_at(g2) == old(self).entity_at(g2))
                &&& (forall|c: Coords|
                    #![trigger final(self).has_room(c)]
                    final(self).has_room(c) <==> old(self).has_room(c))
                &&& (forall|c: Coords|
                    old(self).has_room(c) ==> room_static_eq(
                        #[trigger] final(self).room_at(c),
                        old(self).room_at(c),
                    ))
                &&& (forall|c: Coords|
                    old(self).has_room(c) && c != spawn ==> #[trigger] final(self).room_at(c).guids
                        == old(self).room_at(c).guids)
                &&& final(self).room_at(spawn).guids@ == old(self).room_at(spawn).guids@.push(
                    st.guid,
                )
                &&& st.total_life == 100
                &&& st.room.description == old(self).room_at(spawn).description
                &&& st.room.entities@ == final(self).room_at(spawn).guids@
                &&& st.room.paths@ == final(self).exits_seq(spawn)
            }),
    {
        let spawn = self.spawn;
        let ri = match self.find_room_idx(spawn) {
            Some(i) => i,
            None => { return Err(WorldError::Wall) },
        };
        let tag = crate::guid::random_tag();
        let guid = Guid { serial: self.next_serial, tag };
        proof {
            if khas(old(self).entities@, guid) {
                let i = kidx(old(self).entities@, guid);
                assert(0 <= i < old(self).entities@.len() && old(self).entities@[i].0 == guid);
            }
            assert(!old(self).has_entity(guid));
            if old(self).rooms@[ri as int].1.guids@.contains(guid) {
                let j = choose|j: int|
                    0 <= j < old(self).rooms@[ri as int].1.guids@.len() && old(self).rooms@[
                        ri as int
                    ].1.guids@[j] == guid;
                assert(khas(old(self).entities@, guid));
            }
        }
        self.next_serial = self.next_serial + 1;
        let player = Entity {
            kind: EntityType::Player,
            max_hp: 100,
            hp: 100,
            dp: 10,
            location: spawn,
            afk_since: now,
        };
        let res = self.rooms[ri].1.add_guid(guid);
        proof {
            assert(res is Ok);
        }
        let description = self.rooms[ri].1.description.clone();
        let occupants = copy_guids(&self.rooms[ri].1.guids);
        self.entities.push((guid, player));
        proof {
            let a = *old(self);
            let b = *final(self);
            let rs0 = a.rooms@;
            let es0 = a.entities@;
            let room1 = b.rooms@[ri as int].1;
            assert(b.rooms@ == rs0.update(ri as int, (spawn, room1)));
            lemma_kupdate(rs0, ri as int, room1);
            lemma_kpush(es0, guid, player);
            assert(b.entities_in_rooms()) by {
                assert forall|i2: int| 0 <= i2 < b.entities@.len() implies {
                    let g2 = (#[trigger] b.entities@[i2]).0;
                    let e2 = b.entities@[i2].1;
                    khas(b.rooms@, e2.location) && kat(b.rooms@, e2.location).guids@.contains(g2)
                } by {
                    if i2 < es0.len() {
                        assert(b.entities@[i2] == es0[i2]);
                        let e2 = es0[i2].1;
                        lemma_kidx_of(es0, i2);
                        if e2.location == spawn {
                            lemma_kidx_of(rs0, ri as int);
                            assert(room1.guids@ == rs0[ri as int].1.guids@.push(guid));
                            assert(rs0[ri as int].1.guids@.contains(es0[i2].0));
                            let j = choose|j: int|
                                0 <= j < rs0[ri as int].1.guids@.len() && rs0[
                                    ri as int
                                ].1.guids@[j] == es0[i2].0;
                            assert(room1.guids@[j] == es0[i2].0);
                        } else {
                            assert(kat(b.rooms@, e2.location) == kat(rs0, e2.location));
                        }
                    } else {
                        assert(b.entities@[i2] == (guid, player));
                        lemma_kidx_of(rs0, ri as int);
                        assert(room1.guids@.last() == guid);
                    }
                }
            }
            assert(b.occupants_are_entities()) by {
                assert forall|i2: int, j2: int|
                    0 <= i2 < b.rooms@.len() && 0 <= j2 < b.rooms@[i2].1.guids@.len() implies {
                    let g2 = #[trigger] b.rooms@[i2].1.guids@[j2];
                    khas(b.entities@, g2) && kat(b.entities@, g2).location == b.rooms@[i2].0
                } by {
                    let g2 = b.rooms@[i2].1.guids@[j2];
                    if i2 == ri as int && j2 == room1.guids@.len() - 1 {
                        assert(g2 == guid);
                    } else {
                        assert(g2 == rs0[i2].1.guids@[j2]);
                        assert(khas(es0, g2));
                    }
                }
            }
            assert(b.occupants_unique()) by {
                assert forall|i2: int, j1: int, j2: int|
                    0 <= i2 < b.rooms@.len() && 0 <= j1 < j2 < b.rooms@[i2].1.guids@.len() implies
                    b.rooms@[i2].1.guids@[j1] != b.rooms@[i2].1.guids@[j2] by {
                    if i2 == ri as int {
                        let gl0 = rs0[ri as int].1.guids@;
                        if j2 == gl0.len() {
                            assert(b.rooms@[i2].1.guids@[j1] == gl0[j1]);
                            if gl0[j1] == guid {
                                assert(gl0.contains(guid));
                                assert(khas(es0, guid));
                            }
                        } else {
                            assert(b.rooms@[i2].1.guids@[j1] == gl0[j1]);
                            assert(b.rooms@[i2].1.guids@[j2] == gl0[j2]);
                        }
                    } else {
                        assert(b.rooms@[i2] == rs0[i2]);
                    }
                }
            }
            assert(b.entities_alive()) by {
                assert forall|i2: int| 0 <= i2 < b.entities@.len() implies (
                #[trigger] b.entities@[i2]).1.alive() by {
                    if i2 < es0.len() {
                        assert(b.entities@[i2] == es0[i2]);
                    }
                }
            }
            assert(b.serials_bounded()) by {
                assert forall|i2: int|
                    0 <= i2 < b.entities@.len() implies (#[trigger] b.entities@[i2]).0.serial
                    < b.next_serial by {
                    if i2 < es0.len() {
                        assert(b.entities@[i2] == es0[i2]);
                    }
                }
            }
        }
        let paths = self.get_directions_for_coordinates(spawn);
        proof {
            lemma_kidx_of(final(self).rooms@, ri as int);
        }
        Ok(data_model::Status {
            guid,
            total_life: 100,
            room: data_model::Room { description, paths, entities: occupants },
        })
    }

    /// Returns the description, occupants and exits of the room the entity
    /// registered under `guid` stands in; fails with `EntityNotFound` for
    /// an unknown identifier.
    pub fn look(&self, guid: Guid) -> (r: Result<data_model::Room, WorldError>)
        requires
            self.wf(),
        ensures
            match r {
                Ok(v) => self.has_entity(guid) && {
                    let c = self.entity_at(guid).location;
                    &&& v.description == self.room_at(c).description
                    &&& v.entities@ == self.room_at(c).guids@
                    &&& v.paths@ == self.exits_seq(c)
                },
                Err(e) => e matches WorldError::EntityNotFound(g) && g == guid
                    && !self.has_entity(guid),
            },
    {
        let ei = match self.find_entity_idx(guid) {
            Some(i) => i,
            None => { return Err(WorldError::EntityNotFound(guid)) },
        };
        let coords = self.entities[ei].1.location;
        proof {
            assert(self.entities@[ei as int].1.location == coords);
        }
        let ri = match self.find_room_idx(coords) {
            Some(i) => i,
            None => vstd::pervasive::unreached(),
        };
        proof {
            lemma_kidx_of(self.rooms@, ri as int);
        }
        let description = self.rooms[ri].1.description.clone();
        let occupants = copy_guids(&self.rooms[ri].1.guids);
        let paths = self.get_directions_for_coordinates(coords);
        Ok(data_model::Room { description, paths, entities: occupants })
    }

    /// Inspects `guid_dest` on behalf of `guid`: fails with
    /// `EntityNotFound` when either identifier is unknown and with
    /// `DiffRoom` whenever the two entities are not co-located; otherwise
    /// returns the target's description, hit points and kind.
    pub fn look_entity(&self, guid: Guid, guid_dest: Guid) -> (r: Result<
        data_model::Entity,
        WorldError,
    >)
        requires
            self.wf(),
        ensures
            match r {
                Ok(v) => self.has_entity(guid) && self.has_entity(guid_dest) && self.entity_at(
                    guid,
                ).location == self.entity_at(guid_dest).location && {
                    let e = self.entity_at(guid_dest);
                    &&& v.life == e.hp
                    &&& v.total_life == e.max_hp
                    &&& match e.kind {
                        EntityType::Player => v.kind == data_model::EntityType::Player
                            && v.description@ == ("Another player")@,
                        EntityType::Monster(text) => v.kind == data_model::EntityType::Monster
                            && v.description == text,
                    }
                },
                Err(e) => match e {
                    WorldError::EntityNotFound(g) => (g == guid && !self.has_entity(guid)) || (g
                        == guid_dest && self.has_entity(guid) && !self.has_entity(guid_dest)),
                    WorldError::DiffRoom => self.has_entity(guid) && self.has_entity(guid_dest)
                        && self.entity_at(guid).location != self.entity_at(guid_dest).location,
                    _ => false,
                },
            },
            self.has_entity(guid) && self.has_entity(guid_dest) && self.entity_at(guid).location
                != self.entity_at(guid_dest).location ==> r matches Err(WorldError::DiffRoom),
    {
        let ei = match self.find_entity_idx(guid) {
            Some(i) => i,
            None => { return Err(WorldError::EntityNotFound(guid)) },
        };
        let coords = self.entities[ei].1.location;
        proof {
            assert(self.entities@[ei as int].1.location == coords);
        }
        let di = match self.find_entity_idx(guid_dest) {
            Some(i) => i,
            None => { return Err(WorldError::EntityNotFound(guid_dest)) },
        };
        proof {
            lemma_kidx_of(self.entities@, di as int);
        }
        let target = &self.entities[di].1;
        if coords != target.location {
            return Err(WorldError::DiffRoom);
        }
        let (description, kind) = match &target.kind {
            EntityType::Player => (("Another player").to_owned(), data_model::EntityType::Player),
            EntityType::Monster(text) => (text.clone(), data_model::EntityType::Monster),
        };
        Ok(data_model::Entity { description, kind, life: target.hp, total_life: target.max_hp })
    }

    /// Moves the entity registered under `guid` one step in `direction`.
    /// The entity's activity time is stamped first, so even a failed move
    /// counts as activity. Fails with `EntityNotFound` for an unknown
    /// identifier (changing nothing) and with `Wall` when no room exists at
    /// the destination (stamping only); otherwise the entity changes rooms,
    /// the destination's regeneration is applied capped at its maximum hit
    /// points, and the destination's view is returned.
    #[verifier::rlimit(100)]
    pub fn move_direction(&mut self, guid: Guid, direction: Direction, now: u64) -> (r: Result<
        data_model::Room,
        WorldError,
    >)
        requires
            old(self).wf(),
        ensures
            final(self).wf(),
            !old(self).has_entity(guid) ==> *final(self) == *old(self) && (r matches Err(
                WorldError::EntityNotFound(g),
            ) && g == guid),
            old(self).has_entity(guid) ==> {
                let origin = old(self).entity_at(guid).location;
                let dopt = step_coords(origin, direction);
                if dopt is None || !old(self).has_room(dopt.unwrap()) {
                    only_stamped(*old(self), *final(self), guid, now) && (r matches Err(
                        WorldError::Wall,
                    ))
                } else {
                    let dest = dopt.unwrap();
                    let e0 = old(self).entity_at(guid);
                    let room_d = old(self).room_at(dest);
                    (r matches Ok(v) && {
                        &&& final(self).spawn == old(self).spawn
                        &&& final(self).afk_threshold == old(self).afk_threshold
                        &&& final(self).next_serial == old(self).next_serial
                        &&& (forall|g2: Guid|
                            #[trigger] final(self).has_entity(g2) <==> old(self).has_entity(g2))
                        &&& final(self).entity_at(guid) == (Entity {
                            location: dest,
                            hp: healed_hp(e0, regen_amount(room_d)) as u32,
                            afk_since: now,
                            ..e0
                        })
                        &&& (forall|g2: Guid|
                            g2 != guid && old(self).has_entity(g2)
                                ==> #[trigger] final(self).entity_at(g2) == old(self).entity_at(
                                g2,
                            ))
                        &&& (forall|c: Coords|
                            #[trigger] final(self).has_room(c) <==> old(self).has_room(c))
                        &&& (forall|c: Coords|
                            old(self).has_room(c) ==> room_static_eq(
                                #[trigger] final(self).room_at(c),
                                old(self).room_at(c),
                            ))
                        &&& (forall|c: Coords|
                            old(self).has_room(c) && c != origin && c != dest
                                ==> #[trigger] final(self).room_at(c).guids == old(self).room_at(
                                c,
                            ).guids)
                        &&& final(self).room_at(dest).guids@ == old(self).room_at(
                            dest,
                        ).guids@.push(guid)
                        &&& (forall|g2: Guid|
                            #[trigger] final(self).room_at(origin).guids@.contains(g2) <==> (old(
                                self,
                            ).room_at(origin).guids@.contains(g2) && g2 != guid))
                        &&& final(self).room_at(origin).guids@ == old(self).room_at(
                            origin,
                        ).guids@.remove(guid_index(old(self).room_at(origin).guids@, guid))
                        &&& v.description == room_d.description
                        &&& v.entities@ == final(self).room_at(dest).guids@
                        &&& v.paths@ == final(self).exits_seq(dest)
                    })
                }
            },
    {
        let ei = match self.find_entity_idx(guid) {
            Some(i) => i,
            None => { return Err(WorldError::EntityNotFound(guid)) },
        };
        self.entities[ei].1.afk_since = now;
        proof {
            let e1 = (Entity { afk_since: now, ..old(self).entities@[ei as int].1 });
            assert(self.entities@ == old(self).entities@.update(ei as int, (guid, e1)));
            lemma_entity_update(*old(self), *self, ei as int, e1);
        }
        let ghost a1 = *self;
        let origin = self.entities[ei].1.location;
        proof {
            assert(origin == old(self).entity_at(guid).location);
        }
        let dest = match match direction {
            Direction::N => origin.north(),
            Direction::S => origin.south(),
            Direction::E => origin.east(),
            Direction::W => origin.west(),
        } {
            Some(c) => c,
            None => { return Err(WorldError::Wall) },
        };
        let di = match self.find_room_idx(dest) {
            Some(i) => i,
            None => { return Err(WorldError::Wall) },
        };
        proof {
            assert(dest != origin);
        }
        let oi = match self.find_room_idx(origin) {
            Some(i) => i,
            None => vstd::pervasive::unreached(),
        };
        proof {
            assert(oi != di);
        }
        let res = self.rooms[oi].1.remove_guid(guid);
        proof {
            assert(a1.rooms@[oi as int].1.guids@.contains(guid)) by {
                assert(a1.entities@[ei as int].0 == guid);
                lemma_kidx_of(a1.rooms@, oi as int);
            }
            assert(res is Ok);
        }
        let ghost a2 = *self;
        // `guid` stands only in its own room's occupant list, so it is not
        // yet listed at the destination.
        proof {
            assert forall|j2: int|
                0 <= j2 < a1.rooms@[di as int].1.guids@.len() implies a1.rooms@[
                di as int
            ].1.guids@[j2] != guid by {
                if a1.rooms@[di as int].1.guids@[j2] == guid {
                    assert(kat(a1.entities@, guid).location == a1.rooms@[di as int].0);
                    lemma_kidx_of(a1.rooms@, di as int);
                }
            }
            assert(a2.rooms@[di as int] == a1.rooms@[di as int]);
        }
        let res2 = self.rooms[di].1.add_guid(guid);
        proof {
            if a2.rooms@[di as int].1.guids@.contains(guid) {
                let j = choose|j: int|
                    0 <= j < a2.rooms@[di as int].1.guids@.len() && a2.rooms@[
                        di as int
                    ].1.guids@[j] == guid;
                assert(false);
            }
            assert(res2 is Ok);
        }
        let reg = match self.rooms[di].1.hp_regen {
            Some(x) => x,
            None => 0,
        };
        let hp = self.entities[ei].1.hp;
        let mh = self.entities[ei].1.max_hp;
        let sum = hp.saturating_add(reg);
        let nh = if sum > mh {
            mh
        } else {
            sum
        };
        let ghost a3 = *self;
        self.entities[ei].1.hp = nh;
        self.entities[ei].1.location = dest;
        let description = self.rooms[di].1.description.clone();
        let occupants = copy_guids(&self.rooms[di].1.guids);
        proof {
            let a = *old(self);
            let b = *self;
            let rs0 = a.rooms@;
            let es0 = a.entities@;
            let e0 = kat(es0, guid);
            let room_o1 = a2.rooms@[oi as int].1;
            let room_d1 = a3.rooms@[di as int].1;
            let e2 = b.entities@[ei as int].1;
            assert(a2.rooms@ == rs0.update(oi as int, (origin, room_o1)));
            assert(b.rooms@ == a2.rooms@.update(di as int, (dest, room_d1)));
            assert(b.entities@ == es0.update(ei as int, (guid, e2)));
            lemma_kidx_of(es0, ei as int);
            assert(e2 == (Entity {
                location: dest,
                hp: healed_hp(e0, regen_amount(kat(rs0, dest))) as u32,
                afk_since: now,
                ..e0
            }));
            lemma_kupdate(rs0, oi as int, room_o1);
            lemma_kupdate(a2.rooms@, di as int, room_d1);
            lemma_kupdate(es0, ei as int, e2);
            lemma_kidx_of(rs0, oi as int);
            lemma_kidx_of(a2.rooms@, di as int);
            lemma_kidx_of(b.rooms@, di as int);
            lemma_kidx_of(b.entities@, ei as int);
            // Occupant-list membership facts for the origin room.
            let gl0 = rs0[oi as int].1.guids@;
            let gl1 = room_o1.guids@;
            let rem = choose|i: int|
                0 <= i < gl0.len() && gl0[i] == guid && (forall|j: int| 0 <= j < i ==> gl0[j] != guid)
                    && gl1 == gl0.remove(i);
            assert(gl1 == gl0.remove(rem));
            assert forall|g2: Guid| #[trigger] gl1.contains(g2) implies gl0.contains(g2) && (g2
                != guid) by {
                let j = choose|j: int| 0 <= j < gl1.len() && gl1[j] == g2;
                let sj = if j < rem { j } else { j + 1 };
                assert(gl0[sj] == g2);
                if g2 == guid {
                    assert(gl0[rem] == guid);
                    assert(false);
                }
            }
            assert forall|g2: Guid| gl0.contains(g2) && g2 != guid implies #[trigger] gl1.contains(
                g2,
            ) by {
                let j = choose|j: int| 0 <= j < gl0.len() && gl0[j] == g2;
                let tj = if j < rem { j } else { j - 1 };
                assert(gl1[tj] == g2);
            }
            // Any room listing `guid` in the old world is the origin room.
            assert forall|i2: int, j2: int|
                0 <= i2 < rs0.len() && 0 <= j2 < rs0[i2].1.guids@.len() && rs0[i2].1.guids@[j2]
                    == guid implies i2 == oi as int by {
                assert(kat(es0, guid).location == rs0[i2].0);
                lemma_kidx_of(rs0, i2);
            }
            // The removed position is the one index holding `guid`, since
            // occupant lists are duplicate-free.
            assert(guid_index(gl0, guid) == rem) by {
                assert(gl0[rem] == guid);
                let gi = guid_index(gl0, guid);
                assert(0 <= gi < gl0.len() && gl0[gi] == guid);
                if gi < rem {
                    assert(a.rooms@[oi as int].1.guids@[gi] != a.rooms@[oi as int].1.guids@[rem]);
                    assert(false);
                } else if rem < gi {
                    assert(a.rooms@[oi as int].1.guids@[rem] != a.rooms@[oi as int].1.guids@[gi]);
                    assert(false);
                }
            }
            let dl0 = rs0[di as int].1.guids@;
            assert(room_d1.guids@ == dl0.push(guid));
            assert(b.entities_in_rooms()) by {
                assert forall|i2: int| 0 <= i2 < b.entities@.len() implies {
                    let g2 = (#[trigger] b.entities@[i2]).0;
                    let e = b.entities@[i2].1;
                    khas(b.rooms@, e.location) && kat(b.rooms@, e.location).guids@.contains(g2)
                } by {
                    if i2 == ei as int {
                        assert(room_d1.guids@.last() == guid);
                    } else {
                        assert(b.entities@[i2] == es0[i2]);
                        let g2 = es0[i2].0;
                        let e = es0[i2].1;
                        lemma_kidx_of(es0, i2);
                        if e.location == origin {
                            assert(gl0.contains(g2));
                            assert(gl1.contains(g2));
                            assert(kat(b.rooms@, origin) == room_o1);
                        } else if e.location == dest {
                            assert(dl0.contains(g2));
                            let j = choose|j: int| 0 <= j < dl0.len() && dl0[j] == g2;
                            assert(room_d1.guids@[j] == g2);
                        } else {
                            assert(kat(b.rooms@, e.location) == kat(rs0, e.location));
                        }
                    }
                }
            }
            assert(b.occupants_are_entities()) by {
                assert forall|i2: int, j2: int|
                    0 <= i2 < b.rooms@.len() && 0 <= j2 < b.rooms@[i2].1.guids@.len() implies {
                    let g2 = #[trigger] b.rooms@[i2].1.guids@[j2];
                    khas(b.entities@, g2) && kat(b.entities@, g2).location == b.rooms@[i2].0
                } by {
                    let g2 = b.rooms@[i2].1.guids@[j2];
                    if i2 == di as int {
                        if j2 == room_d1.guids@.len() - 1 {
                            assert(g2 == guid);
                        } else {
                            assert(g2 == dl0[j2]);
                            assert(khas(es0, g2) && kat(es0, g2).location == rs0[i2].0);
                            if g2 == guid {
                                assert(rs0[i2].1.guids@[j2] == guid);
                                assert(false);
                            }
                        }
                    } else if i2 == oi as int {
                        assert(gl1.contains(g2));
                        assert(gl0.contains(g2) && g2 != guid);
                        let j0 = choose|j: int| 0 <= j < gl0.len() && gl0[j] == g2;
                        assert(khas(es0, g2) && kat(es0, g2).location == rs0[i2].0);
                    } else {
                        assert(b.rooms@[i2] == rs0[i2]);
                        assert(khas(es0, g2) && kat(es0, g2).location == rs0[i2].0);
                        if g2 == guid {
                            assert(rs0[i2].1.guids@[j2] == guid);
                            assert(false);
                        }
                    }
                }
            }
            assert(b.occupants_unique()) by {
                assert forall|i2: int, j1: int, j2: int|
                    0 <= i2 < b.rooms@.len() && 0 <= j1 < j2 < b.rooms@[i2].1.guids@.len() implies
                    b.rooms@[i2].1.guids@[j1] != b.rooms@[i2].1.guids@[j2] by {
                    if i2 == oi as int {
                        let s1 = if j1 < rem { j1 } else { j1 + 1 };
                        let s2 = if j2 < rem { j2 } else { j2 + 1 };
                        assert(gl1[j1] == gl0[s1]);
                        assert(gl1[j2] == gl0[s2]);
                        assert(gl0[s1] != gl0[s2]);
                    } else if i2 == di as int {
                        if j2 == room_d1.guids@.len() - 1 {
                            assert(b.rooms@[i2].1.guids@[j1] == dl0[j1]);
                            if dl0[j1] == guid {
                                assert(rs0[di as int].1.guids@[j1] == guid);
                            }
                        } else {
                            assert(b.rooms@[i2].1.guids@[j1] == dl0[j1]);
                            assert(b.rooms@[i2].1.guids@[j2] == dl0[j2]);
                        }
                    } else {
                        assert(b.rooms@[i2] == rs0[i2]);
                    }
                }
            }
            assert(b.entities_alive()) by {
                assert forall|i2: int| 0 <= i2 < b.entities@.len() implies (
                #[trigger] b.entities@[i2]).1.alive() by {
                    if i2 != ei as int {
                        assert(b.entities@[i2] == es0[i2]);
                    }
                }
            }
            assert(b.serials_bounded()) by {
                assert forall|i2: int|
                    0 <= i2 < b.entities@.len() implies (#[trigger] b.entities@[i2]).0.serial
                    < b.next_serial by {
                    if i2 != ei as int {
                        assert(b.entities@[i2] == es0[i2]);
                    } else {
                        assert(b.entities@[i2].0 == es0[ei as int].0);
                    }
                }
            }
        }
        let paths = self.get_directions_for_coordinates(dest);
        Ok(data_model::Room { description, paths, entities: occupants })
    }

    /// Resolves an attack. The attacker's activity time is stamped first.
    /// Fails with `EntityNotFound` or `RoomMismatch` as `look_entity` does.
    /// Damage is taken simultaneously from pre-attack snapshots with
    /// saturating subtraction, so the exchange does not depend on order;
    /// any entity reaching zero hit points is removed for good. If the
    /// attacker dies the call reports `Disappeared` — its own death takes
    /// precedence — and otherwise both combatants' post-exchange state.
    #[verifier::rlimit(100)]
    pub fn attack(&mut self, attacker_guid: Guid, defender_guid: Guid, now: u64) -> (r: Result<
        data_model::Fight,
        WorldError,
    >)
        requires
            old(self).wf(),
        ensures
            final(self).wf(),
            !old(self).has_entity(attacker_guid) ==> *final(self) == *old(self) && (r matches Err(
                WorldError::EntityNotFound(g),
            ) && g == attacker_guid),
            old(self).has_entity(attacker_guid) && !old(self).has_entity(defender_guid)
                ==> only_stamped(*old(self), *final(self), attacker_guid, now) && (r matches Err(
                WorldError::EntityNotFound(g),
            ) && g == defender_guid),
            old(self).has_entity(attacker_guid) && old(self).has_entity(defender_guid) && old(
                self,
            ).entity_at(attacker_guid).location != old(self).entity_at(defender_guid).location
                ==> only_stamped(*old(self), *final(self), attacker_guid, now) && (r matches Err(
                WorldError::DiffRoom,
            )),
            old(self).has_entity(attacker_guid) && old(self).has_entity(defender_guid) && old(
                self,
            ).entity_at(attacker_guid).location == old(self).entity_at(defender_guid).location
                ==> {
                let a0 = old(self).entity_at(attacker_guid);
                let d0 = old(self).entity_at(defender_guid);
                let na = sat_sub(a0.hp, d0.dp);
                let nd = sat_sub(d0.hp, a0.dp);
                let loc = a0.location;
                &&& final(self).spawn == old(self).spawn
                &&& final(self).afk_threshold == old(self).afk_threshold
                &&& final(self).next_serial == old(self).next_serial
                &&& (na == 0 ==> {
                    &&& r matches Err(WorldError::Disappeared)
                    &&& !final(self).has_entity(attacker_guid)
                })
                &&& (na != 0 ==> {
                    &&& final(self).has_entity(attacker_guid)
                    &&& final(self).entity_at(attacker_guid) == (Entity {
                        hp: na as u32,
                        afk_since: now,
                        ..a0
                    })
                    &&& r matches Ok(f) && f.attacker.guid == attacker_guid && f.attacker.dp
                        == a0.dp && f.attacker.hp == na && f.defender.guid == defender_guid
                        && f.defender.dp == d0.dp && f.defender.hp == nd
                })
                &&& (defender_guid != attacker_guid && nd == 0 ==> !final(self).has_entity(
                    defender_guid,
                ))
                &&& (defender_guid != attacker_guid && nd != 0 ==> final(self).has_entity(
                    defender_guid,
                ) && final(self).entity_at(defender_guid) == (Entity { hp: nd as u32, ..d0 }))
                &&& (forall|g2: Guid|
                    #![trigger final(self).has_entity(g2)]
                    g2 != attacker_guid && g2 != defender_guid ==> (final(self).has_entity(g2)
                        <==> old(self).has_entity(g2)))
                &&& (forall|g2: Guid|
                    g2 != attacker_guid && g2 != defender_guid && old(self).has_entity(g2)
                        ==> #[trigger] final(self).entity_at(g2) == old(self).entity_at(g2))
                &&& (forall|c: Coords|
                    #![trigger final(self).has_room(c)]
                    final(self).has_room(c) <==> old(self).has_room(c))
                &&& (forall|c: Coords|
                    old(self).has_room(c) ==> room_static_eq(
                        #[trigger] final(self).room_at(c),
                        old(self).room_at(c),
                    ))
                &&& (forall|c: Coords|
                    old(self).has_room(c) && c != loc ==> (#[trigger] final(self).room_at(
                        c,
                    ).guids == old(self).room_at(c).guids))
                &&& (forall|g2: Guid|
                    #![trigger final(self).room_at(loc).guids@.contains(g2)]
                    final(self).room_at(loc).guids@.contains(g2) <==> (old(self).room_at(
                        loc,
                    ).guids@.contains(g2) && !(g2 == attacker_guid && na == 0) && !(g2
                        == defender_guid && nd == 0)))
                &&& (na != 0 && nd != 0 ==> final(self).room_at(loc).guids == old(self).room_at(
                    loc,
                ).guids)
                &&& (defender_guid != attacker_guid ==> {
                    let l0 = old(self).room_at(loc).guids@;
                    let l1 = if nd == 0 {
                        l0.remove(guid_index(l0, defender_guid))
                    } else {
                        l0
                    };
                    let l2 = if na == 0 {
                        l1.remove(guid_index(l1, attacker_guid))
                    } else {
                        l1
                    };
                    final(self).room_at(loc).guids@ == l2
                })
                &&& (defender_guid == attacker_guid && na == 0 ==> final(self).room_at(
                    loc,
                ).guids@ == old(self).room_at(loc).guids@.remove(
                    guid_index(old(self).room_at(loc).guids@, attacker_guid),
                ))
            },
    {
        let ai = match self.find_entity_idx(attacker_guid) {
            Some(i) => i,
            None => { return Err(WorldError::EntityNotFound(attacker_guid)) },
        };
        self.entities[ai].1.afk_since = now;
        proof {
            let e1 = (Entity { afk_since: now, ..old(self).entities@[ai as int].1 });
            assert(self.entities@ == old(self).entities@.update(ai as int, (attacker_guid, e1)));
            lemma_entity_update(*old(self), *self, ai as int, e1);
        }
        let ghost a1 = *self;
        let di = match self.find_entity_idx(defender_guid) {
            Some(i) => i,
            None => { return Err(WorldError::EntityNotFound(defender_guid)) },
        };
        let same_loc = {
            let aloc = self.entities[ai].1.location;
            let dloc = self.entities[di].1.location;
            aloc == dloc
        };
        if !same_loc {
            return Err(WorldError::DiffRoom);
        }
        proof {
            lemma_kidx_of(a1.entities@, ai as int);
            lemma_kidx_of(a1.entities@, di as int);
        }
        let ahp = self.entities[ai].1.hp;
        let adp = self.entities[ai].1.dp;
        let dhp = self.entities[di].1.hp;
        let ddp = self.entities[di].1.dp;
        let na = ahp.saturating_sub(ddp);
        let nd = dhp.saturating_sub(adp);
        let ghost loc = a1.entity_at(attacker_guid).location;
        proof {
            lemma_kidx_of(a1.entities@, ai as int);
            lemma_kidx_of(a1.entities@, di as int);
            assert(a1.entity_at(attacker_guid) == a1.entities@[ai as int].1);
            assert(a1.entity_at(defender_guid) == a1.entities@[di as int].1);
            assert(a1.entity_at(defender_guid).location == loc);
            assert(loc == old(self).entity_at(attacker_guid).location);
            assert(na == sat_sub(
                old(self).entity_at(attacker_guid).hp,
                old(self).entity_at(defender_guid).dp,
            ));
            assert(nd == sat_sub(
                old(self).entity_at(defender_guid).hp,
                old(self).entity_at(attacker_guid).dp,
            ));
        }
        if attacker_guid == defender_guid {
            // Striking oneself: one entity takes its own damage once.
            if na == 0 {
                self.remove_entity(attacker_guid);
                proof {
                    let a = *old(self);
                    let b = *self;
                    assert forall|g2: Guid|
                        #![trigger b.room_at(loc).guids@.contains(g2)]
                        b.room_at(loc).guids@.contains(g2) <==> (a.room_at(loc).guids@.contains(
                            g2,
                        ) && g2 != attacker_guid) by {
                        assert(a1.room_at(loc) == a.room_at(loc));
                        assert(b.room_at(loc).guids@.contains(g2) <==> (a1.room_at(
                            loc,
                        ).guids@.contains(g2) && g2 != attacker_guid));
                    }
                }
                return Err(WorldError::Disappeared);
            }
            proof {
                lemma_kidx_of(a1.entities@, ai as int);
            }
            self.entities[ai].1.hp = na;
            proof {
                let e2 = (Entity { hp: na, ..a1.entities@[ai as int].1 });
                assert(self.entities@ == a1.entities@.update(ai as int, (attacker_guid, e2)));
                lemma_entity_update(a1, *self, ai as int, e2);
            }
            return Ok(data_model::Fight {
                attacker: data_model::Fighter { guid: attacker_guid, dp: adp, hp: na },
                defender: data_model::Fighter { guid: defender_guid, dp: ddp, hp: nd },
            });
        }
        if nd == 0 {
            self.remove_entity(defender_guid);
        } else {
            self.entities[di].1.hp = nd;
            proof {
                let e2 = (Entity { hp: nd, ..a1.entities@[di as int].1 });
                assert(self.entities@ == a1.entities@.update(di as int, (defender_guid, e2)));
                lemma_entity_update(a1, *self, di as int, e2);
            }
        }
        let ghost a2 = *self;
        proof {
            assert(a2.entity_at(attacker_guid) == a1.entity_at(attacker_guid));
        }
        if na == 0 {
            self.remove_entity(attacker_guid);
            proof {
                lemma_attack_compose(
                    *old(self),
                    a1,
                    a2,
                    *self,
                    attacker_guid,
                    defender_guid,
                    loc,
                    na == 0,
                    nd == 0,
                );
            }
            return Err(WorldError::Disappeared);
        }
        let ai2 = match self.find_entity_idx(attacker_guid) {
            Some(i) => i,
            None => vstd::pervasive::unreached(),
        };
        proof {
            lemma_kidx_of(a2.entities@, ai2 as int);
        }
        self.entities[ai2].1.hp = na;
        proof {
            lemma_kidx_of(a1.entities@, ai as int);
            assert(a2.entity_at(attacker_guid) == a1.entity_at(attacker_guid));
            assert(a2.entities@[ai2 as int].1 == a2.entity_at(attacker_guid));
            assert(a1.entity_at(attacker_guid) == a1.entities@[ai as int].1);
            assert(a1.entities@[ai as int].1.alive());
            let e2 = (Entity { hp: na, ..a2.entities@[ai2 as int].1 });
            assert(self.entities@ == a2.entities@.update(ai2 as int, (attacker_guid, e2)));
            lemma_entity_update(a2, *self, ai2 as int, e2);
            lemma_attack_compose(
                *old(self),
                a1,
                a2,
                *self,
                attacker_guid,
                defender_guid,
                loc,
                false,
                nd == 0,
            );
        }
        Ok(data_model::Fight {
            attacker: data_model::Fighter { guid: attacker_guid, dp: adp, hp: na },
            defender: data_model::Fighter { guid: defender_guid, dp: ddp, hp: nd },
        })
    }

    /// An occupant listed in an existing room is a registered entity
    /// located there.
    proof fn lemma_occupant_entity(self, c: Coords, g: Guid)
        requires
            self.wf(),
            self.has_room(c),
            self.room_at(c).guids@.contains(g),
        ensures
            self.has_entity(g),
            self.entity_at(g).location == c,
    {
        let ri = kidx(self.rooms@, c);
        assert(0 <= ri < self.rooms@.len() && self.rooms@[ri].0 == c);
        let j = choose|j: int|
            0 <= j < self.room_at(c).guids@.len() && self.room_at(c).guids@[j] == g;
        assert(self.rooms@[ri].1.guids@[j] == g);
    }

    /// Removes every player whose last activity is older than the idle
    /// threshold from its room's occupant list and from the entity table;
    /// monsters and recently active players stay untouched. Never fails.
    pub fn disconnect_afk_players(&mut self, now: u64) -> (r: Result<(), WorldError>)
        requires
            old(self).wf(),
        ensures
            final(self).wf(),
            r matches Ok(()),
            final(self).spawn == old(self).spawn,
            final(self).afk_threshold == old(self).afk_threshold,
            final(self).next_serial == old(self).next_serial,
            forall|g2: Guid|
                #![trigger final(self).has_entity(g2)]
                final(self).has_entity(g2) <==> (old(self).has_entity(g2) && !is_idle_player(
                    old(self).entity_at(g2),
                    now,
                    old(self).afk_threshold,
                )),
            forall|g2: Guid|
                #![trigger final(self).entity_at(g2)]
                final(self).has_entity(g2) ==> final(self).entity_at(g2) == old(self).entity_at(
                    g2,
                ),
            forall|c: Coords|
                #![trigger final(self).has_room(c)]
                final(self).has_room(c) <==> old(self).has_room(c),
            forall|c: Coords|
                old(self).has_room(c) ==> room_static_eq(
                    #[trigger] final(self).room_at(c),
                    old(self).room_at(c),
                ),
            forall|c: Coords, g2: Guid|
                #![trigger final(self).room_at(c).guids@.contains(g2)]
                old(self).has_room(c) ==> (final(self).room_at(c).guids@.contains(g2) <==> (old(
                    self,
                ).room_at(c).guids@.contains(g2) && !(old(self).has_entity(g2) && is_idle_player(
                    old(self).entity_at(g2),
                    now,
                    old(self).afk_threshold,
                )))),
            forall|c: Coords|
                old(self).has_room(c) && no_evicted_occupant(*old(self), c, now)
                    ==> #[trigger] final(self).room_at(c).guids == old(self).room_at(c).guids,
    {
        let ghost s0 = *old(self);
        let mut idle: Vec<Guid> = Vec::new();
        let mut i: usize = 0;
        while i < self.entities.len()
            invariant
                *self == s0,
                s0.wf(),
                i <= self.entities@.len(),
                forall|k1: int|
                    #![trigger idle@[k1]]
                    0 <= k1 < idle@.len() ==> s0.has_entity(idle@[k1]) && is_idle_player(
                        s0.entity_at(idle@[k1]),
                        now,
                        s0.afk_threshold,
                    ),
                forall|j: int|
                    0 <= j < i && is_idle_player(
                        (#[trigger] s0.entities@[j]).1,
                        now,
                        s0.afk_threshold,
                    ) ==> among(idle@, idle@.len() as int, s0.entities@[j].0),
            decreases self.entities@.len() - i,
        {
            let idle_p = match &self.entities[i].1.kind {
                EntityType::Player => match self.entities[i].1.afk_since.checked_add(
                    self.afk_threshold,
                ) {
                    Some(s) => s < now,
                    None => false,
                },
                EntityType::Monster(_) => false,
            };
            proof {
                assert(idle_p == is_idle_player(s0.entities@[i as int].1, now, s0.afk_threshold));
                lemma_kidx_of(s0.entities@, i as int);
            }
            let ghost idle0 = idle@;
            if idle_p {
                let g = self.entities[i].0;
                idle.push(g);
            }
            proof {
                assert forall|j: int|
                    0 <= j < i + 1 && is_idle_player(
                        (#[trigger] s0.entities@[j]).1,
                        now,
                        s0.afk_threshold,
                    ) implies among(idle@, idle@.len() as int, s0.entities@[j].0) by {
                    if j < i {
                        assert(among(idle0, idle0.len() as int, s0.entities@[j].0));
                        let k1 = choose|k1: int|
                            0 <= k1 < idle0.len() && idle0[k1] == s0.entities@[j].0;
                        assert(idle@[k1] == s0.entities@[j].0);
                    } else {
                        assert(idle@[idle@.len() - 1] == s0.entities@[i as int].0);
                    }
                }
            }
            i = i + 1;
        }
        let ghost idle_snap = idle@;
        let mut k: usize = 0;
        while k < idle.len()
            invariant
                idle@ == idle_snap,
                k <= idle@.len(),
                s0.wf(),
                self.wf(),
                self.spawn == s0.spawn,
                self.afk_threshold == s0.afk_threshold,
                self.next_serial == s0.next_serial,
                forall|k1: int|
                    #![trigger idle@[k1]]
                    0 <= k1 < idle@.len() ==> s0.has_entity(idle@[k1]) && is_idle_player(
                        s0.entity_at(idle@[k1]),
                        now,
                        s0.afk_threshold,
                    ),
                forall|g2: Guid|
                    s0.has_entity(g2) && is_idle_player(s0.entity_at(g2), now, s0.afk_threshold)
                        ==> among(idle@, idle@.len() as int, g2),
                forall|g2: Guid|
                    #![trigger self.has_entity(g2)]
                    self.has_entity(g2) <==> (s0.has_entity(g2) && !among(idle@, k as int, g2)),
                forall|g2: Guid|
                    #![trigger self.entity_at(g2)]
                    self.has_entity(g2) ==> self.entity_at(g2) == s0.entity_at(g2),
                forall|c: Coords|
                    #![trigger self.has_room(c)]
                    self.has_room(c) <==> s0.has_room(c),
                forall|c: Coords|
                    s0.has_room(c) ==> room_static_eq(#[trigger] self.room_at(c), s0.room_at(c)),
                forall|c: Coords, g2: Guid|
                    #![trigger self.room_at(c).guids@.contains(g2)]
                    s0.has_room(c) ==> (self.room_at(c).guids@.contains(g2) <==> (s0.room_at(
                        c,
                    ).guids@.contains(g2) && !among(idle@, k as int, g2))),
                forall|c: Coords|
                    s0.has_room(c) && no_evicted_occupant(s0, c, now) ==> #[trigger] self.room_at(
                        c,
                    ).guids == s0.room_at(c).guids,
            decreases idle@.len() - k,
        {
            let g = idle[k];
            let present = match self.find_entity_idx(g) {
                Some(_) => true,
                None => false,
            };
            if present {
                let ghost mid = *self;
                self.remove_entity(g);
                proof {
                    let b = *self;
                    let locg = mid.entity_at(g).location;
                    assert forall|g2: Guid|
                        #![trigger b.has_entity(g2)]
                        b.has_entity(g2) <==> (s0.has_entity(g2) && !among(idle@, k + 1, g2)) by {
                        assert(among(idle@, k + 1, g2) <==> (among(idle@, k as int, g2) || g2
                            == idle@[k as int]));
                        if g2 != g {
                            assert(b.has_entity(g2) <==> mid.has_entity(g2));
                        }
                    }
                    assert forall|g2: Guid|
                        #![trigger b.entity_at(g2)]
                        b.has_entity(g2) implies b.entity_at(g2) == s0.entity_at(g2) by {
                        assert(mid.has_entity(g2));
                        if g2 != g {
                            assert(b.entity_at(g2) == mid.entity_at(g2));
                            assert(mid.entity_at(g2) == s0.entity_at(g2));
                        }
                    }
                    assert forall|c: Coords|
                        s0.has_room(c) implies room_static_eq(
                        #[trigger] b.room_at(c),
                        s0.room_at(c),
                    ) by {
                        assert(mid.has_room(c));
                        assert(room_static_eq(b.room_at(c), mid.room_at(c)));
                        assert(room_static_eq(mid.room_at(c), s0.room_at(c)));
                    }
                    // The evicted player's room holds an evicted
                    // occupant in the starting world, so every room that
                    // holds none keeps its exact occupant sequence.
                    assert(s0.has_entity(g) && is_idle_player(s0.entity_at(g), now, s0.afk_threshold));
                    assert(mid.entity_at(g) == s0.entity_at(g));
                    assert(s0.room_at(locg).guids@.contains(g)) by {
                        let j = kidx(s0.entities@, g);
                        lemma_kidx_of(s0.entities@, j);
                        assert(s0.entities@[j].1.location == locg);
                    }
                    assert forall|c: Coords|
                        s0.has_room(c) && no_evicted_occupant(s0, c, now) implies #[trigger] b.room_at(
                        c,
                    ).guids == s0.room_at(c).guids by {
                        assert(mid.has_room(c));
                        if c == locg {
                            assert(s0.room_at(locg).guids@.contains(g));
                            assert(false);
                        } else {
                            assert(b.room_at(c).guids == mid.room_at(c).guids);
                            assert(mid.room_at(c).guids == s0.room_at(c).guids);
                        }
                    }
                    assert forall|c: Coords, g2: Guid|
                        #![trigger b.room_at(c).guids@.contains(g2)]
                        s0.has_room(c) implies (b.room_at(c).guids@.contains(g2) <==> (s0.room_at(
                        c,
                    ).guids@.contains(g2) && !among(idle@, k + 1, g2))) by {
                        assert(among(idle@, k + 1, g2) <==> (among(idle@, k as int, g2) || g2
                            == idle@[k as int]));
                        assert(mid.has_room(c));
                        if c == locg {
                            assert(b.room_at(c).guids@.contains(g2) <==> (mid.room_at(
                                c,
                            ).guids@.contains(g2) && g2 != g));
                            assert(mid.room_at(c).guids@.contains(g2) <==> (s0.room_at(
                                c,
                            ).guids@.contains(g2) && !among(idle@, k as int, g2)));
                        } else {
                            assert(b.room_at(c).guids == mid.room_at(c).guids);
                            assert(mid.room_at(c).guids@.contains(g2) <==> (s0.room_at(
                                c,
                            ).guids@.contains(g2) && !among(idle@, k as int, g2)));
                            if g2 == g && mid.room_at(c).guids@.contains(g2) {
                                mid.lemma_occupant_entity(c, g);
                                assert(false);
                            }
                        }
                    }
                }
            } else {
                proof {
                    let b = *self;
                    assert(s0.has_entity(g) && !b.has_entity(g));
                    assert(among(idle@, k as int, g));
                    assert forall|g2: Guid|
                        #![trigger b.has_entity(g2)]
                        b.has_entity(g2) <==> (s0.has_entity(g2) && !among(idle@, k + 1, g2)) by {
                        assert(among(idle@, k + 1, g2) <==> (among(idle@, k as int, g2) || g2
                            == idle@[k as int]));
                    }
                    assert forall|c: Coords, g2: Guid|
                        #![trigger b.room_at(c).guids@.contains(g2)]
                        s0.has_room(c) implies (b.room_at(c).guids@.contains(g2) <==> (s0.room_at(
                        c,
                    ).guids@.contains(g2) && !among(idle@, k + 1, g2))) by {
                        assert(among(idle@, k + 1, g2) <==> (among(idle@, k as int, g2) || g2
                            == idle@[k as int]));
                        if g2 == g && b.room_at(c).guids@.contains(g2) {
                            b.lemma_occupant_entity(c, g);
                            assert(false);
                        }
                    }
                }
            }
            k = k + 1;
        }
        proof {
            let b = *self;
            assert forall|g2: Guid|
                #![trigger b.has_entity(g2)]
                b.has_entity(g2) <==> (s0.has_entity(g2) && !is_idle_player(
                    s0.entity_at(g2),
                    now,
                    s0.afk_threshold,
                )) by {
                if s0.has_entity(g2) {
                    if among(idle@, idle@.len() as int, g2) {
                        let k1 = choose|j: int| 0 <= j < idle@.len() && idle@[j] == g2;
                        assert(is_idle_player(s0.entity_at(idle@[k1]), now, s0.afk_threshold));
                    }
                }
            }
            assert forall|c: Coords, g2: Guid|
                #![trigger b.room_at(c).guids@.contains(g2)]
                s0.has_room(c) implies (b.room_at(c).guids@.contains(g2) <==> (s0.room_at(
                c,
            ).guids@.contains(g2) && !(s0.has_entity(g2) && is_idle_player(
                s0.entity_at(g2),
                now,
                s0.afk_threshold,
            )))) by {
                if s0.room_at(c).guids@.contains(g2) {
                    s0.lemma_occupant_entity(c, g2);
                    if among(idle@, idle@.len() as int, g2) {
                        let k1 = choose|j: int| 0 <= j < idle@.len() && idle@[j] == g2;
                        assert(is_idle_player(s0.entity_at(idle@[k1]), now, s0.afk_threshold));
                    }
                }
            }
        }
        Ok(())
    }

    /// Unregisters `guid` and takes it out of its room's occupant list;
    /// everything else is untouched.
    fn remove_entity(&mut self, guid: Guid)
        requires
            old(self).wf(),
            old(self).has_entity(guid),
        ensures
            final(self).wf(),
            final(self).spawn == old(self).spawn,
            final(self).afk_threshold == old(self).afk_threshold,
            final(self).next_serial == old(self).next_serial,
            !final(self).has_entity(guid),
            forall|g2: Guid|
                g2 != guid ==> (#[trigger] final(self).has_entity(g2) <==> old(self).has_entity(
                    g2,
                )),
            forall|g2: Guid|
                g2 != guid && old(self).has_entity(g2) ==> #[trigger] final(self).entity_at(g2)
                    == old(self).entity_at(g2),
            forall|c: Coords| #[trigger] final(self).has_room(c) <==> old(self).has_room(c),
            forall|c: Coords|
                old(self).has_room(c) ==> room_static_eq(
                    #[trigger] final(self).room_at(c),
                    old(self).room_at(c),
                ),
            forall|c: Coords|
                old(self).has_room(c) && c != old(self).entity_at(guid).location
                    ==> #[trigger] final(self).room_at(c).guids == old(self).room_at(c).guids,
            forall|g2: Guid|
                #[trigger] final(self).room_at(old(self).entity_at(guid).location).guids@.contains(
                    g2,
                ) <==> (old(self).room_at(old(self).entity_at(guid).location).guids@.contains(g2)
                    && g2 != guid),
            final(self).room_at(old(self).entity_at(guid).location).guids@ == old(self).room_at(
                old(self).entity_at(guid).location,
            ).guids@.remove(
                guid_index(old(self).room_at(old(self).entity_at(guid).location).guids@, guid),
            ),
    {
        let ei = match self.find_entity_idx(guid) {
            Some(i) => i,
            None => vstd::pervasive::unreached(),
        };
        let loc = self.entities[ei].1.location;
        proof {
            assert(old(self).entities@[ei as int].1.location == loc);
        }
        let ri = match self.find_room_idx(loc) {
            Some(i) => i,
            None => vstd::pervasive::unreached(),
        };
        let res = self.rooms[ri].1.remove_guid(guid);
        proof {
            assert(res is Ok);
        }
        let ghost mid = *self;
        self.entities.remove(ei);
        proof {
            let a = *old(self);
            let b = *final(self);
            let rs0 = a.rooms@;
            let es0 = a.entities@;
            let room1 = mid.rooms@[ri as int].1;
            assert(mid.rooms@ == rs0.update(ri as int, (loc, room1)));
            lemma_kupdate(rs0, ri as int, room1);
            lemma_kremove(es0, ei as int);
            lemma_kidx_of(es0, ei as int);
            // Membership in the shrunk occupant list: everything but `guid`
            // survives, and `guid` is gone because the list held it once.
            let gl0 = rs0[ri as int].1.guids@;
            let gl1 = room1.guids@;
            let rem = choose|i: int|
                0 <= i < gl0.len() && gl0[i] == guid && (forall|j: int| 0 <= j < i ==> gl0[j] != guid)
                    && gl1 == gl0.remove(i);
            assert(gl1 == gl0.remove(rem));
            assert forall|g2: Guid| #[trigger] gl1.contains(g2) implies gl0.contains(g2) && (g2
                != guid) by {
                let j = choose|j: int| 0 <= j < gl1.len() && gl1[j] == g2;
                let sj = if j < rem { j } else { j + 1 };
                assert(gl0[sj] == g2);
                if g2 == guid {
                    assert(gl0[rem] == guid);
                    assert(false);
                }
            }
            assert forall|g2: Guid| gl0.contains(g2) && g2 != guid implies #[trigger] gl1.contains(
                g2,
            ) by {
                let j = choose|j: int| 0 <= j < gl0.len() && gl0[j] == g2;
                let tj = if j < rem { j } else { j - 1 };
                assert(gl1[tj] == g2);
            }
            // The entity's room is the only room listing it.
            assert forall|i2: int, j2: int|
                0 <= i2 < rs0.len() && 0 <= j2 < rs0[i2].1.guids@.len() && rs0[i2].1.guids@[j2]
                    == guid implies i2 == ri as int by {
                assert(kat(es0, guid).location == rs0[i2].0);
                lemma_kidx_of(rs0, i2);
                lemma_kidx_of(rs0, ri as int);
            }
            // The removed position is the one index holding `guid`, since
            // occupant lists are duplicate-free.
            lemma_kidx_of(rs0, ri as int);
            assert(guid_index(gl0, guid) == rem) by {
                assert(gl0[rem] == guid);
                let gi = guid_index(gl0, guid);
                assert(0 <= gi < gl0.len() && gl0[gi] == guid);
                if gi < rem {
                    assert(a.rooms@[ri as int].1.guids@[gi] != a.rooms@[ri as int].1.guids@[rem]);
                    assert(false);
                } else if rem < gi {
                    assert(a.rooms@[ri as int].1.guids@[rem] != a.rooms@[ri as int].1.guids@[gi]);
                    assert(false);
                }
            }
            assert(b.entities_in_rooms()) by {
                assert forall|i2: int| 0 <= i2 < b.entities@.len() implies {
                    let g2 = (#[trigger] b.entities@[i2]).0;
                    let e2 = b.entities@[i2].1;
                    khas(b.rooms@, e2.location) && kat(b.rooms@, e2.location).guids@.contains(g2)
                } by {
                    let si = if i2 < ei as int { i2 } else { i2 + 1 };
                    assert(b.entities@[i2] == es0[si]);
                    let g2 = es0[si].0;
                    let e2 = es0[si].1;
                    lemma_kidx_of(es0, si);
                    assert(khas(rs0, e2.location));
                    let ri2 = kidx(rs0, e2.location);
                    if e2.location == loc {
                        lemma_kidx_of(rs0, ri as int);
                        assert(kat(b.rooms@, e2.location).guids@.contains(g2));
                    } else {
                        assert(kat(b.rooms@, e2.location) == kat(rs0, e2.location));
                    }
                }
            }
            assert(b.occupants_are_entities()) by {
                assert forall|i2: int, j2: int|
                    0 <= i2 < b.rooms@.len() && 0 <= j2 < b.rooms@[i2].1.guids@.len() implies {
                    let g2 = #[trigger] b.rooms@[i2].1.guids@[j2];
                    khas(b.entities@, g2) && kat(b.entities@, g2).location == b.rooms@[i2].0
                } by {
                    let g2 = b.rooms@[i2].1.guids@[j2];
                    if i2 == ri as int {
                        assert(gl1.contains(g2));
                        assert(gl0.contains(g2) && g2 != guid);
                        let j0 = choose|j: int| 0 <= j < gl0.len() && gl0[j] == g2;
                        assert(khas(es0, g2) && kat(es0, g2).location == rs0[i2].0);
                    } else {
                        assert(b.rooms@[i2] == rs0[i2]);
                        assert(khas(es0, g2) && kat(es0, g2).location == rs0[i2].0);
                        if g2 == guid {
                            assert(rs0[i2].1.guids@[j2] == guid);
                            assert(false);
                        }
                    }
                }
            }
            assert(b.occupants_unique()) by {
                assert forall|i2: int, j1: int, j2: int|
                    0 <= i2 < b.rooms@.len() && 0 <= j1 < j2 < b.rooms@[i2].1.guids@.len() implies
                    b.rooms@[i2].1.guids@[j1] != b.rooms@[i2].1.guids@[j2] by {
                    if i2 == ri as int {
                        let s1 = if j1 < rem { j1 } else { j1 + 1 };
                        let s2 = if j2 < rem { j2 } else { j2 + 1 };
                        assert(gl1[j1] == gl0[s1]);
                        assert(gl1[j2] == gl0[s2]);
                        assert(gl0[s1] != gl0[s2]);
                    } else {
                        assert(b.rooms@[i2] == rs0[i2]);
                    }
                }
            }
            assert(b.entities_alive()) by {
                assert forall|i2: int| 0 <= i2 < b.entities@.len() implies (
                #[trigger] b.entities@[i2]).1.alive() by {
                    let si = if i2 < ei as int { i2 } else { i2 + 1 };
                    assert(b.entities@[i2] == es0[si]);
                }
            }
            assert(b.serials_bounded()) by {
                assert forall|i2: int|
                    0 <= i2 < b.entities@.len() implies (#[trigger] b.entities@[i2]).0.serial
                    < b.next_serial by {
                    let si = if i2 < ei as int { i2 } else { i2 + 1 };
                    assert(b.entities@[i2] == es0[si]);
                }
            }
        }
    }
}

} // verus!
