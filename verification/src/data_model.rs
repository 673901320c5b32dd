//! Result and error types that the world engine hands back to its callers:
//! room and entity views, fight reports, and the structured error kinds.
use vstd::prelude::*;
use vstd::string::*;
use crate::guid::Guid;

verus! {

/// The error kinds an engine operation can fail with.
#[derive(Debug)]
pub enum WorldError {
    /// The acting entity itself no longer exists (it just died in combat).
    Disappeared,
    /// No room exists at the attempted destination.
    Wall,
    /// Two entities are not co-located, or an occupant-list consistency
    /// check failed.
    DiffRoom,
    /// The identifier is not present in the entity table.
    EntityNotFound(Guid),
    /// Catch-all for boundary-level denials; not produced by the engine.
    Other(String),
}

impl WorldError {
    /// The JSON text each error kind is rendered to.
    pub open spec fn json_view(self) -> Seq<char> {
        match self {
            WorldError::Disappeared => (
            "{ \"type\": \"MORT\", \"message\": \"You were either killed or disconnected. In any case you disappeared\" }")@,
            WorldError::Wall => (
            "{ \"type\": \"MUR\", \"message\": \"Ouch! You bumped into a wall! Consider yourself lucky I didn't make you lose HP when it happens... Now look where you're going!\" }")@,
            WorldError::DiffRoom => (
            "{ \"type\": \"DIFFSALLE\", \"message\": \"Room mismatch! What happened? Did you try to hack the game?\" }")@,
            WorldError::EntityNotFound(_) => (
            "Entity was not found in world. Maybe it died or was disconnected")@,
            WorldError::Other(msg) => ("{ \"message\": \"")@ + msg@ + ("\" }")@,
        }
    }

    /// Renders the error as the JSON text sent over the wire.
    pub fn to_json_string(&self) -> (r: String)
        ensures
            r@ == self.json_view(),
    {
        match self {
            WorldError::Disappeared => (
            "{ \"type\": \"MORT\", \"message\": \"You were either killed or disconnected. In any case you disappeared\" }").to_owned(),
            WorldError::Wall => (
            "{ \"type\": \"MUR\", \"message\": \"Ouch! You bumped into a wall! Consider yourself lucky I didn't make you lose HP when it happens... Now look where you're going!\" }").to_owned(),
            WorldError::DiffRoom => (
            "{ \"type\": \"DIFFSALLE\", \"message\": \"Room mismatch! What happened? Did you try to hack the game?\" }").to_owned(),
            WorldError::EntityNotFound(_) => (
            "Entity was not found in world. Maybe it died or was disconnected").to_owned(),
            WorldError::Other(msg) => ("{ \"message\": \"").to_owned().concat(
                msg.as_str(),
            ).concat("\" }"),
        }
    }

    /// A "not found" failure becomes "you disappeared" exactly when the
    /// missing identifier is the caller's own; every other error passes
    /// through unchanged.
    pub open spec fn check_not_found_spec(self, player_guid: Guid) -> WorldError {
        match self {
            WorldError::EntityNotFound(g) => if g == player_guid {
                WorldError::Disappeared
            } else {
                self
            },
            _ => self,
        }
    }

    /// Re-interprets `EntityNotFound` of the caller's own identifier as
    /// `Disappeared`; other errors pass through.
    pub fn check_not_found(&self, player_guid: Guid) -> (r: WorldError)
        ensures
            r == self.check_not_found_spec(player_guid),
    {
        match self {
            WorldError::EntityNotFound(g) => if *g == player_guid {
                WorldError::Disappeared
            } else {
                WorldError::EntityNotFound(*g)
            },
            _ => self.clone(),
        }
    }
}

impl Clone for WorldError {
    fn clone(&self) -> (r: Self)
        ensures
            r == *self,
    {
        match self {
            WorldError::Disappeared => WorldError::Disappeared,
            WorldError::Wall => WorldError::Wall,
            WorldError::DiffRoom => WorldError::DiffRoom,
            WorldError::EntityNotFound(g) => WorldError::EntityNotFound(*g),
            WorldError::Other(msg) => WorldError::Other(msg.clone()),
        }
    }
}

/// One combatant's identifier, damage per hit, and post-exchange hit points.
#[derive(Debug)]
pub struct Fighter {
    pub guid: Guid,
    pub dp: u32,
    pub hp: u32,
}

/// The report of a resolved attack in which the attacker survived.
#[derive(Debug)]
pub struct Fight {
    pub attacker: Fighter,
    pub defender: Fighter,
}

/// What a caller sees of a room: its text, the exits that lead to existing
/// rooms, and the identifiers of the entities present.
#[derive(Debug)]
pub struct Room {
    pub description: String,
    pub paths: Vec<Direction>,
    pub entities: Vec<Guid>,
}

/// A cardinal direction of movement.
#[derive(Clone, Copy, PartialEq, Eq, Structural, Debug)]
pub enum Direction {
    N,
    E,
    S,
    W,
}

/// A movement request body: the direction to walk in.
#[derive(Clone, Copy, PartialEq, Eq, Structural, Debug)]
pub struct ReqDirection {
    pub direction: Direction,
}

/// What a caller sees of an inspected entity.
#[derive(Debug)]
pub struct Entity {
    pub description: String,
    pub kind: EntityType,
    pub life: u32,
    pub total_life: u32,
}

/// The kind tag of an entity view.
#[derive(Clone, Copy, PartialEq, Eq, Structural, Debug)]
pub enum EntityType {
    Monster,
    Player,
}

/// What `connect` returns: the new player's credential, its total life, and
/// a view of the spawn room.
#[derive(Debug)]
pub struct Status {
    pub guid: Guid,
    pub total_life: u32,
    pub room: Room,
}

} // verus!
