//! The rules that the game applies to a generated dungeon: where the player and
//! the enemies start, how they move, and which room the player is in.

use crate::bsp::Room;
use crate::cells::CellSet;
use crate::geometry::Position;
use crate::random::{chance, draw_below};
use rand::rngs::StdRng;
use vstd::prelude::*;

verus! {

/// The character class picked in the menu.
#[derive(Clone, Copy, Debug, PartialEq, Eq, Structural)]
pub enum PlayerClass {
    Warrior,
    Mage,
    Ranger,
}

impl PlayerClass {
    pub open spec fn spec_sprite_index(self) -> usize {
        match self {
            PlayerClass::Warrior => 0,
            PlayerClass::Mage => 29,
            PlayerClass::Ranger => 2,
        }
    }

    /// The index of the class's sprite in the character sheet.
    pub fn sprite_index(&self) -> (i: usize)
        ensures
            i == self.spec_sprite_index(),
    {
        match self {
            PlayerClass::Warrior => 0,
            PlayerClass::Mage => 29,
            PlayerClass::Ranger => 2,
        }
    }
}

/// The class picked in the menu, if one was.
#[derive(Clone, Copy, Debug, PartialEq, Eq, Structural)]
pub struct SelectedClass(pub Option<PlayerClass>);

/// The number of a room, as tiles and minimap cells carry it.
#[derive(Clone, Copy, Debug, PartialEq, Eq, Hash, Structural)]
pub struct RoomId(pub usize);

/// Hit points.
#[derive(Clone, Copy, Debug, PartialEq, Eq, Structural)]
pub struct Health(pub i32);

/// Where the player starts and with which sprite: the center of the first room,
/// or `None` when no class was picked.
pub fn player_spawn(rooms: &Vec<Room>, selected: SelectedClass) -> (r: Option<(Position, usize)>)
    requires
        rooms@.len() >= 1,
        rooms@[0].inner.is_valid(),
    ensures
        match selected.0 {
            Some(class) => r == Some((rooms@[0].inner.mid(), class.spec_sprite_index())),
            None => r is None,
        },
{
    match selected.0 {
        Some(class) => {
            let (x, y) = rooms[0].inner.center();
            Some((Position { x, y }, class.sprite_index()))
        },
        None => None,
    }
}

/// The step asked for by the four direction keys; opposite keys cancel out.
pub fn key_delta(up: bool, down: bool, left: bool, right: bool) -> (d: (i32, i32))
    ensures
        d.0 == (if right { 1int } else { 0 }) - (if left { 1int } else { 0 }),
        d.1 == (if up { 1int } else { 0 }) - (if down { 1int } else { 0 }),
{
    let mut dx: i32 = 0;
    let mut dy: i32 = 0;
    if up {
        dy = dy + 1;
    }
    if down {
        dy = dy - 1;
    }
    if left {
        dx = dx - 1;
    }
    if right {
        dx = dx + 1;
    }
    (dx, dy)
}

/// `pos` moved by `delta`.
pub open spec fn moved(pos: Position, delta: (i32, i32)) -> Position {
    Position { x: (pos.x + delta.0) as i32, y: (pos.y + delta.1) as i32 }
}

/// The moved position fits in the grid.
pub open spec fn can_move(pos: Position, delta: (i32, i32)) -> bool {
    &&& i32::MIN <= pos.x + delta.0 <= i32::MAX
    &&& i32::MIN <= pos.y + delta.1 <= i32::MAX
}

/// Where a step by `delta` from `pos` leads: `None` for no step, or when a wall
/// stands there.
pub fn player_step(pos: Position, delta: (i32, i32), walls: &CellSet) -> (r: Option<Position>)
    requires
        walls.wf(),
        can_move(pos, delta),
    ensures
        delta == (0i32, 0i32) ==> r is None,
        delta != (0i32, 0i32) ==> r == (if walls@.contains(moved(pos, delta)) {
            None
        } else {
            Some(moved(pos, delta))
        }),
{
    if delta.0 == 0 && delta.1 == 0 {
        return None;
    }
    let next = Position { x: pos.x + delta.0, y: pos.y + delta.1 };
    if walls.contains(next) {
        None
    } else {
        Some(next)
    }
}

pub open spec fn spec_wander_delta(roll: i32) -> (i32, i32) {
    if roll == 0 {
        (0i32, 1i32)
    } else if roll == 1 {
        (0i32, -1i32)
    } else if roll == 2 {
        (-1i32, 0i32)
    } else {
        (1i32, 0i32)
    }
}

/// The direction of an enemy's step for a roll: up, down, left, and right for
/// anything else.
pub fn wander_delta(roll: i32) -> (d: (i32, i32))
    ensures
        d == spec_wander_delta(roll),
{
    match roll {
        0 => (0, 1),
        1 => (0, -1),
        2 => (-1, 0),
        _ => (1, 0),
    }
}

/// Where an enemy at `pos` goes for a roll: one step in the rolled direction,
/// or nowhere when a wall stands there.
pub fn wander_to(pos: Position, roll: i32, walls: &CellSet) -> (r: Position)
    requires
        walls.wf(),
        can_move(pos, spec_wander_delta(roll)),
    ensures
        r == (if walls@.contains(moved(pos, spec_wander_delta(roll))) {
            pos
        } else {
            moved(pos, spec_wander_delta(roll))
        }),
{
    let (dx, dy) = wander_delta(roll);
    let next = Position { x: pos.x + dx, y: pos.y + dy };
    if walls.contains(next) {
        pos
    } else {
        next
    }
}

/// An enemy's random step: a direction drawn uniformly from the four, taken
/// unless a wall stands there.
pub fn wander(pos: Position, walls: &CellSet, rng: &mut StdRng) -> (r: Position)
    requires
        walls.wf(),
        i32::MIN < pos.x < i32::MAX,
        i32::MIN < pos.y < i32::MAX,
    ensures
        exists|roll: i32|
            0 <= roll < 4 && r == (if walls@.contains(moved(pos, #[trigger] spec_wander_delta(roll))) {
                pos
            } else {
                moved(pos, spec_wander_delta(roll))
            }),
{
    let roll = draw_below(rng, 0, 4);
    wander_to(pos, roll, walls)
}

/// The centers of the rooms after the first whose roll came up, in room order.
pub open spec fn chosen_centers(rooms: Seq<Room>, rolls: Seq<bool>) -> Seq<Position>
    decreases rooms.len(),
{
    if rooms.len() <= 1 {
        seq![]
    } else {
        let rest = chosen_centers(rooms.drop_last(), rolls.drop_last());
        if rolls.last() {
            rest.push(rooms.last().inner.mid())
        } else {
            rest
        }
    }
}

/// The enemy positions for a roll per room after the first: the center of each
/// room whose roll, `rolls[i - 1]` for room `i`, came up.
pub fn enemy_spawns_for(rooms: &Vec<Room>, rolls: &Vec<bool>) -> (spawns: Vec<Position>)
    requires
        forall|i: int| 0 <= i < rooms@.len() ==> (#[trigger] rooms@[i]).inner.is_valid(),
        rolls@.len() + 1 == rooms@.len(),
    ensures
        spawns@ == chosen_centers(rooms@, rolls@),
{
    let mut spawns: Vec<Position> = Vec::new();
    let mut i: usize = 1;
    proof {
        assert(rooms@.subrange(0, 1).len() <= 1);
    }
    while i < rooms.len()
        invariant
            1 <= i <= rooms@.len(),
            rolls@.len() + 1 == rooms@.len(),
            forall|i: int| 0 <= i < rooms@.len() ==> (#[trigger] rooms@[i]).inner.is_valid(),
            spawns@ == chosen_centers(rooms@.subrange(0, i as int), rolls@.subrange(0, i - 1)),
        decreases rooms@.len() - i,
    {
        if rolls[i - 1] {
            let (x, y) = rooms[i].inner.center();
            spawns.push(Position { x, y });
        }
        proof {
            let r = rooms@.subrange(0, i + 1);
            let s = rolls@.subrange(0, i as int);
            assert(r.drop_last() =~= rooms@.subrange(0, i as int));
            assert(s.drop_last() =~= rolls@.subrange(0, i - 1));
            assert(r.last() == rooms@[i as int]);
            assert(s.last() == rolls@[i - 1]);
        }
        i = i + 1;
    }
    proof {
        assert(rooms@.subrange(0, i as int) =~= rooms@);
        assert(rolls@.subrange(0, i - 1) =~= rolls@);
    }
    spawns
}

/// Enemy positions: each room after the first holds one at its center with
/// chance three in five, drawn room by room.
pub fn enemy_spawns(rooms: &Vec<Room>, rng: &mut StdRng) -> (spawns: Vec<Position>)
    requires
        rooms@.len() >= 1,
        forall|i: int| 0 <= i < rooms@.len() ==> (#[trigger] rooms@[i]).inner.is_valid(),
    ensures
        exists|rolls: Seq<bool>|
            rolls.len() + 1 == rooms@.len() && spawns@ == #[trigger] chosen_centers(rooms@, rolls),
{
    let mut rolls: Vec<bool> = Vec::new();
    let mut i: usize = 1;
    while i < rooms.len()
        invariant
            1 <= i <= rooms@.len(),
            rolls@.len() + 1 == i,
        decreases rooms@.len() - i,
    {
        rolls.push(chance(rng, 3, 5));
        i = i + 1;
    }
    let spawns = enemy_spawns_for(rooms, &rolls);
    proof {
        assert(spawns@ == chosen_centers(rooms@, rolls@));
    }
    spawns
}

/// The room whose interior holds `p`: the first such room, or `None` when `p`
/// is in no room (on a corridor, or off the floor).
pub fn room_at(rooms: &Vec<Room>, p: Position) -> (r: Option<RoomId>)
    ensures
        match r {
            Some(id) => {
                &&& id.0 < rooms@.len()
                &&& rooms@[id.0 as int].inner.contains(p)
                &&& forall|k: int| 0 <= k < id.0 ==> !(#[trigger] rooms@[k]).inner.contains(p)
            },
            None => forall|k: int| 0 <= k < rooms@.len() ==> !(#[trigger] rooms@[k]).inner.contains(p),
        },
{
    let mut i: usize = 0;
    while i < rooms.len()
        invariant
            i <= rooms@.len(),
            forall|k: int| 0 <= k < i ==> !(#[trigger] rooms@[k]).inner.contains(p),
        decreases rooms@.len() - i,
    {
        let inner = rooms[i].inner;
        if inner.x <= p.x && (p.x as i64) < (inner.x as i64) + (inner.width as i64) && inner.y
            <= p.y && (p.y as i64) < (inner.y as i64) + (inner.height as i64) {
            return Some(RoomId(i));
        }
        i = i + 1;
    }
    None
}

/// The reaction of a class button to the pointer.
#[derive(Clone, Copy, Debug, PartialEq, Eq, Structural)]
pub enum ButtonState {
    Pressed,
    Hovered,
    Idle,
}

/// What a class button shows, and the class it picks, if any.
#[derive(Clone, Copy, Debug, PartialEq, Eq, Structural)]
pub struct ButtonReaction {
    pub shade: ButtonState,
    pub picked: Option<PlayerClass>,
}

/// A button takes the shade of its state; a pressed button picks its class,
/// which starts the game.
pub fn button_reaction(state: ButtonState, class: PlayerClass) -> (r: ButtonReaction)
    ensures
        r.shade == state,
        r.picked == (if state == ButtonState::Pressed {
            Some(class)
        } else {
            None
        }),
{
    match state {
        ButtonState::Pressed => ButtonReaction { shade: state, picked: Some(class) },
        ButtonState::Hovered => ButtonReaction { shade: state, picked: None },
        ButtonState::Idle => ButtonReaction { shade: state, picked: None },
    }
}

} // verus!
