use bsp_dungeon::bsp::carve_room;
use bsp_dungeon::cells::CellSet;
use bsp_dungeon::geometry::{Position, Rect};
use bsp_dungeon::play::{
    button_reaction, enemy_spawns, enemy_spawns_for, key_delta, player_spawn, player_step,
    room_at, wander, wander_delta, wander_to, ButtonReaction, ButtonState, PlayerClass, RoomId,
    SelectedClass,
};
use rand::rngs::StdRng;
use rand::SeedableRng;

fn pos(x: i32, y: i32) -> Position {
    Position { x, y }
}

fn rooms() -> Vec<bsp_dungeon::bsp::Room> {
    vec![
        carve_room(0, Rect { x: 0, y: 0, width: 6, height: 6 }),
        carve_room(1, Rect { x: 6, y: 0, width: 8, height: 6 }),
        carve_room(2, Rect { x: 0, y: 6, width: 14, height: 8 }),
    ]
}

#[test]
fn class_sprites() {
    assert_eq!(PlayerClass::Warrior.sprite_index(), 0);
    assert_eq!(PlayerClass::Mage.sprite_index(), 29);
    assert_eq!(PlayerClass::Ranger.sprite_index(), 2);
}

#[test]
fn player_starts_in_first_room() {
    let rooms = rooms();
    assert_eq!(player_spawn(&rooms, SelectedClass(Some(PlayerClass::Mage))), Some((pos(3, 3), 29)));
    assert_eq!(player_spawn(&rooms, SelectedClass(None)), None);
}

#[test]
fn keys_to_steps() {
    assert_eq!(key_delta(false, false, false, false), (0, 0));
    assert_eq!(key_delta(true, false, false, false), (0, 1));
    assert_eq!(key_delta(false, true, true, false), (-1, -1));
    assert_eq!(key_delta(true, true, true, true), (0, 0));
}

#[test]
fn walls_block_steps() {
    let mut walls = CellSet::new();
    walls.insert(pos(1, 0));
    assert_eq!(player_step(pos(0, 0), (1, 0), &walls), None);
    assert_eq!(player_step(pos(0, 0), (0, 1), &walls), Some(pos(0, 1)));
    assert_eq!(player_step(pos(0, 0), (0, 0), &walls), None);
    assert_eq!(player_step(pos(0, 0), (-1, -1), &walls), Some(pos(-1, -1)));
}

#[test]
fn wander_directions() {
    assert_eq!(wander_delta(0), (0, 1));
    assert_eq!(wander_delta(1), (0, -1));
    assert_eq!(wander_delta(2), (-1, 0));
    assert_eq!(wander_delta(3), (1, 0));
    let mut walls = CellSet::new();
    walls.insert(pos(5, 6));
    assert_eq!(wander_to(pos(5, 5), 0, &walls), pos(5, 5));
    assert_eq!(wander_to(pos(5, 5), 2, &walls), pos(4, 5));
}

#[test]
fn wander_moves_one_step_or_stays() {
    let walls = CellSet::new();
    let mut rng = StdRng::seed_from_u64(9);
    let mut moved = 0;
    for _ in 0..50 {
        let p = wander(pos(0, 0), &walls, &mut rng);
        let d = p.x.abs() + p.y.abs();
        assert_eq!(d, 1);
        moved += d;
    }
    assert_eq!(moved, 50);
    let mut boxed = CellSet::new();
    for (x, y) in [(0, 1), (0, -1), (1, 0), (-1, 0)] {
        boxed.insert(pos(x, y));
    }
    assert_eq!(wander(pos(0, 0), &boxed, &mut rng), pos(0, 0));
}

#[test]
fn enemies_at_chosen_centers() {
    let rooms = rooms();
    assert_eq!(enemy_spawns_for(&rooms, &vec![true, false]), vec![pos(10, 3)]);
    assert_eq!(enemy_spawns_for(&rooms, &vec![true, true]), vec![pos(10, 3), pos(7, 10)]);
    assert_eq!(enemy_spawns_for(&rooms, &vec![false, false]), vec![]);
}

#[test]
fn enemies_never_in_first_room() {
    let rooms = rooms();
    let mut seen_some = false;
    for seed in 0..20u64 {
        let spawns = enemy_spawns(&rooms, &mut StdRng::seed_from_u64(seed));
        assert!(spawns.len() <= 2);
        assert!(!spawns.contains(&pos(3, 3)));
        seen_some |= !spawns.is_empty();
    }
    assert!(seen_some);
}

#[test]
fn room_lookup() {
    let rooms = rooms();
    assert_eq!(room_at(&rooms, pos(1, 1)), Some(RoomId(0)));
    assert_eq!(room_at(&rooms, pos(7, 4)), Some(RoomId(1)));
    assert_eq!(room_at(&rooms, pos(12, 12)), Some(RoomId(2)));
    assert_eq!(room_at(&rooms, pos(0, 0)), None);
    assert_eq!(room_at(&rooms, pos(6, 3)), None);
}

#[test]
fn menu_buttons() {
    assert_eq!(
        button_reaction(ButtonState::Pressed, PlayerClass::Ranger),
        ButtonReaction { shade: ButtonState::Pressed, picked: Some(PlayerClass::Ranger) }
    );
    assert_eq!(
        button_reaction(ButtonState::Hovered, PlayerClass::Ranger),
        ButtonReaction { shade: ButtonState::Hovered, picked: None }
    );
    assert_eq!(button_reaction(ButtonState::Idle, PlayerClass::Mage).picked, None);
}
