use scale::intersection::Point;
use scale::movable::{DragAction, EntityRef, Movable, MovableSystem, MovedEvent};

const E: EntityRef = EntityRef { index: 4, generation: 1 };
const F: EntityRef = EntityRef { index: 5, generation: 1 };

#[test]
fn nothing_held_at_first() {
    assert!(!MovableSystem::new().holding);
    assert_eq!(MovableSystem::default(), MovableSystem::new());
    assert_eq!(Movable::default(), Movable);
}

#[test]
fn button_over_a_movable_entity_grabs_then_follows() {
    let mut system = MovableSystem::new();
    assert_eq!(system.run(true, Some(E), true), DragAction::Grab(E));
    assert!(system.holding);
    assert_eq!(system.run(true, Some(E), true), DragAction::Follow(E));
    assert_eq!(system.run(true, Some(F), true), DragAction::Follow(F));
    assert!(system.holding);
}

#[test]
fn letting_go_releases_once() {
    let mut system = MovableSystem::new();
    system.run(true, Some(E), true);
    assert_eq!(system.run(false, Some(E), true), DragAction::Release(Some(E)));
    assert!(!system.holding);
    assert_eq!(system.run(false, Some(E), true), DragAction::Rest);
    assert!(!system.holding);
}

#[test]
fn losing_the_selection_releases_without_an_entity() {
    let mut system = MovableSystem::new();
    system.run(true, Some(E), true);
    assert_eq!(system.run(true, None, true), DragAction::Release(None));
    assert!(!system.holding);
}

#[test]
fn selecting_something_fixed_releases() {
    let mut system = MovableSystem::new();
    system.run(true, Some(E), true);
    assert_eq!(system.run(true, Some(F), false), DragAction::Release(Some(F)));
    assert!(!system.holding);
}

#[test]
fn nothing_happens_without_a_movable_selection() {
    let mut system = MovableSystem::new();
    assert_eq!(system.run(true, None, false), DragAction::Rest);
    assert_eq!(system.run(true, None, true), DragAction::Rest);
    assert_eq!(system.run(true, Some(E), false), DragAction::Rest);
    assert_eq!(system.run(false, Some(E), true), DragAction::Rest);
    assert_eq!(system.run(false, None, false), DragAction::Rest);
    assert!(!system.holding);
}

#[test]
fn moved_event_carries_entity_and_position() {
    let pos = Point { x_bits: 1.5f32.to_bits(), y_bits: (-2.0f32).to_bits() };
    let event = MovedEvent { entity: E, new_pos: pos };
    assert_eq!(event.entity, E);
    assert_eq!(f32::from_bits(event.new_pos.x_bits), 1.5);
    assert_eq!(f32::from_bits(event.new_pos.y_bits), -2.0);
    assert_ne!(event, MovedEvent { entity: F, new_pos: pos });
}
