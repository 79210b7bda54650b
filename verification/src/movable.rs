//! Dragging of entities with the pointer, and the notice it leaves for the
//! road network.

use crate::intersection::Point;
use vstd::prelude::*;

verus! {

/// Names an entity of the surrounding simulation: the index of its place
/// and the generation that tells it from earlier holders of that place.
#[derive(Clone, Copy, Debug, PartialEq, Eq, Hash, Structural)]
pub struct EntityRef {
    pub index: u32,
    pub generation: i32,
}

/// Marks an entity that the pointer may drag.
#[derive(Clone, Copy, Debug, Default, PartialEq, Eq, Structural)]
pub struct Movable;

/// Tells that `entity` was dragged to `new_pos`.
#[derive(Clone, Copy, Debug, PartialEq, Eq, Structural)]
pub struct MovedEvent {
    pub entity: EntityRef,
    pub new_pos: Point,
}

/// What a frame of dragging asks of the simulation. All arithmetic on
/// positions is left to the caller; the fields name the entity to act on.
#[derive(Clone, Copy, Debug, PartialEq, Eq, Structural)]
pub enum DragAction {
    /// Nothing is held and nothing is to be done.
    Rest,
    /// The entity was just taken hold of: bring it to rest and remember how
    /// far it lies from the pointer.
    Grab(EntityRef),
    /// The entity is held: it follows the pointer at the remembered
    /// distance, and where that moves it, it is brought to rest and a
    /// [`MovedEvent`] is sent.
    Follow(EntityRef),
    /// The hold has ended. If an entity is still selected it is thrown with
    /// the speed at which the pointer last moved.
    Release(Option<EntityRef>),
}

/// Tracks whether the pointer holds an entity.
#[derive(Clone, Copy, Debug, Default, PartialEq, Eq, Structural)]
pub struct MovableSystem {
    /// Set while an entity is held.
    pub holding: bool,
}

impl MovableSystem {
    /// What a frame does, and whether an entity is held after it. An
    /// entity is held while the button is down over a selected entity that
    /// may be dragged.
    pub open spec fn step(
        self,
        button_down: bool,
        selected: Option<EntityRef>,
        selected_is_movable: bool,
    ) -> (MovableSystem, DragAction) {
        if button_down && selected is Some && selected_is_movable {
            if self.holding {
                (self, DragAction::Follow(selected->0))
            } else {
                (MovableSystem { holding: true }, DragAction::Grab(selected->0))
            }
        } else if self.holding {
            (MovableSystem { holding: false }, DragAction::Release(selected))
        } else {
            (self, DragAction::Rest)
        }
    }

    pub fn new() -> (system: Self)
        ensures
            !system.holding,
    {
        MovableSystem { holding: false }
    }

    /// Decides what this frame does with the selected entity.
    /// `selected_is_movable` says whether the selected entity carries the
    /// [`Movable`] mark; it is not looked at where nothing is selected.
    pub fn run(
        &mut self,
        button_down: bool,
        selected: Option<EntityRef>,
        selected_is_movable: bool,
    ) -> (action: DragAction)
        ensures
            (*final(self), action) == old(self).step(button_down, selected, selected_is_movable),
    {
        match selected {
            Some(entity) if button_down && selected_is_movable => {
                if self.holding {
                    DragAction::Follow(entity)
                } else {
                    self.holding = true;
                    DragAction::Grab(entity)
                }
            },
            _ => {
                if self.holding {
                    self.holding = false;
                    DragAction::Release(selected)
                } else {
                    DragAction::Rest
                }
            },
        }
    }

    /// An entity is held after a frame exactly where the button is down
    /// over a selected entity that may be dragged; and a frame sends the
    /// entity on its way only where it was held before.
    pub proof fn lemma_hold(
        self,
        button_down: bool,
        selected: Option<EntityRef>,
        selected_is_movable: bool,
    )
        ensures
            self.step(button_down, selected, selected_is_movable).0.holding == (button_down
                && selected is Some && selected_is_movable),
            self.step(button_down, selected, selected_is_movable).1 is Follow ==> self.holding,
            self.step(button_down, selected, selected_is_movable).1 is Release ==> self.holding,
            self.step(button_down, selected, selected_is_movable).1 is Grab ==> !self.holding,
            self.step(button_down, selected, selected_is_movable).1 is Rest ==> !self.holding,
    {
    }
}

} // verus!
