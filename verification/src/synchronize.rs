//! Keeps the road network in step with what the user does: dragging
//! intersections, creating and deleting them, and connecting two of them
//! by picking one after the other.
//!
//! A frame is a function from the state, the network and what the frame's
//! events were to the next state, the edited network and what remains to
//! be done to the entities of the simulation.

use crate::graph_view::GraphView;
use crate::intersection::{IntersectionID, Point};
use crate::lane_pattern::LanePattern;
use crate::movable::{EntityRef, MovedEvent};
use crate::road_graph::RoadGraph;
use vstd::prelude::*;

verus! {

/// Where the picking of two intersections to connect stands.
#[derive(Clone, Copy, Debug, PartialEq, Eq, Structural)]
pub enum ConnectState {
    /// Connecting is switched off.
    Inactive,
    /// Connecting is switched on and no intersection is picked yet.
    Unselected,
    /// The first intersection is picked: the entity that stands for it.
    First(EntityRef),
}

/// What the user has selected.
#[derive(Clone, Copy, Debug, PartialEq, Eq, Structural)]
pub enum Selected {
    Nothing,
    /// An entity that stands for no intersection.
    Other,
    /// The entity that stands for the intersection `id`.
    Intersection { entity: EntityRef, id: IntersectionID },
}

/// A drag as the network takes it: the notice that an entity was
/// dragged, and the intersection that the entity stands for, if it stands
/// for one.
#[derive(Clone, Copy, Debug, PartialEq, Eq, Structural)]
pub struct Moved {
    pub event: MovedEvent,
    pub intersection: Option<IntersectionID>,
}

/// The events of one frame.
#[derive(Debug)]
pub struct FrameInput {
    /// The drags since the last frame, oldest first.
    pub moved: Vec<Moved>,
    /// The key that creates an intersection under the pointer went down.
    pub create: bool,
    /// The key that deletes the selected intersection went down.
    pub delete: bool,
    /// The key that switches connecting on and off went down.
    pub toggle_connect: bool,
    /// Where the pointer is.
    pub cursor: Point,
    pub selected: Selected,
    /// The intersection that the first picked entity stands for, as far as
    /// one is picked and it still stands for one.
    pub first_intersection: Option<IntersectionID>,
}

/// What a frame leaves to be done to the entities of the simulation.
#[derive(Clone, Copy, Debug, PartialEq, Eq, Structural)]
pub struct FrameOutput {
    /// An intersection was created under the pointer: it needs an entity,
    /// which becomes the selected one.
    pub created: Option<IntersectionID>,
    /// The intersection of this entity was deleted: the entity goes too.
    pub deleted: Option<EntityRef>,
    /// Whether the line from the first picked intersection to the pointer
    /// is to be shown or hidden; `None` leaves it as it is.
    pub connect_line: Option<bool>,
}

/// A frame under way: the values that its steps hand on to each other.
pub struct Frame {
    pub state: ConnectState,
    pub graph: GraphView,
    pub selected: Selected,
    pub output: FrameOutput,
}

/// The network after the drags `moved` were applied in order. A drag of
/// an entity that stands for no intersection changes nothing.
pub open spec fn after_moves(graph: GraphView, moved: Seq<Moved>) -> GraphView
    decreases moved.len(),
{
    if moved.len() == 0 {
        graph
    } else {
        let before = after_moves(graph, moved.drop_last());
        match moved.last().intersection {
            Some(id) => before.set_intersection_position(id, moved.last().event.new_pos),
            None => before,
        }
    }
}

/// Drags of existing intersections leave the network well formed and with
/// the intersections it had.
pub proof fn lemma_after_moves_wf(graph: GraphView, moved: Seq<Moved>)
    requires
        graph.wf(),
        forall|i: int|
            0 <= i < moved.len() ==> ((#[trigger] moved[i]).intersection matches Some(id)
                ==> graph.contains(id)),
    ensures
        after_moves(graph, moved).wf(),
        after_moves(graph, moved).nodes.dom() == graph.nodes.dom(),
        after_moves(graph, moved).issued == graph.issued,
    decreases moved.len(),
{
    if moved.len() > 0 {
        let earlier = moved.drop_last();
        assert forall|i: int| 0 <= i < earlier.len() implies ((
        #[trigger] earlier[i]).intersection matches Some(id) ==> graph.contains(id)) by {
            assert(earlier[i] == moved[i]);
        }
        lemma_after_moves_wf(graph, earlier);
        let before = after_moves(graph, earlier);
        let last = moved[moved.len() - 1];
        if let Some(id) = last.intersection {
            before.lemma_set_intersection_position_wf(id, last.event.new_pos);
        }
    }
}

impl Frame {
    /// Connecting is switched off and the line hidden.
    pub open spec fn deactivated(self) -> Frame {
        Frame {
            state: ConnectState::Inactive,
            output: FrameOutput { connect_line: Some(false), ..self.output },
            ..self
        }
    }

    /// Where `pressed`, an intersection is created at `cursor` and
    /// connected, with `pattern`, to the selected intersection if there is
    /// one. Its entity, which does not stand for it yet, is then the
    /// selected one.
    pub open spec fn create(self, pressed: bool, cursor: Point, pattern: LanePattern) -> Frame {
        if pressed {
            let id = self.graph.next_id();
            let added = self.graph.add_intersection(cursor);
            Frame {
                graph: match self.selected {
                    Selected::Intersection { id: near, .. } => added.connect(id, near, pattern),
                    _ => added,
                },
                selected: Selected::Other,
                output: FrameOutput { created: Some(id), ..self.output },
                ..self
            }
        } else {
            self
        }
    }

    /// Where `pressed`, the selected intersection is deleted if there is
    /// one, and connecting is switched off in any case.
    pub open spec fn delete(self, pressed: bool) -> Frame {
        if pressed {
            match self.selected {
                Selected::Intersection { entity, id } => Frame {
                    graph: self.graph.delete_intersection(id),
                    output: FrameOutput { deleted: Some(entity), ..self.output },
                    ..self
                }.deactivated(),
                _ => self.deactivated(),
            }
        } else {
            self
        }
    }

    /// Where `pressed`, connecting is switched on, or switched off if a
    /// first intersection was picked already.
    pub open spec fn toggle(self, pressed: bool) -> Frame {
        if pressed {
            match self.state {
                ConnectState::First(_) => self.deactivated(),
                _ => Frame { state: ConnectState::Unselected, ..self },
            }
        } else {
            self
        }
    }

    /// What the selection does to the picking. A selected intersection
    /// becomes the first picked one where none is; where another is, the
    /// two are connected, the connection drawn from the selected one, or
    /// disconnected if they were connected, and connecting is switched
    /// off. Selecting anything but an intersection switches it off too.
    pub open spec fn select(self, first_intersection: Option<IntersectionID>, pattern: LanePattern)
        -> Frame {
        match self.selected {
            Selected::Nothing => self,
            Selected::Other => self.deactivated(),
            Selected::Intersection { entity, id } => match self.state {
                ConnectState::Inactive => self,
                ConnectState::Unselected => Frame {
                    state: ConnectState::First(entity),
                    output: FrameOutput { connect_line: Some(true), ..self.output },
                    ..self
                },
                ConnectState::First(first) => if first != entity {
                    let other = first_intersection->0;
                    Frame {
                        graph: if self.graph.is_neighbor(id, other) {
                            self.graph.disconnect(id, other)
                        } else {
                            self.graph.connect(id, other, pattern)
                        },
                        ..self
                    }.deactivated()
                } else {
                    self
                },
            },
        }
    }
}

/// The state that the editing of the network keeps between frames.
#[derive(Clone, Copy, Debug, PartialEq, Eq, Structural)]
pub struct RoadGraphSynchronizeState {
    pub connect_state: ConnectState,
    /// The entity that draws the line from the first picked intersection
    /// to the pointer.
    pub show_connect: EntityRef,
    /// The pattern with which connections are made.
    pub pattern: LanePattern,
}

impl RoadGraphSynchronizeState {
    /// The state before the first frame: connecting is switched off.
    pub fn new(show_connect: EntityRef, pattern: LanePattern) -> (state: Self)
        ensures
            state == (RoadGraphSynchronizeState {
                connect_state: ConnectState::Inactive,
                show_connect,
                pattern,
            }),
    {
        RoadGraphSynchronizeState { connect_state: ConnectState::Inactive, show_connect, pattern }
    }

    /// Whether a frame can be run: every intersection that the frame acts
    /// on exists, the first picked entity still stands for an
    /// intersection where the selection is held against it, and the two to
    /// be connected are two.
    pub open spec fn accepts(self, graph: GraphView, input: FrameInput) -> bool {
        &&& forall|i: int|
            0 <= i < input.moved@.len() ==> ((#[trigger] input.moved@[i]).intersection matches Some(
                id,
            ) ==> graph.contains(id))
        &&& input.selected matches Selected::Intersection { entity, id } ==> {
            &&& input.create || input.delete ==> graph.contains(id)
            &&& !input.create && !input.delete && !input.toggle_connect ==> (
            self.connect_state matches ConnectState::First(first) ==> {
                &&& input.first_intersection matches Some(other)
                &&& first != entity ==> graph.contains(id) && graph.contains(other) && id != other
            })
        }
    }

    /// The frame: drags first, then creation, deletion, the switch, and
    /// last the selection.
    pub open spec fn step(self, graph: GraphView, input: FrameInput) -> Frame {
        Frame {
            state: self.connect_state,
            graph: after_moves(graph, input.moved@),
            selected: input.selected,
            output: FrameOutput { created: None, deleted: None, connect_line: None },
        }.create(input.create, input.cursor, self.pattern).delete(input.delete).toggle(
            input.toggle_connect,
        ).select(input.first_intersection, self.pattern)
    }

    /// Whether [`RoadGraphSynchronizeState::run`] can be called.
    pub fn can_run(&self, rg: &RoadGraph, input: &FrameInput) -> (r: bool)
        ensures
            r == self.accepts(rg@, *input),
    {
        let mut i: usize = 0;
        while i < input.moved.len()
            invariant
                i <= input.moved.len(),
                forall|k: int|
                    0 <= k < i ==> ((#[trigger] input.moved@[k]).intersection matches Some(id)
                        ==> rg@.contains(id)),
            decreases input.moved.len() - i,
        {
            if let Some(id) = input.moved[i].intersection {
                if !rg.contains(id) {
                    return false;
                }
            }
            i += 1;
        }
        match input.selected {
            Selected::Intersection { entity, id } => {
                if input.create || input.delete {
                    rg.contains(id)
                } else if input.toggle_connect {
                    true
                } else {
                    match self.connect_state {
                        ConnectState::First(first) => match input.first_intersection {
                            Some(other) => first == entity || (rg.contains(id) && rg.contains(
                                other,
                            ) && id != other),
                            None => false,
                        },
                        _ => true,
                    }
                }
            },
            _ => true,
        }
    }

    /// Runs one frame on the network and tells what remains to be done.
    /// Intersections that were moved, connected or disconnected, and their
    /// neighbours, await recomputation of their anchors afterwards.
    pub fn run(&mut self, rg: &mut RoadGraph, input: &FrameInput) -> (output: FrameOutput)
        requires
            old(rg).wf(),
            old(self).accepts(old(rg)@, *input),
        ensures
            final(self).connect_state == old(self).step(old(rg)@, *input).state,
            final(rg)@ == old(self).step(old(rg)@, *input).graph,
            output == old(self).step(old(rg)@, *input).output,
            final(self).show_connect == old(self).show_connect,
            final(self).pattern == old(self).pattern,
            final(rg).wf(),
    {
        let ghost start = rg@;
        let mut i: usize = 0;
        while i < input.moved.len()
            invariant
                i <= input.moved.len(),
                start.wf(),
                forall|k: int|
                    0 <= k < input.moved@.len() ==> ((
                    #[trigger] input.moved@[k]).intersection matches Some(id) ==> start.contains(
                        id,
                    )),
                rg.wf(),
                rg@ == after_moves(start, input.moved@.take(i as int)),
                rg@.nodes.dom() == start.nodes.dom(),
            decreases input.moved.len() - i,
        {
            let moved = input.moved[i];
            proof {
                assert(input.moved@.take(i + 1).drop_last() =~= input.moved@.take(i as int));
                assert(input.moved@.take(i + 1).last() == moved);
                assert(input.moved@[i as int] == moved);
            }
            if let Some(id) = moved.intersection {
                proof {
                    rg@.lemma_set_intersection_position_wf(id, moved.event.new_pos);
                }
                rg.set_intersection_position(id, moved.event.new_pos);
            }
            i += 1;
        }
        proof {
            assert(input.moved@.take(i as int) =~= input.moved@);
        }
        let ghost begun = Frame {
            state: self.connect_state,
            graph: rg@,
            selected: input.selected,
            output: FrameOutput { created: None, deleted: None, connect_line: None },
        };
        let mut selected = input.selected;
        let mut output = FrameOutput { created: None, deleted: None, connect_line: None };

        if input.create {
            let ghost moved_graph = rg@;
            let id = rg.add_intersection(input.cursor);
            if let Selected::Intersection { id: near, .. } = selected {
                proof {
                    moved_graph.lemma_add_intersection_wf(input.cursor);
                }
                rg.connect(id, near, &self.pattern);
            }
            selected = Selected::Other;
            output.created = Some(id);
        }
        let ghost created = begun.create(input.create, input.cursor, self.pattern);
        assert(created == (Frame { state: self.connect_state, graph: rg@, selected, output }));

        if input.delete {
            if let Selected::Intersection { entity, id } = selected {
                rg.delete_intersection(id);
                output.deleted = Some(entity);
            }
            self.connect_state = ConnectState::Inactive;
            output.connect_line = Some(false);
        }
        let ghost deleted = created.delete(input.delete);
        assert(deleted == (Frame { state: self.connect_state, graph: rg@, selected, output }));

        if input.toggle_connect {
            match self.connect_state {
                ConnectState::First(_) => {
                    self.connect_state = ConnectState::Inactive;
                    output.connect_line = Some(false);
                },
                _ => {
                    self.connect_state = ConnectState::Unselected;
                },
            }
        }
        let ghost toggled = deleted.toggle(input.toggle_connect);
        assert(toggled == (Frame { state: self.connect_state, graph: rg@, selected, output }));

        match selected {
            Selected::Nothing => {},
            Selected::Other => {
                self.connect_state = ConnectState::Inactive;
                output.connect_line = Some(false);
            },
            Selected::Intersection { entity, id } => match self.connect_state {
                ConnectState::Inactive => {},
                ConnectState::Unselected => {
                    self.connect_state = ConnectState::First(entity);
                    output.connect_line = Some(true);
                },
                ConnectState::First(first) => {
                    if first != entity {
                        if let Some(other) = input.first_intersection {
                            if rg.is_neighbor(id, other) {
                                rg.disconnect(id, other);
                            } else {
                                rg.connect(id, other, &self.pattern);
                            }
                        }
                        self.connect_state = ConnectState::Inactive;
                        output.connect_line = Some(false);
                    }
                },
            },
        }
        assert(toggled.select(input.first_intersection, self.pattern) == (Frame {
            state: self.connect_state,
            graph: rg@,
            selected,
            output,
        }));
        output
    }

    /// A frame leaves a well-formed network well formed.
    pub proof fn lemma_step_wf(self, graph: GraphView, input: FrameInput)
        requires
            graph.wf(),
            graph.issued < usize::MAX,
            self.accepts(graph, input),
        ensures
            self.step(graph, input).graph.wf(),
    {
        lemma_after_moves_wf(graph, input.moved@);
        let moved = after_moves(graph, input.moved@);
        let begun = Frame {
            state: self.connect_state,
            graph: moved,
            selected: input.selected,
            output: FrameOutput { created: None, deleted: None, connect_line: None },
        };
        let created = begun.create(input.create, input.cursor, self.pattern);
        if input.create {
            moved.lemma_add_intersection_wf(input.cursor);
            if let Selected::Intersection { id: near, .. } = input.selected {
                let added = moved.add_intersection(input.cursor);
                assert(added.node_wf(moved.next_id()));
                added.lemma_connect_wf(moved.next_id(), near, self.pattern);
            }
        }
        let deleted = created.delete(input.delete);
        if input.delete {
            if let Selected::Intersection { id, .. } = created.selected {
                created.graph.lemma_delete_intersection_wf(id);
            }
        }
        let toggled = deleted.toggle(input.toggle_connect);
        if let Selected::Intersection { entity, id } = toggled.selected {
            if let ConnectState::First(first) = toggled.state {
                if first != entity {
                    let other = input.first_intersection->0;
                    toggled.graph.lemma_disconnect_wf(id, other);
                    if !toggled.graph.is_neighbor(id, other) {
                        toggled.graph.lemma_connect_wf(id, other, self.pattern);
                    }
                }
            }
        }
    }

    /// The line follows the picking: a frame that shows it leaves a first
    /// intersection picked, a frame that hides it leaves none picked, and
    /// a frame that does neither leaves picked what was picked.
    pub proof fn lemma_line_follows_state(self, graph: GraphView, input: FrameInput)
        ensures
            match self.step(graph, input).output.connect_line {
                Some(shown) => shown == (self.step(graph, input).state is First),
                None => self.step(graph, input).state is First ==> self.step(graph, input).state
                    == self.connect_state,
            },
            self.connect_state is First && !(self.step(graph, input).state is First) ==> self.step(
                graph,
                input,
            ).output.connect_line == Some(false),
    {
    }

    /// A first intersection is only ever picked by selecting it: after a
    /// frame the picked entity is the selected one or the one picked
    /// before.
    pub proof fn lemma_first_is_selected(self, graph: GraphView, input: FrameInput)
        ensures
            self.step(graph, input).state matches ConnectState::First(first) ==> {
                ||| self.connect_state == ConnectState::First(first)
                ||| input.selected matches Selected::Intersection { entity, .. } && entity == first
            },
    {
    }
}

} // verus!
