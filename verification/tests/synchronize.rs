use scale::intersection::{Connection, IntersectionID, Point};
use scale::lane_pattern::LanePattern;
use scale::movable::{EntityRef, MovedEvent};
use scale::road_graph::RoadGraph;
use scale::synchronize::{
    ConnectState, FrameInput, FrameOutput, Moved, RoadGraphSynchronizeState, Selected,
};

const LINE: EntityRef = EntityRef { index: 0, generation: 1 };

fn at(x: f32, y: f32) -> Point {
    Point { x_bits: x.to_bits(), y_bits: y.to_bits() }
}

fn entity(index: u32) -> EntityRef {
    EntityRef { index, generation: 1 }
}

fn picked(index: u32, id: IntersectionID) -> Selected {
    Selected::Intersection { entity: entity(index), id }
}

fn dragged(intersection: Option<IntersectionID>, new_pos: Point) -> Moved {
    Moved { event: MovedEvent { entity: entity(3), new_pos }, intersection }
}

fn quiet(selected: Selected) -> FrameInput {
    FrameInput {
        moved: vec![],
        create: false,
        delete: false,
        toggle_connect: false,
        cursor: at(0.0, 0.0),
        selected,
        first_intersection: None,
    }
}

const NOTHING: FrameOutput = FrameOutput { created: None, deleted: None, connect_line: None };

fn setup() -> (RoadGraphSynchronizeState, RoadGraph, IntersectionID, IntersectionID) {
    let mut graph = RoadGraph::empty();
    let a = graph.add_intersection(at(0.0, 0.0));
    let b = graph.add_intersection(at(10.0, 0.0));
    (RoadGraphSynchronizeState::new(LINE, LanePattern::two_way(1)), graph, a, b)
}

fn run(
    state: &mut RoadGraphSynchronizeState,
    graph: &mut RoadGraph,
    input: &FrameInput,
) -> FrameOutput {
    assert!(state.can_run(graph, input));
    state.run(graph, input)
}

#[test]
fn new_state_is_inactive() {
    let state = RoadGraphSynchronizeState::new(LINE, LanePattern::one_way(2));
    assert_eq!(state.connect_state, ConnectState::Inactive);
    assert_eq!(state.show_connect, LINE);
    assert_eq!(state.pattern, LanePattern::one_way(2));
}

#[test]
fn quiet_frame_changes_nothing() {
    let (mut state, mut graph, a, _) = setup();
    let before = format!("{:?}", graph);
    assert_eq!(run(&mut state, &mut graph, &quiet(Selected::Nothing)), NOTHING);
    assert_eq!(run(&mut state, &mut graph, &quiet(picked(1, a))), NOTHING);
    assert_eq!(state.connect_state, ConnectState::Inactive);
    assert_eq!(format!("{:?}", graph), before);
}

#[test]
fn drags_move_intersections_in_order() {
    let (mut state, mut graph, a, b) = setup();
    graph.connect(a, b, &LanePattern::one_way(1));
    graph.calculate_nodes_positions(a, vec![at(1.0, 0.0)]).unwrap();
    graph.calculate_nodes_positions(b, vec![at(9.0, 0.0)]).unwrap();
    let mut input = quiet(Selected::Nothing);
    input.moved = vec![
        dragged(Some(a), at(0.0, 1.0)),
        dragged(None, at(50.0, 50.0)),
        dragged(Some(a), at(0.0, 2.0)),
    ];
    assert_eq!(run(&mut state, &mut graph, &input), NOTHING);
    assert_eq!(graph.get(a).unwrap().position(), at(0.0, 2.0));
    assert_eq!(graph.get(b).unwrap().position(), at(10.0, 0.0));
    assert!(graph.get(a).unwrap().needs_recomputation());
    assert!(graph.get(b).unwrap().needs_recomputation());
}

#[test]
fn drag_of_an_unknown_intersection_is_refused() {
    let (state, graph, _, _) = setup();
    let mut input = quiet(Selected::Nothing);
    input.moved = vec![dragged(Some(IntersectionID(9)), at(0.0, 1.0))];
    assert!(!state.can_run(&graph, &input));
}

#[test]
fn create_adds_an_intersection_under_the_pointer() {
    let (mut state, mut graph, _, _) = setup();
    let mut input = quiet(Selected::Nothing);
    input.create = true;
    input.cursor = at(4.0, 5.0);
    let output = run(&mut state, &mut graph, &input);
    // The entity of the new intersection is selected at once and stands
    // for nothing yet, which hides the line.
    assert_eq!(
        output,
        FrameOutput {
            created: Some(IntersectionID(2)),
            deleted: None,
            connect_line: Some(false)
        }
    );
    let node = graph.get(IntersectionID(2)).unwrap();
    assert_eq!(node.position(), at(4.0, 5.0));
    assert_eq!(node.degree(), 0);
}

#[test]
fn create_connects_to_the_selected_intersection() {
    let (mut state, mut graph, a, b) = setup();
    let mut input = quiet(picked(1, a));
    input.create = true;
    input.cursor = at(4.0, 5.0);
    let output = run(&mut state, &mut graph, &input);
    assert_eq!(
        output,
        FrameOutput {
            created: Some(IntersectionID(2)),
            deleted: None,
            connect_line: Some(false)
        }
    );
    assert_eq!(
        graph.get(IntersectionID(2)).unwrap().connections(),
        &vec![Connection { to: a, pattern: LanePattern::two_way(1), outgoing: true }]
    );
    assert!(graph.is_neighbor(a, IntersectionID(2)));
    assert!(!graph.is_neighbor(b, IntersectionID(2)));
    assert_eq!(state.connect_state, ConnectState::Inactive);
}

#[test]
fn delete_removes_the_selected_intersection() {
    let (mut state, mut graph, a, b) = setup();
    graph.connect(a, b, &LanePattern::one_way(1));
    let mut input = quiet(picked(7, a));
    input.delete = true;
    let output = run(&mut state, &mut graph, &input);
    assert_eq!(
        output,
        FrameOutput { created: None, deleted: Some(entity(7)), connect_line: Some(false) }
    );
    assert!(!graph.contains(a));
    assert_eq!(graph.get(b).unwrap().degree(), 0);
    assert_eq!(state.connect_state, ConnectState::Inactive);
}

#[test]
fn delete_without_an_intersection_only_switches_connecting_off() {
    let (mut state, mut graph, a, _) = setup();
    state.connect_state = ConnectState::First(entity(1));
    let mut input = quiet(Selected::Nothing);
    input.delete = true;
    input.first_intersection = Some(a);
    let output = run(&mut state, &mut graph, &input);
    assert_eq!(output, FrameOutput { created: None, deleted: None, connect_line: Some(false) });
    assert_eq!(state.connect_state, ConnectState::Inactive);
    assert_eq!(graph.intersections().len(), 2);
}

#[test]
fn create_and_delete_in_one_frame_deletes_nothing() {
    let (mut state, mut graph, a, _) = setup();
    let mut input = quiet(picked(1, a));
    input.create = true;
    input.delete = true;
    let output = run(&mut state, &mut graph, &input);
    assert_eq!(output.created, Some(IntersectionID(2)));
    assert_eq!(output.deleted, None);
    assert!(graph.contains(a));
    assert_eq!(graph.intersections().len(), 3);
}

#[test]
fn picking_two_intersections_connects_them() {
    let (mut state, mut graph, a, b) = setup();
    let mut toggle = quiet(Selected::Nothing);
    toggle.toggle_connect = true;
    assert_eq!(run(&mut state, &mut graph, &toggle), NOTHING);
    assert_eq!(state.connect_state, ConnectState::Unselected);

    let output = run(&mut state, &mut graph, &quiet(picked(1, a)));
    assert_eq!(output, FrameOutput { created: None, deleted: None, connect_line: Some(true) });
    assert_eq!(state.connect_state, ConnectState::First(entity(1)));

    // The same entity stays selected: nothing happens.
    let mut same = quiet(picked(1, a));
    same.first_intersection = Some(a);
    assert_eq!(run(&mut state, &mut graph, &same), NOTHING);
    assert_eq!(state.connect_state, ConnectState::First(entity(1)));

    let mut second = quiet(picked(2, b));
    second.first_intersection = Some(a);
    let output = run(&mut state, &mut graph, &second);
    assert_eq!(output, FrameOutput { created: None, deleted: None, connect_line: Some(false) });
    assert_eq!(state.connect_state, ConnectState::Inactive);
    assert_eq!(
        graph.get(b).unwrap().connections(),
        &vec![Connection { to: a, pattern: LanePattern::two_way(1), outgoing: true }]
    );
    assert!(graph.is_neighbor(a, b));
}

#[test]
fn picking_two_connected_intersections_disconnects_them() {
    let (mut state, mut graph, a, b) = setup();
    graph.connect(a, b, &LanePattern::one_way(1));
    state.connect_state = ConnectState::First(entity(1));
    let mut second = quiet(picked(2, b));
    second.first_intersection = Some(a);
    let output = run(&mut state, &mut graph, &second);
    assert_eq!(output.connect_line, Some(false));
    assert!(!graph.is_neighbor(a, b));
    assert!(!graph.is_neighbor(b, a));
    assert_eq!(state.connect_state, ConnectState::Inactive);
}

#[test]
fn toggle_switches_connecting_off_once_a_first_is_picked() {
    let (mut state, mut graph, a, _) = setup();
    state.connect_state = ConnectState::First(entity(1));
    let mut toggle = quiet(Selected::Nothing);
    toggle.toggle_connect = true;
    toggle.first_intersection = Some(a);
    let output = run(&mut state, &mut graph, &toggle);
    assert_eq!(output.connect_line, Some(false));
    assert_eq!(state.connect_state, ConnectState::Inactive);
}

#[test]
fn toggle_and_selection_in_one_frame_pick_the_first() {
    let (mut state, mut graph, a, _) = setup();
    let mut input = quiet(picked(1, a));
    input.toggle_connect = true;
    let output = run(&mut state, &mut graph, &input);
    assert_eq!(output.connect_line, Some(true));
    assert_eq!(state.connect_state, ConnectState::First(entity(1)));
}

#[test]
fn delete_and_toggle_in_one_frame_pick_the_deleted_entity() {
    // The entity outlives the frame in which its intersection goes, so
    // it is still picked; no edit is made with it in this frame.
    let (mut state, mut graph, a, _) = setup();
    let mut input = quiet(picked(1, a));
    input.delete = true;
    input.toggle_connect = true;
    let output = run(&mut state, &mut graph, &input);
    assert_eq!(
        output,
        FrameOutput { created: None, deleted: Some(entity(1)), connect_line: Some(true) }
    );
    assert_eq!(state.connect_state, ConnectState::First(entity(1)));
    assert!(!graph.contains(a));
}

#[test]
fn selecting_something_else_switches_connecting_off() {
    let (mut state, mut graph, a, _) = setup();
    state.connect_state = ConnectState::First(entity(1));
    let mut input = quiet(Selected::Other);
    input.first_intersection = Some(a);
    let output = run(&mut state, &mut graph, &input);
    assert_eq!(output.connect_line, Some(false));
    assert_eq!(state.connect_state, ConnectState::Inactive);
}

#[test]
fn frames_that_would_break_the_network_are_refused() {
    let (mut state, graph, a, b) = setup();
    state.connect_state = ConnectState::First(entity(1));

    // The first picked entity stands for no intersection any more.
    assert!(!state.can_run(&graph, &quiet(picked(2, b))));

    // Two entities that stand for the same intersection.
    let mut same = quiet(picked(2, a));
    same.first_intersection = Some(a);
    assert!(!state.can_run(&graph, &same));

    // An intersection that the network does not hold.
    let mut unknown = quiet(picked(2, IntersectionID(9)));
    unknown.first_intersection = Some(a);
    assert!(!state.can_run(&graph, &unknown));
    let mut unknown_first = quiet(picked(2, b));
    unknown_first.first_intersection = Some(IntersectionID(9));
    assert!(!state.can_run(&graph, &unknown_first));

    let mut delete = quiet(picked(2, IntersectionID(9)));
    delete.delete = true;
    assert!(!state.can_run(&graph, &delete));
    let mut create = quiet(picked(2, IntersectionID(9)));
    create.create = true;
    assert!(!state.can_run(&graph, &create));

    // With the switch pressed the pair is not looked at.
    let mut toggled = quiet(picked(2, IntersectionID(9)));
    toggled.toggle_connect = true;
    assert!(state.can_run(&graph, &toggled));
}
