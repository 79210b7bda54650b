use scale::graph_view::Approach;
use scale::intersection::{Connection, Intersection, IntersectionID, Point};
use scale::lane_pattern::{LaneDirection, LanePattern};
use scale::road_graph::{AnchorError, RestoreError, RoadGraph};

fn at(x: f32, y: f32) -> Point {
    Point { x_bits: x.to_bits(), y_bits: y.to_bits() }
}

fn neighbors(graph: &RoadGraph, id: IntersectionID) -> Vec<IntersectionID> {
    graph.get(id).unwrap().connections().iter().map(|link| link.to).collect()
}

fn assert_symmetric(graph: &RoadGraph) {
    for a in graph.intersections() {
        for link in graph.get(a).unwrap().connections() {
            assert_ne!(link.to, a);
            let back = graph.get(link.to).expect("dangling connection");
            let mirrored: Vec<&Connection> =
                back.connections().iter().filter(|other| other.to == a).collect();
            assert_eq!(mirrored.len(), 1);
            assert_eq!(mirrored[0].pattern, link.pattern);
            assert_eq!(mirrored[0].outgoing, !link.outgoing);
        }
    }
}

#[test]
fn empty_graph_has_no_intersections() {
    let graph = RoadGraph::empty();
    assert!(graph.intersections().is_empty());
    assert!(!graph.contains(IntersectionID(0)));
    assert!(graph.get(IntersectionID(0)).is_none());
    assert!(!graph.is_neighbor(IntersectionID(0), IntersectionID(1)));
}

#[test]
fn added_intersection_is_isolated() {
    let mut graph = RoadGraph::empty();
    let id = graph.add_intersection(at(3.0, -4.5));
    assert_eq!(id, IntersectionID(0));
    let node = graph.get(id).unwrap();
    assert_eq!(node.id(), id);
    assert_eq!(node.position(), at(3.0, -4.5));
    assert_eq!(node.degree(), 0);
    assert!(node.connections().is_empty());
    assert_eq!(node.lane_anchors(), Some(&vec![]));
    assert!(!node.needs_recomputation());
    assert_eq!(graph.intersections(), vec![id]);
}

#[test]
fn connect_then_disconnect_leaves_no_neighbors() {
    let mut graph = RoadGraph::empty();
    let a = graph.add_intersection(at(0.0, 0.0));
    let b = graph.add_intersection(at(10.0, 0.0));
    graph.connect(a, b, &LanePattern::one_way(1));
    assert!(graph.is_neighbor(a, b));
    assert!(graph.is_neighbor(b, a));
    graph.disconnect(a, b);
    assert!(!graph.is_neighbor(a, b));
    assert!(!graph.is_neighbor(b, a));
    assert_eq!(graph.get(a).unwrap().degree(), 0);
    assert_eq!(graph.get(b).unwrap().degree(), 0);
}

#[test]
fn connection_is_held_at_both_ends() {
    let mut graph = RoadGraph::empty();
    let a = graph.add_intersection(at(0.0, 0.0));
    let b = graph.add_intersection(at(10.0, 0.0));
    let pattern = LanePattern::two_way(2);
    graph.connect(a, b, &pattern);
    assert_eq!(
        graph.get(a).unwrap().connections(),
        &vec![Connection { to: b, pattern, outgoing: true }]
    );
    assert_eq!(
        graph.get(b).unwrap().connections(),
        &vec![Connection { to: a, pattern, outgoing: false }]
    );
    assert!(graph.get(a).unwrap().needs_recomputation());
    assert!(graph.get(b).unwrap().needs_recomputation());
    assert_eq!(graph.get(a).unwrap().lane_anchors(), None);
}

#[test]
fn disconnect_twice_is_a_no_op() {
    let mut graph = RoadGraph::empty();
    let a = graph.add_intersection(at(0.0, 0.0));
    let b = graph.add_intersection(at(10.0, 0.0));
    let c = graph.add_intersection(at(0.0, 10.0));
    graph.connect(a, b, &LanePattern::one_way(1));
    graph.connect(a, c, &LanePattern::two_way(1));
    graph.disconnect(a, b);
    let once = format!("{:?}", graph);
    graph.disconnect(a, b);
    assert_eq!(format!("{:?}", graph), once);
    graph.disconnect(b, a);
    assert_eq!(format!("{:?}", graph), once);
    assert_eq!(neighbors(&graph, a), vec![c]);
}

#[test]
fn disconnect_of_unknown_intersections_changes_nothing() {
    let mut graph = RoadGraph::empty();
    let a = graph.add_intersection(at(0.0, 0.0));
    graph.calculate_nodes_positions(a, vec![]).unwrap();
    let before = format!("{:?}", graph);
    graph.disconnect(a, IntersectionID(7));
    graph.disconnect(IntersectionID(7), a);
    graph.disconnect(IntersectionID(8), IntersectionID(9));
    graph.disconnect(a, a);
    assert_eq!(format!("{:?}", graph), before);
}

#[test]
fn disconnect_keeps_the_order_of_the_other_connections() {
    let mut graph = RoadGraph::empty();
    let hub = graph.add_intersection(at(0.0, 0.0));
    let a = graph.add_intersection(at(1.0, 0.0));
    let b = graph.add_intersection(at(0.0, 1.0));
    let c = graph.add_intersection(at(-1.0, 0.0));
    graph.connect(hub, a, &LanePattern::one_way(1));
    graph.connect(hub, b, &LanePattern::one_way(1));
    graph.connect(hub, c, &LanePattern::one_way(1));
    graph.disconnect(hub, a);
    assert_eq!(neighbors(&graph, hub), vec![b, c]);
    graph.disconnect(c, hub);
    assert_eq!(neighbors(&graph, hub), vec![b]);
}

#[test]
fn deleting_an_intersection_unlinks_its_neighbors() {
    let mut graph = RoadGraph::empty();
    let a = graph.add_intersection(at(0.0, 0.0));
    let mid = graph.add_intersection(at(10.0, 0.0));
    let b = graph.add_intersection(at(20.0, 0.0));
    graph.connect(a, mid, &LanePattern::two_way(1));
    graph.connect(mid, b, &LanePattern::two_way(1));
    graph.connect(a, b, &LanePattern::one_way(3));
    graph.calculate_nodes_positions(a, vec![at(1.0, 0.0), at(2.0, 0.0)]).unwrap();
    graph.calculate_nodes_positions(b, vec![at(19.0, 0.0), at(18.0, 0.0)]).unwrap();
    assert_eq!(graph.get(a).unwrap().degree(), 2);
    assert_eq!(graph.get(b).unwrap().degree(), 2);

    graph.delete_intersection(mid);

    assert!(!graph.contains(mid));
    assert!(graph.get(mid).is_none());
    assert_eq!(graph.get(a).unwrap().degree(), 1);
    assert_eq!(graph.get(b).unwrap().degree(), 1);
    assert_eq!(neighbors(&graph, a), vec![b]);
    assert_eq!(neighbors(&graph, b), vec![a]);
    assert!(graph.get(a).unwrap().needs_recomputation());
    assert!(graph.get(b).unwrap().needs_recomputation());
    assert_eq!(graph.get(a).unwrap().lane_anchors(), None);
    assert_eq!(graph.get(b).unwrap().lane_anchors(), None);
    for id in graph.intersections() {
        assert!(!graph.is_neighbor(id, mid));
        assert!(!graph.is_neighbor(mid, id));
    }
    assert_symmetric(&graph);
}

#[test]
fn deleting_leaves_unrelated_intersections_alone() {
    let mut graph = RoadGraph::empty();
    let a = graph.add_intersection(at(0.0, 0.0));
    let b = graph.add_intersection(at(10.0, 0.0));
    let far = graph.add_intersection(at(50.0, 50.0));
    graph.connect(a, b, &LanePattern::one_way(1));
    graph.calculate_nodes_positions(far, vec![]).unwrap();
    graph.delete_intersection(a);
    assert!(!graph.get(far).unwrap().needs_recomputation());
    assert_eq!(graph.intersections(), vec![b, far]);
}

#[test]
fn identifiers_are_never_handed_out_twice() {
    let mut graph = RoadGraph::empty();
    let a = graph.add_intersection(at(0.0, 0.0));
    let b = graph.add_intersection(at(1.0, 0.0));
    graph.delete_intersection(b);
    let c = graph.add_intersection(at(2.0, 0.0));
    graph.delete_intersection(a);
    let d = graph.add_intersection(at(3.0, 0.0));
    assert_eq!((a, b, c, d), (IntersectionID(0), IntersectionID(1), IntersectionID(2), IntersectionID(3)));
    assert_eq!(graph.intersections(), vec![c, d]);
}

#[test]
fn moving_marks_the_intersection_and_its_neighbors() {
    let mut graph = RoadGraph::empty();
    let a = graph.add_intersection(at(0.0, 0.0));
    let b = graph.add_intersection(at(10.0, 0.0));
    let c = graph.add_intersection(at(20.0, 0.0));
    let far = graph.add_intersection(at(90.0, 0.0));
    graph.connect(a, b, &LanePattern::one_way(1));
    graph.connect(b, c, &LanePattern::one_way(1));
    graph.connect(c, far, &LanePattern::one_way(1));
    for (id, count) in [(a, 1), (b, 2), (c, 2), (far, 1)] {
        graph.calculate_nodes_positions(id, vec![at(0.5, 0.5); count]).unwrap();
    }

    graph.set_intersection_position(b, at(10.0, 5.0));

    assert_eq!(graph.get(b).unwrap().position(), at(10.0, 5.0));
    assert!(graph.get(a).unwrap().needs_recomputation());
    assert!(graph.get(b).unwrap().needs_recomputation());
    assert!(graph.get(c).unwrap().needs_recomputation());
    assert!(!graph.get(far).unwrap().needs_recomputation());
    assert_eq!(neighbors(&graph, b), vec![a, c]);
    assert_eq!(graph.get(a).unwrap().position(), at(0.0, 0.0));
}

#[test]
fn anchors_are_installed_one_per_connection() {
    let mut graph = RoadGraph::empty();
    let a = graph.add_intersection(at(0.0, 0.0));
    let b = graph.add_intersection(at(10.0, 0.0));
    graph.connect(a, b, &LanePattern::one_way(1));
    assert_eq!(graph.calculate_nodes_positions(a, vec![]), Err(AnchorError::WrongCount));
    assert_eq!(
        graph.calculate_nodes_positions(a, vec![at(1.0, 1.0), at(2.0, 2.0)]),
        Err(AnchorError::WrongCount)
    );
    assert!(graph.get(a).unwrap().needs_recomputation());
    assert_eq!(graph.calculate_nodes_positions(a, vec![at(1.0, 1.0)]), Ok(()));
    assert_eq!(graph.get(a).unwrap().lane_anchors(), Some(&vec![at(1.0, 1.0)]));
    assert!(graph.get(b).unwrap().needs_recomputation());
}

#[test]
fn installing_the_same_anchors_twice_changes_nothing() {
    let mut graph = RoadGraph::empty();
    let a = graph.add_intersection(at(0.0, 0.0));
    let b = graph.add_intersection(at(10.0, 0.0));
    graph.connect(a, b, &LanePattern::two_way(1));
    let approaches = (graph.approaches(a), graph.approaches(b));
    graph.calculate_nodes_positions(a, vec![at(4.0, 1.5)]).unwrap();
    let once = format!("{:?}", graph);
    assert_eq!((graph.approaches(a), graph.approaches(b)), approaches);
    graph.calculate_nodes_positions(a, vec![at(4.0, 1.5)]).unwrap();
    assert_eq!(format!("{:?}", graph), once);
    assert_eq!((graph.approaches(a), graph.approaches(b)), approaches);
    assert_eq!(neighbors(&graph, a), vec![b]);
    assert_eq!(graph.get(a).unwrap().position(), at(0.0, 0.0));
}

#[test]
fn connections_stay_symmetric_under_edits() {
    let mut graph = RoadGraph::empty();
    let ids: Vec<IntersectionID> =
        (0..6).map(|i| graph.add_intersection(at(i as f32, 0.0))).collect();
    for i in 0..6 {
        for j in (i + 1)..6 {
            if (i + j) % 2 == 1 {
                graph.connect(ids[i], ids[j], &LanePattern::one_way(1 + i as u32));
                assert_symmetric(&graph);
            }
        }
    }
    graph.disconnect(ids[0], ids[1]);
    assert_symmetric(&graph);
    graph.disconnect(ids[4], ids[1]);
    assert_symmetric(&graph);
    graph.delete_intersection(ids[3]);
    assert_symmetric(&graph);
    graph.set_intersection_position(ids[2], at(7.0, 7.0));
    assert_symmetric(&graph);
    graph.connect(ids[1], ids[0], &LanePattern::two_way(2));
    assert_symmetric(&graph);
    assert!(graph.is_neighbor(ids[0], ids[1]));
    assert!(!graph.is_neighbor(ids[2], ids[3]));
}

#[test]
fn lane_patterns() {
    let one = LanePattern::one_way(3);
    assert_eq!(one.get_direction(), LaneDirection::OneWay);
    assert!(one.is_one_way());
    assert_eq!(one.lanes_per_direction(), 3);
    assert_eq!(one.lane_count(), 3);
    let two = LanePattern::two_way(3);
    assert_eq!(two.get_direction(), LaneDirection::TwoWay);
    assert!(!two.is_one_way());
    assert_eq!(two.lanes_per_direction(), 3);
    assert_eq!(two.lane_count(), 6);
    assert_eq!(LanePattern::two_way(u32::MAX).lane_count(), 2 * (u32::MAX as u64));
    assert_ne!(one, two);
}

#[test]
fn can_connect_tells_when_a_connection_may_be_made() {
    let mut graph = RoadGraph::empty();
    let a = graph.add_intersection(at(0.0, 0.0));
    let b = graph.add_intersection(at(10.0, 0.0));
    assert!(graph.can_connect(a, b));
    assert!(graph.can_connect(b, a));
    assert!(!graph.can_connect(a, a));
    assert!(!graph.can_connect(a, IntersectionID(5)));
    assert!(!graph.can_connect(IntersectionID(5), a));
    graph.connect(a, b, &LanePattern::one_way(1));
    assert!(!graph.can_connect(a, b));
    assert!(!graph.can_connect(b, a));
    graph.disconnect(b, a);
    assert!(graph.can_connect(a, b));
}

#[test]
fn pending_lists_the_intersections_that_await_recomputation() {
    let mut graph = RoadGraph::empty();
    let a = graph.add_intersection(at(0.0, 0.0));
    let b = graph.add_intersection(at(10.0, 0.0));
    let c = graph.add_intersection(at(20.0, 0.0));
    assert!(graph.pending().is_empty());
    graph.connect(c, a, &LanePattern::one_way(1));
    assert_eq!(graph.pending(), vec![a, c]);
    graph.calculate_nodes_positions(c, vec![at(19.0, 0.0)]).unwrap();
    assert_eq!(graph.pending(), vec![a]);
    graph.set_intersection_position(b, at(10.0, 1.0));
    assert_eq!(graph.pending(), vec![a, b]);
    graph.delete_intersection(a);
    assert_eq!(graph.pending(), vec![b, c]);
}

#[test]
fn approaches_give_position_and_width_of_each_connection() {
    let mut graph = RoadGraph::empty();
    let hub = graph.add_intersection(at(0.0, 0.0));
    let a = graph.add_intersection(at(10.0, 0.0));
    let b = graph.add_intersection(at(0.0, -7.5));
    assert!(graph.approaches(hub).is_empty());
    graph.connect(a, hub, &LanePattern::two_way(2));
    graph.connect(hub, b, &LanePattern::one_way(3));
    assert_eq!(
        graph.approaches(hub),
        vec![Approach { toward: at(10.0, 0.0), lanes: 4 }, Approach { toward: at(0.0, -7.5), lanes: 3 }]
    );
    graph.set_intersection_position(a, at(11.0, 1.0));
    assert_eq!(graph.approaches(hub)[0], Approach { toward: at(11.0, 1.0), lanes: 4 });
    assert_eq!(graph.approaches(a), vec![Approach { toward: at(0.0, 0.0), lanes: 4 }]);
}

fn saved(graph: &RoadGraph) -> Vec<Option<Intersection>> {
    graph
        .slots()
        .iter()
        .map(|slot| {
            slot.as_ref().map(|node| {
                Intersection::from_parts(
                    node.id(),
                    node.position(),
                    node.connections().clone(),
                    node.lane_anchors().cloned(),
                )
            })
        })
        .collect()
}

fn sample() -> RoadGraph {
    let mut graph = RoadGraph::empty();
    let a = graph.add_intersection(at(0.0, 0.0));
    let gone = graph.add_intersection(at(5.0, 5.0));
    let b = graph.add_intersection(at(10.0, 0.0));
    let c = graph.add_intersection(at(20.0, 0.0));
    graph.connect(a, b, &LanePattern::one_way(1));
    graph.connect(b, gone, &LanePattern::two_way(1));
    graph.connect(c, b, &LanePattern::two_way(2));
    graph.delete_intersection(gone);
    graph.calculate_nodes_positions(a, vec![at(1.0, 0.0)]).unwrap();
    graph
}

#[test]
fn saved_network_is_restored_as_it_was() {
    let graph = sample();
    let restored = RoadGraph::from_slots(saved(&graph)).unwrap();
    assert_eq!(format!("{:?}", restored), format!("{:?}", graph));
    assert_eq!(restored.intersections(), graph.intersections());
    let mut restored = restored;
    assert_eq!(restored.add_intersection(at(0.0, 0.0)), IntersectionID(4));
    assert!(RoadGraph::from_slots(vec![]).unwrap().intersections().is_empty());
    assert!(RoadGraph::from_slots(vec![None, None]).unwrap().intersections().is_empty());
}

fn node(
    id: usize,
    links: Vec<Connection>,
    anchors: Option<Vec<Point>>,
) -> Option<Intersection> {
    Some(Intersection::from_parts(
        IntersectionID(id),
        at(id as f32, 0.0),
        links,
        anchors,
    ))
}

fn link(to: usize, outgoing: bool) -> Connection {
    Connection { to: IntersectionID(to), pattern: LanePattern::one_way(1), outgoing }
}

#[test]
fn saved_network_that_breaks_the_invariant_is_turned_down() {
    let malformed = |slots| RoadGraph::from_slots(slots).unwrap_err();

    // Filed under the wrong identifier.
    assert_eq!(
        malformed(vec![node(0, vec![], None), node(3, vec![], None)]),
        RestoreError::Malformed { intersection: 1 }
    );
    // Connected to itself.
    assert_eq!(
        malformed(vec![node(0, vec![link(0, true)], None)]),
        RestoreError::Malformed { intersection: 0 }
    );
    // Connected to an intersection that is not there.
    assert_eq!(
        malformed(vec![node(0, vec![link(1, true)], None), None]),
        RestoreError::Malformed { intersection: 0 }
    );
    assert_eq!(
        malformed(vec![node(0, vec![link(7, true)], None)]),
        RestoreError::Malformed { intersection: 0 }
    );
    // Held at one end only.
    assert_eq!(
        malformed(vec![node(0, vec![], None), node(1, vec![link(0, false)], None)]),
        RestoreError::Malformed { intersection: 1 }
    );
    // Held at both ends with the same orientation.
    assert_eq!(
        malformed(vec![node(0, vec![link(1, true)], None), node(1, vec![link(0, true)], None)]),
        RestoreError::Malformed { intersection: 0 }
    );
    // Held at both ends with different patterns.
    let wide = Connection { to: IntersectionID(0), pattern: LanePattern::one_way(2), outgoing: false };
    assert_eq!(
        malformed(vec![node(0, vec![link(1, true)], None), node(1, vec![wide], None)]),
        RestoreError::Malformed { intersection: 0 }
    );
    // Connected twice to the same neighbour.
    assert_eq!(
        malformed(vec![
            node(0, vec![link(1, true), link(1, true)], None),
            node(1, vec![link(0, false)], None)
        ]),
        RestoreError::Malformed { intersection: 0 }
    );
    // Anchors that do not come one per connection.
    assert_eq!(
        malformed(vec![
            node(0, vec![link(1, true)], Some(vec![])),
            node(1, vec![link(0, false)], None)
        ]),
        RestoreError::Malformed { intersection: 0 }
    );
    // The same network with fitting anchors is taken.
    assert!(RoadGraph::from_slots(vec![
        node(0, vec![link(1, true)], Some(vec![at(0.5, 0.0)])),
        node(1, vec![link(0, false)], None)
    ])
    .is_ok());
}

#[test]
fn pattern_needs_a_lane() {
    assert_eq!(LanePattern::new(LaneDirection::OneWay, 0), None);
    assert_eq!(LanePattern::new(LaneDirection::TwoWay, 0), None);
    assert_eq!(LanePattern::new(LaneDirection::OneWay, 2), Some(LanePattern::one_way(2)));
    assert_eq!(LanePattern::new(LaneDirection::TwoWay, 1), Some(LanePattern::two_way(1)));
}

#[test]
fn find_link_and_holds() {
    let mut graph = RoadGraph::empty();
    let a = graph.add_intersection(at(0.0, 0.0));
    let b = graph.add_intersection(at(1.0, 0.0));
    let c = graph.add_intersection(at(2.0, 0.0));
    graph.connect(a, b, &LanePattern::one_way(1));
    graph.connect(c, a, &LanePattern::two_way(1));
    let node = graph.get(a).unwrap();
    assert_eq!(node.find_link(b), Some(0));
    assert_eq!(node.find_link(c), Some(1));
    assert_eq!(node.find_link(a), None);
    assert!(node.is_connected_to(c));
    assert!(!node.is_connected_to(IntersectionID(9)));
    assert!(node.holds(Connection { to: c, pattern: LanePattern::two_way(1), outgoing: false }));
    assert!(!node.holds(Connection { to: c, pattern: LanePattern::two_way(1), outgoing: true }));
    assert!(!node.holds(Connection { to: c, pattern: LanePattern::one_way(1), outgoing: false }));
}
