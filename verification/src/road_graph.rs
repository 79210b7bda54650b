//! The road network: owner of all intersections and their connections.
//!
//! Every edit keeps the connections symmetric and marks as out of date the
//! lane anchors of exactly the intersections whose surroundings changed.
//! Anchors are derived geometry: the network never patches them, it only
//! drops them and takes recomputed ones.

use crate::graph_view::{Approach, GraphView};
use crate::intersection::{Connection, Intersection, IntersectionID, Point};
use crate::lane_pattern::LanePattern;
use vstd::prelude::*;

verus! {

/// Why a set of recomputed anchors was turned down.
#[derive(Clone, Copy, Debug, PartialEq, Eq, Structural)]
pub enum AnchorError {
    /// The anchors do not come one per connection.
    WrongCount,
}

/// A mutable graph of intersections. An intersection is stored under its
/// identifier; the place of a deleted one stays empty, so that its
/// identifier is never handed out again.
#[derive(Debug)]
pub struct RoadGraph {
    slots: Vec<Option<Intersection>>,
}

/// The network that a row of places holds: the intersection at place `i`,
/// where there is one, filed under the identifier `i`; and as many
/// identifiers handed out as there are places.
pub open spec fn graph_of(slots: Seq<Option<Intersection>>) -> GraphView {
    GraphView {
        nodes: Map::new(
            |id: IntersectionID| id.0 < slots.len() && slots[id.0 as int] is Some,
            |id: IntersectionID| slots[id.0 as int]->0@,
        ),
        issued: slots.len(),
    }
}

/// Why a saved network was turned down.
#[derive(Clone, Copy, Debug, PartialEq, Eq, Structural)]
pub enum RestoreError {
    /// The intersection at this place breaks the invariant of the
    /// network, and none before it does.
    Malformed { intersection: usize },
}

impl View for RoadGraph {
    type V = GraphView;

    closed spec fn view(&self) -> GraphView {
        graph_of(self.slots@)
    }
}

impl RoadGraph {
    /// The invariant of the network: see [`GraphView::wf`].
    pub open spec fn wf(&self) -> bool {
        self@.wf()
    }

    /// A network without intersections.
    pub fn empty() -> (graph: Self)
        ensures
            graph@ == GraphView::empty(),
            graph.wf(),
    {
        let graph = RoadGraph { slots: Vec::new() };
        assert(graph@.nodes =~= GraphView::empty().nodes);
        graph
    }

    /// The places of the network, for saving: see [`graph_of`].
    pub fn slots(&self) -> (slots: &Vec<Option<Intersection>>)
        ensures
            graph_of(slots@) == self@,
    {
        &self.slots
    }

    /// Whether the intersection at place `at` keeps the invariant of the
    /// network that `slots` holds.
    fn node_is_wf(slots: &Vec<Option<Intersection>>, at: usize) -> (r: bool)
        requires
            at < slots.len(),
            slots[at as int] is Some,
        ensures
            r == graph_of(slots@).node_wf(IntersectionID(at)),
    {
        let ghost graph = graph_of(slots@);
        let id = IntersectionID(at);
        match &slots[at] {
            Some(node) => {
                assert(graph.nodes[id] == node@);
                if node.id() != id {
                    return false;
                }
                let fit = match node.lane_anchors() {
                    Some(anchors) => anchors.len() == node.degree(),
                    None => true,
                };
                if !fit {
                    return false;
                }
                let links = node.connections();
                let mut i: usize = 0;
                while i < links.len()
                    invariant
                        i <= links.len(),
                        links@ == node@.connections,
                        graph == graph_of(slots@),
                        graph.nodes[id] == node@,
                        id == IntersectionID(at),
                        forall|k: int| 0 <= k < i ==> (#[trigger] links@[k]).to != id,
                        forall|k: int, l: int|
                            0 <= k < l < i ==> (#[trigger] links@[k]).to != (
                            #[trigger] links@[l]).to,
                        forall|k: int| 0 <= k < i ==> graph.mirrored(id, #[trigger] links@[k]),
                    decreases links.len() - i,
                {
                    let link = links[i];
                    if link.to == id {
                        return false;
                    }
                    match node.find_link(link.to) {
                        Some(first) => {
                            if first != i {
                                proof {
                                    assert(links@[first as int].to == links@[i as int].to);
                                    assert(!node@.distinct_links());
                                }
                                return false;
                            }
                        },
                        None => {
                            return false;
                        },
                    }
                    if link.to.0 >= slots.len() {
                        proof {
                            assert(!graph.mirrored(id, links@[i as int]));
                        }
                        return false;
                    }
                    let mirrored = match &slots[link.to.0] {
                        Some(other) => other.holds(
                            Connection { to: id, pattern: link.pattern, outgoing: !link.outgoing },
                        ),
                        None => false,
                    };
                    if !mirrored {
                        proof {
                            assert(!graph.mirrored(id, links@[i as int]));
                        }
                        return false;
                    }
                    i += 1;
                }
                true
            },
            None => false,
        }
    }

    /// Puts a saved network together again, after making sure that it
    /// keeps the invariant of the network. The first intersection that
    /// does not has the whole turned down.
    pub fn from_slots(slots: Vec<Option<Intersection>>) -> (restored: Result<
        RoadGraph,
        RestoreError,
    >)
        ensures
            match restored {
                Ok(graph) => graph@ == graph_of(slots@) && graph.wf(),
                Err(RestoreError::Malformed { intersection }) => {
                    &&& graph_of(slots@).contains(IntersectionID(intersection))
                    &&& !graph_of(slots@).node_wf(IntersectionID(intersection))
                    &&& forall|id: IntersectionID|
                        id.0 < intersection && #[trigger] graph_of(slots@).contains(id)
                            ==> graph_of(slots@).node_wf(id)
                },
            },
            restored is Ok <==> graph_of(slots@).wf(),
    {
        let ghost graph = graph_of(slots@);
        let mut at: usize = 0;
        while at < slots.len()
            invariant
                at <= slots.len(),
                graph == graph_of(slots@),
                forall|id: IntersectionID|
                    id.0 < at && #[trigger] graph.contains(id) ==> graph.node_wf(id),
            decreases slots.len() - at,
        {
            if slots[at].is_some() {
                if !Self::node_is_wf(&slots, at) {
                    proof {
                        assert(graph.contains(IntersectionID(at)));
                    }
                    return Err(RestoreError::Malformed { intersection: at });
                }
            }
            proof {
                assert forall|id: IntersectionID|
                    id.0 < at + 1 && #[trigger] graph.contains(id) implies graph.node_wf(id) by {
                    if id.0 == at {
                        assert(id == IntersectionID(at));
                    }
                }
            }
            at += 1;
        }
        Ok(RoadGraph { slots })
    }

    pub fn contains(&self, id: IntersectionID) -> (r: bool)
        ensures
            r == self@.contains(id),
    {
        id.0 < self.slots.len() && self.slots[id.0].is_some()
    }

    /// The intersection filed under `id`, if there is one.
    pub fn get(&self, id: IntersectionID) -> (found: Option<&Intersection>)
        ensures
            match found {
                Some(node) => self@.contains(id) && node@ == self@.nodes[id],
                None => !self@.contains(id),
            },
    {
        if id.0 < self.slots.len() {
            match &self.slots[id.0] {
                Some(node) => Some(node),
                None => None,
            }
        } else {
            None
        }
    }

    /// Whether `a` and `b` may be connected: both exist, they differ, and
    /// no connection runs between them yet.
    pub fn can_connect(&self, a: IntersectionID, b: IntersectionID) -> (r: bool)
        ensures
            r == self@.can_connect(a, b),
    {
        self.contains(a) && self.contains(b) && a != b && !self.is_neighbor(a, b)
    }

    /// Whether `a` holds a connection to `b`. In a well-formed network this
    /// is the same from either side.
    pub fn is_neighbor(&self, a: IntersectionID, b: IntersectionID) -> (r: bool)
        ensures
            r == self@.is_neighbor(a, b),
    {
        match self.get(a) {
            Some(node) => node.is_connected_to(b),
            None => false,
        }
    }

    /// The identifiers of all intersections, in ascending order.
    pub fn intersections(&self) -> (ids: Vec<IntersectionID>)
        ensures
            forall|id: IntersectionID| ids@.contains(id) <==> self@.contains(id),
            forall|i: int, j: int| 0 <= i < j < ids.len() ==> ids[i].0 < ids[j].0,
    {
        let mut ids: Vec<IntersectionID> = Vec::new();
        let mut at: usize = 0;
        while at < self.slots.len()
            invariant
                at <= self.slots.len(),
                forall|i: int| 0 <= i < ids.len() ==> (#[trigger] ids[i]).0 < at,
                forall|i: int| 0 <= i < ids.len() ==> self@.contains(#[trigger] ids[i]),
                forall|id: IntersectionID|
                    id.0 < at && self@.contains(id) ==> #[trigger] ids@.contains(id),
                forall|i: int, j: int| 0 <= i < j < ids.len() ==> ids[i].0 < ids[j].0,
            decreases self.slots.len() - at,
        {
            if self.slots[at].is_some() {
                let ghost before = ids@;
                ids.push(IntersectionID(at));
                proof {
                    assert(ids@[before.len() as int] == IntersectionID(at));
                    assert forall|id: IntersectionID|
                        id.0 < at + 1 && self@.contains(id) implies #[trigger] ids@.contains(
                        id,
                    ) by {
                        if id.0 < at {
                            assert(before.contains(id));
                            let i = choose|i: int| 0 <= i < before.len() && before[i] == id;
                            assert(ids@[i] == id);
                        } else {
                            assert(id == IntersectionID(at));
                        }
                    }
                }
            }
            at += 1;
        }
        proof {
            assert forall|id: IntersectionID| ids@.contains(id) implies self@.contains(id) by {
                let i = choose|i: int| 0 <= i < ids@.len() && ids@[i] == id;
                assert(self@.contains(ids[i]));
            }
        }
        ids
    }

    /// The identifiers of the intersections that await recomputation of
    /// their anchors, in ascending order.
    pub fn pending(&self) -> (ids: Vec<IntersectionID>)
        ensures
            forall|id: IntersectionID| ids@.contains(id) <==> self@.pending(id),
            forall|i: int, j: int| 0 <= i < j < ids.len() ==> ids[i].0 < ids[j].0,
    {
        let mut ids: Vec<IntersectionID> = Vec::new();
        let mut at: usize = 0;
        while at < self.slots.len()
            invariant
                at <= self.slots.len(),
                forall|i: int| 0 <= i < ids.len() ==> (#[trigger] ids[i]).0 < at,
                forall|i: int| 0 <= i < ids.len() ==> self@.pending(#[trigger] ids[i]),
                forall|id: IntersectionID|
                    id.0 < at && self@.pending(id) ==> #[trigger] ids@.contains(id),
                forall|i: int, j: int| 0 <= i < j < ids.len() ==> ids[i].0 < ids[j].0,
            decreases self.slots.len() - at,
        {
            let stale = match &self.slots[at] {
                Some(node) => node.needs_recomputation(),
                None => false,
            };
            if stale {
                let ghost before = ids@;
                ids.push(IntersectionID(at));
                proof {
                    assert(ids@[before.len() as int] == IntersectionID(at));
                    assert forall|id: IntersectionID|
                        id.0 < at + 1 && self@.pending(id) implies #[trigger] ids@.contains(
                        id,
                    ) by {
                        if id.0 < at {
                            assert(before.contains(id));
                            let i = choose|i: int| 0 <= i < before.len() && before[i] == id;
                            assert(ids@[i] == id);
                        } else {
                            assert(id == IntersectionID(at));
                        }
                    }
                }
            } else {
                proof {
                    assert forall|id: IntersectionID|
                        id.0 < at + 1 && self@.pending(id) implies #[trigger] ids@.contains(
                        id,
                    ) by {
                        if id.0 == at {
                            assert(id == IntersectionID(at));
                        }
                    }
                }
            }
            at += 1;
        }
        proof {
            assert forall|id: IntersectionID| ids@.contains(id) implies self@.pending(id) by {
                let i = choose|i: int| 0 <= i < ids@.len() && ids@[i] == id;
                assert(self@.pending(ids[i]));
            }
        }
        ids
    }

    /// What the geometry needs to recompute the anchors of `id`: for each
    /// connection, in order, where it leads and how wide it is.
    pub fn approaches(&self, id: IntersectionID) -> (approaches: Vec<Approach>)
        requires
            self.wf(),
            self@.contains(id),
        ensures
            approaches@ == self@.approaches(id),
    {
        let mut approaches: Vec<Approach> = Vec::new();
        match &self.slots[id.0] {
            Some(node) => {
                let links = node.connections();
                let mut i: usize = 0;
                while i < links.len()
                    invariant
                        i <= links.len(),
                        self.wf(),
                        self@.contains(id),
                        links@ == self@.nodes[id].connections,
                        approaches@.len() == i,
                        forall|k: int|
                            0 <= k < i ==> approaches@[k] == self@.approaches(id)[k],
                    decreases links.len() - i,
                {
                    let link = links[i];
                    proof {
                        assert(self@.node_wf(id));
                        assert(self@.mirrored(id, links@[i as int]));
                    }
                    let toward = match &self.slots[link.to.0] {
                        Some(neighbor) => neighbor.position(),
                        None => node.position(),
                    };
                    approaches.push(Approach { toward, lanes: link.pattern.lane_count() });
                    i += 1;
                }
            },
            None => {},
        }
        proof {
            assert(approaches@ =~= self@.approaches(id));
        }
        approaches
    }

    /// Adds an isolated intersection at `pos` and returns its identifier,
    /// which no intersection of this network has held before.
    pub fn add_intersection(&mut self, pos: Point) -> (id: IntersectionID)
        requires
            old(self).wf(),
        ensures
            id == old(self)@.next_id(),
            !old(self)@.contains(id),
            final(self)@ == old(self)@.add_intersection(pos),
            final(self).wf(),
    {
        let id = IntersectionID(self.slots.len());
        self.slots.push(Some(Intersection::new(id, pos)));
        proof {
            assert(self.slots.len() == old(self).slots.len() + 1);
            assert(self@.nodes =~= old(self)@.add_intersection(pos).nodes);
            old(self)@.lemma_add_intersection_wf(pos);
        }
        id
    }

    /// Connects `a` and `b` with `pattern`, the connection drawn from `a`
    /// to `b`. The two must exist, differ, and not be connected yet: ask
    /// [`RoadGraph::is_neighbor`] first. Both ends then await recomputation
    /// of their anchors, which depend on the bearings of all neighbours.
    pub fn connect(&mut self, a: IntersectionID, b: IntersectionID, pattern: &LanePattern)
        requires
            old(self).wf(),
            old(self)@.can_connect(a, b),
        ensures
            final(self)@ == old(self)@.connect(a, b, *pattern),
            final(self).wf(),
            final(self)@.is_neighbor(a, b),
            final(self)@.is_neighbor(b, a),
    {
        match &mut self.slots[a.0] {
            Some(node) => node.add_link(Connection { to: b, pattern: *pattern, outgoing: true }),
            None => {},
        }
        match &mut self.slots[b.0] {
            Some(node) => node.add_link(Connection { to: a, pattern: *pattern, outgoing: false }),
            None => {},
        }
        proof {
            assert(self@.nodes =~= old(self)@.connect(a, b, *pattern).nodes);
            old(self)@.lemma_connect_wf(a, b, *pattern);
        }
    }

    /// Removes the connection between `a` and `b`. Where there is none, and
    /// also where one of the two does not exist, nothing changes. Where
    /// there was one, both ends await recomputation of their anchors.
    pub fn disconnect(&mut self, a: IntersectionID, b: IntersectionID)
        requires
            old(self).wf(),
        ensures
            final(self)@ == old(self)@.disconnect(a, b),
            final(self).wf(),
            !final(self)@.is_neighbor(a, b),
            !final(self)@.is_neighbor(b, a),
    {
        if self.is_neighbor(a, b) {
            proof {
                self@.lemma_neighbor_symmetric(a, b);
                assert(self@.node_wf(a));
                assert(self@.node_wf(b));
            }
            match &mut self.slots[a.0] {
                Some(node) => node.remove_link(b),
                None => {},
            }
            match &mut self.slots[b.0] {
                Some(node) => node.remove_link(a),
                None => {},
            }
            proof {
                assert(self@.nodes =~= old(self)@.disconnect(a, b).nodes);
            }
        }
        proof {
            old(self)@.lemma_disconnect_wf(a, b);
        }
    }

    /// Removes the intersection `id` after disconnecting it from all its
    /// neighbours, each of which then awaits recomputation of its anchors.
    /// The identifier names nothing afterwards.
    pub fn delete_intersection(&mut self, id: IntersectionID)
        requires
            old(self).wf(),
            old(self)@.contains(id),
        ensures
            final(self)@ == old(self)@.delete_intersection(id),
            final(self).wf(),
            !final(self)@.contains(id),
            forall|k: IntersectionID| #[trigger]
                final(self)@.contains(k) ==> !final(self)@.nodes[k].links_to(id),
    {
        let ghost before = self@;
        let ghost links = before.nodes[id].connections;
        let degree = match &self.slots[id.0] {
            Some(node) => node.degree(),
            None => 0,
        };
        proof {
            assert(before.node_wf(id));
        }
        let mut i: usize = 0;
        while i < degree
            invariant
                i <= degree == links.len(),
                before == old(self)@,
                before.wf(),
                before.contains(id),
                links == before.nodes[id].connections,
                self.slots.len() == old(self).slots.len(),
                self.slots[id.0 as int] == old(self).slots[id.0 as int],
                forall|k: int|
                    0 <= k < self.slots.len() ==> ((#[trigger] self.slots[k]) is Some <==> old(
                        self,
                    ).slots[k] is Some),
                forall|k: IntersectionID|
                    k != id && #[trigger] before.contains(k) ==> self.slots[k.0 as int]->0@ == (
                    if before.nodes[id].links_to(k) && before.nodes[id].link_index(k) < i {
                        before.nodes[k].without(id)
                    } else {
                        before.nodes[k]
                    }),
            decreases degree - i,
        {
            let neighbor = match &self.slots[id.0] {
                Some(node) => node.connections()[i].to,
                None => id,
            };
            proof {
                assert(before.node_wf(id));
                assert(links[i as int].to == neighbor);
                assert(before.mirrored(id, links[i as int]));
                before.nodes[id].lemma_link_index(neighbor, i as int);
                assert(before.contains(neighbor));
                assert(before.node_wf(neighbor));
            }
            match &mut self.slots[neighbor.0] {
                Some(node) => node.remove_link(id),
                None => {},
            }
            proof {
                assert forall|k: IntersectionID| k != id && #[trigger] before.contains(
                    k,
                ) implies self.slots[k.0 as int]->0@ == (if before.nodes[id].links_to(k)
                    && before.nodes[id].link_index(k) < i + 1 {
                    before.nodes[k].without(id)
                } else {
                    before.nodes[k]
                }) by {
                    if k != neighbor && before.nodes[id].links_to(k) {
                        let at = before.nodes[id].link_index(k);
                        assert(links[at].to == k);
                    }
                }
            }
            i += 1;
        }
        self.slots[id.0] = None;
        proof {
            let after = before.delete_intersection(id);
            assert forall|k: IntersectionID| after.contains(k) implies self@.nodes[k]
                == after.nodes[k] by {
                assert(before.contains(k));
                if !before.nodes[id].links_to(k) {
                    if before.nodes[k].links_to(id) {
                        before.lemma_neighbor_symmetric(k, id);
                    }
                }
            }
            assert(self@.nodes =~= after.nodes);
            before.lemma_delete_intersection_wf(id);
        }
    }

    /// Moves the intersection `id` to `pos`. The intersection and each of
    /// its neighbours then await recomputation of their anchors.
    pub fn set_intersection_position(&mut self, id: IntersectionID, pos: Point)
        requires
            old(self).wf(),
            old(self)@.contains(id),
        ensures
            final(self)@ == old(self)@.set_intersection_position(id, pos),
            final(self).wf(),
    {
        let ghost before = self@;
        let ghost links = before.nodes[id].connections;
        let degree = match &self.slots[id.0] {
            Some(node) => node.degree(),
            None => 0,
        };
        let mut i: usize = 0;
        while i < degree
            invariant
                i <= degree == links.len(),
                before == old(self)@,
                before.wf(),
                before.contains(id),
                links == before.nodes[id].connections,
                self.slots.len() == old(self).slots.len(),
                self.slots[id.0 as int] == old(self).slots[id.0 as int],
                forall|k: int|
                    0 <= k < self.slots.len() ==> ((#[trigger] self.slots[k]) is Some <==> old(
                        self,
                    ).slots[k] is Some),
                forall|k: IntersectionID|
                    k != id && #[trigger] before.contains(k) ==> self.slots[k.0 as int]->0@ == (
                    if before.nodes[id].links_to(k) && before.nodes[id].link_index(k) < i {
                        before.nodes[k].stale()
                    } else {
                        before.nodes[k]
                    }),
            decreases degree - i,
        {
            let neighbor = match &self.slots[id.0] {
                Some(node) => node.connections()[i].to,
                None => id,
            };
            proof {
                assert(before.node_wf(id));
                assert(links[i as int].to == neighbor);
                assert(before.mirrored(id, links[i as int]));
                before.nodes[id].lemma_link_index(neighbor, i as int);
                assert(before.contains(neighbor));
            }
            match &mut self.slots[neighbor.0] {
                Some(node) => node.invalidate(),
                None => {},
            }
            proof {
                assert forall|k: IntersectionID| k != id && #[trigger] before.contains(
                    k,
                ) implies self.slots[k.0 as int]->0@ == (if before.nodes[id].links_to(k)
                    && before.nodes[id].link_index(k) < i + 1 {
                    before.nodes[k].stale()
                } else {
                    before.nodes[k]
                }) by {
                    if k != neighbor && before.nodes[id].links_to(k) {
                        let at = before.nodes[id].link_index(k);
                        assert(links[at].to == k);
                    }
                }
            }
            i += 1;
        }
        match &mut self.slots[id.0] {
            Some(node) => node.move_to(pos),
            None => {},
        }
        proof {
            let after = before.set_intersection_position(id, pos);
            assert forall|k: IntersectionID| after.contains(k) implies self@.nodes[k]
                == after.nodes[k] by {
                assert(before.contains(k));
            }
            assert(self@.nodes =~= after.nodes);
            before.lemma_set_intersection_position_wf(id, pos);
        }
    }

    /// Installs the lane anchors recomputed for `id` from its position and
    /// those of its neighbours: one anchor per connection, in the order of
    /// the connections. Any other number is turned down and changes
    /// nothing. Only derived geometry is touched: positions and connections
    /// stay as they are, and so do the anchors of every other intersection.
    pub fn calculate_nodes_positions(&mut self, id: IntersectionID, anchors: Vec<Point>) -> (done:
        Result<(), AnchorError>)
        requires
            old(self).wf(),
            old(self)@.contains(id),
        ensures
            done is Ok <==> anchors.len() == old(self)@.nodes[id].degree(),
            done is Ok ==> final(self)@ == old(self)@.calculate_nodes_positions(id, anchors@),
            done is Err ==> final(self)@ == old(self)@,
            done is Err ==> done == Err::<(), AnchorError>(AnchorError::WrongCount),
            final(self).wf(),
            final(self)@.same_topology(old(self)@),
    {
        let ghost points = anchors@;
        let degree = match &self.slots[id.0] {
            Some(node) => node.degree(),
            None => 0,
        };
        if degree != anchors.len() {
            proof {
                assert(self@.same_topology(self@));
            }
            return Err(AnchorError::WrongCount);
        }
        match &mut self.slots[id.0] {
            Some(node) => node.set_anchors(anchors),
            None => {},
        }
        proof {
            assert(self@.nodes =~= old(self)@.calculate_nodes_positions(id, points).nodes);
            old(self)@.lemma_calculate_nodes_positions_wf(id, points);
        }
        Ok(())
    }
}

} // verus!
