//! What holds of every well-formed road network, and of every edit made
//! to one.

use crate::graph_view::GraphView;
use crate::intersection::{Connection, IntersectionID, IntersectionView, Point};
use crate::lane_pattern::LanePattern;
use vstd::prelude::*;

verus! {

/// One edit of a road network.
pub enum Edit {
    Add(Point),
    Connect(IntersectionID, IntersectionID, LanePattern),
    Disconnect(IntersectionID, IntersectionID),
    Delete(IntersectionID),
    Move(IntersectionID, Point),
    Anchor(IntersectionID, Seq<Point>),
}

impl GraphView {
    /// Whether the network takes `edit`: the intersections it names exist,
    /// a connection joins two different intersections not yet connected,
    /// and anchors come one per connection. Disconnecting is always taken.
    pub open spec fn admits(self, edit: Edit) -> bool {
        match edit {
            Edit::Add(_) => self.issued < usize::MAX,
            Edit::Connect(a, b, _) => self.can_connect(a, b),
            Edit::Disconnect(_, _) => true,
            Edit::Delete(id) => self.contains(id),
            Edit::Move(id, _) => self.contains(id),
            Edit::Anchor(id, anchors) => self.contains(id) && anchors.len()
                == self.nodes[id].degree(),
        }
    }

    /// The network after `edit`.
    pub open spec fn apply(self, edit: Edit) -> Self {
        match edit {
            Edit::Add(pos) => self.add_intersection(pos),
            Edit::Connect(a, b, pattern) => self.connect(a, b, pattern),
            Edit::Disconnect(a, b) => self.disconnect(a, b),
            Edit::Delete(id) => self.delete_intersection(id),
            Edit::Move(id, pos) => self.set_intersection_position(id, pos),
            Edit::Anchor(id, anchors) => self.calculate_nodes_positions(id, anchors),
        }
    }

    /// Whether the network takes the edits one after the other, each in the
    /// state that the edits before it have left.
    pub open spec fn admits_all(self, edits: Seq<Edit>) -> bool
        decreases edits.len(),
    {
        edits.len() > 0 ==> self.admits(edits.first()) && self.apply(edits.first()).admits_all(
            edits.drop_first(),
        )
    }

    /// The network after the edits were made one after the other.
    pub open spec fn apply_all(self, edits: Seq<Edit>) -> Self
        decreases edits.len(),
    {
        if edits.len() == 0 {
            self
        } else {
            self.apply(edits.first()).apply_all(edits.drop_first())
        }
    }

    /// Every edit that the network takes leaves it well formed.
    pub proof fn lemma_apply_wf(self, edit: Edit)
        requires
            self.wf(),
            self.admits(edit),
        ensures
            self.apply(edit).wf(),
    {
        match edit {
            Edit::Add(pos) => self.lemma_add_intersection_wf(pos),
            Edit::Connect(a, b, pattern) => self.lemma_connect_wf(a, b, pattern),
            Edit::Disconnect(a, b) => self.lemma_disconnect_wf(a, b),
            Edit::Delete(id) => self.lemma_delete_intersection_wf(id),
            Edit::Move(id, pos) => self.lemma_set_intersection_position_wf(id, pos),
            Edit::Anchor(id, anchors) => self.lemma_calculate_nodes_positions_wf(id, anchors),
        }
    }

    /// After any sequence of edits, starting from a well-formed network,
    /// the network is well formed, and so its connections are symmetric:
    /// `a` is a neighbour of `b` exactly where `b` is one of `a`.
    pub proof fn lemma_edits_keep_symmetry(self, edits: Seq<Edit>)
        requires
            self.wf(),
            self.admits_all(edits),
        ensures
            self.apply_all(edits).wf(),
            forall|a: IntersectionID, b: IntersectionID| #[trigger]
                self.apply_all(edits).is_neighbor(a, b) == self.apply_all(edits).is_neighbor(b, a),
        decreases edits.len(),
    {
        if edits.len() > 0 {
            self.lemma_apply_wf(edits.first());
            self.apply(edits.first()).lemma_edits_keep_symmetry(edits.drop_first());
        }
        let after = self.apply_all(edits);
        assert forall|a: IntersectionID, b: IntersectionID| #[trigger]
            after.is_neighbor(a, b) == after.is_neighbor(b, a) by {
            after.lemma_is_neighbor_commutes(a, b);
        }
    }

    /// Identifiers are never handed out twice: whatever edits are made,
    /// the count of identifiers handed out never falls, every
    /// intersection holds an identifier below that count, and so the next
    /// identifier is one that no intersection holds or has held since.
    pub proof fn lemma_identifiers_stay_fresh(self, edits: Seq<Edit>)
        requires
            self.wf(),
            self.admits_all(edits),
        ensures
            self.apply_all(edits).issued >= self.issued,
            forall|id: IntersectionID| #[trigger]
                self.apply_all(edits).contains(id) ==> id.0 < self.apply_all(edits).issued,
            !self.apply_all(edits).contains(self.apply_all(edits).next_id()),
            !self.contains(self.apply_all(edits).next_id()),
        decreases edits.len(),
    {
        let after = self.apply_all(edits);
        if edits.len() > 0 {
            self.lemma_apply_wf(edits.first());
            self.apply(edits.first()).lemma_identifiers_stay_fresh(edits.drop_first());
        }
        self.lemma_edits_keep_symmetry(edits);
        assert forall|id: IntersectionID| #[trigger] after.contains(id) implies id.0
            < after.issued by {
            assert(after.node_wf(id));
        }
        if after.contains(after.next_id()) {
            assert(after.node_wf(after.next_id()));
        }
        if self.contains(after.next_id()) {
            assert(self.node_wf(after.next_id()));
        }
    }

    /// Connections are symmetric: where `a` holds a connection to `b`, `b`
    /// exists, differs from `a` and holds the connection back, with the same
    /// pattern and the opposite orientation.
    pub proof fn lemma_neighbor_symmetric(self, a: IntersectionID, b: IntersectionID)
        requires
            self.wf(),
            self.is_neighbor(a, b),
        ensures
            a != b,
            self.contains(b),
            self.is_neighbor(b, a),
            self.nodes[b].connections[self.nodes[b].link_index(a)]
                == self.nodes[a].connections[self.nodes[a].link_index(b)].mirror(a),
    {
        assert(self.node_wf(a));
        let i = self.nodes[a].link_index(b);
        let link = self.nodes[a].connections[i];
        assert(self.mirrored(a, link));
        let back = self.nodes[b].connections;
        let j = choose|j: int| 0 <= j < back.len() && back[j] == link.mirror(a);
        assert(back[j].to == a);
        assert(self.node_wf(b));
        self.nodes[b].lemma_link_index(a, j);
    }

    /// Being neighbours does not depend on the side from which one asks.
    pub proof fn lemma_is_neighbor_commutes(self, a: IntersectionID, b: IntersectionID)
        requires
            self.wf(),
        ensures
            self.is_neighbor(a, b) == self.is_neighbor(b, a),
    {
        if self.is_neighbor(a, b) {
            self.lemma_neighbor_symmetric(a, b);
        }
        if self.is_neighbor(b, a) {
            self.lemma_neighbor_symmetric(b, a);
        }
    }

    /// The empty network is well formed.
    pub proof fn lemma_empty_wf()
        ensures
            Self::empty().wf(),
    {
    }

    /// A new intersection gets an identifier that no intersection holds, and
    /// leaves the network well formed and every other intersection as it was.
    pub proof fn lemma_add_intersection_wf(self, pos: Point)
        requires
            self.wf(),
            self.issued < usize::MAX,
        ensures
            !self.contains(self.next_id()),
            self.add_intersection(pos).wf(),
            self.add_intersection(pos).contains(self.next_id()),
    {
        let id = self.next_id();
        let after = self.add_intersection(pos);
        if self.contains(id) {
            assert(self.node_wf(id));
        }
        assert forall|k: IntersectionID| #[trigger] after.contains(k) implies after.node_wf(k) by {
            if k != id {
                assert(self.contains(k));
                assert(self.node_wf(k));
                let node = after.nodes[k];
                assert forall|i: int| 0 <= i < node.connections.len() implies after.mirrored(
                    k,
                    #[trigger] node.connections[i],
                ) by {
                    assert(self.mirrored(k, node.connections[i]));
                }
            }
        }
    }

    /// Connecting two intersections that may be connected leaves the network
    /// well formed and makes them neighbours of each other.
    pub proof fn lemma_connect_wf(self, a: IntersectionID, b: IntersectionID, pattern: LanePattern)
        requires
            self.wf(),
            self.can_connect(a, b),
        ensures
            self.connect(a, b, pattern).wf(),
            self.connect(a, b, pattern).is_neighbor(a, b),
            self.connect(a, b, pattern).is_neighbor(b, a),
    {
        let after = self.connect(a, b, pattern);
        let at_a = Connection { to: b, pattern, outgoing: true };
        let at_b = Connection { to: a, pattern, outgoing: false };
        let na = self.nodes[a];
        let nb = self.nodes[b];
        assert(self.node_wf(a));
        assert(self.node_wf(b));
        if nb.links_to(a) {
            self.lemma_neighbor_symmetric(b, a);
        }
        assert(after.nodes[a] == na.with_link(at_a));
        assert(after.nodes[b] == nb.with_link(at_b));
        assert(after.nodes[a].connections[na.connections.len() as int] == at_a);
        assert(after.nodes[b].connections[nb.connections.len() as int] == at_b);
        assert(at_b == at_a.mirror(a));
        assert(at_a == at_b.mirror(b));
        assert forall|k: IntersectionID| #[trigger] after.contains(k) implies after.node_wf(k) by {
            assert(self.contains(k));
            assert(self.node_wf(k));
            let before = self.nodes[k];
            let node = after.nodes[k];
            if k == a || k == b {
                let other = if k == a { b } else { a };
                assert(!before.links_to(other));
                assert(!before.links_to(k));
                assert forall|i: int| 0 <= i < node.connections.len() implies (
                #[trigger] node.connections[i]).to != k by {
                    if i < before.connections.len() {
                        assert(node.connections[i] == before.connections[i]);
                    }
                }
                assert forall|i: int, j: int| 0 <= i < j < node.connections.len() implies (
                #[trigger] node.connections[i]).to != (#[trigger] node.connections[j]).to by {
                    assert(node.connections[i] == before.connections[i]);
                    if j < before.connections.len() {
                        assert(node.connections[j] == before.connections[j]);
                    }
                }
            }
            assert forall|i: int| 0 <= i < node.connections.len() implies after.mirrored(
                k,
                #[trigger] node.connections[i],
            ) by {
                let link = node.connections[i];
                if i < before.connections.len() {
                    assert(link == before.connections[i]);
                    assert(self.mirrored(k, link));
                    let there = self.nodes[link.to].connections;
                    let j = choose|j: int| 0 <= j < there.len() && there[j] == link.mirror(k);
                    if link.to == a || link.to == b {
                        assert(after.nodes[link.to].connections[j] == link.mirror(k));
                    }
                } else {
                    if k == a {
                        assert(after.nodes[b].connections[nb.connections.len() as int]
                            == link.mirror(k));
                    } else {
                        assert(after.nodes[a].connections[na.connections.len() as int]
                            == link.mirror(k));
                    }
                }
            }
        }
    }

    /// Disconnecting leaves the network well formed, and the two
    /// intersections are no neighbours afterwards, whether or not they were
    /// before.
    pub proof fn lemma_disconnect_wf(self, a: IntersectionID, b: IntersectionID)
        requires
            self.wf(),
        ensures
            self.disconnect(a, b).wf(),
            !self.disconnect(a, b).is_neighbor(a, b),
            !self.disconnect(a, b).is_neighbor(b, a),
            self.disconnect(a, b).nodes.dom() == self.nodes.dom(),
    {
        let after = self.disconnect(a, b);
        if self.is_neighbor(a, b) {
            self.lemma_neighbor_symmetric(a, b);
            let na = self.nodes[a];
            let nb = self.nodes[b];
            assert(self.node_wf(a));
            assert(self.node_wf(b));
            na.lemma_without(b);
            nb.lemma_without(a);
            assert(after.nodes[a] == na.without(b));
            assert(after.nodes[b] == nb.without(a));
            assert(after.nodes.dom() =~= self.nodes.dom());
            assert forall|k: IntersectionID| #[trigger] after.contains(k) implies after.node_wf(
                k,
            ) by {
                assert(self.contains(k));
                assert(self.node_wf(k));
                let before = self.nodes[k];
                let node = after.nodes[k];
                let gone = if k == a { b } else { a };
                if k == a || k == b {
                    assert(node == before.without(gone));
                    assert(node.links_to(k) <==> before.links_to(k));
                }
                assert forall|i: int| 0 <= i < node.connections.len() implies after.mirrored(
                    k,
                    #[trigger] node.connections[i],
                ) by {
                    let link = node.connections[i];
                    assert(node.connections.contains(link));
                    if k == a || k == b {
                        assert(link.to != gone);
                        assert(before.without(gone).connections.contains(link));
                    }
                    assert(before.connections.contains(link));
                    let at = choose|at: int|
                        0 <= at < before.connections.len() && before.connections[at] == link;
                    assert(self.mirrored(k, before.connections[at]));
                    let back = link.mirror(k);
                    if link.to == a {
                        assert(na.without(b).connections.contains(back) <==> na.connections.contains(
                            back,
                        ));
                    } else if link.to == b {
                        assert(nb.without(a).connections.contains(back) <==> nb.connections.contains(
                            back,
                        ));
                    }
                }
            }
        } else {
            self.lemma_is_neighbor_commutes(a, b);
        }
    }

    /// Deleting an intersection leaves the network well formed. The
    /// intersection is gone, and no intersection that remains holds a
    /// connection to it.
    pub proof fn lemma_delete_intersection_wf(self, id: IntersectionID)
        requires
            self.wf(),
        ensures
            self.delete_intersection(id).wf(),
            !self.delete_intersection(id).contains(id),
            forall|k: IntersectionID| #[trigger]
                self.delete_intersection(id).contains(k) ==> !self.delete_intersection(
                    id,
                ).nodes[k].links_to(id),
            forall|k: IntersectionID|
                k != id ==> (#[trigger] self.delete_intersection(id).contains(k)
                    <==> self.contains(k)),
    {
        let after = self.delete_intersection(id);
        assert forall|k: IntersectionID| #[trigger] after.contains(k) implies after.node_wf(k)
            && !after.nodes[k].links_to(id) by {
            assert(self.contains(k));
            assert(self.node_wf(k));
            let before = self.nodes[k];
            let node = after.nodes[k];
            before.lemma_without(id);
            assert(node == before.without(id));
            assert(node.links_to(k) <==> before.links_to(k));
            assert forall|i: int| 0 <= i < node.connections.len() implies after.mirrored(
                k,
                #[trigger] node.connections[i],
            ) by {
                let link = node.connections[i];
                assert(node.connections.contains(link));
                assert(link.to != id);
                assert(before.without(id).connections.contains(link));
                assert(before.connections.contains(link));
                let at = choose|at: int|
                    0 <= at < before.connections.len() && before.connections[at] == link;
                assert(self.mirrored(k, before.connections[at]));
                let there = self.nodes[link.to];
                there.lemma_without(id);
                let back = link.mirror(k);
                assert(there.without(id).connections.contains(back) <==> there.connections.contains(
                    back,
                ));
                assert(after.contains(link.to));
            }
        }
    }

    /// After a deletion each former neighbour has one connection fewer and
    /// awaits recomputation; every other intersection is as it was.
    pub proof fn lemma_delete_intersection_neighbors(self, id: IntersectionID, k: IntersectionID)
        requires
            self.wf(),
            self.contains(k),
            k != id,
        ensures
            self.nodes[k].links_to(id) ==> {
                &&& self.delete_intersection(id).nodes[k].degree() + 1 == self.nodes[k].degree()
                &&& self.delete_intersection(id).nodes[k].lane_anchors is None
            },
            !self.nodes[k].links_to(id) ==> self.delete_intersection(id).nodes[k]
                == self.nodes[k],
    {
        assert(self.node_wf(k));
        self.nodes[k].lemma_without(id);
    }

    /// Moving an intersection leaves the network well formed and its
    /// connections as they were.
    pub proof fn lemma_set_intersection_position_wf(self, id: IntersectionID, pos: Point)
        requires
            self.wf(),
            self.contains(id),
        ensures
            self.set_intersection_position(id, pos).wf(),
            self.set_intersection_position(id, pos).nodes.dom() == self.nodes.dom(),
            forall|k: IntersectionID| #[trigger]
                self.contains(k) ==> self.set_intersection_position(id, pos).nodes[k].connections
                    == self.nodes[k].connections,
    {
        let after = self.set_intersection_position(id, pos);
        assert(after.nodes.dom() =~= self.nodes.dom());
        assert forall|k: IntersectionID| #[trigger] after.contains(k) implies after.node_wf(k) by {
            assert(self.contains(k));
            assert(self.node_wf(k));
            let node = after.nodes[k];
            assert(node.connections == self.nodes[k].connections);
            assert forall|i: int| 0 <= i < node.connections.len() implies after.mirrored(
                k,
                #[trigger] node.connections[i],
            ) by {
                let link = node.connections[i];
                assert(self.mirrored(k, self.nodes[k].connections[i]));
                assert(after.nodes[link.to].connections == self.nodes[link.to].connections);
            }
        }
    }

    /// Installing anchors, one per connection, leaves the network well
    /// formed and changes nothing but the anchors of that one intersection.
    pub proof fn lemma_calculate_nodes_positions_wf(self, id: IntersectionID, anchors: Seq<Point>)
        requires
            self.wf(),
            self.contains(id),
            anchors.len() == self.nodes[id].degree(),
        ensures
            self.calculate_nodes_positions(id, anchors).wf(),
            self.calculate_nodes_positions(id, anchors).same_topology(self),
            forall|k: IntersectionID|
                k != id ==> #[trigger] self.calculate_nodes_positions(id, anchors).nodes[k]
                    == self.nodes[k],
    {
        let after = self.calculate_nodes_positions(id, anchors);
        assert(after.nodes.dom() =~= self.nodes.dom());
        assert forall|k: IntersectionID| #[trigger] after.contains(k) implies after.node_wf(k) by {
            assert(self.contains(k));
            assert(self.node_wf(k));
            let node = after.nodes[k];
            assert(node.connections == self.nodes[k].connections);
            assert forall|i: int| 0 <= i < node.connections.len() implies after.mirrored(
                k,
                #[trigger] node.connections[i],
            ) by {
                let link = node.connections[i];
                assert(self.mirrored(k, self.nodes[k].connections[i]));
                assert(after.nodes[link.to].connections == self.nodes[link.to].connections);
            }
        }
    }

    /// Disconnecting the same pair a second time changes nothing.
    pub proof fn lemma_disconnect_idempotent(self, a: IntersectionID, b: IntersectionID)
        requires
            self.wf(),
        ensures
            self.disconnect(a, b).disconnect(a, b) == self.disconnect(a, b),
    {
        self.lemma_disconnect_wf(a, b);
    }

    /// Disconnecting a pair that is not connected changes nothing.
    pub proof fn lemma_disconnect_absent(self, a: IntersectionID, b: IntersectionID)
        requires
            !self.is_neighbor(a, b),
        ensures
            self.disconnect(a, b) == self,
    {
    }

    /// Connecting and then disconnecting a pair leaves the two no
    /// neighbours, and every intersection with the connections it had.
    pub proof fn lemma_connect_then_disconnect(
        self,
        a: IntersectionID,
        b: IntersectionID,
        pattern: LanePattern,
    )
        requires
            self.wf(),
            self.can_connect(a, b),
        ensures
            !self.connect(a, b, pattern).disconnect(a, b).is_neighbor(a, b),
            !self.connect(a, b, pattern).disconnect(a, b).is_neighbor(b, a),
            self.connect(a, b, pattern).disconnect(a, b).same_topology(self),
    {
        let linked = self.connect(a, b, pattern);
        let after = linked.disconnect(a, b);
        self.lemma_connect_wf(a, b, pattern);
        linked.lemma_disconnect_wf(a, b);
        linked.lemma_neighbor_symmetric(a, b);
        assert(self.node_wf(a));
        assert(self.node_wf(b));
        let na = self.nodes[a];
        let nb = self.nodes[b];
        let la = linked.nodes[a];
        let lb = linked.nodes[b];
        assert(linked.node_wf(a));
        assert(linked.node_wf(b));
        la.lemma_link_index(b, na.connections.len() as int);
        lb.lemma_link_index(a, nb.connections.len() as int);
        assert(la.without(b).connections =~= na.connections);
        assert(lb.without(a).connections =~= nb.connections);
        assert(after.nodes.dom() =~= self.nodes.dom());
        assert forall|k: IntersectionID| #[trigger] after.contains(k) implies {
            &&& after.nodes[k].id == self.nodes[k].id
            &&& after.nodes[k].pos == self.nodes[k].pos
            &&& after.nodes[k].connections == self.nodes[k].connections
        } by {}
    }

    /// Installing anchors changes nothing that anchors are computed from:
    /// every intersection is approached afterwards as it was before. So
    /// anchors recomputed at once are computed from the same values.
    pub proof fn lemma_anchors_leave_approaches(
        self,
        id: IntersectionID,
        anchors: Seq<Point>,
        other: IntersectionID,
    )
        requires
            self.contains(id),
        ensures
            self.calculate_nodes_positions(id, anchors).approaches(other) == self.approaches(
                other,
            ),
            self.calculate_nodes_positions(id, anchors).nodes[other].pos == self.nodes[other].pos,
    {
        let after = self.calculate_nodes_positions(id, anchors);
        assert(after.nodes[other].connections == self.nodes[other].connections);
        assert forall|i: int| 0 <= i < self.nodes[other].connections.len() implies after.nodes[(
        #[trigger] self.nodes[other].connections[i]).to].pos
            == self.nodes[self.nodes[other].connections[i].to].pos by {}
        assert(after.approaches(other) =~= self.approaches(other));
    }

    /// Installing the same anchors a second time changes nothing.
    pub proof fn lemma_calculate_nodes_positions_idempotent(
        self,
        id: IntersectionID,
        anchors: Seq<Point>,
    )
        requires
            self.contains(id),
        ensures
            self.calculate_nodes_positions(id, anchors).calculate_nodes_positions(id, anchors)
                == self.calculate_nodes_positions(id, anchors),
    {
        let once = self.calculate_nodes_positions(id, anchors);
        let twice = once.calculate_nodes_positions(id, anchors);
        assert(twice.nodes =~= once.nodes);
    }
}

} // verus!
