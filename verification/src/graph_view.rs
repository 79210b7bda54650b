//! The road network as a mathematical value, and its editing operations as
//! functions on that value.
//!
//! The executable network states each of its operations by the function of
//! the same name here, so everything proved of the model holds of the
//! running network.

use crate::intersection::{Connection, IntersectionID, IntersectionView, Point};
use crate::lane_pattern::LanePattern;
use vstd::prelude::*;

verus! {

/// What the geometry needs to know of a connection to place its lanes:
/// where the connection leads, and how many lanes wide it is over both
/// directions.
#[derive(Clone, Copy, Debug, PartialEq, Eq, Structural)]
pub struct Approach {
    pub toward: Point,
    pub lanes: u64,
}

/// A road network: its intersections by identifier, and how many
/// identifiers it has handed out so far.
pub struct GraphView {
    pub nodes: Map<IntersectionID, IntersectionView>,
    pub issued: nat,
}

impl GraphView {
    pub open spec fn empty() -> Self {
        GraphView { nodes: Map::empty(), issued: 0 }
    }

    pub open spec fn contains(self, id: IntersectionID) -> bool {
        self.nodes.dom().contains(id)
    }

    /// Whether `a` exists and holds a connection to `b`.
    pub open spec fn is_neighbor(self, a: IntersectionID, b: IntersectionID) -> bool {
        self.contains(a) && self.nodes[a].links_to(b)
    }

    /// The connection `link`, held by `from`, has its counterpart at the
    /// other end: same pattern, opposite orientation.
    pub open spec fn mirrored(self, from: IntersectionID, link: Connection) -> bool {
        self.contains(link.to) && self.nodes[link.to].connections.contains(link.mirror(from))
    }

    /// What must hold of each intersection: it is filed under its own
    /// identifier, which was handed out by this network; it is connected to
    /// no neighbour twice and never to itself; its anchors, where present,
    /// come one per connection; and each of its connections is held by the
    /// neighbour as well.
    pub open spec fn node_wf(self, id: IntersectionID) -> bool {
        let node = self.nodes[id];
        &&& id.0 < self.issued
        &&& node.id == id
        &&& node.distinct_links()
        &&& !node.links_to(id)
        &&& node.anchors_fit()
        &&& forall|i: int|
            0 <= i < node.connections.len() ==> self.mirrored(id, #[trigger] node.connections[i])
    }

    pub open spec fn wf(self) -> bool {
        &&& self.issued <= usize::MAX
        &&& forall|id: IntersectionID| #[trigger] self.contains(id) ==> self.node_wf(id)
    }

    /// The identifier that the next new intersection gets.
    pub open spec fn next_id(self) -> IntersectionID {
        IntersectionID(self.issued as usize)
    }

    /// The network after an isolated intersection was added at `pos`.
    pub open spec fn add_intersection(self, pos: Point) -> Self {
        GraphView {
            nodes: self.nodes.insert(
                self.next_id(),
                IntersectionView::isolated(self.next_id(), pos),
            ),
            issued: self.issued + 1,
        }
    }

    /// Whether `a` and `b` may be connected: both exist, they differ, and
    /// no connection runs between them yet.
    pub open spec fn can_connect(self, a: IntersectionID, b: IntersectionID) -> bool {
        &&& self.contains(a)
        &&& self.contains(b)
        &&& a != b
        &&& !self.is_neighbor(a, b)
    }

    /// The network after `a` and `b` were connected, the connection drawn
    /// from `a` to `b`. Both ends lose their anchors.
    pub open spec fn connect(self, a: IntersectionID, b: IntersectionID, pattern: LanePattern)
        -> Self {
        let at_a = Connection { to: b, pattern, outgoing: true };
        let at_b = Connection { to: a, pattern, outgoing: false };
        GraphView {
            nodes: self.nodes.insert(a, self.nodes[a].with_link(at_a)).insert(
                b,
                self.nodes[b].with_link(at_b),
            ),
            ..self
        }
    }

    /// The network after the connection between `a` and `b` was removed;
    /// the network itself where there is none.
    pub open spec fn disconnect(self, a: IntersectionID, b: IntersectionID) -> Self {
        if self.is_neighbor(a, b) {
            GraphView {
                nodes: self.nodes.insert(a, self.nodes[a].without(b)).insert(
                    b,
                    self.nodes[b].without(a),
                ),
                ..self
            }
        } else {
            self
        }
    }

    /// The network after `id` was removed together with every connection
    /// that ended at it.
    pub open spec fn delete_intersection(self, id: IntersectionID) -> Self {
        GraphView {
            nodes: Map::new(
                |k: IntersectionID| k != id && self.contains(k),
                |k: IntersectionID| self.nodes[k].without(id),
            ),
            ..self
        }
    }

    /// The network after `id` was moved to `pos`. The intersection and
    /// each of its neighbours lose their anchors.
    pub open spec fn set_intersection_position(self, id: IntersectionID, pos: Point) -> Self {
        GraphView {
            nodes: Map::new(
                |k: IntersectionID| self.contains(k),
                |k: IntersectionID|
                    if k == id {
                        self.nodes[k].moved_to(pos)
                    } else if self.nodes[id].links_to(k) {
                        self.nodes[k].stale()
                    } else {
                        self.nodes[k]
                    },
            ),
            ..self
        }
    }

    /// The network after `id` received freshly derived anchors.
    pub open spec fn calculate_nodes_positions(self, id: IntersectionID, anchors: Seq<Point>)
        -> Self {
        GraphView { nodes: self.nodes.insert(id, self.nodes[id].anchored(anchors)), ..self }
    }

    /// Whether `id` exists and awaits recomputation of its anchors.
    pub open spec fn pending(self, id: IntersectionID) -> bool {
        self.contains(id) && self.nodes[id].lane_anchors is None
    }

    /// The connections of `id` as the geometry sees them, in the order of
    /// the connections: the position of each neighbour and the width of
    /// the connection to it.
    pub open spec fn approaches(self, id: IntersectionID) -> Seq<Approach> {
        Seq::new(
            self.nodes[id].connections.len(),
            |i: int|
                Approach {
                    toward: self.nodes[self.nodes[id].connections[i].to].pos,
                    lanes: self.nodes[id].connections[i].pattern.total_lanes() as u64,
                },
        )
    }

    /// Two networks with the same topology: the same intersections at the
    /// same positions with the same connections. Only anchors may differ.
    pub open spec fn same_topology(self, other: Self) -> bool {
        &&& self.issued == other.issued
        &&& self.nodes.dom() == other.nodes.dom()
        &&& forall|id: IntersectionID| #[trigger]
            self.contains(id) ==> {
                &&& self.nodes[id].id == other.nodes[id].id
                &&& self.nodes[id].pos == other.nodes[id].pos
                &&& self.nodes[id].connections == other.nodes[id].connections
            }
    }
}

} // verus!
