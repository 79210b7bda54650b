//! A node of the road network: where it lies, which neighbours it is
//! connected to, and the lane anchors derived for it.

use crate::lane_pattern::LanePattern;
use vstd::prelude::*;

verus! {

/// Names an intersection for the lifetime of its network. An identifier is
/// handed out once and never again, also after its intersection is deleted.
#[derive(Clone, Copy, Debug, PartialEq, Eq, Hash, Structural)]
pub struct IntersectionID(pub usize);

/// A position in the plane. Each coordinate is kept as the bit pattern of a
/// single-precision number: the network stores, copies and compares
/// positions, and leaves all arithmetic on them to the geometry layer.
#[derive(Clone, Copy, Debug, PartialEq, Eq, Structural)]
pub struct Point {
    pub x_bits: u32,
    pub y_bits: u32,
}

/// One end of a connection, as seen from the intersection that holds it.
#[derive(Clone, Copy, Debug, PartialEq, Eq, Structural)]
pub struct Connection {
    /// The intersection at the other end.
    pub to: IntersectionID,
    pub pattern: LanePattern,
    /// Set at the end the connection was drawn from. Along a one-way
    /// pattern traffic leaves this end and arrives at the other.
    pub outgoing: bool,
}

impl Connection {
    /// The same connection as the intersection at the other end holds it,
    /// where `from` is the intersection that holds `self`.
    pub open spec fn mirror(self, from: IntersectionID) -> Connection {
        Connection { to: from, pattern: self.pattern, outgoing: !self.outgoing }
    }
}

/// What an intersection holds, as mathematical values.
pub struct IntersectionView {
    pub id: IntersectionID,
    pub pos: Point,
    /// The connections in the order in which they were made.
    pub connections: Seq<Connection>,
    /// One anchor per connection, in the same order; `None` while the
    /// anchors are out of date and await recomputation.
    pub lane_anchors: Option<Seq<Point>>,
}

impl IntersectionView {
    /// An intersection without connections. With nothing to anchor, its
    /// derived geometry is empty and up to date.
    pub open spec fn isolated(id: IntersectionID, pos: Point) -> Self {
        IntersectionView { id, pos, connections: Seq::empty(), lane_anchors: Some(Seq::empty()) }
    }

    pub open spec fn links_to(self, other: IntersectionID) -> bool {
        exists|i: int|
            0 <= i < self.connections.len() && (#[trigger] self.connections[i]).to == other
    }

    /// Where the connection to `other` stands among the connections.
    pub open spec fn link_index(self, other: IntersectionID) -> int
        recommends
            self.links_to(other),
    {
        choose|i: int|
            0 <= i < self.connections.len() && (#[trigger] self.connections[i]).to == other
    }

    /// No neighbour is connected twice.
    pub open spec fn distinct_links(self) -> bool {
        forall|i: int, j: int|
            0 <= i < j < self.connections.len() ==> (#[trigger] self.connections[i]).to != (
            #[trigger] self.connections[j]).to
    }

    /// Anchors, where present, come one per connection.
    pub open spec fn anchors_fit(self) -> bool {
        self.lane_anchors matches Some(anchors) ==> anchors.len() == self.connections.len()
    }

    pub open spec fn degree(self) -> nat {
        self.connections.len()
    }

    /// The same intersection with its anchors marked out of date.
    pub open spec fn stale(self) -> Self {
        IntersectionView { lane_anchors: None, ..self }
    }

    /// The intersection after `link` was added as its last connection.
    pub open spec fn with_link(self, link: Connection) -> Self {
        IntersectionView {
            connections: self.connections.push(link),
            lane_anchors: None,
            ..self
        }
    }

    /// The intersection after its connection to `other` was removed; the
    /// intersection itself where there is none.
    pub open spec fn without(self, other: IntersectionID) -> Self {
        if self.links_to(other) {
            IntersectionView {
                connections: self.connections.remove(self.link_index(other)),
                lane_anchors: None,
                ..self
            }
        } else {
            self
        }
    }

    /// The intersection after it was moved to `pos`.
    pub open spec fn moved_to(self, pos: Point) -> Self {
        IntersectionView { pos, lane_anchors: None, ..self }
    }

    /// The intersection with freshly derived anchors.
    pub open spec fn anchored(self, anchors: Seq<Point>) -> Self {
        IntersectionView { lane_anchors: Some(anchors), ..self }
    }

    /// Among distinct links the connection to a neighbour stands at one
    /// index only.
    pub proof fn lemma_link_index(self, other: IntersectionID, i: int)
        requires
            self.distinct_links(),
            0 <= i < self.connections.len(),
            self.connections[i].to == other,
        ensures
            self.links_to(other),
            self.link_index(other) == i,
    {
        let j = self.link_index(other);
        assert(self.connections[j].to == other);
        if j < i {
            assert(self.connections[j].to != self.connections[i].to);
        } else if i < j {
            assert(self.connections[i].to != self.connections[j].to);
        }
    }

    /// Removing the connection to `other` leaves no connection to it and
    /// keeps every other one, in order.
    pub proof fn lemma_without(self, other: IntersectionID)
        requires
            self.distinct_links(),
        ensures
            !self.without(other).links_to(other),
            self.without(other).distinct_links(),
            forall|k: IntersectionID|
                k != other ==> (#[trigger] self.without(other).links_to(k) <==> self.links_to(k)),
            forall|c: Connection|
                c.to != other ==> (#[trigger] self.without(other).connections.contains(c)
                    <==> self.connections.contains(c)),
            self.links_to(other) ==> self.without(other).degree() + 1 == self.degree(),
    {
        let after = self.without(other);
        if self.links_to(other) {
            let at = self.link_index(other);
            assert forall|i: int| 0 <= i < after.connections.len() implies (
            #[trigger] after.connections[i]).to != other by {
                if i < at {
                    assert(after.connections[i] == self.connections[i]);
                    assert(self.connections[i].to != self.connections[at].to);
                } else {
                    assert(after.connections[i] == self.connections[i + 1]);
                    assert(self.connections[at].to != self.connections[i + 1].to);
                }
            }
            assert forall|i: int, j: int| 0 <= i < j < after.connections.len() implies (
            #[trigger] after.connections[i]).to != (#[trigger] after.connections[j]).to by {
                let si = if i < at { i } else { i + 1 };
                let sj = if j < at { j } else { j + 1 };
                assert(after.connections[i] == self.connections[si]);
                assert(after.connections[j] == self.connections[sj]);
                assert(self.connections[si].to != self.connections[sj].to);
            }
            assert forall|c: Connection| c.to != other implies (
            #[trigger] after.connections.contains(c) <==> self.connections.contains(c)) by {
                if after.connections.contains(c) {
                    let i = choose|i: int|
                        0 <= i < after.connections.len() && after.connections[i] == c;
                    let si = if i < at { i } else { i + 1 };
                    assert(self.connections[si] == c);
                }
                if self.connections.contains(c) {
                    let i = choose|i: int| 0 <= i < self.connections.len() && self.connections[i] == c;
                    assert(i != at);
                    let ai = if i < at { i } else { i - 1 };
                    assert(after.connections[ai] == c);
                }
            }
            assert forall|k: IntersectionID| k != other implies (#[trigger] after.links_to(k)
                <==> self.links_to(k)) by {
                if after.links_to(k) {
                    let i = after.link_index(k);
                    let si = if i < at { i } else { i + 1 };
                    assert(self.connections[si] == after.connections[i]);
                }
                if self.links_to(k) {
                    let i = self.link_index(k);
                    assert(i != at);
                    let ai = if i < at { i } else { i - 1 };
                    assert(after.connections[ai] == self.connections[i]);
                }
            }
        }
    }
}

/// An intersection of the road network.
#[derive(Debug)]
pub struct Intersection {
    id: IntersectionID,
    pos: Point,
    connections: Vec<Connection>,
    lane_anchors: Option<Vec<Point>>,
}

impl View for Intersection {
    type V = IntersectionView;

    closed spec fn view(&self) -> IntersectionView {
        IntersectionView {
            id: self.id,
            pos: self.pos,
            connections: self.connections@,
            lane_anchors: match self.lane_anchors {
                Some(anchors) => Some(anchors@),
                None => None,
            },
        }
    }
}

impl Intersection {
    /// An isolated intersection.
    pub fn new(id: IntersectionID, pos: Point) -> (n: Self)
        ensures
            n@ == IntersectionView::isolated(id, pos),
    {
        Intersection { id, pos, connections: Vec::new(), lane_anchors: Some(Vec::new()) }
    }

    /// An intersection put together from what a saved one held. Nothing is
    /// asked of the parts here: whether they fit a network is settled when
    /// the network is put together.
    pub fn from_parts(
        id: IntersectionID,
        pos: Point,
        connections: Vec<Connection>,
        lane_anchors: Option<Vec<Point>>,
    ) -> (n: Self)
        ensures
            n@ == (IntersectionView {
                id,
                pos,
                connections: connections@,
                lane_anchors: match lane_anchors {
                    Some(anchors) => Some(anchors@),
                    None => None,
                },
            }),
    {
        Intersection { id, pos, connections, lane_anchors }
    }

    pub fn id(&self) -> (id: IntersectionID)
        ensures
            id == self@.id,
    {
        self.id
    }

    pub fn position(&self) -> (pos: Point)
        ensures
            pos == self@.pos,
    {
        self.pos
    }

    /// The connections in the order in which they were made.
    pub fn connections(&self) -> (links: &Vec<Connection>)
        ensures
            links@ == self@.connections,
    {
        &self.connections
    }

    pub fn degree(&self) -> (d: usize)
        ensures
            d == self@.degree(),
    {
        self.connections.len()
    }

    /// The derived anchors, one per connection; `None` while they await
    /// recomputation.
    pub fn lane_anchors(&self) -> (anchors: Option<&Vec<Point>>)
        ensures
            match anchors {
                Some(a) => self@.lane_anchors == Some(a@),
                None => self@.lane_anchors is None,
            },
    {
        match &self.lane_anchors {
            Some(a) => Some(a),
            None => None,
        }
    }

    /// Whether the anchors are out of date.
    pub fn needs_recomputation(&self) -> (r: bool)
        ensures
            r == (self@.lane_anchors is None),
    {
        self.lane_anchors.is_none()
    }

    /// The index of the first connection to `other`, if there is one.
    pub fn find_link(&self, other: IntersectionID) -> (found: Option<usize>)
        ensures
            match found {
                Some(i) => {
                    &&& i < self@.connections.len()
                    &&& self@.connections[i as int].to == other
                    &&& forall|k: int| 0 <= k < i ==> (#[trigger] self@.connections[k]).to != other
                },
                None => !self@.links_to(other),
            },
    {
        let mut i: usize = 0;
        while i < self.connections.len()
            invariant
                i <= self.connections.len(),
                forall|k: int| 0 <= k < i ==> (#[trigger] self.connections@[k]).to != other,
            decreases self.connections.len() - i,
        {
            if self.connections[i].to == other {
                return Some(i);
            }
            i += 1;
        }
        None
    }

    /// Whether `link` is among the connections, as it stands: to the same
    /// intersection, with the same pattern and orientation.
    pub fn holds(&self, link: Connection) -> (r: bool)
        ensures
            r == self@.connections.contains(link),
    {
        let mut i: usize = 0;
        while i < self.connections.len()
            invariant
                i <= self.connections.len(),
                forall|k: int| 0 <= k < i ==> self.connections@[k] != link,
            decreases self.connections.len() - i,
        {
            if self.connections[i] == link {
                return true;
            }
            i += 1;
        }
        false
    }

    pub fn is_connected_to(&self, other: IntersectionID) -> (r: bool)
        ensures
            r == self@.links_to(other),
    {
        self.find_link(other).is_some()
    }

    pub(crate) fn add_link(&mut self, link: Connection)
        ensures
            final(self)@ == old(self)@.with_link(link),
    {
        self.connections.push(link);
        self.lane_anchors = None;
    }

    pub(crate) fn remove_link(&mut self, other: IntersectionID)
        requires
            old(self)@.distinct_links(),
        ensures
            final(self)@ == old(self)@.without(other),
    {
        match self.find_link(other) {
            Some(i) => {
                proof {
                    self@.lemma_link_index(other, i as int);
                }
                self.connections.remove(i);
                self.lane_anchors = None;
            },
            None => {},
        }
    }

    pub(crate) fn invalidate(&mut self)
        ensures
            final(self)@ == old(self)@.stale(),
    {
        self.lane_anchors = None;
    }

    pub(crate) fn move_to(&mut self, pos: Point)
        ensures
            final(self)@ == old(self)@.moved_to(pos),
    {
        self.pos = pos;
        self.lane_anchors = None;
    }

    pub(crate) fn set_anchors(&mut self, anchors: Vec<Point>)
        ensures
            final(self)@ == old(self)@.anchored(anchors@),
    {
        self.lane_anchors = Some(anchors);
    }
}

} // verus!
