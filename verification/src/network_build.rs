//! Building a network from a list of positions and a list of links
//! between them, and what holds of the result.

use crate::graph_view::GraphView;
use crate::intersection::{IntersectionID, IntersectionView, Point};
use crate::lane_pattern::LanePattern;
use vstd::prelude::*;

verus! {

/// A connection to be made between two entries of a list of
/// intersections, drawn from the entry `from` to the entry `to`.
pub struct Link {
    pub from: int,
    pub to: int,
    pub pattern: LanePattern,
}

impl Link {
    /// Whether the link runs between the entries `i` and `j`, in either
    /// direction.
    pub open spec fn joins(self, i: int, j: int) -> bool {
        (self.from == i && self.to == j) || (self.from == j && self.to == i)
    }
}

/// The identifiers `first`, `first + 1`, ..., as many as `count`.
pub open spec fn id_range(first: nat, count: nat) -> Seq<IntersectionID> {
    Seq::new(count, |i: int| IntersectionID((first + i) as usize))
}

/// A plan of links over `count` entries in which every link runs between
/// two different entries and no two links run between the same two.
pub open spec fn plan_is_simple(links: Seq<Link>, count: nat) -> bool {
    &&& forall|k: int|
        0 <= k < links.len() ==> 0 <= (#[trigger] links[k]).from < count && 0 <= links[k].to
            < count && links[k].from != links[k].to
    &&& forall|k: int, l: int|
        0 <= k < l < links.len() ==> !(#[trigger] links[k]).joins(
            (#[trigger] links[l]).from,
            links[l].to,
        )
}

impl GraphView {
    /// The network after isolated intersections were added at
    /// `positions`, in order.
    pub open spec fn with_nodes(self, positions: Seq<Point>) -> GraphView
        decreases positions.len(),
    {
        if positions.len() == 0 {
            self
        } else {
            self.with_nodes(positions.drop_last()).add_intersection(positions.last())
        }
    }

    /// The network after the `links` were made, in order, between the
    /// intersections that `ids` lists.
    pub open spec fn with_links(self, ids: Seq<IntersectionID>, links: Seq<Link>) -> GraphView
        decreases links.len(),
    {
        if links.len() == 0 {
            self
        } else {
            let link = links.last();
            self.with_links(ids, links.drop_last()).connect(
                ids[link.from],
                ids[link.to],
                link.pattern,
            )
        }
    }

    /// Adding intersections leaves the network well formed and the
    /// intersections it had as they were. The new ones are isolated, lie
    /// where they were put, and carry the identifiers that follow the ones
    /// handed out before.
    pub proof fn lemma_with_nodes(self, positions: Seq<Point>)
        requires
            self.wf(),
            self.issued + positions.len() <= usize::MAX,
        ensures
            self.with_nodes(positions).wf(),
            self.with_nodes(positions).issued == self.issued + positions.len(),
            forall|id: IntersectionID| #[trigger]
                self.with_nodes(positions).contains(id) <==> self.contains(id) || self.issued
                    <= id.0 < self.issued + positions.len(),
            forall|id: IntersectionID| #[trigger]
                self.contains(id) ==> self.with_nodes(positions).nodes[id] == self.nodes[id],
            forall|i: int|
                0 <= i < positions.len() ==> self.with_nodes(positions).nodes[(#[trigger] id_range(
                    self.issued,
                    positions.len(),
                )[i])] == IntersectionView::isolated(
                    IntersectionID((self.issued + i) as usize),
                    positions[i],
                ),
        decreases positions.len(),
    {
        if positions.len() > 0 {
            let earlier = positions.drop_last();
            self.lemma_with_nodes(earlier);
            let before = self.with_nodes(earlier);
            before.lemma_add_intersection_wf(positions.last());
            let after = self.with_nodes(positions);
            assert forall|id: IntersectionID| #[trigger]
                after.contains(id) <==> self.contains(id) || self.issued <= id.0 < self.issued
                    + positions.len() by {
                assert(before.contains(id) <==> self.contains(id) || self.issued <= id.0
                    < self.issued + earlier.len());
                assert(after.contains(id) <==> before.contains(id) || id == before.next_id());
            }
            assert forall|id: IntersectionID| #[trigger] self.contains(id) implies after.nodes[id]
                == self.nodes[id] by {
                assert(self.node_wf(id));
                assert(before.contains(id));
            }
            assert forall|i: int| 0 <= i < positions.len() implies after.nodes[(
            #[trigger] id_range(self.issued, positions.len())[i])] == IntersectionView::isolated(
                IntersectionID((self.issued + i) as usize),
                positions[i],
            ) by {
                if i < earlier.len() {
                    assert(id_range(self.issued, earlier.len())[i] == id_range(
                        self.issued,
                        positions.len(),
                    )[i]);
                    assert(earlier[i] == positions[i]);
                }
            }
        }
    }

    /// Connecting two intersections makes neighbours of these two and
    /// changes no other pair; no intersection comes or goes, and all but
    /// the two stay as they were.
    pub proof fn lemma_connect_neighbors(
        self,
        a: IntersectionID,
        b: IntersectionID,
        pattern: LanePattern,
    )
        requires
            self.wf(),
            self.can_connect(a, b),
        ensures
            self.connect(a, b, pattern).nodes.dom() == self.nodes.dom(),
            self.connect(a, b, pattern).issued == self.issued,
            forall|x: IntersectionID, y: IntersectionID| #[trigger]
                self.connect(a, b, pattern).is_neighbor(x, y) <==> self.is_neighbor(x, y) || (x
                    == a && y == b) || (x == b && y == a),
            forall|x: IntersectionID|
                x != a && x != b ==> #[trigger] self.connect(a, b, pattern).nodes[x]
                    == self.nodes[x],
            forall|x: IntersectionID| #[trigger]
                self.contains(x) ==> self.connect(a, b, pattern).nodes[x].pos == self.nodes[x].pos,
    {
        let after = self.connect(a, b, pattern);
        assert(after.nodes.dom() =~= self.nodes.dom());
        let na = self.nodes[a];
        let nb = self.nodes[b];
        assert forall|x: IntersectionID, y: IntersectionID| #[trigger]
            after.is_neighbor(x, y) <==> self.is_neighbor(x, y) || (x == a && y == b) || (x == b
                && y == a) by {
            if self.contains(x) {
                let before = self.nodes[x];
                let node = after.nodes[x];
                if x == a || x == b {
                    let end = before.connections.len() as int;
                    if before.links_to(y) {
                        let i = before.link_index(y);
                        assert(node.connections[i] == before.connections[i]);
                    }
                    assert(node.connections[end].to == (if x == a { b } else { a }));
                    if node.links_to(y) {
                        let i = node.link_index(y);
                        if i < end {
                            assert(node.connections[i] == before.connections[i]);
                        }
                    }
                }
            }
        }
    }

    /// Making the links of a simple plan between intersections that exist,
    /// differ from each other and are not connected yet: every link can be
    /// made when its turn comes, the network stays well formed, and two
    /// intersections are neighbours afterwards exactly where they were
    /// before or a link of the plan runs between them.
    pub proof fn lemma_with_links(self, ids: Seq<IntersectionID>, links: Seq<Link>)
        requires
            self.wf(),
            plan_is_simple(links, ids.len()),
            forall|i: int| 0 <= i < ids.len() ==> self.contains(#[trigger] ids[i]),
            forall|i: int, j: int|
                0 <= i < j < ids.len() ==> #[trigger] ids[i] != #[trigger] ids[j],
            forall|i: int, j: int|
                0 <= i < ids.len() && 0 <= j < ids.len() ==> !self.is_neighbor(
                    #[trigger] ids[i],
                    #[trigger] ids[j],
                ),
        ensures
            self.with_links(ids, links).wf(),
            self.with_links(ids, links).nodes.dom() == self.nodes.dom(),
            self.with_links(ids, links).issued == self.issued,
            forall|i: int, j: int|
                0 <= i < ids.len() && 0 <= j < ids.len() ==> (#[trigger] self.with_links(
                    ids,
                    links,
                ).is_neighbor(ids[i], ids[j]) <==> exists|k: int|
                    0 <= k < links.len() && (#[trigger] links[k]).joins(i, j)),
            forall|x: IntersectionID, y: IntersectionID|
                !ids.contains(x) || !ids.contains(y) ==> (#[trigger] self.with_links(
                    ids,
                    links,
                ).is_neighbor(x, y) <==> self.is_neighbor(x, y)),
            forall|x: IntersectionID|
                !ids.contains(x) ==> #[trigger] self.with_links(ids, links).nodes[x]
                    == self.nodes[x],
            forall|x: IntersectionID| #[trigger]
                self.contains(x) ==> self.with_links(ids, links).nodes[x].pos == self.nodes[x].pos,
            forall|k: int|
                0 <= k < links.len() ==> (#[trigger] self.with_links(ids, links.take(k))).wf()
                    && self.with_links(ids, links.take(k)).can_connect(
                    ids[links[k].from],
                    ids[links[k].to],
                ),
        decreases links.len(),
    {
        let after = self.with_links(ids, links);
        if links.len() > 0 {
            let earlier = links.drop_last();
            let last = links.last();
            let n = earlier.len() as int;
            assert forall|k: int| 0 <= k < earlier.len() implies 0 <= (#[trigger] earlier[k]).from
                < ids.len() && 0 <= earlier[k].to < ids.len() && earlier[k].from
                != earlier[k].to by {
                assert(earlier[k] == links[k]);
            }
            assert forall|k: int, l: int| 0 <= k < l < earlier.len() implies !(
            #[trigger] earlier[k]).joins((#[trigger] earlier[l]).from, earlier[l].to) by {
                assert(earlier[k] == links[k]);
                assert(earlier[l] == links[l]);
            }
            self.lemma_with_links(ids, earlier);
            let before = self.with_links(ids, earlier);
            let a = ids[last.from];
            let b = ids[last.to];
            assert(links[n] == last);
            assert(before.contains(a) && before.contains(b));
            assert(a != b) by {
                if last.from < last.to {
                    assert(ids[last.from] != ids[last.to]);
                } else {
                    assert(ids[last.to] != ids[last.from]);
                }
            }
            assert(!before.is_neighbor(a, b)) by {
                if before.is_neighbor(ids[last.from], ids[last.to]) {
                    let k = choose|k: int|
                        0 <= k < earlier.len() && (#[trigger] earlier[k]).joins(last.from, last.to);
                    assert(earlier[k] == links[k]);
                    assert(!links[k].joins(links[n].from, links[n].to));
                }
            }
            before.lemma_connect_wf(a, b, last.pattern);
            before.lemma_connect_neighbors(a, b, last.pattern);
            assert(after == before.connect(a, b, last.pattern));
            assert forall|i: int, j: int| 0 <= i < ids.len() && 0 <= j < ids.len() implies (
            #[trigger] after.is_neighbor(ids[i], ids[j]) <==> exists|k: int|
                0 <= k < links.len() && (#[trigger] links[k]).joins(i, j)) by {
                assert(after.is_neighbor(ids[i], ids[j]) <==> before.is_neighbor(ids[i], ids[j])
                    || (ids[i] == a && ids[j] == b) || (ids[i] == b && ids[j] == a));
                if before.is_neighbor(ids[i], ids[j]) {
                    let k = choose|k: int|
                        0 <= k < earlier.len() && (#[trigger] earlier[k]).joins(i, j);
                    assert(links[k].joins(i, j));
                }
                if (ids[i] == a && ids[j] == b) || (ids[i] == b && ids[j] == a) {
                    Self::lemma_same_entry(ids, i, last.from);
                    Self::lemma_same_entry(ids, i, last.to);
                    Self::lemma_same_entry(ids, j, last.from);
                    Self::lemma_same_entry(ids, j, last.to);
                    assert(links[n].joins(i, j));
                }
                if exists|k: int| 0 <= k < links.len() && (#[trigger] links[k]).joins(i, j) {
                    let k = choose|k: int| 0 <= k < links.len() && (#[trigger] links[k]).joins(i, j);
                    if k < n {
                        assert(earlier[k].joins(i, j));
                    }
                }
            }
            assert forall|x: IntersectionID, y: IntersectionID|
                !ids.contains(x) || !ids.contains(y) implies (#[trigger] after.is_neighbor(x, y)
                <==> self.is_neighbor(x, y)) by {
                assert(ids.contains(a) && ids.contains(b));
                assert(before.is_neighbor(x, y) <==> self.is_neighbor(x, y));
            }
            assert forall|x: IntersectionID| !ids.contains(x) implies #[trigger] after.nodes[x]
                == self.nodes[x] by {
                assert(ids.contains(a) && ids.contains(b));
                assert(before.nodes[x] == self.nodes[x]);
            }
            assert forall|x: IntersectionID| #[trigger] self.contains(x) implies after.nodes[x].pos
                == self.nodes[x].pos by {
                assert(before.contains(x));
            }
            assert forall|k: int| 0 <= k < links.len() implies (#[trigger] self.with_links(
                ids,
                links.take(k),
            )).wf() && self.with_links(ids, links.take(k)).can_connect(
                ids[links[k].from],
                ids[links[k].to],
            ) by {
                if k < n {
                    assert(links.take(k) =~= earlier.take(k));
                    assert(earlier[k] == links[k]);
                    assert(self.with_links(ids, earlier.take(k)).wf());
                } else {
                    assert(links.take(k) =~= earlier);
                }
            }
        } else {
            assert forall|i: int, j: int| 0 <= i < ids.len() && 0 <= j < ids.len() implies (
            #[trigger] after.is_neighbor(ids[i], ids[j]) <==> exists|k: int|
                0 <= k < links.len() && (#[trigger] links[k]).joins(i, j)) by {
                assert(!self.is_neighbor(ids[i], ids[j]));
            }
        }
    }

    /// In a list without repetition an identifier stands at one place.
    pub proof fn lemma_same_entry(ids: Seq<IntersectionID>, i: int, j: int)
        requires
            0 <= i < ids.len(),
            0 <= j < ids.len(),
            forall|i: int, j: int|
                0 <= i < j < ids.len() ==> #[trigger] ids[i] != #[trigger] ids[j],
        ensures
            ids[i] == ids[j] <==> i == j,
    {
        if i < j {
            assert(ids[i] != ids[j]);
        } else if j < i {
            assert(ids[j] != ids[i]);
        }
    }
}

} // verus!
