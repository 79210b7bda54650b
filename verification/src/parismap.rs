//! A network read from a table of nodes and a table of junctions, and
//! the text in which the two tables are kept.
//!
//! The text is a row of fields set apart by white space. Five whole
//! numbers come first, of which the first is the number of nodes and the
//! second the number of junctions. Then come the nodes, two fields each,
//! which locate the node; then the junctions, five whole numbers each:
//! the node the junction starts at, the node it ends at, its lane count,
//! and two numbers that are read and not used. Whatever follows is not
//! looked at.

use crate::generators::add_all;
use crate::graph_view::GraphView;
use crate::intersection::{IntersectionID, Point};
use crate::lane_pattern::LanePattern;
use crate::network_build::{id_range, Link};
use crate::road_graph::RoadGraph;
use crate::scanner::{field, i32_of, span_bytes, usize_of, ScanError, Scanner, Span};
use vstd::prelude::*;

verus! {

/// A row of the junction table: a road from the node `src` to the node
/// `dst`, both counted from zero in the node table, and its lane count.
#[derive(Clone, Copy, Debug, PartialEq, Eq, Structural)]
pub struct Junction {
    pub src: usize,
    pub dst: usize,
    pub n_lanes: usize,
}

impl Junction {
    /// A road of one lane runs one way; every other road runs both ways.
    /// Either way the connection gets one lane per direction.
    pub open spec fn pattern(self) -> LanePattern {
        if self.n_lanes == 1 {
            LanePattern::one_way(1)
        } else {
            LanePattern::two_way(1)
        }
    }

    pub open spec fn link(self) -> Link {
        Link { from: self.src as int, to: self.dst as int, pattern: self.pattern() }
    }
}

/// The links that a junction table asks for, row by row.
pub open spec fn junction_links(junctions: Seq<Junction>) -> Seq<Link> {
    Seq::new(junctions.len(), |k: int| junctions[k].link())
}

/// Why a junction table cannot be built. Each names the row at fault,
/// counted from zero.
#[derive(Clone, Copy, Debug, PartialEq, Eq, Structural)]
pub enum ImportError {
    /// The row names a node that the node table does not hold.
    UnknownNode { junction: usize },
    /// The row runs from a node to itself.
    SelfLoop { junction: usize },
    /// The two nodes of the row are connected by an earlier row.
    Duplicate { junction: usize },
}

/// The network of a node table alone.
pub open spec fn parismap_nodes(nodes: Seq<Point>) -> GraphView {
    GraphView::empty().with_nodes(nodes)
}

/// The network of a node table and the first `rows` rows of a junction
/// table.
pub open spec fn parismap_upto(nodes: Seq<Point>, junctions: Seq<Junction>, rows: int)
    -> GraphView {
    parismap_nodes(nodes).with_links(
        id_range(0, nodes.len()),
        junction_links(junctions).take(rows),
    )
}

/// What is wrong with row `k` of the junction table, once the rows before
/// it are built; `None` if it can be built as well.
pub open spec fn junction_fault(nodes: Seq<Point>, junctions: Seq<Junction>, k: int) -> Option<
    ImportError,
> {
    let row = junctions[k];
    if row.src >= nodes.len() || row.dst >= nodes.len() {
        Some(ImportError::UnknownNode { junction: k as usize })
    } else if row.src == row.dst {
        Some(ImportError::SelfLoop { junction: k as usize })
    } else if parismap_upto(nodes, junctions, k).is_neighbor(
        IntersectionID(row.src),
        IntersectionID(row.dst),
    ) {
        Some(ImportError::Duplicate { junction: k as usize })
    } else {
        None
    }
}

/// Builds the network of a node table and a junction table: an
/// intersection for every node, in order, so that the node of row `i`
/// gets the identifier `i`; then a connection for every junction, in
/// order, drawn from its first node to its second. The first row of the
/// junction table that cannot be built ends the import with its fault.
pub fn load_parismap(nodes: &Vec<Point>, junctions: &Vec<Junction>) -> (loaded: Result<
    RoadGraph,
    ImportError,
>)
    ensures
        match loaded {
            Ok(map) => {
                &&& map.wf()
                &&& map@ == parismap_upto(nodes@, junctions@, junctions@.len() as int)
                &&& forall|k: int|
                    0 <= k < junctions@.len() ==> #[trigger] junction_fault(nodes@, junctions@, k)
                        is None
            },
            Err(fault) => exists|at: int|
                {
                    &&& 0 <= at < junctions@.len()
                    &&& #[trigger] junction_fault(nodes@, junctions@, at) == Some(fault)
                    &&& forall|k: int|
                        0 <= k < at ==> #[trigger] junction_fault(nodes@, junctions@, k) is None
                },
        },
{
    let mut map = RoadGraph::empty();
    let ids = add_all(&mut map, nodes);
    let ghost origin = parismap_nodes(nodes@);
    let ghost links = junction_links(junctions@);
    proof {
        GraphView::empty().lemma_with_nodes(nodes@);
        assert(links.take(0) =~= Seq::<Link>::empty());
    }
    let one_way = LanePattern::one_way(1);
    let two_way = LanePattern::two_way(1);
    let mut k: usize = 0;
    while k < junctions.len()
        invariant
            k <= junctions.len(),
            ids@ == id_range(0, nodes@.len()),
            origin == parismap_nodes(nodes@),
            links == junction_links(junctions@),
            one_way == LanePattern::one_way(1),
            two_way == LanePattern::two_way(1),
            map.wf(),
            map@ == parismap_upto(nodes@, junctions@, k as int),
            forall|id: IntersectionID| #[trigger] map@.contains(id) <==> id.0 < nodes@.len(),
            forall|l: int| 0 <= l < k ==> #[trigger] junction_fault(nodes@, junctions@, l) is None,
        decreases junctions.len() - k,
    {
        let row = junctions[k];
        if row.src >= ids.len() || row.dst >= ids.len() {
            proof {
                assert(junction_fault(nodes@, junctions@, k as int) == Some(
                    ImportError::UnknownNode { junction: k },
                ));
            }
            return Err(ImportError::UnknownNode { junction: k });
        }
        if row.src == row.dst {
            proof {
                assert(junction_fault(nodes@, junctions@, k as int) == Some(
                    ImportError::SelfLoop { junction: k },
                ));
            }
            return Err(ImportError::SelfLoop { junction: k });
        }
        let src = ids[row.src];
        let dst = ids[row.dst];
        assert(src == IntersectionID(row.src) && dst == IntersectionID(row.dst));
        if map.is_neighbor(src, dst) {
            proof {
                assert(junction_fault(nodes@, junctions@, k as int) == Some(
                    ImportError::Duplicate { junction: k },
                ));
            }
            return Err(ImportError::Duplicate { junction: k });
        }
        let ghost before = map@;
        proof {
            assert(junction_fault(nodes@, junctions@, k as int) is None);
            assert(links.take(k + 1).drop_last() =~= links.take(k as int));
            assert(links.take(k + 1).last() == row.link());
            assert(before.contains(src) && before.contains(dst));
            before.lemma_connect_neighbors(src, dst, row.pattern());
        }
        if row.n_lanes == 1 {
            map.connect(src, dst, &one_way);
        } else {
            map.connect(src, dst, &two_way);
        }
        proof {
            assert forall|id: IntersectionID| #[trigger] map@.contains(id) <==> id.0
                < nodes@.len() by {
                assert(map@.contains(id) <==> before.contains(id));
            }
        }
        k += 1;
    }
    Ok(map)
}

/// The two fields that locate a node. What they spell is left to the
/// caller to read.
#[derive(Clone, Copy, Debug, PartialEq, Eq, Structural)]
pub struct NodeRow {
    pub long: Span,
    pub lat: Span,
}

/// The two tables as they were read from a text.
#[derive(Debug)]
pub struct ParisTables {
    pub nodes: Vec<NodeRow>,
    pub junctions: Vec<Junction>,
}

/// The bytes of the field of number `k`.
pub open spec fn field_bytes(text: Seq<u8>, k: nat) -> Seq<u8> {
    span_bytes(text, field(text, k)->0)
}

/// The count that the field of number `k` gives: what it spells, or
/// nothing where it spells less than nothing.
pub open spec fn header_count(text: Seq<u8>, k: nat) -> nat {
    match i32_of(field_bytes(text, k)) {
        Some(count) => if count > 0 {
            count as nat
        } else {
            0
        },
        None => 0,
    }
}

pub open spec fn node_count(text: Seq<u8>) -> nat {
    header_count(text, 0)
}

pub open spec fn junction_count(text: Seq<u8>) -> nat {
    header_count(text, 1)
}

/// The number of the field with which the junction table begins.
pub open spec fn junction_base(text: Seq<u8>) -> nat {
    5 + 2 * node_count(text)
}

/// How many fields the two tables and the numbers before them take up.
pub open spec fn fields_needed(text: Seq<u8>) -> nat {
    junction_base(text) + 5 * junction_count(text)
}

/// What is wrong with the field of number `k`: it is missing, or it is
/// one of the whole numbers and spells none. The fields that locate a
/// node are not looked into.
pub open spec fn field_fault(text: Seq<u8>, k: nat) -> Option<ScanError> {
    if field(text, k) is None {
        Some(ScanError::Truncated { field: k as usize })
    } else if k < 5 {
        if i32_of(field_bytes(text, k)) is None {
            Some(ScanError::BadNumber { field: k as usize })
        } else {
            None
        }
    } else if k < junction_base(text) {
        None
    } else if usize_of(field_bytes(text, k)) is None {
        Some(ScanError::BadNumber { field: k as usize })
    } else {
        None
    }
}

/// The row of the node of number `i`.
pub open spec fn node_row(text: Seq<u8>, i: nat) -> NodeRow {
    NodeRow { long: field(text, 5 + 2 * i)->0, lat: field(text, 5 + 2 * i + 1)->0 }
}

/// The row of the junction of number `j`.
pub open spec fn junction_row(text: Seq<u8>, j: nat) -> Junction {
    let at = junction_base(text) + 5 * j;
    Junction {
        src: usize_of(field_bytes(text, at))->0,
        dst: usize_of(field_bytes(text, at + 1))->0,
        n_lanes: usize_of(field_bytes(text, at + 2))->0,
    }
}

/// Reads the two tables from a text. The first field that is missing or
/// spells no number where one is due ends the reading with its fault.
pub fn read_parismap(text: &Vec<u8>) -> (read: Result<ParisTables, ScanError>)
    ensures
        match read {
            Ok(tables) => {
                &&& forall|k: nat| k < fields_needed(text@) ==> #[trigger] field_fault(text@, k)
                    is None
                &&& tables.nodes@.len() == node_count(text@)
                &&& forall|i: int|
                    0 <= i < tables.nodes@.len() ==> #[trigger] tables.nodes@[i] == node_row(
                        text@,
                        i as nat,
                    )
                &&& tables.junctions@.len() == junction_count(text@)
                &&& forall|j: int|
                    0 <= j < tables.junctions@.len() ==> #[trigger] tables.junctions@[j]
                        == junction_row(text@, j as nat)
            },
            Err(fault) => exists|at: nat|
                {
                    &&& at < fields_needed(text@)
                    &&& #[trigger] field_fault(text@, at) == Some(fault)
                    &&& forall|k: nat| k < at ==> #[trigger] field_fault(text@, k) is None
                },
        },
{
    let mut scanner = Scanner::new(text);
    let mut header: Vec<i32> = Vec::new();
    while header.len() < 5
        invariant
            header.len() <= 5,
            scanner.text() == text@,
            scanner.fields_read() == header.len(),
            forall|k: nat| k < header.len() ==> #[trigger] field_fault(text@, k) is None,
            forall|k: int|
                0 <= k < header.len() ==> i32_of(field_bytes(text@, k as nat)) == Some(
                    #[trigger] header@[k],
                ),
        decreases 5 - header.len(),
    {
        let ghost at = header.len() as nat;
        match scanner.next_i32() {
            Ok(count) => {
                header.push(count);
            },
            Err(fault) => {
                proof {
                    assert(field_fault(text@, at) == Some(fault));
                }
                return Err(fault);
            },
        }
    }
    let n: usize = if header[0] > 0 { header[0] as usize } else { 0 };
    let m: usize = if header[1] > 0 { header[1] as usize } else { 0 };
    assert(n == node_count(text@) && m == junction_count(text@));

    let mut nodes: Vec<NodeRow> = Vec::new();
    while nodes.len() < n
        invariant
            nodes.len() <= n == node_count(text@),
            scanner.text() == text@,
            scanner.fields_read() == 5 + 2 * nodes.len(),
            forall|k: nat| k < 5 + 2 * nodes.len() ==> #[trigger] field_fault(text@, k) is None,
            forall|i: int|
                0 <= i < nodes.len() ==> #[trigger] nodes@[i] == node_row(text@, i as nat),
        decreases n - nodes.len(),
    {
        let ghost at = (5 + 2 * nodes.len()) as nat;
        let at_long = scanner.count();
        let long = match scanner.next() {
            Some(span) => span,
            None => {
                proof {
                    assert(field_fault(text@, at) == Some(
                        ScanError::Truncated { field: at_long },
                    ));
                }
                return Err(ScanError::Truncated { field: at_long });
            },
        };
        let at_lat = scanner.count();
        let lat = match scanner.next() {
            Some(span) => span,
            None => {
                proof {
                    assert(field_fault(text@, at) is None);
                    assert(field_fault(text@, at + 1) == Some(
                        ScanError::Truncated { field: at_lat },
                    ));
                    assert forall|k: nat| k < at + 1 implies #[trigger] field_fault(text@, k)
                        is None by {}
                }
                return Err(ScanError::Truncated { field: at_lat });
            },
        };
        proof {
            assert(field_fault(text@, at) is None);
            assert(field_fault(text@, at + 1) is None);
        }
        nodes.push(NodeRow { long, lat });
    }

    let ghost base = junction_base(text@);
    let mut junctions: Vec<Junction> = Vec::new();
    while junctions.len() < m
        invariant
            junctions.len() <= m == junction_count(text@),
            nodes.len() == node_count(text@),
            base == junction_base(text@),
            scanner.text() == text@,
            scanner.fields_read() == base + 5 * junctions.len(),
            forall|k: nat|
                k < base + 5 * junctions.len() ==> #[trigger] field_fault(text@, k) is None,
            forall|i: int|
                0 <= i < nodes.len() ==> #[trigger] nodes@[i] == node_row(text@, i as nat),
            forall|j: int|
                0 <= j < junctions.len() ==> #[trigger] junctions@[j] == junction_row(
                    text@,
                    j as nat,
                ),
        decreases m - junctions.len(),
    {
        let ghost at = (base + 5 * junctions.len()) as nat;
        let mut row: Vec<usize> = Vec::new();
        while row.len() < 5
            invariant
                row.len() <= 5,
                junctions.len() < m == junction_count(text@),
                base == junction_base(text@),
                at == base + 5 * junctions.len(),
                scanner.text() == text@,
                scanner.fields_read() == at + row.len(),
                forall|k: nat| k < at + row.len() ==> #[trigger] field_fault(text@, k) is None,
                forall|k: int|
                    0 <= k < row.len() ==> usize_of(field_bytes(text@, (at + k) as nat)) == Some(
                        #[trigger] row@[k],
                    ),
            decreases 5 - row.len(),
        {
            let ghost here = (at + row.len()) as nat;
            match scanner.next_usize() {
                Ok(value) => {
                    proof {
                        assert(field_fault(text@, here) is None);
                    }
                    row.push(value);
                },
                Err(fault) => {
                    proof {
                        assert(field_fault(text@, here) == Some(fault));
                    }
                    return Err(fault);
                },
            }
        }
        junctions.push(Junction { src: row[0], dst: row[1], n_lanes: row[2] });
    }
    Ok(ParisTables { nodes, junctions })
}

} // verus!
