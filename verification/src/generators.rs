//! Ready-made networks: a square grid and two concentric rings.
//!
//! The positions are handed in, since the network does no arithmetic on
//! them. What is built here is the topology.

use crate::graph_view::GraphView;
use crate::intersection::{IntersectionID, Point};
use crate::lane_pattern::LanePattern;
use crate::network_build::{id_range, plan_is_simple, Link};
use crate::road_graph::RoadGraph;
use vstd::prelude::*;

verus! {

/// Whether every link of `plan` can be made when its turn comes, on a
/// network that is well formed at that time.
pub open spec fn plan_is_ready(origin: GraphView, ids: Seq<IntersectionID>, plan: Seq<Link>)
    -> bool {
    forall|k: int|
        0 <= k < plan.len() ==> (#[trigger] origin.with_links(ids, plan.take(k))).wf()
            && origin.with_links(ids, plan.take(k)).can_connect(
            ids[plan[k].from],
            ids[plan[k].to],
        )
}

/// Adds isolated intersections at `positions`, in order, and returns
/// their identifiers.
pub(crate) fn add_all(m: &mut RoadGraph, positions: &Vec<Point>) -> (ids: Vec<IntersectionID>)
    requires
        old(m).wf(),
    ensures
        final(m).wf(),
        final(m)@ == old(m)@.with_nodes(positions@),
        ids@ == id_range(old(m)@.issued, positions@.len()),
        final(m)@.issued == old(m)@.issued + positions@.len(),
{
    let ghost origin = m@;
    let mut ids: Vec<IntersectionID> = Vec::new();
    let mut i: usize = 0;
    while i < positions.len()
        invariant
            i <= positions.len(),
            m.wf(),
            m@ == origin.with_nodes(positions@.take(i as int)),
            m@.issued == origin.issued + i,
            ids@ == id_range(origin.issued, i as nat),
        decreases positions.len() - i,
    {
        proof {
            assert(positions@.take(i + 1).drop_last() =~= positions@.take(i as int));
        }
        let id = m.add_intersection(positions[i]);
        ids.push(id);
        i += 1;
        proof {
            assert(ids@ =~= id_range(origin.issued, i as nat));
        }
    }
    proof {
        assert(positions@.take(i as int) =~= positions@);
    }
    ids
}

/// Makes the link of `plan` whose turn it is.
fn make_link(
    m: &mut RoadGraph,
    a: IntersectionID,
    b: IntersectionID,
    pattern: &LanePattern,
    Ghost(origin): Ghost<GraphView>,
    Ghost(ids): Ghost<Seq<IntersectionID>>,
    Ghost(plan): Ghost<Seq<Link>>,
    Ghost(done): Ghost<int>,
)
    requires
        0 <= done < plan.len(),
        plan_is_ready(origin, ids, plan),
        old(m)@ == origin.with_links(ids, plan.take(done)),
        a == ids[plan[done].from],
        b == ids[plan[done].to],
        *pattern == plan[done].pattern,
    ensures
        final(m)@ == origin.with_links(ids, plan.take(done + 1)),
{
    proof {
        assert(origin.with_links(ids, plan.take(done)).wf());
        assert(plan.take(done + 1).drop_last() =~= plan.take(done));
        assert(plan.take(done + 1).last() == plan[done]);
    }
    m.connect(a, b, pattern);
}

/// The positions of a grid, row after row.
pub open spec fn grid_positions(positions: [[Point; 10]; 10]) -> Seq<Point> {
    Seq::new(100, |i: int| positions[i / 10][i % 10])
}

/// The `k`-th link of the grid. Columns are taken from left to right. In
/// each, the bottom row is first linked to the right and the last column
/// linked downwards at the row of that number; then every other row of
/// the column, from the top, is linked to the right and downwards.
pub open spec fn grid_link(k: int) -> Link {
    let x = k / 20;
    let turn = k % 20;
    let pattern = LanePattern::two_way(1);
    if turn == 0 {
        Link { from: 90 + x, to: 90 + x + 1, pattern }
    } else if turn == 1 {
        Link { from: 10 * x + 9, to: 10 * (x + 1) + 9, pattern }
    } else {
        let y = (turn - 2) / 2;
        if (turn - 2) % 2 == 0 {
            Link { from: 10 * y + x, to: 10 * y + x + 1, pattern }
        } else {
            Link { from: 10 * y + x, to: 10 * (y + 1) + x, pattern }
        }
    }
}

/// The links of the grid, in the order in which they are made.
pub open spec fn grid_plan() -> Seq<Link> {
    Seq::new(180, |k: int| grid_link(k))
}

/// Whether the cells `i` and `j` of the grid, counted row after row, lie
/// side by side or one above the other.
pub open spec fn grid_adjacent(i: int, j: int) -> bool {
    &&& 0 <= i < 100
    &&& 0 <= j < 100
    &&& {
        ||| j == i + 1 && i % 10 != 9
        ||| i == j + 1 && j % 10 != 9
        ||| j == i + 10
        ||| i == j + 10
    }
}

/// The place in the plan of the link that joins cell `i` to the cell on
/// its right (`down` unset) or below it (`down` set).
pub open spec fn grid_turn(i: int, down: bool) -> int {
    let x = i % 10;
    let y = i / 10;
    if !down {
        if y == 9 {
            20 * x
        } else {
            20 * x + 2 + 2 * y
        }
    } else {
        if x == 9 {
            20 * y + 1
        } else {
            20 * x + 3 + 2 * y
        }
    }
}

/// Every link of the grid joins a cell to the one on its right or to the
/// one below it, and stands in the plan at the place that belongs to that
/// pair of cells.
pub proof fn lemma_grid_link(k: int)
    requires
        0 <= k < 180,
    ensures
        0 <= grid_link(k).from < 100,
        0 <= grid_link(k).to < 100,
        grid_link(k).pattern == LanePattern::two_way(1),
        grid_link(k).to == grid_link(k).from + 1 || grid_link(k).to == grid_link(k).from + 10,
        grid_link(k).to == grid_link(k).from + 1 ==> grid_link(k).from % 10 != 9 && grid_turn(
            grid_link(k).from,
            false,
        ) == k,
        grid_link(k).to == grid_link(k).from + 10 ==> grid_turn(grid_link(k).from, true) == k,
{
}

/// The grid joins no cell to itself and no two cells twice.
pub proof fn lemma_grid_plan_is_simple()
    ensures
        plan_is_simple(grid_plan(), 100),
{
    let plan = grid_plan();
    assert forall|k: int| 0 <= k < plan.len() implies 0 <= (#[trigger] plan[k]).from < 100 && 0
        <= plan[k].to < 100 && plan[k].from != plan[k].to by {
        lemma_grid_link(k);
    }
    assert forall|k: int, l: int| 0 <= k < l < plan.len() implies !(#[trigger] plan[k]).joins(
        (#[trigger] plan[l]).from,
        plan[l].to,
    ) by {
        lemma_grid_link(k);
        lemma_grid_link(l);
    }
}

/// The link that stands at the place of a pair of cells joins that pair.
pub proof fn lemma_grid_turn(i: int, down: bool)
    requires
        0 <= i < 100,
        down ==> i + 10 < 100,
        !down ==> i % 10 != 9,
    ensures
        0 <= grid_turn(i, down) < 180,
        grid_link(grid_turn(i, down)).from == i,
        grid_link(grid_turn(i, down)).to == (if down {
            i + 10
        } else {
            i + 1
        }),
{
    let x = i % 10;
    let y = i / 10;
    let k = grid_turn(i, down);
    assert(i == 10 * y + x);
    if !down {
        if y == 9 {
            assert(k / 20 == x && k % 20 == 0);
        } else {
            assert(k / 20 == x && k % 20 == 2 + 2 * y);
            assert((k % 20 - 2) / 2 == y && (k % 20 - 2) % 2 == 0);
        }
    } else {
        if x == 9 {
            assert(k / 20 == y && k % 20 == 1);
        } else {
            assert(k / 20 == x && k % 20 == 3 + 2 * y);
            assert((k % 20 - 2) / 2 == y && (k % 20 - 2) % 2 == 1);
        }
    }
}

/// The grid joins two cells exactly where they lie side by side or one
/// above the other.
pub proof fn lemma_grid_plan_joins(i: int, j: int)
    requires
        0 <= i < 100,
        0 <= j < 100,
    ensures
        (exists|k: int| 0 <= k < 180 && (#[trigger] grid_plan()[k]).joins(i, j)) <==> grid_adjacent(
            i,
            j,
        ),
{
    let plan = grid_plan();
    if exists|k: int| 0 <= k < 180 && (#[trigger] plan[k]).joins(i, j) {
        let k = choose|k: int| 0 <= k < 180 && (#[trigger] plan[k]).joins(i, j);
        lemma_grid_link(k);
    }
    if grid_adjacent(i, j) {
        let low = if i < j { i } else { j };
        let high = if i < j { j } else { i };
        let down = high == low + 10;
        lemma_grid_turn(low, down);
        let k = grid_turn(low, down);
        assert(plan[k].joins(i, j));
    }
}

/// Adds a grid of ten by ten intersections at `positions`, which holds
/// the rows from top to bottom and each row from left to right. Each
/// intersection is connected, two ways with one lane each, to the one on
/// its right and to the one below it. The network it is added to stays
/// as it was.
pub fn add_grid(positions: &[[Point; 10]; 10], m: &mut RoadGraph)
    requires
        old(m).wf(),
    ensures
        final(m).wf(),
        final(m)@ == old(m)@.with_nodes(grid_positions(*positions)).with_links(
            id_range(old(m)@.issued, 100),
            grid_plan(),
        ),
        final(m)@.issued == old(m)@.issued + 100,
        forall|id: IntersectionID| #[trigger]
            old(m)@.contains(id) ==> final(m)@.contains(id) && final(m)@.nodes[id] == old(
                m,
            )@.nodes[id],
        forall|i: int|
            0 <= i < 100 ==> final(m)@.contains(#[trigger] id_range(old(m)@.issued, 100)[i])
                && final(m)@.nodes[id_range(old(m)@.issued, 100)[i]].pos
                == positions[i / 10][i % 10],
        forall|i: int, j: int|
            0 <= i < 100 && 0 <= j < 100 ==> (#[trigger] final(m)@.is_neighbor(
                id_range(old(m)@.issued, 100)[i],
                id_range(old(m)@.issued, 100)[j],
            ) <==> grid_adjacent(i, j)),
{
    let ghost start = m@;
    let mut flat: Vec<Point> = Vec::new();
    let mut y: usize = 0;
    while y < 10
        invariant
            y <= 10,
            flat@.len() == 10 * y,
            forall|i: int| 0 <= i < flat@.len() ==> flat@[i] == positions[i / 10][i % 10],
        decreases 10 - y,
    {
        let mut x: usize = 0;
        while x < 10
            invariant
                y < 10,
                x <= 10,
                flat@.len() == 10 * y + x,
                forall|i: int| 0 <= i < flat@.len() ==> flat@[i] == positions[i / 10][i % 10],
            decreases 10 - x,
        {
            flat.push(positions[y][x]);
            x += 1;
        }
        y += 1;
    }
    proof {
        assert(flat@ =~= grid_positions(*positions));
    }
    let grid = add_all(m, &flat);
    let ghost origin = m@;
    let ghost ids = grid@;
    let ghost plan = grid_plan();
    proof {
        start.lemma_with_nodes(flat@);
        lemma_grid_plan_is_simple();
        assert forall|i: int| 0 <= i < ids.len() implies origin.contains(#[trigger] ids[i]) by {}
        assert forall|i: int, j: int| 0 <= i < ids.len() && 0 <= j < ids.len()
            implies !origin.is_neighbor(#[trigger] ids[i], #[trigger] ids[j]) by {
            assert(origin.nodes[id_range(start.issued, 100)[i]].connections.len() == 0);
        }
        origin.lemma_with_links(ids, plan);
        assert(plan.take(0) =~= Seq::<Link>::empty());
    }
    let pattern = LanePattern::two_way(1);
    let mut x: usize = 0;
    while x < 9
        invariant
            x <= 9,
            grid@ == ids,
            ids.len() == 100,
            plan == grid_plan(),
            plan_is_ready(origin, ids, plan),
            pattern == LanePattern::two_way(1),
            m@ == origin.with_links(ids, plan.take(20 * x)),
        decreases 9 - x,
    {
        proof {
            assert((90 + x) % 10 == x && (90 + x) / 10 == 9);
            assert((10 * x + 9) % 10 == 9 && (10 * x + 9) / 10 == x);
            lemma_grid_turn(90 + x, false);
            lemma_grid_turn(10 * x + 9, true);
        }
        make_link(
            m,
            grid[90 + x],
            grid[90 + x + 1],
            &pattern,
            Ghost(origin),
            Ghost(ids),
            Ghost(plan),
            Ghost(20 * x),
        );
        make_link(
            m,
            grid[10 * x + 9],
            grid[10 * (x + 1) + 9],
            &pattern,
            Ghost(origin),
            Ghost(ids),
            Ghost(plan),
            Ghost(20 * x + 1),
        );
        let mut y: usize = 0;
        while y < 9
            invariant
                x < 9,
                y <= 9,
                grid@ == ids,
                ids.len() == 100,
                plan == grid_plan(),
                plan_is_ready(origin, ids, plan),
                pattern == LanePattern::two_way(1),
                m@ == origin.with_links(ids, plan.take(20 * x + 2 + 2 * y)),
            decreases 9 - y,
        {
            proof {
                assert((10 * y + x) % 10 == x && (10 * y + x) / 10 == y);
                lemma_grid_turn(10 * y + x, false);
                lemma_grid_turn(10 * y + x, true);
            }
            make_link(
                m,
                grid[10 * y + x],
                grid[10 * y + x + 1],
                &pattern,
                Ghost(origin),
                Ghost(ids),
                Ghost(plan),
                Ghost(20 * x + 2 + 2 * y),
            );
            make_link(
                m,
                grid[10 * y + x],
                grid[10 * (y + 1) + x],
                &pattern,
                Ghost(origin),
                Ghost(ids),
                Ghost(plan),
                Ghost(20 * x + 3 + 2 * y),
            );
            y += 1;
        }
        x += 1;
    }
    proof {
        assert(plan.take(180) =~= plan);
        assert forall|id: IntersectionID| #[trigger] start.contains(id) implies m@.contains(id)
            && m@.nodes[id] == start.nodes[id] by {
            assert(start.node_wf(id));
            assert(origin.contains(id));
            if ids.contains(id) {
                let i = choose|i: int| 0 <= i < ids.len() && ids[i] == id;
                assert(ids[i].0 == start.issued + i);
            }
        }
        assert forall|i: int| 0 <= i < 100 implies m@.contains(#[trigger] ids[i])
            && m@.nodes[ids[i]].pos == positions[i / 10][i % 10] by {
            assert(origin.contains(ids[i]));
            assert(origin.nodes[id_range(start.issued, 100)[i]].pos == flat@[i]);
        }
        assert forall|i: int, j: int| 0 <= i < 100 && 0 <= j < 100 implies (
        #[trigger] m@.is_neighbor(ids[i], ids[j]) <==> grid_adjacent(i, j)) by {
            lemma_grid_plan_joins(i, j);
        }
    }
}

/// The positions of two rings of twenty, the two rings taking turns.
pub open spec fn circle_positions(inner: [Point; 20], outer: [Point; 20]) -> Seq<Point> {
    Seq::new(
        40,
        |i: int|
            if i % 2 == 0 {
                inner[i / 2]
            } else {
                outer[i / 2]
            },
    )
}

/// The `k`-th link of the double circle. Among the forty intersections
/// those of the inner ring are the even ones and those of the outer ring
/// the odd ones. First the inner ring is closed, one way, each
/// intersection linked to the next and the last to the first; then the
/// outer ring in the same way; then each intersection of the inner ring
/// is linked, two ways, to the one beside it on the outer ring.
pub open spec fn circle_link(k: int) -> Link {
    if k < 19 {
        Link { from: 2 * k, to: 2 * k + 2, pattern: LanePattern::one_way(1) }
    } else if k == 19 {
        Link { from: 38, to: 0, pattern: LanePattern::one_way(1) }
    } else if k < 39 {
        Link { from: 2 * (k - 20) + 1, to: 2 * (k - 20) + 3, pattern: LanePattern::one_way(1) }
    } else if k == 39 {
        Link { from: 39, to: 1, pattern: LanePattern::one_way(1) }
    } else {
        Link { from: 2 * (k - 40), to: 2 * (k - 40) + 1, pattern: LanePattern::two_way(1) }
    }
}

/// The links of the double circle, in the order in which they are made.
pub open spec fn circle_plan() -> Seq<Link> {
    Seq::new(60, |k: int| circle_link(k))
}

/// Whether the intersections `i` and `j` of the double circle follow one
/// another on a ring, or lie beside each other on the two rings.
pub open spec fn circle_adjacent(i: int, j: int) -> bool {
    &&& 0 <= i < 40
    &&& 0 <= j < 40
    &&& {
        ||| j == i + 2
        ||| i == j + 2
        ||| j == i + 38
        ||| i == j + 38
        ||| j == i + 1 && i % 2 == 0
        ||| i == j + 1 && j % 2 == 0
    }
}

/// The double circle joins no intersection to itself and no two twice.
pub proof fn lemma_circle_plan_is_simple()
    ensures
        plan_is_simple(circle_plan(), 40),
{
}

/// The double circle joins two intersections exactly where they follow
/// one another on a ring or lie beside each other on the two rings.
pub proof fn lemma_circle_plan_joins(i: int, j: int)
    requires
        0 <= i < 40,
        0 <= j < 40,
    ensures
        (exists|k: int| 0 <= k < 60 && (#[trigger] circle_plan()[k]).joins(i, j))
            <==> circle_adjacent(i, j),
{
    let plan = circle_plan();
    if circle_adjacent(i, j) {
        let low = if i < j { i } else { j };
        let high = if i < j { j } else { i };
        let k = if high == low + 38 {
            if low == 0 { 19int } else { 39int }
        } else if high == low + 2 {
            if low % 2 == 0 { low / 2 } else { 20 + (low - 1) / 2 }
        } else {
            40 + low / 2
        };
        assert(plan[k].joins(i, j));
    }
}

/// Adds two rings of twenty intersections each, the inner one at `inner`
/// and the outer one at `outer`. Along each ring every intersection is
/// connected, one way with one lane, to the next, and the last to the
/// first; each intersection of the inner ring is connected, two ways
/// with one lane each, to the one beside it on the outer ring. The
/// network they are added to stays as it was.
pub fn add_doublecircle(inner: &[Point; 20], outer: &[Point; 20], m: &mut RoadGraph)
    requires
        old(m).wf(),
    ensures
        final(m).wf(),
        final(m)@ == old(m)@.with_nodes(circle_positions(*inner, *outer)).with_links(
            id_range(old(m)@.issued, 40),
            circle_plan(),
        ),
        final(m)@.issued == old(m)@.issued + 40,
        forall|id: IntersectionID| #[trigger]
            old(m)@.contains(id) ==> final(m)@.contains(id) && final(m)@.nodes[id] == old(
                m,
            )@.nodes[id],
        forall|i: int|
            0 <= i < 40 ==> final(m)@.contains(#[trigger] id_range(old(m)@.issued, 40)[i])
                && final(m)@.nodes[id_range(old(m)@.issued, 40)[i]].pos == circle_positions(
                *inner,
                *outer,
            )[i],
        forall|i: int, j: int|
            0 <= i < 40 && 0 <= j < 40 ==> (#[trigger] final(m)@.is_neighbor(
                id_range(old(m)@.issued, 40)[i],
                id_range(old(m)@.issued, 40)[j],
            ) <==> circle_adjacent(i, j)),
{
    let ghost start = m@;
    let mut flat: Vec<Point> = Vec::new();
    let mut i: usize = 0;
    while i < 20
        invariant
            i <= 20,
            flat@.len() == 2 * i,
            forall|k: int|
                0 <= k < flat@.len() ==> flat@[k] == circle_positions(*inner, *outer)[k],
        decreases 20 - i,
    {
        flat.push(inner[i]);
        flat.push(outer[i]);
        i += 1;
    }
    proof {
        assert(flat@ =~= circle_positions(*inner, *outer));
    }
    let ring = add_all(m, &flat);
    let ghost origin = m@;
    let ghost ids = ring@;
    let ghost plan = circle_plan();
    proof {
        start.lemma_with_nodes(flat@);
        lemma_circle_plan_is_simple();
        assert forall|i: int| 0 <= i < ids.len() implies origin.contains(#[trigger] ids[i]) by {}
        assert forall|i: int, j: int| 0 <= i < ids.len() && 0 <= j < ids.len()
            implies !origin.is_neighbor(#[trigger] ids[i], #[trigger] ids[j]) by {
            assert(origin.nodes[id_range(start.issued, 40)[i]].connections.len() == 0);
        }
        origin.lemma_with_links(ids, plan);
        assert(plan.take(0) =~= Seq::<Link>::empty());
    }
    let one_way = LanePattern::one_way(1);
    let two_way = LanePattern::two_way(1);
    let mut i: usize = 0;
    while i < 19
        invariant
            i <= 19,
            ring@ == ids,
            ids.len() == 40,
            plan == circle_plan(),
            plan_is_ready(origin, ids, plan),
            one_way == LanePattern::one_way(1),
            m@ == origin.with_links(ids, plan.take(i as int)),
        decreases 19 - i,
    {
        make_link(
            m,
            ring[2 * i],
            ring[2 * i + 2],
            &one_way,
            Ghost(origin),
            Ghost(ids),
            Ghost(plan),
            Ghost(i as int),
        );
        i += 1;
    }
    make_link(m, ring[38], ring[0], &one_way, Ghost(origin), Ghost(ids), Ghost(plan), Ghost(19));
    let mut i: usize = 0;
    while i < 19
        invariant
            i <= 19,
            ring@ == ids,
            ids.len() == 40,
            plan == circle_plan(),
            plan_is_ready(origin, ids, plan),
            one_way == LanePattern::one_way(1),
            m@ == origin.with_links(ids, plan.take(20 + i)),
        decreases 19 - i,
    {
        make_link(
            m,
            ring[2 * i + 1],
            ring[2 * i + 3],
            &one_way,
            Ghost(origin),
            Ghost(ids),
            Ghost(plan),
            Ghost(20 + i),
        );
        i += 1;
    }
    make_link(m, ring[39], ring[1], &one_way, Ghost(origin), Ghost(ids), Ghost(plan), Ghost(39));
    let mut i: usize = 0;
    while i < 20
        invariant
            i <= 20,
            ring@ == ids,
            ids.len() == 40,
            plan == circle_plan(),
            plan_is_ready(origin, ids, plan),
            two_way == LanePattern::two_way(1),
            m@ == origin.with_links(ids, plan.take(40 + i)),
        decreases 20 - i,
    {
        make_link(
            m,
            ring[2 * i],
            ring[2 * i + 1],
            &two_way,
            Ghost(origin),
            Ghost(ids),
            Ghost(plan),
            Ghost(40 + i),
        );
        i += 1;
    }
    proof {
        assert(plan.take(60) =~= plan);
        assert forall|id: IntersectionID| #[trigger] start.contains(id) implies m@.contains(id)
            && m@.nodes[id] == start.nodes[id] by {
            assert(start.node_wf(id));
            assert(origin.contains(id));
            if ids.contains(id) {
                let i = choose|i: int| 0 <= i < ids.len() && ids[i] == id;
                assert(ids[i].0 == start.issued + i);
            }
        }
        assert forall|i: int| 0 <= i < 40 implies m@.contains(#[trigger] ids[i])
            && m@.nodes[ids[i]].pos == circle_positions(*inner, *outer)[i] by {
            assert(origin.contains(ids[i]));
            assert(origin.nodes[id_range(start.issued, 40)[i]].pos == flat@[i]);
        }
        assert forall|i: int, j: int| 0 <= i < 40 && 0 <= j < 40 implies (
        #[trigger] m@.is_neighbor(ids[i], ids[j]) <==> circle_adjacent(i, j)) by {
            lemma_circle_plan_joins(i, j);
        }
    }
}

} // verus!
