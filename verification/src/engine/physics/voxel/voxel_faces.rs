//! The exposed faces of the solid cells of a tree: which sides of each block
//! border air or the edge of the grid.
use vstd::prelude::*;

verus! {

use crate::engine::grid::order::sorted_by_cell;

use crate::engine::grid::graph::{Index, SparseDirectedGraph, closed, lemma_descend_agree, dfs_leaves, leaf_list_view, copy_path};
use crate::engine::grid::basic_node2d::{Zorder2d, path_cell_x, path_cell_y, cell_path, lemma_path_cell_bound};
use crate::engine::grid::{Cell, DagPointer};
use vstd::arithmetic::power2::{pow2, lemma2_to64, lemma_pow2_strictly_increases};
use vstd::bits::lemma_u32_shl_is_mul;
use super::Voxels;

/// The four sides of a cell, in the order north, south, east, west: `true`
/// where the side is open.
#[derive(Clone, Copy, Debug)]
pub struct Faces([bool; 4]);

impl View for Faces {
    type V = Seq<bool>;

    closed spec fn view(&self) -> Seq<bool> {
        self.0@
    }
}

/// Some side is marked.
pub open spec fn any_side(f: Seq<bool>) -> bool {
    f[0] || f[1] || f[2] || f[3]
}

/// The marked sides, in the order north, south, east, west.
pub open spec fn marked_sides(f: Seq<bool>) -> Seq<Directions> {
    (if f[0] { seq![Directions::North] } else { Seq::empty() }) + (if f[1] {
        seq![Directions::South]
    } else {
        Seq::empty()
    }) + (if f[2] { seq![Directions::East] } else { Seq::empty() }) + (if f[3] {
        seq![Directions::West]
    } else {
        Seq::empty()
    })
}

impl Faces {
    /// No side marked.
    fn none() -> (r: Self)
        ensures
            r@ == seq![false, false, false, false],
    {
        let r = Faces([false, false, false, false]);
        proof {
            assert(r@ =~= seq![false, false, false, false]);
        }
        r
    }

    pub fn north(&self) -> (r: bool)
        ensures
            r == self@[0],
    {
        self.0[0]
    }

    pub fn south(&self) -> (r: bool)
        ensures
            r == self@[1],
    {
        self.0[1]
    }

    pub fn east(&self) -> (r: bool)
        ensures
            r == self@[2],
    {
        self.0[2]
    }

    pub fn west(&self) -> (r: bool)
        ensures
            r == self@[3],
    {
        self.0[3]
    }

    /// Some side is marked.
    pub fn has_some(&self) -> (r: bool)
        ensures
            r == any_side(self@),
    {
        self.0[0] || self.0[1] || self.0[2] || self.0[3]
    }

    /// The marked sides, in the order north, south, east, west.
    pub fn list(&self) -> (r: Vec<Directions>)
        ensures
            r@ == marked_sides(self@),
    {
        let mut list: Vec<Directions> = Vec::new();
        if self.north() {
            list.push(Directions::North);
        }
        if self.south() {
            list.push(Directions::South);
        }
        if self.east() {
            list.push(Directions::East);
        }
        if self.west() {
            list.push(Directions::West);
        }
        proof {
            assert(list@ =~= marked_sides(self@));
        }
        list
    }
}

/// A side of a cell.
#[derive(Clone, Copy, PartialEq, Eq, Structural, Debug)]
pub enum Directions {
    North,
    South,
    East,
    West,
}

/// The side with the given position in the order north, south, east, west.
pub open spec fn direction_at(i: int) -> Directions {
    if i == 0 {
        Directions::North
    } else if i == 1 {
        Directions::South
    } else if i == 2 {
        Directions::East
    } else {
        Directions::West
    }
}

impl Directions {
    /// The position of the side in the order north, south, east, west.
    pub open spec fn side_index(self) -> int {
        match self {
            Directions::North => 0,
            Directions::South => 1,
            Directions::East => 2,
            Directions::West => 3,
        }
    }

    /// The step in `x` to the neighbouring cell across this side.
    pub open spec fn dx(self) -> int {
        match self {
            Directions::East => 1,
            Directions::West => -1,
            _ => 0,
        }
    }

    /// The step in `y` (downwards) to the neighbouring cell across this side.
    pub open spec fn dy(self) -> int {
        match self {
            Directions::North => -1,
            Directions::South => 1,
            _ => 0,
        }
    }

    /// All four sides, in the order north, south, east, west.
    pub fn all() -> (r: [Self; 4])
        ensures
            r@ == seq![Directions::North, Directions::South, Directions::East, Directions::West],
    {
        let r = [Self::North, Self::South, Self::East, Self::West];
        proof {
            assert(r@ =~= seq![Directions::North, Directions::South, Directions::East, Directions::West]);
        }
        r
    }

    /// The step `(x, y)` to the neighbouring cell across this side.
    pub fn step(&self) -> (r: (i32, i32))
        ensures
            r.0 == self.dx(),
            r.1 == self.dy(),
    {
        match self {
            Self::North => (0, -1),
            Self::South => (0, 1),
            Self::East => (1, 0),
            Self::West => (-1, 0),
        }
    }

    fn index(&self) -> (r: usize)
        ensures
            r == self.side_index(),
    {
        match self {
            Self::North => 0,
            Self::South => 1,
            Self::East => 2,
            Self::West => 3,
        }
    }
}

// ----------------------------------------------------------------------------
// What the faces are
// ----------------------------------------------------------------------------

/// The leaves of the graph are the block kinds, stored at indices 0 to 3
/// (index 0 is air); every other stored node is split into quadrants.
pub open spec fn leaves_are_blocks(g: &SparseDirectedGraph) -> bool {
    forall|i: Index| #[trigger] g.is_live(i) && g.is_leaf(i) ==> i < 4
}

/// The neighbour across side `d` of the cell at `path` lies on the grid of
/// side `2^path.len()`.
pub open spec fn neighbour_on_grid(path: Seq<Zorder2d>, d: Directions) -> bool {
    let x = path_cell_x(path) + d.dx();
    let y = path_cell_y(path) + d.dy();
    &&& 0 <= x < pow2(path.len())
    &&& 0 <= y < pow2(path.len())
}

/// The path to the neighbour across side `d` of the cell at `path`, a cell of
/// the same size.
pub open spec fn neighbour_path(path: Seq<Zorder2d>, d: Directions) -> Seq<Zorder2d> {
    cell_path((path_cell_x(path) + d.dx()) as nat, (path_cell_y(path) + d.dy()) as nat, path.len())
}

/// Side `d` of the cell at `path` is open: it lies on the edge of the grid, or
/// the neighbouring cell of the same size is air.
pub open spec fn side_exposed(g: &SparseDirectedGraph, head: Index, path: Seq<Zorder2d>, d: Directions) -> bool {
    !neighbour_on_grid(path, d) || g.descend_spec(head, neighbour_path(path, d)) == 0
}

/// The neighbouring cell across side `d` of the cell at `path` is split into
/// smaller cells.
pub open spec fn side_split(g: &SparseDirectedGraph, head: Index, path: Seq<Zorder2d>, d: Directions) -> bool {
    neighbour_on_grid(path, d) && g.descend_spec(head, neighbour_path(path, d)) >= 4
}

/// The open sides among those asked for, in the order north, south, east, west.
pub open spec fn exposed_sides(
    g: &SparseDirectedGraph,
    head: Index,
    path: Seq<Zorder2d>,
    dirs: Seq<Directions>,
) -> Seq<bool> {
    Seq::new(4, |i: int| dirs.contains(direction_at(i)) && side_exposed(g, head, path, direction_at(i)))
}

/// Some side asked for borders a split neighbour.
pub open spec fn splits_any(
    g: &SparseDirectedGraph,
    head: Index,
    path: Seq<Zorder2d>,
    dirs: Seq<Directions>,
) -> bool {
    exists|d: Directions| dirs.contains(d) && #[trigger] side_split(g, head, path, d)
}

/// The open faces of the cell at `path`, looking at the sides in `dirs`.
/// Where some side asked for borders a split neighbour, the cell is looked at
/// quadrant by quadrant instead, each quadrant on its two outer sides among
/// those of the cell (top left: north and west; top right: north and east;
/// bottom left: south and west; bottom right: south and east). A cell with
/// open sides is reported with them.
pub open spec fn faces_of(
    g: &SparseDirectedGraph,
    head: Index,
    path: Seq<Zorder2d>,
    dirs: Seq<Directions>,
) -> Seq<(Seq<bool>, Seq<Zorder2d>)>
    decreases g.height(head) - path.len(),
{
    let exposed = exposed_sides(g, head, path, dirs);
    if !splits_any(g, head, path, dirs) {
        if any_side(exposed) {
            seq![(exposed, path)]
        } else {
            Seq::empty()
        }
    } else if path.len() < g.height(head) {
        faces_of(g, head, path.push(Zorder2d::TopLeft), seq![Directions::North, Directions::West])
            + faces_of(g, head, path.push(Zorder2d::TopRight), seq![Directions::North, Directions::East])
            + faces_of(g, head, path.push(Zorder2d::BottomLeft), seq![Directions::South, Directions::West])
            + faces_of(g, head, path.push(Zorder2d::BottomRight), seq![Directions::South, Directions::East])
    } else {
        Seq::empty()
    }
}

/// The open faces of the given leaves, leaf by leaf, leaving out air (index 0).
pub open spec fn faces_of_leaves(
    g: &SparseDirectedGraph,
    head: Index,
    leaves: Seq<(Index, Seq<Zorder2d>)>,
) -> Seq<(Seq<bool>, Seq<Zorder2d>)>
    decreases leaves.len(),
{
    if leaves.len() == 0 {
        Seq::empty()
    } else {
        faces_of_leaves(g, head, leaves.drop_last()) + (if leaves.last().0 == 0 {
            Seq::empty()
        } else {
            faces_of(
                g,
                head,
                leaves.last().1,
                seq![Directions::North, Directions::South, Directions::East, Directions::West],
            )
        })
    }
}

/// The open faces of every solid leaf of the tree below `head`, in Z-order.
pub open spec fn exposed_faces_below(g: &SparseDirectedGraph, head: Index) -> Seq<(Seq<bool>, Seq<Zorder2d>)> {
    faces_of_leaves(g, head, g.leaf_paths(head))
}

/// The plain values of a list of faces and cells.
pub open spec fn faces_view(s: Seq<(Faces, Cell)>) -> Seq<(Seq<bool>, Seq<Zorder2d>)> {
    s.map_values(|e: (Faces, Cell)| (e.0@, e.1@))
}

// ----------------------------------------------------------------------------
// Lemmas
// ----------------------------------------------------------------------------

proof fn lemma_cell_path_len(x: nat, y: nat, depth: nat)
    ensures
        cell_path(x, y, depth).len() == depth,
    decreases depth,
{
    if depth > 0 {
        lemma_cell_path_len(x / 2, y / 2, (depth - 1) as nat);
    }
}

/// A side that borders a split neighbour belongs to a cell above the bottom
/// of the tree.
proof fn lemma_split_is_shallow(g: &SparseDirectedGraph, head: Index, path: Seq<Zorder2d>, d: Directions)
    requires
        g.wf(),
        g.is_live(head),
        leaves_are_blocks(g),
        side_split(g, head, path, d),
    ensures
        path.len() < g.height(head),
{
    let np = neighbour_path(path, d);
    lemma_cell_path_len((path_cell_x(path) + d.dx()) as nat, (path_cell_y(path) + d.dy()) as nat, path.len());
    g.lemma_structure();
    lemma_descend_agree(g.view_nodes(), g.view_nodes(), head, np);
    let r = g.descend_spec(head, np);
    assert(g.is_live(r));
    assert(!g.is_leaf(r));
    g.lemma_descend_height(head, np);
}

proof fn lemma_faces_view_append(a: Seq<(Faces, Cell)>, b: Seq<(Faces, Cell)>)
    ensures
        faces_view(a + b) == faces_view(a) + faces_view(b),
{
    assert(faces_view(a + b) =~= faces_view(a) + faces_view(b));
}

/// The sides listed are exactly the marked ones: there are some exactly when
/// some side is marked, and each one listed is marked.
pub proof fn lemma_marked_sides(f: Seq<bool>)
    requires
        f.len() == 4,
    ensures
        (marked_sides(f).len() > 0) == any_side(f),
        forall|k: int| 0 <= k < marked_sides(f).len() ==> f[(#[trigger] marked_sides(f)[k]).side_index()],
{
    let a: Seq<Directions> = if f[0] { seq![Directions::North] } else { Seq::empty() };
    let b: Seq<Directions> = if f[1] { seq![Directions::South] } else { Seq::empty() };
    let c: Seq<Directions> = if f[2] { seq![Directions::East] } else { Seq::empty() };
    let d: Seq<Directions> = if f[3] { seq![Directions::West] } else { Seq::empty() };
    assert(marked_sides(f) == a + b + c + d);
    assert forall|k: int| 0 <= k < marked_sides(f).len() implies f[(#[trigger] marked_sides(f)[k]).side_index()] by {
        let m = marked_sides(f);
        if k < a.len() {
            assert(m[k] == a[k]);
        } else if k < a.len() + b.len() {
            assert(m[k] == b[k - a.len()]);
        } else if k < a.len() + b.len() + c.len() {
            assert(m[k] == c[k - a.len() - b.len()]);
        } else {
            assert(m[k] == d[k - a.len() - b.len() - c.len()]);
        }
    }
}

/// A reported face has an open side, and its cell lies inside `path`.
pub open spec fn face_inside(path: Seq<Zorder2d>, e: (Seq<bool>, Seq<Zorder2d>)) -> bool {
    &&& any_side(e.0)
    &&& path.len() <= e.1.len()
    &&& e.1.take(path.len() as int) == path
}

proof fn lemma_faces_inside_concat(path: Seq<Zorder2d>, a: Seq<(Seq<bool>, Seq<Zorder2d>)>, b: Seq<(Seq<bool>, Seq<Zorder2d>)>)
    requires
        forall|k: int| 0 <= k < a.len() ==> face_inside(path, #[trigger] a[k]),
        forall|k: int| 0 <= k < b.len() ==> face_inside(path, #[trigger] b[k]),
    ensures
        forall|k: int| 0 <= k < (a + b).len() ==> face_inside(path, #[trigger] (a + b)[k]),
{
    assert forall|k: int| 0 <= k < (a + b).len() implies face_inside(path, #[trigger] (a + b)[k]) by {
        if k < a.len() {
            assert((a + b)[k] == a[k]);
        } else {
            assert((a + b)[k] == b[k - a.len()]);
        }
    }
}

proof fn lemma_faces_inside_child(path: Seq<Zorder2d>, s: Zorder2d, a: Seq<(Seq<bool>, Seq<Zorder2d>)>)
    requires
        forall|k: int| 0 <= k < a.len() ==> face_inside(path.push(s), #[trigger] a[k]),
    ensures
        forall|k: int| 0 <= k < a.len() ==> face_inside(path, #[trigger] a[k]),
{
    assert forall|k: int| 0 <= k < a.len() implies face_inside(path, #[trigger] a[k]) by {
        let e = a[k];
        assert(face_inside(path.push(s), e));
        let n = path.len() as int;
        assert(e.1.take(n) =~= e.1.take(n + 1).take(n));
        assert(path.push(s).take(n) =~= path);
    }
}

/// Every face that the search reports has an open side and lies inside the
/// cell the search started from.
pub proof fn lemma_faces_of_inside(g: &SparseDirectedGraph, head: Index, path: Seq<Zorder2d>, dirs: Seq<Directions>)
    ensures
        forall|k: int| 0 <= k < faces_of(g, head, path, dirs).len() ==> face_inside(path, #[trigger] faces_of(g, head, path, dirs)[k]),
    decreases g.height(head) - path.len(),
{
    let exposed = exposed_sides(g, head, path, dirs);
    if !splits_any(g, head, path, dirs) {
        if any_side(exposed) {
            assert(path.take(path.len() as int) =~= path);
            assert(face_inside(path, (exposed, path)));
        }
    } else if path.len() < g.height(head) {
        let p0 = path.push(Zorder2d::TopLeft);
        let p1 = path.push(Zorder2d::TopRight);
        let p2 = path.push(Zorder2d::BottomLeft);
        let p3 = path.push(Zorder2d::BottomRight);
        let f0 = faces_of(g, head, p0, seq![Directions::North, Directions::West]);
        let f1 = faces_of(g, head, p1, seq![Directions::North, Directions::East]);
        let f2 = faces_of(g, head, p2, seq![Directions::South, Directions::West]);
        let f3 = faces_of(g, head, p3, seq![Directions::South, Directions::East]);
        lemma_faces_of_inside(g, head, p0, seq![Directions::North, Directions::West]);
        lemma_faces_of_inside(g, head, p1, seq![Directions::North, Directions::East]);
        lemma_faces_of_inside(g, head, p2, seq![Directions::South, Directions::West]);
        lemma_faces_of_inside(g, head, p3, seq![Directions::South, Directions::East]);
        lemma_faces_inside_child(path, Zorder2d::TopLeft, f0);
        lemma_faces_inside_child(path, Zorder2d::TopRight, f1);
        lemma_faces_inside_child(path, Zorder2d::BottomLeft, f2);
        lemma_faces_inside_child(path, Zorder2d::BottomRight, f3);
        lemma_faces_inside_concat(path, f0, f1);
        lemma_faces_inside_concat(path, f0 + f1, f2);
        lemma_faces_inside_concat(path, f0 + f1 + f2, f3);
        assert(faces_of(g, head, path, dirs) == f0 + f1 + f2 + f3);
    }
}

/// Every face kept for a shape has an open side.
pub proof fn lemma_exposed_faces_open(g: &SparseDirectedGraph, head: Index, leaves: Seq<(Index, Seq<Zorder2d>)>)
    ensures
        forall|k: int| 0 <= k < faces_of_leaves(g, head, leaves).len() ==> any_side(
            (#[trigger] faces_of_leaves(g, head, leaves)[k]).0,
        ),
    decreases leaves.len(),
{
    if leaves.len() > 0 {
        let a = faces_of_leaves(g, head, leaves.drop_last());
        lemma_exposed_faces_open(g, head, leaves.drop_last());
        let all = seq![Directions::North, Directions::South, Directions::East, Directions::West];
        let b = if leaves.last().0 == 0 { Seq::empty() } else { faces_of(g, head, leaves.last().1, all) };
        lemma_faces_of_inside(g, head, leaves.last().1, all);
        assert forall|k: int| 0 <= k < (a + b).len() implies any_side((#[trigger] (a + b)[k]).0) by {
            if k < a.len() {
                assert((a + b)[k] == a[k]);
            } else {
                assert((a + b)[k] == b[k - a.len()]);
                assert(face_inside(leaves.last().1, b[k - a.len()]));
            }
        }
    }
}

/// Every side that the face `e` marks is open by the rule of the search.
spec fn marks_open_sides(g: &SparseDirectedGraph, head: Index, e: (Seq<bool>, Seq<Zorder2d>)) -> bool {
    forall|i: int| 0 <= i < 4 && #[trigger] e.0[i] ==> side_exposed(g, head, e.1, direction_at(i))
}

proof fn lemma_open_concat(
    g: &SparseDirectedGraph,
    head: Index,
    a: Seq<(Seq<bool>, Seq<Zorder2d>)>,
    b: Seq<(Seq<bool>, Seq<Zorder2d>)>,
)
    requires
        forall|k: int| 0 <= k < a.len() ==> marks_open_sides(g, head, #[trigger] a[k]),
        forall|k: int| 0 <= k < b.len() ==> marks_open_sides(g, head, #[trigger] b[k]),
    ensures
        forall|k: int| 0 <= k < (a + b).len() ==> marks_open_sides(g, head, #[trigger] (a + b)[k]),
{
    assert forall|k: int| 0 <= k < (a + b).len() implies marks_open_sides(g, head, #[trigger] (a + b)[k]) by {
        if k < a.len() {
            assert((a + b)[k] == a[k]);
        } else {
            assert((a + b)[k] == b[k - a.len()]);
        }
    }
}

proof fn lemma_faces_of_open(g: &SparseDirectedGraph, head: Index, path: Seq<Zorder2d>, dirs: Seq<Directions>)
    ensures
        forall|k: int| 0 <= k < faces_of(g, head, path, dirs).len() ==> marks_open_sides(g, head, #[trigger] faces_of(g, head, path, dirs)[k]),
    decreases g.height(head) - path.len(),
{
    let exposed = exposed_sides(g, head, path, dirs);
    if !splits_any(g, head, path, dirs) {
        if any_side(exposed) {
            assert(marks_open_sides(g, head, (exposed, path)));
        }
    } else if path.len() < g.height(head) {
        let p0 = path.push(Zorder2d::TopLeft);
        let p1 = path.push(Zorder2d::TopRight);
        let p2 = path.push(Zorder2d::BottomLeft);
        let p3 = path.push(Zorder2d::BottomRight);
        let f0 = faces_of(g, head, p0, seq![Directions::North, Directions::West]);
        let f1 = faces_of(g, head, p1, seq![Directions::North, Directions::East]);
        let f2 = faces_of(g, head, p2, seq![Directions::South, Directions::West]);
        let f3 = faces_of(g, head, p3, seq![Directions::South, Directions::East]);
        lemma_faces_of_open(g, head, p0, seq![Directions::North, Directions::West]);
        lemma_faces_of_open(g, head, p1, seq![Directions::North, Directions::East]);
        lemma_faces_of_open(g, head, p2, seq![Directions::South, Directions::West]);
        lemma_faces_of_open(g, head, p3, seq![Directions::South, Directions::East]);
        lemma_open_concat(g, head, f0, f1);
        lemma_open_concat(g, head, f0 + f1, f2);
        lemma_open_concat(g, head, f0 + f1 + f2, f3);
        assert(faces_of(g, head, path, dirs) == f0 + f1 + f2 + f3);
    }
}

proof fn lemma_faces_of_leaves_open(g: &SparseDirectedGraph, head: Index, leaves: Seq<(Index, Seq<Zorder2d>)>)
    ensures
        forall|k: int| 0 <= k < faces_of_leaves(g, head, leaves).len() ==> marks_open_sides(
            g,
            head,
            #[trigger] faces_of_leaves(g, head, leaves)[k],
        ),
    decreases leaves.len(),
{
    if leaves.len() > 0 {
        let all = seq![Directions::North, Directions::South, Directions::East, Directions::West];
        lemma_faces_of_leaves_open(g, head, leaves.drop_last());
        lemma_faces_of_open(g, head, leaves.last().1, all);
        let b = if leaves.last().0 == 0 { Seq::empty() } else { faces_of(g, head, leaves.last().1, all) };
        lemma_open_concat(g, head, faces_of_leaves(g, head, leaves.drop_last()), b);
    }
}

/// A side that a kept face marks as open looks onto air or off the grid:
/// the cell of the same size across it (north is `y - 1`, south `y + 1`,
/// east `x + 1`, west `x - 1`, sides in the order north, south, east, west)
/// lies outside the grid of side `2^depth`, or the tree holds air (leaf 0)
/// there. A neighbour that is any solid block covers the side.
pub proof fn lemma_open_sides_face_air(g: &SparseDirectedGraph, head: Index, k: int, i: int)
    requires
        0 <= k < exposed_faces_below(g, head).len(),
        0 <= i < 4,
        exposed_faces_below(g, head)[k].0[i],
    ensures
        ({
            let cell = exposed_faces_below(g, head)[k].1;
            let x = path_cell_x(cell) + (if i == 2 { 1int } else if i == 3 { -1int } else { 0int });
            let y = path_cell_y(cell) + (if i == 0 { -1int } else if i == 1 { 1int } else { 0int });
            let side = pow2(cell.len());
            x < 0 || y < 0 || x >= side || y >= side || g.descend_spec(head, cell_path(x as nat, y as nat, cell.len())) == 0
        }),
{
    lemma_faces_of_leaves_open(g, head, g.leaf_paths(head));
    let e = exposed_faces_below(g, head)[k];
    assert(marks_open_sides(g, head, e));
    assert(side_exposed(g, head, e.1, direction_at(i)));
}

/// The cell of the same size across side `i` (north, south, east, west) of
/// the cell at `cell` is on the grid and holds a node of at least index 4,
/// which is split into quadrants.
pub open spec fn split_across(g: &SparseDirectedGraph, head: Index, cell: Seq<Zorder2d>, i: int) -> bool {
    let x = path_cell_x(cell) + (if i == 2 { 1int } else if i == 3 { -1int } else { 0int });
    let y = path_cell_y(cell) + (if i == 0 { -1int } else if i == 1 { 1int } else { 0int });
    let side = pow2(cell.len());
    &&& 0 <= x < side
    &&& 0 <= y < side
    &&& g.descend_spec(head, cell_path(x as nat, y as nat, cell.len())) >= 4
}

proof fn lemma_leaf_faces_kept(g: &SparseDirectedGraph, head: Index, leaves: Seq<(Index, Seq<Zorder2d>)>, j: int, m: int)
    requires
        0 <= j < leaves.len(),
        leaves[j].0 != 0,
        0 <= m < faces_of(g, head, leaves[j].1, seq![Directions::North, Directions::South, Directions::East, Directions::West]).len(),
    ensures
        exists|k: int|
            0 <= k < faces_of_leaves(g, head, leaves).len() && #[trigger] faces_of_leaves(g, head, leaves)[k] == faces_of(
                g,
                head,
                leaves[j].1,
                seq![Directions::North, Directions::South, Directions::East, Directions::West],
            )[m],
    decreases leaves.len(),
{
    let all = seq![Directions::North, Directions::South, Directions::East, Directions::West];
    let a = faces_of_leaves(g, head, leaves.drop_last());
    let b = if leaves.last().0 == 0 { Seq::empty() } else { faces_of(g, head, leaves.last().1, all) };
    assert(faces_of_leaves(g, head, leaves) == a + b);
    if j == leaves.len() - 1 {
        assert((a + b)[a.len() + m] == b[m]);
    } else {
        assert(leaves.drop_last()[j] == leaves[j]);
        lemma_leaf_faces_kept(g, head, leaves.drop_last(), j, m);
        let k = choose|k: int| 0 <= k < a.len() && #[trigger] a[k] == faces_of(g, head, leaves[j].1, all)[m];
        assert((a + b)[k] == a[k]);
    }
}

/// A solid leaf cell none of whose four neighbours of its own size is split
/// is kept with every side that looks onto air or off the grid marked open:
/// where side `i` of the leaf at `leaf_paths(head)[j]` has, across it, a cell
/// off the grid of side `2^depth` or a cell holding air (leaf 0), some kept
/// face is that cell with side `i` marked.
pub proof fn lemma_air_sides_are_faces(g: &SparseDirectedGraph, head: Index, j: int, i: int)
    requires
        0 <= j < g.leaf_paths(head).len(),
        g.leaf_paths(head)[j].0 != 0,
        0 <= i < 4,
        forall|s: int| 0 <= s < 4 ==> !#[trigger] split_across(g, head, g.leaf_paths(head)[j].1, s),
        ({
            let cell = g.leaf_paths(head)[j].1;
            let x = path_cell_x(cell) + (if i == 2 { 1int } else if i == 3 { -1int } else { 0int });
            let y = path_cell_y(cell) + (if i == 0 { -1int } else if i == 1 { 1int } else { 0int });
            let side = pow2(cell.len());
            x < 0 || y < 0 || x >= side || y >= side || g.descend_spec(head, cell_path(x as nat, y as nat, cell.len())) == 0
        }),
    ensures
        exists|k: int|
            0 <= k < exposed_faces_below(g, head).len() && (#[trigger] exposed_faces_below(g, head)[k]).1 == g.leaf_paths(
                head,
            )[j].1 && exposed_faces_below(g, head)[k].0[i],
{
    let all = seq![Directions::North, Directions::South, Directions::East, Directions::West];
    let p = g.leaf_paths(head)[j].1;
    assert forall|d: Directions| all.contains(d) implies !#[trigger] side_split(g, head, p, d) by {
        assert(!split_across(g, head, p, d.side_index()));
    }
    assert(!splits_any(g, head, p, all));
    let exposed = exposed_sides(g, head, p, all);
    assert(all[i] == direction_at(i));
    assert(all.contains(direction_at(i)));
    assert(side_exposed(g, head, p, direction_at(i)));
    assert(exposed[i]);
    assert(any_side(exposed));
    assert(faces_of(g, head, p, all) == seq![(exposed, p)]);
    lemma_leaf_faces_kept(g, head, g.leaf_paths(head), j, 0);
    let k = choose|k: int|
        0 <= k < exposed_faces_below(g, head).len() && #[trigger] exposed_faces_below(g, head)[k] == faces_of(g, head, p, all)[0];
    assert(exposed_faces_below(g, head)[k].1 == p);
}

/// Whether `d` is among the first `k` sides of `dirs`.
spec fn listed(dirs: Seq<Directions>, k: int, d: Directions) -> bool {
    exists|j: int| 0 <= j < k && dirs[j] == d
}

proof fn lemma_listed_step(dirs: Seq<Directions>, k: int, d: Directions)
    requires
        0 <= k < dirs.len(),
    ensures
        listed(dirs, k + 1, d) == (listed(dirs, k, d) || dirs[k] == d),
{
    if listed(dirs, k + 1, d) && !(dirs[k] == d) {
        let j = choose|j: int| 0 <= j < k + 1 && dirs[j] == d;
        assert(j < k);
    }
    if listed(dirs, k, d) {
        let j = choose|j: int| 0 <= j < k && dirs[j] == d;
        assert(0 <= j < k + 1 && dirs[j] == d);
    }
    if dirs[k] == d {
        assert(0 <= k < k + 1 && dirs[k] == d);
    }
}

// ----------------------------------------------------------------------------
// Computing the faces
// ----------------------------------------------------------------------------

/// What lies beyond a side of a cell.
enum Side {
    /// The edge of the grid, or air.
    Exposed,
    /// A neighbour split into smaller cells.
    Split,
    /// A solid block.
    Covered,
}

/// What lies beyond side `direction` of the cell at `path`.
fn side_of(graph: &SparseDirectedGraph, head: Index, path: &Cell, direction: Directions) -> (r: Side)
    requires
        graph.wf(),
        graph.is_live(head),
        path@.len() <= 30,
    ensures
        (r is Exposed) == side_exposed(graph, head, path@, direction),
        (r is Split) == side_split(graph, head, path@, direction),
{
    let len = path.len();
    proof {
        lemma2_to64();
        lemma_path_cell_bound(path@);
        if len < 30 {
            lemma_pow2_strictly_increases(len as nat, 30);
        }
        lemma_u32_shl_is_mul(1u32, len as u32);
    }
    let max_bound: i32 = (1u32 << (len as u32)) as i32;
    let center = path.cell();
    let (dx, dy) = direction.step();
    let x: i32 = center[0] as i32 + dx;
    let y: i32 = center[1] as i32 + dy;
    if x < 0 || y < 0 || x >= max_bound || y >= max_bound {
        return Side::Exposed;
    }
    let check_path = Cell::new([x as u32, y as u32], len as u32);
    let result = graph.descend(head, check_path.steps());
    if result == 0 {
        Side::Exposed
    } else if result >= 4 {
        Side::Split
    } else {
        Side::Covered
    }
}

/// The open faces of the cell at `path`, looking at the sides in
/// `faces_to_check`; a side that borders a split neighbour sends the search
/// down into the quadrants of the cell.
fn identify_faces(
    graph: &SparseDirectedGraph,
    head: Index,
    path: &Cell,
    faces_to_check: &[Directions],
) -> (results: Vec<(Faces, Cell)>)
    requires
        graph.wf(),
        graph.is_live(head),
        leaves_are_blocks(graph),
        graph.height(head) <= 30,
        path@.len() <= 30,
    ensures
        faces_view(results@) == faces_of(graph, head, path@, faces_to_check@),
    decreases graph.height(head) - path@.len(),
{
    let ghost dirs = faces_to_check@;
    let mut results: Vec<(Faces, Cell)> = Vec::new();
    let mut exposed: [bool; 4] = [false, false, false, false];
    let mut splits: [bool; 4] = [false, false, false, false];
    let mut k: usize = 0;
    while k < faces_to_check.len()
        invariant
            graph.wf(),
            graph.is_live(head),
            path@.len() <= 30,
            dirs == faces_to_check@,
            k <= faces_to_check.len(),
            forall|i: int|
                0 <= i < 4 ==> #[trigger] exposed[i] == (listed(dirs, k as int, direction_at(i))
                    && side_exposed(graph, head, path@, direction_at(i))),
            forall|i: int|
                0 <= i < 4 ==> #[trigger] splits[i] == (listed(dirs, k as int, direction_at(i))
                    && side_split(graph, head, path@, direction_at(i))),
        decreases faces_to_check.len() - k,
    {
        let direction = faces_to_check[k];
        let idx = direction.index();
        let ghost e0 = exposed;
        let ghost s0 = splits;
        match side_of(graph, head, path, direction) {
            Side::Exposed => {
                exposed[idx] = true;
            },
            Side::Split => {
                splits[idx] = true;
            },
            Side::Covered => {},
        }
        proof {
            assert(direction_at(idx as int) == direction);
            assert forall|i: int| 0 <= i < 4 implies #[trigger] exposed[i] == (listed(dirs, k + 1, direction_at(i))
                && side_exposed(graph, head, path@, direction_at(i))) && splits[i] == (listed(dirs, k + 1, direction_at(i))
                && side_split(graph, head, path@, direction_at(i))) by {
                lemma_listed_step(dirs, k as int, direction_at(i));
                assert(e0[i] == (listed(dirs, k as int, direction_at(i)) && side_exposed(graph, head, path@, direction_at(i))));
                assert(s0[i] == (listed(dirs, k as int, direction_at(i)) && side_split(graph, head, path@, direction_at(i))));
                if i != idx {
                    assert(direction_at(i) != direction);
                }
            }
        }
        k += 1;
    }
    let exposed_faces = Faces(exposed);
    let split_faces = Faces(splits);
    proof {
        assert forall|d: Directions| #[trigger] listed(dirs, dirs.len() as int, d) == dirs.contains(d) by {
            if dirs.contains(d) {
                let j = choose|j: int| 0 <= j < dirs.len() && dirs[j] == d;
                assert(0 <= j < dirs.len() as int && dirs[j] == d);
            }
        }
        assert(exposed_faces@ =~= exposed_sides(graph, head, path@, dirs));
        assert(any_side(split_faces@) == splits_any(graph, head, path@, dirs)) by {
            if splits_any(graph, head, path@, dirs) {
                let d = choose|d: Directions| dirs.contains(d) && #[trigger] side_split(graph, head, path@, d);
                assert(direction_at(d.side_index()) == d);
                assert(splits[d.side_index()]);
            }
            if any_side(split_faces@) {
                if splits[0] {
                    assert(side_split(graph, head, path@, direction_at(0)));
                } else if splits[1] {
                    assert(side_split(graph, head, path@, direction_at(1)));
                } else if splits[2] {
                    assert(side_split(graph, head, path@, direction_at(2)));
                } else {
                    assert(side_split(graph, head, path@, direction_at(3)));
                }
            }
        }
    }
    if !split_faces.has_some() {
        if exposed_faces.has_some() {
            results.push((exposed_faces, path.clone()));
            proof {
                assert(faces_view(results@) =~= seq![(exposed_faces@, path@)]);
            }
        } else {
            proof {
                assert(faces_view(results@) =~= Seq::<(Seq<bool>, Seq<Zorder2d>)>::empty());
            }
        }
        return results;
    }
    proof {
        let d = choose|d: Directions| dirs.contains(d) && #[trigger] side_split(graph, head, path@, d);
        lemma_split_is_shallow(graph, head, path@, d);
    }
    let ghost p = path@;
    let mut child_path = path.clone();

    child_path.push_step(Zorder2d::TopLeft);
    let north_west: [Directions; 2] = [Directions::North, Directions::West];
    proof {
        assert(north_west@ =~= seq![Directions::North, Directions::West]);
    }
    let mut part = identify_faces(graph, head, &child_path, north_west.as_slice());
    proof {
        assert(faces_view(results@) =~= Seq::<(Seq<bool>, Seq<Zorder2d>)>::empty());
        lemma_faces_view_append(results@, part@);
    }
    results.append(&mut part);
    child_path.pop_step();
    proof {
        assert(child_path@ =~= p);
    }

    child_path.push_step(Zorder2d::TopRight);
    let north_east: [Directions; 2] = [Directions::North, Directions::East];
    proof {
        assert(north_east@ =~= seq![Directions::North, Directions::East]);
    }
    let mut part = identify_faces(graph, head, &child_path, north_east.as_slice());
    proof {
        lemma_faces_view_append(results@, part@);
    }
    results.append(&mut part);
    child_path.pop_step();
    proof {
        assert(child_path@ =~= p);
    }

    child_path.push_step(Zorder2d::BottomLeft);
    let south_west: [Directions; 2] = [Directions::South, Directions::West];
    proof {
        assert(south_west@ =~= seq![Directions::South, Directions::West]);
    }
    let mut part = identify_faces(graph, head, &child_path, south_west.as_slice());
    proof {
        lemma_faces_view_append(results@, part@);
    }
    results.append(&mut part);
    child_path.pop_step();
    proof {
        assert(child_path@ =~= p);
    }

    child_path.push_step(Zorder2d::BottomRight);
    let south_east: [Directions; 2] = [Directions::South, Directions::East];
    proof {
        assert(south_east@ =~= seq![Directions::South, Directions::East]);
    }
    let mut part = identify_faces(graph, head, &child_path, south_east.as_slice());
    proof {
        lemma_faces_view_append(results@, part@);
    }
    results.append(&mut part);
    proof {
        assert(splits_any(graph, head, p, dirs));
        assert(p.len() < graph.height(head));
        assert(faces_view(results@) == faces_of(graph, head, p, dirs));
    }
    results
}

/// A graph holding the four block kinds and nothing else: air at index 0 and
/// three solid blocks at 1, 2 and 3, each a leaf.
pub fn block_graph() -> (graph: SparseDirectedGraph)
    ensures
        graph.wf(),
        leaves_are_blocks(&graph),
        graph.node_count() == 4,
        graph.root_total() == 0,
        forall|i: Index| #[trigger] graph.is_live(i) <==> i < 4,
        forall|i: Index| i < 4 ==> #[trigger] graph.view_nodes()[i] == [i, i, i, i],
{
    let mut graph = SparseDirectedGraph::new();
    let mut k: u32 = 0;
    while k < 4
        invariant
            k <= 4,
            graph.wf(),
            graph.node_count() == k,
            graph.root_total() == 0,
            forall|i: Index| #[trigger] graph.is_live(i) <==> i < k,
            forall|i: Index| i < k ==> #[trigger] graph.view_nodes()[i] == [i, i, i, i],
        decreases 4 - k,
    {
        let ghost before = graph.view_nodes();
        proof {
            assert(!graph.is_live(k));
            assert forall|i: Index| #[trigger] before.dom().contains(i) <==> i < k by {
                assert(graph.is_live(i) <==> i < k);
            }
            assert forall|i: Index| i < k implies #[trigger] before[i] == [i, i, i, i] by {
                assert(graph.view_nodes()[i] == [i, i, i, i]);
            }
        }
        let leaf = graph.add_leaf();
        proof {
            if leaf < k {
                assert(before.dom().contains(leaf));
            }
            if leaf > k {
                assert(!before.dom().contains(k));
            }
            assert(leaf == k);
            assert forall|i: Index| #[trigger] graph.is_live(i) <==> i < k + 1 by {
                assert(before.dom().contains(i) <==> i < k);
            }
            assert forall|i: Index| i < k + 1 implies #[trigger] graph.view_nodes()[i] == [i, i, i, i] by {
                if i < k {
                    assert(before[i] == [i, i, i, i]);
                }
            }
        }
        k += 1;
    }
    proof {
        graph.lemma_structure();
    }
    graph
}

impl Voxels {
    /// Sets new geometry and rebuilds the list of exposed faces from it: every
    /// solid leaf of the new tree, in Z-order, with its open sides.
    pub fn update_shape(&mut self, graph: &SparseDirectedGraph, geometry: DagPointer)
        requires
            graph.wf(),
            graph.is_live(geometry.head),
            leaves_are_blocks(graph),
            graph.height(geometry.head) <= 30,
        ensures
            final(self).geometry == geometry,
            faces_view(final(self).faces@) == exposed_faces_below(graph, geometry.head),
            sorted_by_cell(faces_view(final(self).faces@)),
    {
        self.geometry = geometry;
        self.faces = self.cache_faces(graph);
        proof {
            super::voxel_manifolds::lemma_faces_in_zorder(graph, geometry.head, Seq::empty());
        }
    }

    /// Reshaping depends on the graph and the geometry alone: where `once` is
    /// what `update_shape` left for `geometry`, and `twice` what a second call
    /// with the same graph and geometry leaves, the geometry and the faces,
    /// sides and cells, are unchanged.
    pub proof fn lemma_reshape_again(graph: &SparseDirectedGraph, geometry: DagPointer, once: &Voxels, twice: &Voxels)
        requires
            once.geometry == geometry,
            faces_view(once.faces@) == exposed_faces_below(graph, geometry.head),
            twice.geometry == geometry,
            faces_view(twice.faces@) == exposed_faces_below(graph, geometry.head),
        ensures
            twice.geometry == once.geometry,
            faces_view(twice.faces@) == faces_view(once.faces@),
            twice.faces@.len() == once.faces@.len(),
            forall|k: int| 0 <= k < once.faces@.len() ==> (#[trigger] twice.faces@[k]).0@ == once.faces@[k].0@
                && twice.faces@[k].1@ == once.faces@[k].1@,
    {
        assert(faces_view(once.faces@).len() == once.faces@.len());
        assert(faces_view(twice.faces@).len() == twice.faces@.len());
        assert forall|k: int| 0 <= k < once.faces@.len() implies (#[trigger] twice.faces@[k]).0@ == once.faces@[k].0@
            && twice.faces@[k].1@ == once.faces@[k].1@ by {
            assert(faces_view(twice.faces@)[k] == (twice.faces@[k].0@, twice.faces@[k].1@));
            assert(faces_view(once.faces@)[k] == (once.faces@[k].0@, once.faces@[k].1@));
        }
    }

    /// The exposed faces of every solid leaf of the current geometry.
    fn cache_faces(&self, graph: &SparseDirectedGraph) -> (r: Vec<(Faces, Cell)>)
        requires
            graph.wf(),
            graph.is_live(self.geometry.head),
            leaves_are_blocks(graph),
            graph.height(self.geometry.head) <= 30,
        ensures
            faces_view(r@) == exposed_faces_below(graph, self.geometry.head),
    {
        let head = self.geometry.head;
        let leaves = dfs_leaves(graph, head);
        let ghost all_leaves = graph.leaf_paths(head);
        proof {
            graph.lemma_leaf_paths_sound(head);
            assert(leaf_list_view(leaves@).len() == leaves@.len());
        }
        let all = Directions::all();
        let mut found: Vec<(Faces, Cell)> = Vec::new();
        let mut k: usize = 0;
        proof {
            assert(all_leaves.take(0) =~= Seq::<(Index, Seq<Zorder2d>)>::empty());
            assert(faces_view(found@) =~= Seq::<(Seq<bool>, Seq<Zorder2d>)>::empty());
        }
        while k < leaves.len()
            invariant
                graph.wf(),
                graph.is_live(head),
                leaves_are_blocks(graph),
                graph.height(head) <= 30,
                all@ == seq![Directions::North, Directions::South, Directions::East, Directions::West],
                all_leaves == graph.leaf_paths(head),
                leaf_list_view(leaves@) == all_leaves,
                k <= leaves.len(),
                forall|j: int| 0 <= j < all_leaves.len() ==> (#[trigger] all_leaves[j]).1.len() <= graph.height(head),
                faces_view(found@) == faces_of_leaves(graph, head, all_leaves.take(k as int)),
            decreases leaves.len() - k,
        {
            proof {
                assert(all_leaves[k as int] == (leaves@[k as int].0, leaves@[k as int].1@));
                assert(all_leaves.take(k + 1).drop_last() =~= all_leaves.take(k as int));
                assert(all_leaves.take(k + 1).last() == all_leaves[k as int]);
            }
            let idx = leaves[k].0;
            if idx != 0 {
                let cell = Cell::from_steps(copy_path(&leaves[k].1));
                let mut faces = identify_faces(graph, head, &cell, all.as_slice());
                proof {
                    lemma_faces_view_append(found@, faces@);
                }
                found.append(&mut faces);
            } else {
                proof {
                    assert(faces_of_leaves(graph, head, all_leaves.take(k + 1)) =~= faces_of_leaves(graph, head, all_leaves.take(k as int)));
                }
            }
            k += 1;
        }
        proof {
            assert(all_leaves.take(k as int) =~= all_leaves);
        }
        found
    }
}

} // verus!
