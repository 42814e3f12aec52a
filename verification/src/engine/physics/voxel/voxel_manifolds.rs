//! The cell arithmetic of the voxel-voxel contact search: descending two trees
//! side by side, and finding the exposed face that covers a cell.
use vstd::prelude::*;

verus! {

use crate::engine::grid::graph::{Index, SparseDirectedGraph, Node, Step};
use crate::engine::grid::basic_node2d::{Zorder2d, zorder2d_from_index};
use crate::engine::grid::order::{ancestry_order, sorted_by_cell, lies_inside, lemma_quadrants_sorted, lemma_order_mono, lemma_extends_order};
pub use crate::engine::grid::order::lemma_ancestry_antisymmetric;
use crate::engine::grid::{Cell, DagPointer};
use super::voxel_faces::{Faces, faces_view, faces_of, faces_of_leaves, exposed_faces_below, Directions};
use super::Voxels;

/// The cells of `faces`, compared with `cell`, rise from "before" through
/// "related" to "after": the order a search by halves needs.
pub open spec fn ordered_around(faces: Seq<(Seq<bool>, Seq<Zorder2d>)>, cell: Seq<Zorder2d>) -> bool {
    forall|i: int, j: int|
        0 <= i <= j < faces.len() ==> ancestry_order(#[trigger] faces[i].1, cell) <= ancestry_order(
            #[trigger] faces[j].1,
            cell,
        )
}

/// The faces of a cell come in Z-order, each inside the cell.
proof fn lemma_faces_of_sorted(g: &SparseDirectedGraph, head: Index, path: Seq<Zorder2d>, dirs: Seq<Directions>)
    ensures
        sorted_by_cell(faces_of(g, head, path, dirs)),
        forall|k: int|
            0 <= k < faces_of(g, head, path, dirs).len() ==> lies_inside(#[trigger] faces_of(g, head, path, dirs)[k].1, path),
    decreases g.height(head) - path.len(),
{
    let f = faces_of(g, head, path, dirs);
    if !super::voxel_faces::splits_any(g, head, path, dirs) {
        assert(lies_inside(path, path));
    } else if path.len() < g.height(head) {
        let d0 = seq![Directions::North, Directions::West];
        let d1 = seq![Directions::North, Directions::East];
        let d2 = seq![Directions::South, Directions::West];
        let d3 = seq![Directions::South, Directions::East];
        lemma_faces_of_sorted(g, head, path.push(Zorder2d::TopLeft), d0);
        lemma_faces_of_sorted(g, head, path.push(Zorder2d::TopRight), d1);
        lemma_faces_of_sorted(g, head, path.push(Zorder2d::BottomLeft), d2);
        lemma_faces_of_sorted(g, head, path.push(Zorder2d::BottomRight), d3);
        lemma_quadrants_sorted(
            path,
            faces_of(g, head, path.push(Zorder2d::TopLeft), d0),
            faces_of(g, head, path.push(Zorder2d::TopRight), d1),
            faces_of(g, head, path.push(Zorder2d::BottomLeft), d2),
            faces_of(g, head, path.push(Zorder2d::BottomRight), d3),
        );
    }
}

/// The faces of leaves given in Z-order come in Z-order, each inside its
/// leaf.
proof fn lemma_faces_of_leaves_sorted(g: &SparseDirectedGraph, head: Index, leaves: Seq<(Index, Seq<Zorder2d>)>)
    requires
        sorted_by_cell(leaves),
    ensures
        sorted_by_cell(faces_of_leaves(g, head, leaves)),
        forall|k: int|
            0 <= k < faces_of_leaves(g, head, leaves).len() ==> exists|j: int|
                0 <= j < leaves.len() && lies_inside(#[trigger] faces_of_leaves(g, head, leaves)[k].1, leaves[j].1),
    decreases leaves.len(),
{
    if leaves.len() > 0 {
        let front = leaves.drop_last();
        let last = leaves.last();
        assert(sorted_by_cell(front)) by {
            assert forall|i: int, j: int| #![trigger front[i], front[j]] 0 <= i < j < front.len() implies ancestry_order(
                front[i].1,
                front[j].1,
            ) == -1 by {
                assert(front[i] == leaves[i] && front[j] == leaves[j]);
            }
        }
        lemma_faces_of_leaves_sorted(g, head, front);
        let a = faces_of_leaves(g, head, front);
        let all_dirs = seq![Directions::North, Directions::South, Directions::East, Directions::West];
        let b: Seq<(Seq<bool>, Seq<Zorder2d>)> = if last.0 == 0 {
            Seq::empty()
        } else {
            faces_of(g, head, last.1, all_dirs)
        };
        if last.0 != 0 {
            lemma_faces_of_sorted(g, head, last.1, all_dirs);
        }
        assert(faces_of_leaves(g, head, leaves) == a + b);
        assert forall|i: int, j: int| #![trigger a[i], b[j]] 0 <= i < a.len() && 0 <= j < b.len() implies ancestry_order(
            a[i].1,
            b[j].1,
        ) == -1 by {
            let w = choose|w: int| 0 <= w < front.len() && lies_inside(a[i].1, front[w].1);
            assert(front[w] == leaves[w]);
            assert(leaves[leaves.len() - 1] == last);
            assert(ancestry_order(leaves[w].1, leaves[leaves.len() - 1].1) == -1);
            lemma_extends_order(leaves[w].1, last.1, a[i].1, b[j].1);
        }
        crate::engine::grid::order::lemma_sorted_concat(a, b);
        let r = a + b;
        assert forall|k: int| 0 <= k < r.len() implies exists|j: int|
            0 <= j < leaves.len() && lies_inside(#[trigger] r[k].1, leaves[j].1) by {
            if k < a.len() {
                assert(r[k] == a[k]);
                let w = choose|w: int| 0 <= w < front.len() && lies_inside(a[k].1, front[w].1);
                assert(front[w] == leaves[w]);
            } else {
                assert(r[k] == b[k - a.len()]);
                assert(leaves[leaves.len() - 1] == last);
            }
        }
    }
}

/// The exposed faces of a tree come in Z-order, no face inside another, so
/// they are ordered around every cell: the search by halves that
/// `descend_split` makes over the faces that `update_shape` computes misses
/// no related face.
pub proof fn lemma_faces_in_zorder(g: &SparseDirectedGraph, head: Index, cell: Seq<Zorder2d>)
    ensures
        sorted_by_cell(exposed_faces_below(g, head)),
        ordered_around(exposed_faces_below(g, head), cell),
{
    g.lemma_leaf_paths_in_zorder(head);
    lemma_faces_of_leaves_sorted(g, head, g.leaf_paths(head));
    let f = exposed_faces_below(g, head);
    assert forall|i: int, j: int| 0 <= i <= j < f.len() implies ancestry_order(#[trigger] f[i].1, cell) <= ancestry_order(
        #[trigger] f[j].1,
        cell,
    ) by {
        if i < j {
            lemma_order_mono(f[i].1, f[j].1, cell);
        }
    }
}

/// How one cell stands to another in Z-order.
pub enum Ancestry {
    /// The first cell comes before the second.
    Before,
    /// One cell lies inside the other.
    Related,
    /// The first cell comes after the second.
    After,
}

/// Related means one cell lies inside the other; otherwise the cells are
/// ordered by the Z-order of the steps they share.
fn ancestry(cell1: &Cell, cell2: &Cell) -> (r: Ancestry)
    ensures
        match r {
            Ancestry::Before => ancestry_order(cell1@, cell2@) == -1,
            Ancestry::Related => ancestry_order(cell1@, cell2@) == 0,
            Ancestry::After => ancestry_order(cell1@, cell2@) == 1,
        },
{
    let len1 = cell1.len();
    let len2 = cell2.len();
    let shared = if len1 < len2 { len1 } else { len2 };
    let mut i: usize = 0;
    proof {
        assert(cell1@.skip(0) =~= cell1@);
        assert(cell2@.skip(0) =~= cell2@);
    }
    while i < shared
        invariant
            shared <= cell1@.len(),
            shared <= cell2@.len(),
            shared == cell1@.len() || shared == cell2@.len(),
            i <= shared,
            ancestry_order(cell1@, cell2@) == ancestry_order(cell1@.skip(i as int), cell2@.skip(i as int)),
        decreases shared - i,
    {
        let a = cell1.steps()[i].as_usize();
        let b = cell2.steps()[i].as_usize();
        proof {
            let s1 = cell1@.skip(i as int);
            let s2 = cell2@.skip(i as int);
            assert(s1[0] == cell1@[i as int]);
            assert(s2[0] == cell2@[i as int]);
            assert(s1.drop_first() =~= cell1@.skip(i + 1));
            assert(s2.drop_first() =~= cell2@.skip(i + 1));
        }
        if a < b {
            return Ancestry::Before;
        } else if a > b {
            return Ancestry::After;
        }
        i += 1;
    }
    proof {
        assert(cell1@.skip(i as int).len() == 0 || cell2@.skip(i as int).len() == 0);
    }
    Ancestry::Related
}

/// The position of a face whose cell contains `cell` or lies inside it,
/// searching by halves. Where the faces are ordered around `cell`, `None`
/// means that no face is so related.
fn find_face(faces: &Vec<(Faces, Cell)>, cell: &Cell) -> (r: Option<usize>)
    ensures
        match r {
            Some(i) => i < faces.len() && ancestry_order(faces@[i as int].1@, cell@) == 0,
            None => ordered_around(faces_view(faces@), cell@) ==> forall|j: int|
                0 <= j < faces.len() ==> ancestry_order(#[trigger] faces@[j].1@, cell@) != 0,
        },
{
    let ghost fv = faces_view(faces@);
    let mut lo: usize = 0;
    let mut hi: usize = faces.len();
    while lo < hi
        invariant
            fv == faces_view(faces@),
            lo <= hi <= faces.len(),
            ordered_around(fv, cell@) ==> forall|j: int|
                0 <= j < lo ==> ancestry_order(#[trigger] faces@[j].1@, cell@) < 0,
            ordered_around(fv, cell@) ==> forall|j: int|
                hi <= j < faces.len() ==> ancestry_order(#[trigger] faces@[j].1@, cell@) > 0,
        decreases hi - lo,
    {
        let mid = lo + (hi - lo) / 2;
        let order = ancestry(&faces[mid].1, cell);
        match order {
            Ancestry::Related => {
                return Some(mid);
            },
            Ancestry::Before => {
                proof {
                    if ordered_around(fv, cell@) {
                        assert forall|j: int| 0 <= j < mid + 1 implies ancestry_order(
                            #[trigger] faces@[j].1@,
                            cell@,
                        ) < 0 by {
                            assert(fv[j].1 == faces@[j].1@);
                            assert(fv[mid as int].1 == faces@[mid as int].1@);
                        }
                    }
                }
                lo = mid + 1;
            },
            Ancestry::After => {
                proof {
                    if ordered_around(fv, cell@) {
                        assert forall|j: int| mid <= j < faces.len() implies ancestry_order(
                            #[trigger] faces@[j].1@,
                            cell@,
                        ) > 0 by {
                            assert(fv[j].1 == faces@[j].1@);
                            assert(fv[mid as int].1 == faces@[mid as int].1@);
                        }
                    }
                }
                hi = mid;
            },
        }
    }
    None
}

/// One side of a pair of cells being descended: the cell, the tree below it,
/// and, where the cell is exactly one of the shape's exposed faces, its
/// position in the face list.
#[derive(Clone, Debug)]
pub struct Descent {
    pub cell: Cell,
    pub pointer: DagPointer,
    pub face: Option<usize>,
}

impl Descent {
    pub fn new(cell: Cell, pointer: DagPointer, face: Option<usize>) -> (r: Self)
        ensures
            r.cell@ == cell@,
            r.pointer == pointer,
            r.face == face,
    {
        Self { cell, pointer, face }
    }
}

/// What `descend_split` reports for the quadrant in slot `s` of `parent`:
/// nothing where no face of the shape is related to the quadrant (as far as
/// the search by halves sees), otherwise the quadrant with the child tree, one
/// level lower, and the face whose cell is exactly the quadrant, if the face
/// found is one.
pub open spec fn split_entry(
    graph: &SparseDirectedGraph,
    faces: Seq<(Faces, Cell)>,
    parent: &Descent,
    s: int,
    entry: Option<Descent>,
) -> bool {
    let quadrant = parent.cell@.push(zorder2d_from_index(s as nat));
    match entry {
        None => ordered_around(faces_view(faces), quadrant) ==> forall|j: int|
            0 <= j < faces.len() ==> ancestry_order(#[trigger] faces[j].1@, quadrant) != 0,
        Some(d) => {
            &&& d.cell@ == quadrant
            &&& d.pointer.head == graph.view_nodes()[parent.pointer.head][s]
            &&& d.pointer.height == parent.pointer.height - 1
            &&& match d.face {
                Some(i) => i < faces.len() && faces[i as int].1@ == quadrant,
                None => exists|j: int|
                    0 <= j < faces.len() && ancestry_order(#[trigger] faces[j].1@, quadrant) == 0
                        && faces[j].1@.len() != quadrant.len(),
            }
        },
    }
}

/// A cell related to a cell of the same depth is that cell.
pub proof fn lemma_related_same_len(a: Seq<Zorder2d>, b: Seq<Zorder2d>)
    requires
        ancestry_order(a, b) == 0,
        a.len() == b.len(),
    ensures
        a == b,
    decreases a.len(),
{
    if a.len() > 0 {
        assert(a[0].step_index() == b[0].step_index());
        assert(a[0] == b[0]);
        lemma_related_same_len(a.drop_first(), b.drop_first());
        assert(a =~= seq![a[0]] + a.drop_first());
        assert(b =~= seq![b[0]] + b.drop_first());
    } else {
        assert(a =~= b);
    }
}

/// The four quadrants of `split_descent`, each with the child tree one level
/// lower and the face of `split_shape` that is exactly that quadrant, if one
/// is; a quadrant that no face of the shape touches is left out.
pub fn descend_split(
    graph: &SparseDirectedGraph,
    split_descent: &Descent,
    split_shape: &Voxels,
) -> (results: [Option<Descent>; 4])
    requires
        graph.wf(),
        graph.is_live(split_descent.pointer.head),
        split_descent.pointer.height > 0,
    ensures
        forall|s: int| 0 <= s < 4 ==> split_entry(graph, split_shape.faces@, split_descent, s, #[trigger] results[s]),
{
    let mut results: [Option<Descent>; 4] = [None, None, None, None];
    let node = graph.node(split_descent.pointer.head);
    let all = Zorder2d::all();
    let mut k: usize = 4;
    proof {
        graph.lemma_structure();
    }
    while k > 0
        invariant
            graph.wf(),
            graph.is_live(split_descent.pointer.head),
            split_descent.pointer.height > 0,
            *node == graph.view_nodes()[split_descent.pointer.head],
            forall|i: int| 0 <= i < 4 ==> #[trigger] all[i].step_index() == i,
            k <= 4,
            forall|s: int| 0 <= s < k ==> #[trigger] results[s] is None,
            forall|s: int| k <= s < 4 ==> split_entry(graph, split_shape.faces@, split_descent, s, #[trigger] results[s]),
        decreases k,
    {
        k -= 1;
        let child = all[k];
        let mut new_cell = split_descent.cell.clone();
        new_cell.push_step(child);
        let ghost quadrant = split_descent.cell@.push(zorder2d_from_index(k as nat));
        proof {
            assert(child.step_index() == k);
            assert(child == zorder2d_from_index(child.step_index()));
            assert(new_cell@ == quadrant);
        }
        let ghost before = results;
        match find_face(&split_shape.faces, &new_cell) {
            None => {
                proof {
                    assert(split_entry(graph, split_shape.faces@, split_descent, k as int, results[k as int]));
                }
            },
            Some(found) => {
                let face = if new_cell.len() == split_shape.faces[found].1.len() {
                    proof {
                        lemma_related_same_len(split_shape.faces@[found as int].1@, quadrant);
                    }
                    Some(found)
                } else {
                    None
                };
                let new_pointer = DagPointer::new(node.child(child), split_descent.pointer.height - 1);
                results[child.as_usize()] = Some(Descent::new(new_cell, new_pointer, face));
                proof {
                    assert(split_entry(graph, split_shape.faces@, split_descent, k as int, results[k as int]));
                }
            },
        }
        proof {
            assert forall|s: int| 0 <= s < 4 && s != k implies #[trigger] results[s] == before[s] by {}
        }
    }
    results
}

/// The whole grid of `shape` as the start of a descent: it is a face itself
/// only where the shape's first face is the whole grid.
pub fn descent_root(shape: &Voxels) -> (r: Descent)
    ensures
        r.cell@ == Seq::<Zorder2d>::empty(),
        r.pointer == shape.geometry,
        r.face == (if shape.faces@.len() > 0 && shape.faces@[0].1@.len() == 0 {
            Some(0usize)
        } else {
            None
        }),
{
    let face = if shape.faces.len() > 0 && shape.faces[0].1.len() == 0 {
        Some(0usize)
    } else {
        None
    };
    Descent::new(Cell::default(), shape.geometry, face)
}

/// What to do with a pair of overlapping cells, one of each shape.
pub enum DescentStep {
    /// Both cells are faces: the pair of faces may touch.
    Candidate(usize, usize),
    /// The first cell is split; each quadrant found is to be paired with the
    /// second cell.
    SplitFirst([Option<Descent>; 4]),
    /// The second cell is split; each quadrant found is to be paired with the
    /// first cell.
    SplitSecond([Option<Descent>; 4]),
}

/// The first cell of the pair is the one to split: it is not a face, and the
/// second is a face or is no higher.
pub open spec fn splits_first(node1: &Descent, node2: &Descent) -> bool {
    node1.face is None && (node2.face is Some || node1.pointer.height >= node2.pointer.height)
}

/// The second cell of the pair is the one to split.
pub open spec fn splits_second(node1: &Descent, node2: &Descent) -> bool {
    node2.face is None && !splits_first(node1, node2)
}

/// One step of the dual descent of two shapes stored in `graph`, on a pair of
/// cells whose bounds overlap: two faces make a candidate pair; otherwise the
/// cell that is not a face (the higher one, where neither is) is split.
pub fn descend_pair(
    graph: &SparseDirectedGraph,
    node1: &Descent,
    shape1: &Voxels,
    node2: &Descent,
    shape2: &Voxels,
) -> (r: DescentStep)
    requires
        graph.wf(),
        splits_first(node1, node2) ==> graph.is_live(node1.pointer.head) && node1.pointer.height > 0,
        splits_second(node1, node2) ==> graph.is_live(node2.pointer.head) && node2.pointer.height > 0,
    ensures
        match r {
            DescentStep::Candidate(f1, f2) => node1.face == Some(f1) && node2.face == Some(f2),
            DescentStep::SplitFirst(splits) => splits_first(node1, node2) && forall|s: int|
                0 <= s < 4 ==> split_entry(graph, shape1.faces@, node1, s, #[trigger] splits[s]),
            DescentStep::SplitSecond(splits) => splits_second(node1, node2) && forall|s: int|
                0 <= s < 4 ==> split_entry(graph, shape2.faces@, node2, s, #[trigger] splits[s]),
        },
{
    match (node1.face, node2.face) {
        (Some(face1), Some(face2)) => DescentStep::Candidate(face1, face2),
        (None, Some(_)) => DescentStep::SplitFirst(descend_split(graph, node1, shape1)),
        (Some(_), None) => DescentStep::SplitSecond(descend_split(graph, node2, shape2)),
        (None, None) => {
            if node1.pointer.height >= node2.pointer.height {
                DescentStep::SplitFirst(descend_split(graph, node1, shape1))
            } else {
                DescentStep::SplitSecond(descend_split(graph, node2, shape2))
            }
        },
    }
}

} // verus!
