//! A cell of a quadtree grid, named by the path of quadrant steps that leads to
//! it from the whole grid.
use vstd::prelude::*;

verus! {

use super::basic_node2d::{Zorder2d, path_cell_x, path_cell_y, cell_path, lemma_path_unique, lemma_path_cell_bound};
use super::graph::{Step, copy_path};
use crate::graph::wrap32;
use vstd::arithmetic::power2::pow2;
use vstd::arithmetic::div_mod::lemma_small_mod;

/// A cell, as the path of quadrant steps that leads to it.
#[derive(Debug)]
pub struct Cell {
    steps: Vec<Zorder2d>,
}

impl View for Cell {
    type V = Seq<Zorder2d>;

    closed spec fn view(&self) -> Seq<Zorder2d> {
        self.steps@
    }
}

impl Default for Cell {
    /// The whole grid: the empty path.
    fn default() -> (r: Self)
        ensures
            r@ == Seq::<Zorder2d>::empty(),
    {
        Cell { steps: Vec::new() }
    }
}

impl Clone for Cell {
    fn clone(&self) -> (r: Self)
        ensures
            r@ == self@,
    {
        Cell { steps: copy_path(&self.steps) }
    }
}

impl Cell {
    /// The cell at `[x, y]` on a grid of side `2^depth`.
    pub fn new(cell: [u32; 2], depth: u32) -> (r: Self)
        requires
            depth < 32,
            cell[0] < pow2(depth as nat),
            cell[1] < pow2(depth as nat),
        ensures
            r@ == cell_path(cell[0] as nat, cell[1] as nat, depth as nat),
            r@.len() == depth,
    {
        let steps = Zorder2d::path_from_cell(cell, depth).unwrap();
        proof {
            lemma_path_unique(steps@, cell[0] as nat, cell[1] as nat);
        }
        Cell { steps }
    }

    /// The cell that the given steps lead to.
    pub fn from_steps(steps: Vec<Zorder2d>) -> (r: Self)
        ensures
            r@ == steps@,
    {
        Cell { steps }
    }

    /// The number of steps, which is the depth of the cell.
    pub fn len(&self) -> (r: usize)
        ensures
            r == self@.len(),
    {
        self.steps.len()
    }

    /// The steps of the path.
    pub fn steps(&self) -> (r: &[Zorder2d])
        ensures
            r@ == self@,
    {
        self.steps.as_slice()
    }

    /// One step further down, into the given quadrant.
    pub fn push_step(&mut self, step: Zorder2d)
        ensures
            final(self)@ == old(self)@.push(step),
    {
        self.steps.push(step);
    }

    /// Back up one step, returning the step undone.
    pub fn pop_step(&mut self) -> (r: Option<Zorder2d>)
        ensures
            old(self)@.len() == 0 ==> r.is_none() && final(self)@ == old(self)@,
            old(self)@.len() > 0 ==> r == Some(old(self)@.last()) && final(self)@ == old(self)@.drop_last(),
    {
        self.steps.pop()
    }

    /// The step taken at position `n`, if the path is that long.
    pub fn step_at(&self, n: usize) -> (r: Option<Zorder2d>)
        ensures
            n < self@.len() ==> r == Some(self@[n as int]),
            n >= self@.len() ==> r.is_none(),
    {
        if n < self.steps.len() {
            Some(self.steps[n])
        } else {
            None
        }
    }

    /// The coordinates `[x, y]` of the cell.
    pub fn cell(&self) -> (r: [u32; 2])
        requires
            self@.len() <= 32,
        ensures
            r[0] == path_cell_x(self@),
            r[1] == path_cell_y(self@),
    {
        proof {
            lemma_path_cell_bound(self@);
            crate::graph::lemma_u32_pow2_bound(self@.len());
            lemma_small_mod(path_cell_x(self@), 0x1_0000_0000);
            lemma_small_mod(path_cell_y(self@), 0x1_0000_0000);
        }
        Zorder2d::path_to_cell(self.steps.as_slice())
    }
}

} // verus!
