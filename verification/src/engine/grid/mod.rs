pub mod storage;
pub mod graph;
pub mod basic_node2d;
mod dag_pointer;
pub mod cell;
pub mod order;

pub use dag_pointer::DagPointer;
pub use cell::Cell;
