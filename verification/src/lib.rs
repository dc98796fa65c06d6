//! Route inspection on a street network: shortest paths between all
//! intersections, the intersections of odd degree, and a cheapest assignment
//! among them.

pub mod sums;
pub mod assignment;
mod invariants;
pub mod munkres;
pub mod graph;
pub mod names;
pub mod shortest;
pub mod odd;
pub mod degree;
pub mod pipeline;
pub mod cases;
