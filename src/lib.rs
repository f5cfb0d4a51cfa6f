//! Optimal one-dimensional clustering ("Ckmeans"): integer observations are
//! split into `k` contiguous classes with the least total within-class sum
//! of squares, found by dynamic programming over the sorted values, and the
//! boundaries between the classes ("breaks") are derived from the result.
//!
//! - `sorting`: the sorted view of the observations.
//! - `prefix`: prefix sums and the cost of a range taken as one class, in
//!   units of `2^-32` rounded down.
//! - `solver`: the dynamic program and its optimality proof.
//! - `cluster`: request checks and the `cluster` operation.
//! - `breaks`: raw and round breaks, in half units so that midpoints are
//!   exact (the value `h` stands for `h / 2`).
//! - `laws`: properties of clusterings proved over the contracts above,
//!   among them that the result is within `k * 2^-32` of the least exact
//!   within-group sum of squares.
pub mod breaks;
pub mod cluster;
pub mod laws;
pub mod prefix;
pub mod solver;
pub mod sorting;
