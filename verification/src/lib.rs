//! Constraint propagation with backtracking over a fixed-size board of cells
//! (generalised wave function collapse).
//!
//! A caller supplies the topology (which cells neighbour which), the
//! constraint (which states a cell may not take, given its settled
//! neighbours) and, optionally, weights for the random choice among the
//! states that remain. The solver narrows the cells down by propagation,
//! fixes a cell with the fewest candidates at random when propagation has
//! nothing more to say, keeping the board as it was, and goes back to the
//! board kept last on a contradiction, where the state that was tried is
//! barred from being drawn again.
//!
//! - [`candidates`]: sets of states, kept in a bit array.
//! - [`cell`]: a cell and its three stages.
//! - [`board`]: boards as sequences of cells, and measures on them.
//! - [`rules`]: what is asked of the caller's functions, what it means to
//!   solve the problem they pose, and when a board is lawful.
//! - [`random`]: the random choices.
//! - [`solver`]: the solver, its builder, and panning.
//!
//! Every loop is proved to end. A successful [`solver::Solver::solve`]
//! leaves every cell collapsed to one of the candidates it started with; on
//! a solver that has not been panned, or whose problem has a solution, the
//! cells were settled in an order in which the reducer forbade none of the
//! states taken. A failed one means, where every state can be drawn, that
//! the problem has no solution.

pub mod board;
pub mod candidates;
pub mod cell;
pub mod random;
pub mod rules;
pub mod solver;
