//! A sparse, chunked, N-dimensional grid: integer coordinates mapped to cell
//! values, stored in dense fixed-size chunks that are allocated on demand and
//! released once they hold only null cells.

/// Trait to implement to cells inserted in the gridmap
pub mod cell;

/// Transform indexes given some parameters
pub mod transform;

/// GridMap of cells
pub mod gridmap;
