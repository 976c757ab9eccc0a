//! A one-dimensional elementary cellular automaton over an infinite line of
//! binary cells. A row is stored as a finite window of explicit cells plus an
//! offset locating that window on the line; the cells outside the window are
//! constant, continuing the window's first and last values forever. A
//! three-cell skirt of equal cells at each end of the window lets a
//! three-neighbor rule step the row without ever reading outside the window.

pub mod automaton;
pub mod codec;
pub mod compress;
pub mod row;
pub mod rule;
