//! A grid path-finding engine: a tile grid, a predecessor-map path
//! reconstructor, a step-pacing coordinator and four interchangeable
//! search strategies (breadth-first, Dijkstra, greedy best-first, A*),
//! each advanced one frontier pop at a time so a driver can watch the
//! search unfold.

pub mod algorithm;
pub mod fsm;
pub mod laws;
pub mod map;
