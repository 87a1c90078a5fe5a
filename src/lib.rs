//! Journeys through a network of scheduled transport lines: the schedule
//! graph, the earliest-arrival search, the search for the largest total
//! transfer wait, and the topological (DAG) formulation.
pub mod graph;
pub mod earliest;
pub mod transfer;
pub mod reader;
pub mod schedule;
pub mod dag;
