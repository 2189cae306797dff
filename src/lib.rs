//! Grid-and-puzzle solvers with verified contracts: a pipe-loop tracer, a
//! galaxy distance summer, a camel-card ranker and a desert-map walker.

pub mod cosmos;
pub mod desert;
pub mod hands;
pub mod pipes;
pub mod text;
