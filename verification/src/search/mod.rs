pub mod binary;
pub mod breadth;
pub mod dijkstra;
pub mod greedy;
