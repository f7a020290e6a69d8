//! Convex primitive decomposition of triangle meshes: the combinatorial core.

pub mod budget;
pub mod bvh;
pub mod cli;
pub mod climb;
pub mod course;
pub mod creases;
pub mod cull;
pub mod dsu;
pub mod faces;
pub mod fitting;
pub mod merge;
pub mod merges;
pub mod mesh;
pub mod metrics;
pub mod numbering;
pub mod options;
pub mod order;
pub mod passes;
pub mod planes;
pub mod prim;
pub mod primitive;
pub mod probe;
pub mod proximity;
pub mod queue;
pub mod ray;
pub mod rebalance;
pub mod regroup;
pub mod repair;
pub mod report;
pub mod runs;
pub mod scalar;
pub mod select;
pub mod sets;
pub mod split;
pub mod split_pass;
pub mod splits;
pub mod subdivide;
pub mod surface;
pub mod tessellate;
pub mod text;
