//! Physics: handles, body storage, island sleeping, and soft-body topology.

pub mod debug;
pub mod kinds;
pub mod union_find;
pub mod sleeping;
pub mod polytope;
pub mod lattice;
pub mod tet_mesh;
pub mod soft;
pub mod particles;
pub mod store;
pub mod pairs;
