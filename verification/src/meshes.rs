//! Mesh types and operations.

pub mod polymesh;

pub use polymesh::ObjLine;
pub use polymesh::PolyMesh;
