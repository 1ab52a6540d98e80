//! Topology derivation for surface meshes given as flat index arrays.
//!
//! A mesh's connectivity is a compressed sparse row (CSR) pair: an offsets
//! array of length `N + 1` and a values array holding each group's member
//! indices contiguously.  From an element-to-vertex table this crate derives
//! the inverse incidence map (vertex to elements), the deduplicated
//! vertex-to-vertex edge adjacency, an all-triangle element list for mixed
//! triangle/quadrilateral meshes, and a line (edge) element list.

pub mod adjacency;
pub mod csr;
pub mod incidence;
pub mod laws;
pub mod lines;
pub mod primitive;
pub mod reduce;

pub use csr::valid_offsets;
pub use incidence::elsup;
pub use adjacency::psupedge_from_meshtriquad;
pub use reduce::meshtri_from_meshtriquad;
pub use lines::meshline_from_meshtriquad;
pub use lines::mshline_psup;
pub use primitive::cylinder_like_topology;
