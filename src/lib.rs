//! Structural core of a diffusion-maps embedding: the k-nearest-neighbour
//! graph container, hubness counts, the sparsity pattern of the kernel and
//! of its symmetrisation, and the bookkeeping that maps embedded rows back to
//! caller identifiers.

pub mod kgraph;
pub mod hubness;
pub mod nodeparam;
pub mod laplacian;
pub mod embed;
