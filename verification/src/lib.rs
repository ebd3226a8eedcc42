//! A software rasterizer in exact integer arithmetic: lattice lines, Z-buffered
//! triangle fills, an image decoder and a mesh reader, each with a proved contract.

pub mod canvas;
pub mod color;
pub mod error;
pub mod linerasterizer;
pub mod model;
pub mod pixmap;
pub mod shading;
pub mod textured;
pub mod tgaimage;
pub mod vector3d;
pub mod vertex;
