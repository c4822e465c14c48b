//! A viewport-driven tile cache for pannable, zoomable maps assembled from
//! pre-tiled images at several levels of detail.
pub mod camera;
pub mod lod;
pub mod rolling;
pub mod cache;
pub mod viewer;
pub mod render;
pub mod fps;
pub mod options;
pub mod path;
