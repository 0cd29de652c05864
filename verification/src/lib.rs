//! Avatar layer compositing: frame storage and animation timing, the layer
//! stack and its draw order, the BCF container of block-compressed frames,
//! pixel transforms applied to decoded PNG frames, tint parsing, manifest
//! lookups, sentinel recoloring of SVG text, and the scheduler that decides
//! which background uploads reach the screen.

pub mod pixels;
pub mod text;
pub mod tint;
pub mod animation;
pub mod bcf;
pub mod png_loader;
pub mod layer_stack;
pub mod manifest;
pub mod colors;
pub mod renderer;
pub mod svg_loader;
pub mod encode;
pub mod frame_files;
pub mod resize;
