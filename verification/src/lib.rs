//! Pixel-art tracing: scale a pixel grid with the xBRZ rules, trace the
//! boundaries of equal-colour regions into closed polygons, strip redundant
//! vertices and serialise the result as SVG.

pub mod cli;
pub mod fill;
pub mod image_loader;
pub mod optimizer;
pub mod quantize;
pub mod svg_exporter;
pub mod vectorizer;
pub mod xbrz_engine;
