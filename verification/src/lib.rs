//! A small pen-plotter toolkit: a raster canvas with Bresenham strokes, a
//! trajectory CSV reader, the serial packet format of the plotter, and the
//! decision logic of the drawing, replay and sender programs.

pub mod canvas;
pub mod line;
pub mod sketch;
pub mod trajectory;
pub mod csv_text;
pub mod paths;
pub mod replay;
pub mod packet;
pub mod config;
pub mod trail;
