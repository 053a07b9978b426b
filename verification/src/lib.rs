//! A verified core for a Conway's Game of Life simulation over a fixed-size
//! rectangular grid.
//!
//! The library owns the grid data model, the per-generation transition rule
//! with its closed (non-wrapping) boundary, and two round-trip-safe
//! serialisations: a line-oriented text encoding and a black/white raster
//! image encoding. File and window I/O belong to the surrounding driver; the
//! library only consumes and produces in-memory strings, byte buffers and
//! pixel buffers.

pub mod error;
pub mod game_state;
pub mod image_codec;
pub mod text_format;
