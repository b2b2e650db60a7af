//! A chunked signed-distance voxel store: compressing chunk storage with
//! per-worker read caches, a double-buffered edit overlay with dirty-chunk
//! tracking, empty-chunk reclamation, an occupancy index for picking, surface
//! cell extraction for meshing, and an undo/redo timeline.
pub mod chunk_map;
pub mod chunk_table;
pub mod compression;
pub mod edit_buffer;
pub mod geometry;
pub mod mesh;
pub mod spatial_index;
pub mod timeline;
pub mod voxel;
pub mod world;
