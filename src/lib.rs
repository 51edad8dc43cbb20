//! Background chunk meshing: assembles streamed column fragments into chunk
//! volumes, gates meshing on the six axis neighbours being fully received, and
//! computes the per-voxel face visibility masks handed to a mesh builder.

pub mod chunk;
pub mod mesher;
