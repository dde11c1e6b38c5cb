//! A sparse voxel octree: a fixed-capacity arena of 16x16x16 chunks that maps
//! 3-D integer coordinates to small typed boxes, with point lookup, insertion
//! that keeps every box's surface flag up to date, and a frustum-limited walk
//! over the boxes that face empty space.
//!
//! - [`child`] and [`leaf`]: the 16-bit child slot and its leaf views.
//! - [`chunk`]: the children of one node and the record kept beside them.
//! - [`controls`]: the keys and buttons that steer a flying camera.
//! - [`coords`]: how a position is cut into chunk indices, level by level.
//! - [`tree`]: the arena, its invariant, and lookup.
//! - [`edit`], [`surface`], [`mask`], [`insert`]: placing a box.
//! - [`terrain`]: a landscape of columns, raised from the pixels of an image.
//! - [`frustum`] and [`walk`]: the walk over the boxes that a view volume shows.
//! - [`laws`]: what holds of every tree.

pub mod child;
pub mod chunk;
pub mod controls;
pub mod coords;
pub mod edit;
pub mod frustum;
pub mod insert;
pub mod laws;
pub mod leaf;
pub mod mask;
pub mod surface;
pub mod terrain;
pub mod tree;
pub mod walk;

pub use child::{
    Child, Slot, BOX_SPEC_BITS, BOX_SPEC_BIT_MASK, CHUNK_LEN, CHUNK_SIDE_LEN, CHUNK_SIDE_LEN_LOG2,
    CHUNK_SIDE_MASK, MAX_DEPTH, NODE_BIT, NODE_BIT_MASK, NODE_INDEX_BITS, NODE_INDEX_BIT_MASK,
    SOLID_BIT, SOLID_BIT_MASK, SURFACE_BIT, SURFACE_BIT_MASK,
};
pub use chunk::{Chunk, Compression, Info};
pub use controls::FlyCamController;
pub use coords::Pos;
pub use frustum::{Frustum, Plane};
pub use insert::Unsupported;
pub use leaf::{HiddenLeaf, Leaf};
pub use tree::{ConfigError, SlotRef, Tree};
pub use walk::Visit;
