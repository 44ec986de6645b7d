//! The verified core of a small WebGL engine: entities and their components
//! in sparse-set storages, the scheduler of systems, the stores of meshes,
//! materials and shaders, the octree of the collision broad phase, the parsing
//! of hex color codes and the index buffers of sphere and strip meshes.

pub mod entity;
mod storage;
pub mod world;
pub mod history;
pub mod scheduler;
pub mod resources;
pub mod components;
pub mod color;
pub mod mesh;
pub mod scene;
pub mod octree;
pub mod collision;
