use vstd::prelude::*;
use crate::resources::{MaterialId, MeshId};

verus! {

/// Draws the entity with a stored mesh.
#[derive(Debug, Clone, Copy)]
pub struct MeshComponent {
    pub mesh_id: MeshId,
}

impl MeshComponent {
    /// Draws with the mesh of the given id.
    pub fn new(mesh_id: MeshId) -> (c: Self)
        ensures
            c.mesh_id == mesh_id,
    {
        Self { mesh_id }
    }
}

/// Shades the entity with a stored material.
#[derive(Debug, Clone, Copy)]
pub struct MaterialComponent {
    pub material_id: MaterialId,
}

/// Marks an entity that is drawn.
#[derive(Debug, Clone, Copy)]
pub struct VisibleTag {}

/// Marks the camera that the scene is drawn from.
#[derive(Debug, Clone, Copy)]
pub struct ActiveCameraTag {}

} // verus!
