//! Which debug-overlay layers the physics world emits each frame.

use vstd::prelude::*;

verus! {

/// Which debug overlay layers to emit. Mirrors the editor's overlay toggles
/// one to one; a disabled layer costs nothing.
#[derive(Debug, Clone, Copy, Default, PartialEq, Eq)]
pub struct DebugLayers {
    /// Collider wireframes, colored by body kind.
    pub collision_shapes: bool,
    /// Linear-velocity arrows, length scaled by speed.
    pub velocity_vectors: bool,
    /// Angular-velocity arcs around each body's spin axis.
    pub angular_velocity: bool,
    /// Contact points (markers) and contact normals (arrows).
    pub contact_points: bool,
    /// Joint / distance-constraint anchors and their connections.
    pub constraint_anchors: bool,
    /// Broadphase tree node boxes, colored by depth.
    pub bvh_aabbs: bool,
    /// Collider wireframes colored by sleep state.
    pub sleep_state: bool,
    /// Net external-force arrows from each body's center of mass.
    pub force_accumulators: bool,
}

impl DebugLayers {
    /// True when at least one layer is switched on.
    pub open spec fn spec_any(self) -> bool {
        self.collision_shapes || self.velocity_vectors || self.angular_velocity
            || self.contact_points || self.constraint_anchors || self.bvh_aabbs
            || self.sleep_state || self.force_accumulators
    }

    /// Whether any layer is enabled.
    pub fn any(&self) -> (r: bool)
        ensures
            r == self.spec_any(),
    {
        self.collision_shapes || self.velocity_vectors || self.angular_velocity
            || self.contact_points || self.constraint_anchors || self.bvh_aabbs
            || self.sleep_state || self.force_accumulators
    }
}

/// The debug geometry drawn for one rigid body.
#[derive(Debug, Clone, Copy, PartialEq, Eq)]
pub struct BodyOverlay {
    /// Collider wireframe in the body kind's color.
    pub shape_wire: bool,
    /// Collider wireframe in the sleep-state color.
    pub sleep_wire: bool,
    /// Linear-velocity arrow.
    pub velocity_arrow: bool,
    /// Angular-velocity arc.
    pub spin_arc: bool,
    /// Gravity-force arrow.
    pub force_arrow: bool,
}

/// What to draw for one body under `layers`. A removed body gets nothing;
/// a `live` one gets its collider wireframe when shapes are on; the rest is
/// drawn only for dynamic bodies: the sleep wireframe, the velocity arrow
/// when the body is `moving`, the spin arc when it is `spinning`, and the
/// force arrow when it is awake and its weight is not negligible
/// (`weighted`).
pub open spec fn overlay_of(
    layers: DebugLayers,
    live: bool,
    dynamic: bool,
    asleep: bool,
    moving: bool,
    spinning: bool,
    weighted: bool,
) -> BodyOverlay {
    BodyOverlay {
        shape_wire: live && layers.collision_shapes,
        sleep_wire: live && dynamic && layers.sleep_state,
        velocity_arrow: live && dynamic && layers.velocity_vectors && moving,
        spin_arc: live && dynamic && layers.angular_velocity && spinning,
        force_arrow: live && dynamic && layers.force_accumulators && !asleep && weighted,
    }
}

/// The debug geometry of one body (see [`overlay_of`]).
pub fn body_overlay(
    layers: &DebugLayers,
    live: bool,
    dynamic: bool,
    asleep: bool,
    moving: bool,
    spinning: bool,
    weighted: bool,
) -> (o: BodyOverlay)
    ensures
        o == overlay_of(*layers, live, dynamic, asleep, moving, spinning, weighted),
{
    let extra = live && dynamic;
    BodyOverlay {
        shape_wire: live && layers.collision_shapes,
        sleep_wire: extra && layers.sleep_state,
        velocity_arrow: extra && layers.velocity_vectors && moving,
        spin_arc: extra && layers.angular_velocity && spinning,
        force_arrow: extra && layers.force_accumulators && !asleep && weighted,
    }
}

/// With every layer off, no body gets any debug geometry.
pub proof fn lemma_no_layer_no_overlay(
    layers: DebugLayers,
    live: bool,
    dynamic: bool,
    asleep: bool,
    moving: bool,
    spinning: bool,
    weighted: bool,
)
    requires
        !layers.spec_any(),
    ensures
        ({
            let o = overlay_of(layers, live, dynamic, asleep, moving, spinning, weighted);
            !o.shape_wire && !o.sleep_wire && !o.velocity_arrow && !o.spin_arc && !o.force_arrow
        }),
{
}

} // verus!
