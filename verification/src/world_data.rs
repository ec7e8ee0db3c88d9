use vstd::prelude::*;

verus! {

/// What the viewer shows of the world: the switches of the display and the
/// zoom level of the camera.
#[derive(Clone, Copy, Debug, PartialEq, Eq, Structural)]
pub struct WorldData {
    pub shading_enabled: bool,
    pub is_paused: bool,
    pub ao_enabled: bool,
    pub zoom_level: i32,
}

impl WorldData {
    /// Moves the zoom by `delta` levels.
    pub fn adjust_zoom(&mut self, delta: i32)
        requires
            i32::MIN <= old(self).zoom_level + delta <= i32::MAX,
        ensures
            final(self).zoom_level == old(self).zoom_level + delta,
            final(self).shading_enabled == old(self).shading_enabled,
            final(self).is_paused == old(self).is_paused,
            final(self).ao_enabled == old(self).ao_enabled,
    {
        self.zoom_level += delta;
    }

    /// Switches the display of the baked occlusion on or off.
    pub fn toggle_ao(&mut self)
        ensures
            *final(self) == (WorldData { ao_enabled: !old(self).ao_enabled, ..*old(self) }),
    {
        self.ao_enabled = !self.ao_enabled;
    }

    /// Halts the turning of the camera, or lets it turn again.
    pub fn toggle_paused(&mut self)
        ensures
            *final(self) == (WorldData { is_paused: !old(self).is_paused, ..*old(self) }),
    {
        self.is_paused = !self.is_paused;
    }

    /// Switches the shading by the light on or off.
    pub fn toggle_shading(&mut self)
        ensures
            *final(self) == (WorldData { shading_enabled: !old(self).shading_enabled, ..*old(self) }),
    {
        self.shading_enabled = !self.shading_enabled;
    }
}

impl Default for WorldData {
    fn default() -> (w: WorldData)
        ensures
            w == (WorldData {
                shading_enabled: true,
                is_paused: false,
                ao_enabled: true,
                zoom_level: 0,
            }),
    {
        WorldData { shading_enabled: true, is_paused: false, ao_enabled: true, zoom_level: 0 }
    }
}

} // verus!
