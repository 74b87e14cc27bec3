//! Which layer a model is drawn in.
use vstd::prelude::*;

verus! {

#[derive(Clone, Copy, Debug, PartialEq, Eq, Structural)]
pub enum RenderLayer {
    /// Never render the object
    DoNotRender,
    /// Render in main world
    Main,
}

/// Per-model drawing state.
#[derive(Clone, Copy, Debug, PartialEq, Eq, Structural)]
pub struct ModelRenderData {
    layer: RenderLayer,
}

impl ModelRenderData {
    /// The layer the model is drawn in.
    pub closed spec fn layer(&self) -> RenderLayer {
        self.layer
    }

    /// A model drawn in the main world.
    pub fn new() -> (d: Self)
        ensures
            d.layer() == RenderLayer::Main,
    {
        ModelRenderData { layer: RenderLayer::Main }
    }

    pub fn get_render_layer(&self) -> (l: RenderLayer)
        ensures
            l == self.layer(),
    {
        self.layer
    }

    pub fn with_new_layer(self, layer: RenderLayer) -> (d: Self)
        ensures
            d.layer() == layer,
    {
        Self { layer }
    }

    pub fn set_render_layer(&mut self, layer: RenderLayer)
        ensures
            final(self).layer() == layer,
    {
        self.layer = layer
    }
}

} // verus!
