//! The WebGL renderer's descriptions: shader stages and what a backend is
//! made with.
use crate::render::CreateInfo;
use vstd::prelude::*;

verus! {

/// WebGL's name for a vertex shader (`VERTEX_SHADER`).
pub const GL_VERTEX_SHADER: u32 = 0x8B31;

/// WebGL's name for a fragment shader (`FRAGMENT_SHADER`).
pub const GL_FRAGMENT_SHADER: u32 = 0x8B30;

/// The stage a WebGL shader runs in.
#[derive(Debug, Clone, Copy, PartialEq, Eq, Structural)]
pub enum ShaderStage {
    Vertex,
    Fragment,
}

impl ShaderStage {
    /// The kind of shader WebGL is asked to create for the stage.
    pub fn gl_shader_type(&self) -> (t: u32)
        ensures
            t == match *self {
                ShaderStage::Vertex => GL_VERTEX_SHADER,
                ShaderStage::Fragment => GL_FRAGMENT_SHADER,
            },
    {
        match self {
            ShaderStage::Vertex => GL_VERTEX_SHADER,
            ShaderStage::Fragment => GL_FRAGMENT_SHADER,
        }
    }
}

/// What the WebGL backend is made with.
pub struct CreateBackend {
    pub create_info: CreateInfo,
}

impl CreateBackend {
    pub fn new(create_info: CreateInfo) -> (r: Self)
        ensures
            r.create_info == create_info,
    {
        Self { create_info }
    }
}

} // verus!
