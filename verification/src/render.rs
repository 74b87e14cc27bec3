//! Plain descriptions that the renderer passes around: attachments,
//! clear operations, draw offsets, shader stages, descriptor names, and
//! the vertex input that a shader declares.
use crate::vertex::{
    FORMAT_R32G32B32A32_SFLOAT, FORMAT_R32G32B32_SFLOAT, FORMAT_R32G32_SFLOAT, FORMAT_R32_SFLOAT,
};
use vstd::prelude::*;

verus! {

/// Vulkan's flag bit for the vertex stage (`VK_SHADER_STAGE_VERTEX_BIT`).
pub const STAGE_VERTEX_BIT: u32 = 0x1;

/// Vulkan's flag bit for the fragment stage (`VK_SHADER_STAGE_FRAGMENT_BIT`).
pub const STAGE_FRAGMENT_BIT: u32 = 0x10;

/// What a color attachment is drawn for.
#[derive(Clone, Copy, Debug, PartialEq, Eq, Structural)]
pub enum AttachmentType {
    Swapchain,
    UserFramebuffer,
}

/// Whether a renderpass clears its framebuffer first.
#[derive(Clone, Copy, Debug, PartialEq, Eq, Structural)]
pub enum ClearOp {
    ClearColor,
    DoNotClear,
}

/// Offset of mesh to draw
#[derive(Clone, Copy, Debug, PartialEq, Eq, Structural)]
pub struct OffsetData {
    /// offset in `std::mem::size_of::<f32>()*3*indicies`
    pub vertex_offset: usize,
    /// offset in `std::mem::size_of::<u32>()*1*indicies`
    pub index_offset: usize,
}

/// The shader stages a descriptor is visible to.
#[derive(Clone, Copy, Debug, PartialEq, Eq, Structural)]
pub enum ShaderStage {
    Fragment,
    Vertex,
    FragmentAndVertex,
}

impl ShaderStage {
    /// The stage's Vulkan flag bits.
    pub fn to_vk(&self) -> (flags: u32)
        ensures
            flags == match *self {
                ShaderStage::Fragment => STAGE_FRAGMENT_BIT,
                ShaderStage::Vertex => STAGE_VERTEX_BIT,
                ShaderStage::FragmentAndVertex => STAGE_FRAGMENT_BIT | STAGE_VERTEX_BIT,
            },
    {
        match self {
            ShaderStage::Fragment => STAGE_FRAGMENT_BIT,
            ShaderStage::Vertex => STAGE_VERTEX_BIT,
            ShaderStage::FragmentAndVertex => STAGE_FRAGMENT_BIT | STAGE_VERTEX_BIT,
        }
    }
}

/// The name a descriptor set is kept under.
#[derive(Clone, Debug, PartialEq, Eq, Hash)]
pub enum DescriptorName {
    MeshTexture,
    Uniform(String),
}

/// The rendering library itself.
pub struct Sukakpak {}

/// What a renderer is made with: its window's default size and name.
#[derive(Debug, PartialEq, Eq)]
pub struct CreateInfo {
    pub default_size: (u32, u32),
    pub name: String,
}

/// Vulkan's `VK_FORMAT_R32_UINT`.
pub const FORMAT_R32_UINT: i32 = 98;

/// Vulkan's `VK_FORMAT_R32G32_UINT`.
pub const FORMAT_R32G32_UINT: i32 = 101;

/// Vulkan's `VK_FORMAT_R32G32B32_UINT`.
pub const FORMAT_R32G32B32_UINT: i32 = 104;

/// Vulkan's `VK_FORMAT_R32G32B32A32_UINT`.
pub const FORMAT_R32G32B32A32_UINT: i32 = 107;

/// The scalar a shader value is made of; each takes four bytes.
#[derive(Clone, Copy, Debug, PartialEq, Eq, Structural)]
pub enum Scalar {
    F32,
    U32,
}

/// The type of a value a shader declares.
#[derive(Clone, Copy, Debug, PartialEq, Eq, Structural)]
pub enum ShaderType {
    Scalar(Scalar),
    Vec2(Scalar),
    Vec3(Scalar),
    Vec4(Scalar),
    Mat4x4(Scalar),
    Struct,
}

/// One input of a vertex shader: its location and type.
#[derive(Clone, Copy, Debug, PartialEq, Eq, Structural)]
pub struct ShaderInput {
    pub location: u32,
    pub ty: ShaderType,
}

/// How a vertex buffer feeds one shader input.
#[derive(Clone, Copy, Debug, PartialEq, Eq, Structural)]
pub struct VertexInputAttribute {
    pub location: u32,
    pub binding: u32,
    /// The Vulkan format (`VkFormat`).
    pub format: i32,
    pub offset: u32,
}

/// The vertex buffer a shader reads: its binding, the size of one vertex,
/// and where each input lies in a vertex.
#[derive(Clone, Debug)]
pub struct VertexBufferDesc {
    pub binding: u32,
    pub stride: u32,
    pub attributes: Vec<VertexInputAttribute>,
}

/// A type a vertex buffer can feed: anything but a matrix or a struct.
pub open spec fn vertex_input_ok(ty: ShaderType) -> bool {
    !(ty is Mat4x4) && !(ty is Struct)
}

/// Size in bytes of a vertex input of type `ty`.
pub open spec fn input_size(ty: ShaderType) -> nat {
    match ty {
        ShaderType::Scalar(_) => 4,
        ShaderType::Vec2(_) => 8,
        ShaderType::Vec3(_) => 12,
        ShaderType::Vec4(_) => 16,
        ShaderType::Mat4x4(_) => 64,
        ShaderType::Struct => 0,
    }
}

/// Sum of the sizes of the first `n` inputs.
pub open spec fn input_prefix(fields: Seq<ShaderInput>, n: int) -> nat
    decreases n,
{
    if n <= 0 {
        0
    } else {
        input_prefix(fields, n - 1) + input_size(fields[n - 1].ty)
    }
}

/// The Vulkan format of a vertex input of type `ty`.
pub open spec fn format_of(ty: ShaderType) -> i32 {
    match ty {
        ShaderType::Scalar(Scalar::F32) => FORMAT_R32_SFLOAT,
        ShaderType::Scalar(Scalar::U32) => FORMAT_R32_UINT,
        ShaderType::Vec2(Scalar::F32) => FORMAT_R32G32_SFLOAT,
        ShaderType::Vec2(Scalar::U32) => FORMAT_R32G32_UINT,
        ShaderType::Vec3(Scalar::F32) => FORMAT_R32G32B32_SFLOAT,
        ShaderType::Vec3(Scalar::U32) => FORMAT_R32G32B32_UINT,
        ShaderType::Vec4(Scalar::F32) => FORMAT_R32G32B32A32_SFLOAT,
        ShaderType::Vec4(Scalar::U32) => FORMAT_R32G32B32A32_UINT,
        _ => 0,
    }
}

/// How many 32-bit scalars a value of type `ty` holds.
pub open spec fn scalar_count(ty: ShaderType) -> int {
    match ty {
        ShaderType::Scalar(_) => 1,
        ShaderType::Vec2(_) => 2,
        ShaderType::Vec3(_) => 3,
        ShaderType::Vec4(_) => 4,
        ShaderType::Mat4x4(_) => 16,
        ShaderType::Struct => 0,
    }
}

/// The kind of scalar a value of type `ty` is made of (`U32` for a struct,
/// which has none).
pub open spec fn scalar_kind(ty: ShaderType) -> Scalar {
    match ty {
        ShaderType::Scalar(s) => s,
        ShaderType::Vec2(s) => s,
        ShaderType::Vec3(s) => s,
        ShaderType::Vec4(s) => s,
        ShaderType::Mat4x4(s) => s,
        ShaderType::Struct => Scalar::U32,
    }
}

/// Vulkan's format of `n` (1 to 4) 32-bit components of kind `s`: the
/// 32-bit formats come in steps of three from `VK_FORMAT_R32_UINT` (98),
/// one step per component, ordered UINT, SINT, SFLOAT within each step.
pub open spec fn vk_format32(n: int, s: Scalar) -> int {
    98 + 3 * (n - 1) + match s {
        Scalar::U32 => 0int,
        Scalar::F32 => 2int,
    }
}

/// A vertex input takes four bytes per scalar, and its format is the
/// 32-bit format with as many components as its type has scalars, of the
/// type's scalar kind: unsigned for `U32`, float for `F32`.
pub proof fn lemma_vertex_input_layout(ty: ShaderType)
    requires
        vertex_input_ok(ty),
    ensures
        input_size(ty) == 4 * scalar_count(ty),
        1 <= scalar_count(ty) <= 4,
        format_of(ty) == vk_format32(scalar_count(ty), scalar_kind(ty)),
{
}

proof fn lemma_input_prefix_bound(fields: Seq<ShaderInput>, n: int)
    requires
        0 <= n <= fields.len(),
        forall|i: int| 0 <= i < fields.len() ==> vertex_input_ok(#[trigger] fields[i].ty),
    ensures
        input_prefix(fields, n) <= 16 * n,
    decreases n,
{
    if n > 0 {
        lemma_input_prefix_bound(fields, n - 1);
    }
}

/// The vertex buffer description of a shader's vertex inputs, read from
/// `binding`: each input gets its location, the binding, the format of
/// its type and the offset after the inputs before it; the stride is the
/// size of all of them.
pub fn vertex_buffer_desc(binding: u32, fields: &[ShaderInput]) -> (d: VertexBufferDesc)
    requires
        fields@.len() <= u32::MAX / 16,
        forall|i: int| 0 <= i < fields@.len() ==> vertex_input_ok(#[trigger] fields@[i].ty),
    ensures
        d.binding == binding,
        d.stride == input_prefix(fields@, fields@.len() as int),
        d.attributes@.len() == fields@.len(),
        forall|i: int|
            0 <= i < fields@.len() ==> #[trigger] d.attributes@[i] == (VertexInputAttribute {
                location: fields@[i].location,
                binding,
                format: format_of(fields@[i].ty),
                offset: input_prefix(fields@, i) as u32,
            }),
        fields@.len() > 0 ==> d.attributes@[0].offset == 0,
        forall|i: int|
            0 <= i < fields@.len() - 1 ==> #[trigger] d.attributes@[i + 1].offset == d.attributes@[i].offset + 4
                * scalar_count(fields@[i].ty),
        fields@.len() == 0 ==> d.stride == 0,
        fields@.len() > 0 ==> d.stride == d.attributes@[fields@.len() - 1].offset + 4 * scalar_count(
            fields@[fields@.len() - 1].ty,
        ),
        forall|i: int|
            0 <= i < fields@.len() ==> #[trigger] d.attributes@[i].format == vk_format32(
                scalar_count(fields@[i].ty),
                scalar_kind(fields@[i].ty),
            ),
{
    let mut attributes: Vec<VertexInputAttribute> = Vec::new();
    let mut offset: u32 = 0;
    let mut i: usize = 0;
    while i < fields.len()
        invariant
            i <= fields@.len() <= u32::MAX / 16,
            forall|k: int| 0 <= k < fields@.len() ==> vertex_input_ok(#[trigger] fields@[k].ty),
            offset == input_prefix(fields@, i as int),
            attributes@.len() == i,
            forall|k: int|
                0 <= k < i ==> #[trigger] attributes@[k] == (VertexInputAttribute {
                    location: fields@[k].location,
                    binding,
                    format: format_of(fields@[k].ty),
                    offset: input_prefix(fields@, k) as u32,
                }),
        decreases fields@.len() - i,
    {
        proof {
            lemma_input_prefix_bound(fields@, i as int + 1);
        }
        let input = fields[i];
        let (format, size): (i32, u32) = match input.ty {
            ShaderType::Scalar(s) => match s {
                Scalar::F32 => (FORMAT_R32_SFLOAT, 4),
                Scalar::U32 => (FORMAT_R32_UINT, 4),
            },
            ShaderType::Vec2(s) => match s {
                Scalar::F32 => (FORMAT_R32G32_SFLOAT, 8),
                Scalar::U32 => (FORMAT_R32G32_UINT, 8),
            },
            ShaderType::Vec3(s) => match s {
                Scalar::F32 => (FORMAT_R32G32B32_SFLOAT, 12),
                Scalar::U32 => (FORMAT_R32G32B32_UINT, 12),
            },
            ShaderType::Vec4(s) => match s {
                Scalar::F32 => (FORMAT_R32G32B32A32_SFLOAT, 16),
                Scalar::U32 => (FORMAT_R32G32B32A32_UINT, 16),
            },
            ShaderType::Mat4x4(_) => (0, 64),
            ShaderType::Struct => (0, 0),
        };
        attributes.push(VertexInputAttribute { location: input.location, binding, format, offset });
        offset = offset + size;
        i = i + 1;
    }
    proof {
        lemma_input_prefix_bound(fields@, fields@.len() as int);
        assert forall|i: int| 0 <= i < fields@.len() implies #[trigger] input_prefix(fields@, i + 1)
            == input_prefix(fields@, i) + 4 * scalar_count(fields@[i].ty) && format_of(fields@[i].ty)
            == vk_format32(scalar_count(fields@[i].ty), scalar_kind(fields@[i].ty)) by {
            lemma_vertex_input_layout(fields@[i].ty);
        }
        assert forall|i: int| 0 <= i < fields@.len() implies input_prefix(fields@, i) <= u32::MAX by {
            lemma_input_prefix_bound(fields@, i);
        }
        assert forall|i: int| 0 <= i < fields@.len() - 1 implies #[trigger] attributes@[i + 1].offset
            == attributes@[i].offset + 4 * scalar_count(fields@[i].ty) by {
            assert(input_prefix(fields@, i + 1) == input_prefix(fields@, i) + 4 * scalar_count(fields@[i].ty));
            lemma_input_prefix_bound(fields@, i + 1);
        }
        if fields@.len() > 0 {
            let n = fields@.len() - 1;
            assert(input_prefix(fields@, n + 1) == input_prefix(fields@, n) + 4 * scalar_count(fields@[n].ty));
            lemma_input_prefix_bound(fields@, n);
        }
    }
    VertexBufferDesc { binding, stride: offset, attributes }
}

} // verus!
