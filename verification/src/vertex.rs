//! Vertex layouts: the components of a vertex, their sizes, formats and
//! offsets.
use vstd::prelude::*;

verus! {

/// One attribute of a vertex; every component is made of `f32`s.
#[derive(Clone, Copy, Debug, PartialEq, Eq, Structural)]
pub enum VertexComponent {
    Vec1F32,
    Vec2F32,
    Vec3F32,
    Vec4F32,
}

/// Size in bytes of one `f32`.
pub const F32_SIZE: usize = 4;

/// Vulkan's `VK_FORMAT_R32_SFLOAT`.
pub const FORMAT_R32_SFLOAT: i32 = 100;

/// Vulkan's `VK_FORMAT_R32G32_SFLOAT`.
pub const FORMAT_R32G32_SFLOAT: i32 = 103;

/// Vulkan's `VK_FORMAT_R32G32B32_SFLOAT`.
pub const FORMAT_R32G32B32_SFLOAT: i32 = 106;

/// Vulkan's `VK_FORMAT_R32G32B32A32_SFLOAT`.
pub const FORMAT_R32G32B32A32_SFLOAT: i32 = 109;

impl VertexComponent {
    /// Number of `f32` values the component is made of.
    pub open spec fn spec_num_components(self) -> nat {
        match self {
            VertexComponent::Vec1F32 => 1,
            VertexComponent::Vec2F32 => 2,
            VertexComponent::Vec3F32 => 3,
            VertexComponent::Vec4F32 => 4,
        }
    }

    /// Size of the component in bytes.
    pub open spec fn spec_size(self) -> nat {
        self.spec_num_components() * (F32_SIZE as nat)
    }

    /// Gets number of components in vertex
    pub fn num_components(&self) -> (n: usize)
        ensures
            n == self.spec_num_components(),
    {
        match self {
            VertexComponent::Vec1F32 => 1,
            VertexComponent::Vec2F32 => 2,
            VertexComponent::Vec3F32 => 3,
            VertexComponent::Vec4F32 => 4,
        }
    }

    /// The component's Vulkan vertex format (`VkFormat`): one to four
    /// 32-bit floats.
    pub fn to_vk_format(&self) -> (f: i32)
        ensures
            f == match *self {
                VertexComponent::Vec1F32 => FORMAT_R32_SFLOAT,
                VertexComponent::Vec2F32 => FORMAT_R32G32_SFLOAT,
                VertexComponent::Vec3F32 => FORMAT_R32G32B32_SFLOAT,
                VertexComponent::Vec4F32 => FORMAT_R32G32B32A32_SFLOAT,
            },
    {
        match self {
            VertexComponent::Vec1F32 => FORMAT_R32_SFLOAT,
            VertexComponent::Vec2F32 => FORMAT_R32G32_SFLOAT,
            VertexComponent::Vec3F32 => FORMAT_R32G32B32_SFLOAT,
            VertexComponent::Vec4F32 => FORMAT_R32G32B32A32_SFLOAT,
        }
    }

    /// Gets size in bytes of each component
    pub fn size(&self) -> (n: usize)
        ensures
            n == self.spec_size(),
            n == 4 * self.spec_num_components(),
    {
        match self {
            VertexComponent::Vec1F32 => F32_SIZE,
            VertexComponent::Vec2F32 => 2 * F32_SIZE,
            VertexComponent::Vec3F32 => 3 * F32_SIZE,
            VertexComponent::Vec4F32 => 4 * F32_SIZE,
        }
    }
}

/// Layout of vertex in mesh, order represents `location` in
/// the Webgl and Vulkan backends
#[derive(Clone, Debug)]
pub struct VertexLayout {
    pub components: Vec<VertexComponent>,
}

/// Sum of the sizes of the first `n` components.
pub open spec fn prefix_size(components: Seq<VertexComponent>, n: int) -> nat
    decreases n,
{
    if n <= 0 {
        0
    } else {
        prefix_size(components, n - 1) + components[n - 1].spec_size()
    }
}

/// One vertex attribute as the backends declare it: its shader location,
/// how many `f32`s it holds, and its byte offset inside one vertex.
#[derive(Clone, Copy, Debug, PartialEq, Eq, Structural)]
pub struct VertexAttribute {
    pub location: u32,
    pub num_components: u32,
    pub offset: u32,
}

proof fn lemma_prefix_size_mono(components: Seq<VertexComponent>, i: int, j: int)
    requires
        0 <= i <= j,
    ensures
        prefix_size(components, i) <= prefix_size(components, j),
    decreases j - i,
{
    if i < j {
        lemma_prefix_size_mono(components, i, j - 1);
    }
}

/// The attributes of a layout follow each other without overlapping, and
/// every one of them ends within the stride of a vertex.
pub proof fn lemma_attributes_within_stride(components: Seq<VertexComponent>, i: int, j: int)
    requires
        0 <= i < j <= components.len(),
    ensures
        prefix_size(components, i) + components[i].spec_size() <= prefix_size(components, j),
        prefix_size(components, j) <= prefix_size(components, components.len() as int),
{
    lemma_prefix_size_mono(components, i + 1, j);
    lemma_prefix_size_mono(components, j, components.len() as int);
}

proof fn lemma_prefix_size_bound(components: Seq<VertexComponent>, n: int)
    requires
        0 <= n,
    ensures
        prefix_size(components, n) <= 16 * n,
    decreases n,
{
    if n > 0 {
        lemma_prefix_size_bound(components, n - 1);
    }
}

impl VertexLayout {
    /// Size in bytes of one whole vertex.
    pub open spec fn spec_stride(&self) -> nat {
        prefix_size(self.components@, self.components@.len() as int)
    }

    /// Distance in bytes between two consecutive vertices: the sum of the
    /// sizes of all components.
    pub fn stride(&self) -> (s: usize)
        requires
            self.components@.len() <= u32::MAX / 16,
        ensures
            s == self.spec_stride(),
    {
        let mut s: usize = 0;
        let mut i: usize = 0;
        while i < self.components.len()
            invariant
                i <= self.components@.len() <= u32::MAX / 16,
                s == prefix_size(self.components@, i as int),
            decreases self.components@.len() - i,
        {
            proof {
                lemma_prefix_size_bound(self.components@, i as int + 1);
            }
            s = s + self.components[i].size();
            i = i + 1;
        }
        s
    }

    /// Attribute declarations for the layout: the attribute at location `i`
    /// is component `i`, starting right after the components before it.
    pub fn attributes(&self) -> (attrs: Vec<VertexAttribute>)
        requires
            self.components@.len() <= u32::MAX / 16,
        ensures
            attrs@.len() == self.components@.len(),
            forall|i: int|
                0 <= i < attrs@.len() ==> {
                    &&& (#[trigger] attrs@[i]).location == i
                    &&& attrs@[i].num_components == self.components@[i].spec_num_components()
                    &&& attrs@[i].offset == prefix_size(self.components@, i)
                },
    {
        let mut attrs: Vec<VertexAttribute> = Vec::new();
        let mut offset: u32 = 0;
        let mut i: usize = 0;
        while i < self.components.len()
            invariant
                i <= self.components@.len() <= u32::MAX / 16,
                offset == prefix_size(self.components@, i as int),
                attrs@.len() == i,
                forall|k: int|
                    0 <= k < i ==> {
                        &&& (#[trigger] attrs@[k]).location == k
                        &&& attrs@[k].num_components
                            == self.components@[k].spec_num_components()
                        &&& attrs@[k].offset == prefix_size(self.components@, k)
                    },
            decreases self.components@.len() - i,
        {
            proof {
                lemma_prefix_size_bound(self.components@, i as int + 1);
            }
            let c = self.components[i];
            attrs.push(VertexAttribute {
                location: i as u32,
                num_components: c.num_components() as u32,
                offset,
            });
            offset = offset + c.size() as u32;
            i = i + 1;
        }
        attrs
    }
}

} // verus!
