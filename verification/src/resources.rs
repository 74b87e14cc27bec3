//! The bookkeeping of the renderer's resources: meshes, the textures and
//! framebuffers they are drawn with, how many meshes hold each of those,
//! and which of them wait to be freed once nothing uses them any more.
//! The GPU work itself is done by the caller, which keeps its allocations
//! by the ids handed out here.
use crate::arena::{
    count_arena_entries, count_arena_get, count_arena_insert, count_arena_new, count_arena_remove, count_arena_set,
    count_slots, texture_arena_entries, texture_arena_get, texture_arena_insert, texture_arena_new,
    texture_arena_remove, texture_arena_set, texture_slots, ArenaKey,
};
use crate::freelist::{in_use, Freelist, RenderpassID};
use generational_arena::Arena;
use vstd::prelude::*;

verus! {

broadcast use vstd::laws_eq::group_laws_eq;

/// A texture, by the raw parts of its arena index.
#[derive(Clone, Copy, Debug, PartialEq, Eq, Hash, Structural)]
pub struct TextureID {
    pub index: usize,
    pub generation: u64,
}

/// A framebuffer that meshes can be drawn with, by the raw parts of its
/// arena index.
#[derive(Clone, Copy, Debug, PartialEq, Eq, Hash, Structural)]
pub struct FramebufferID {
    pub index: usize,
    pub generation: u64,
}

/// A mesh, by the raw parts of its arena index.
#[derive(Clone, Copy, Debug, PartialEq, Eq, Structural)]
pub struct MeshID {
    pub index: usize,
    pub generation: u64,
}

/// Enum allowig both framebuffers and textures to be bound to mesh
#[derive(Clone, Copy, Debug, PartialEq, Eq, Hash, Structural)]
pub enum MeshTexture {
    RegularTexture(TextureID),
    Framebuffer(FramebufferID),
}

/// The framebuffer that draws go to.
#[derive(Clone, Copy, Debug, PartialEq, Eq, Structural)]
pub enum BoundFramebuffer {
    ScreenFramebuffer,
    UserFramebuffer(FramebufferID),
}

impl From<&FramebufferID> for BoundFramebuffer {
    fn from(fb: &FramebufferID) -> (b: Self) {
        BoundFramebuffer::UserFramebuffer(*fb)
    }
}

impl vstd::std_specs::convert::FromSpecImpl<&FramebufferID> for BoundFramebuffer {
    open spec fn obeys_from_spec() -> bool {
        true
    }

    open spec fn from_spec(fb: &FramebufferID) -> Self {
        BoundFramebuffer::UserFramebuffer(*fb)
    }
}

/// Errors of the renderer.
#[derive(Clone, Debug, PartialEq, Eq)]
pub enum RenderError {
    /// A mesh was drawn with the framebuffer that is being drawn to.
    RenderingBoundFramebuffer { fb: BoundFramebuffer },
    /// No shader has the name.
    ShaderNotFound { shader: String },
}

/// The ids of what a mesh uses, as the renderpass tracks them.
#[derive(Clone, Copy, Debug, PartialEq, Eq, Structural)]
pub struct RenderMeshIds {
    pub mesh_id: MeshID,
    pub texture_id: MeshTexture,
}

/// The arena index of a texture or framebuffer.
pub open spec fn texture_key(t: MeshTexture) -> ArenaKey {
    match t {
        MeshTexture::RegularTexture(id) => (id.index, id.generation),
        MeshTexture::Framebuffer(id) => (id.index, id.generation),
    }
}

/// The arena index of a mesh.
pub open spec fn mesh_key(m: MeshID) -> ArenaKey {
    (m.index, m.generation)
}

/// The meshes of `meshes` that are drawn with `t`.
pub open spec fn users(meshes: Map<ArenaKey, MeshTexture>, t: MeshTexture) -> Set<ArenaKey> {
    meshes.dom().filter(|k: ArenaKey| meshes[k] == t)
}

/// What waits to be freed after `t` lost a reference: `t` is marked (once)
/// when no reference is left.
pub open spec fn mark_if_unused(pending: Seq<MeshTexture>, t: MeshTexture, now_unused: bool) -> Seq<MeshTexture> {
    if now_unused && !pending.contains(t) {
        pending.push(t)
    } else {
        pending
    }
}

/// Keeps the meshes, the textures and framebuffers with the number of
/// references to each, the textures waiting to be freed, and the bound
/// framebuffer.
pub struct ResourceTracker {
    models: Arena<MeshTexture>,
    textures: Arena<usize>,
    framebuffer_arena: Arena<usize>,
    to_free_textures: Vec<MeshTexture>,
    bound_framebuffer: BoundFramebuffer,
}

impl ResourceTracker {
    /// Each mesh, by index, with what it is drawn with.
    pub closed spec fn meshes(&self) -> Map<ArenaKey, MeshTexture> {
        texture_slots(self.models)
    }

    /// Each texture, by index, with its number of references.
    pub closed spec fn texture_refs(&self) -> Map<ArenaKey, usize> {
        count_slots(self.textures)
    }

    /// Each framebuffer, by index, with its number of references.
    pub closed spec fn framebuffer_refs(&self) -> Map<ArenaKey, usize> {
        count_slots(self.framebuffer_arena)
    }

    /// The textures and framebuffers waiting to be freed, in the order they
    /// were marked.
    pub closed spec fn pending(&self) -> Seq<MeshTexture> {
        self.to_free_textures@
    }

    /// The framebuffer that draws go to.
    pub closed spec fn bound(&self) -> BoundFramebuffer {
        self.bound_framebuffer
    }

    /// `t` has not been freed.
    pub open spec fn live(&self, t: MeshTexture) -> bool {
        match t {
            MeshTexture::RegularTexture(_) => self.texture_refs().contains_key(texture_key(t)),
            MeshTexture::Framebuffer(_) => self.framebuffer_refs().contains_key(texture_key(t)),
        }
    }

    /// The number of references that `t` holds.
    pub open spec fn refs(&self, t: MeshTexture) -> int {
        match t {
            MeshTexture::RegularTexture(_) => self.texture_refs()[texture_key(t)] as int,
            MeshTexture::Framebuffer(_) => self.framebuffer_refs()[texture_key(t)] as int,
        }
    }

    /// Every mesh is drawn with a texture or framebuffer that has not been
    /// freed, each of those holds exactly as many references as there are
    /// meshes drawn with it, and what waits to be freed has not been freed
    /// and waits once.
    pub open spec fn wf(&self) -> bool {
        &&& self.meshes().dom().finite()
        &&& forall|k: ArenaKey| #[trigger] self.meshes().contains_key(k) ==> self.live(self.meshes()[k])
        &&& forall|t: MeshTexture| #[trigger] self.live(t) ==> users(self.meshes(), t).len() == self.refs(t)
        &&& self.pending().no_duplicates()
        &&& forall|i: int| 0 <= i < self.pending().len() ==> self.live(#[trigger] self.pending()[i])
    }

    /// `t` waits to be freed, holds no reference and no renderpass in
    /// `in_use` uses it.
    pub open spec fn collectable(&self, t: MeshTexture, in_use: Seq<MeshTexture>) -> bool {
        self.refs(t) == 0 && !in_use.contains(t)
    }
}

/// Keeping some of the entries of a sequence without duplicates keeps it
/// without duplicates.
proof fn lemma_filter_no_duplicates<A>(s: Seq<A>, p: spec_fn(A) -> bool)
    requires
        s.no_duplicates(),
    ensures
        s.filter(p).no_duplicates(),
    decreases s.len(),
{
    reveal_with_fuel(Seq::filter, 1);
    if s.len() > 0 {
        let rest = s.drop_last();
        assert(rest.no_duplicates());
        lemma_filter_no_duplicates(rest, p);
        if p(s.last()) {
            if rest.filter(p).contains(s.last()) {
                rest.lemma_filter_contains_rev(p, s.last());
                let j = choose|j: int| 0 <= j < rest.len() && rest[j] == s.last();
                assert(s[j] == s[s.len() - 1]);
            }
        }
    }
}

/// A tracker with the meshes and reference counts of a well-formed one is
/// well-formed if what waits in it to be freed waits once and is live.
proof fn lemma_wf_frame(a: ResourceTracker, b: ResourceTracker)
    requires
        b.wf(),
        a.meshes() == b.meshes(),
        a.texture_refs() == b.texture_refs(),
        a.framebuffer_refs() == b.framebuffer_refs(),
        a.pending().no_duplicates(),
        forall|i: int| 0 <= i < a.pending().len() ==> b.live(#[trigger] a.pending()[i]),
    ensures
        a.wf(),
{
    lemma_same_counts(a, b);
    assert forall|t: MeshTexture| #[trigger] a.live(t) implies users(a.meshes(), t).len() == a.refs(t) by {
        assert(b.live(t));
    }
    assert forall|k: ArenaKey| #[trigger] a.meshes().contains_key(k) implies a.live(a.meshes()[k]) by {
        assert(b.live(b.meshes()[k]));
    }
    assert forall|i: int| 0 <= i < a.pending().len() implies a.live(#[trigger] a.pending()[i]) by {
        assert(b.live(a.pending()[i]));
    }
}

/// Trackers with the same reference counts agree on what is live and on
/// how many references each texture holds.
proof fn lemma_same_counts(a: ResourceTracker, b: ResourceTracker)
    requires
        a.texture_refs() == b.texture_refs(),
        a.framebuffer_refs() == b.framebuffer_refs(),
    ensures
        forall|u: MeshTexture| #[trigger] a.live(u) == b.live(u),
        forall|u: MeshTexture| #[trigger] a.refs(u) == b.refs(u),
{
}


/// Giving the mesh at `k` the texture `t` adds it to the meshes drawn with
/// `t` and takes it from those drawn with what it had.
proof fn lemma_users_insert(meshes: Map<ArenaKey, MeshTexture>, k: ArenaKey, t: MeshTexture, u: MeshTexture)
    requires
        meshes.dom().finite(),
    ensures
        users(meshes, u).finite(),
        users(meshes.insert(k, t), u).finite(),
        users(meshes.insert(k, t), u).len() == users(meshes, u).len() - (if meshes.contains_key(k)
            && meshes[k] == u {
            1int
        } else {
            0
        }) + (if u == t {
            1int
        } else {
            0
        }),
{
    let m2 = meshes.insert(k, t);
    let base = users(meshes, u).remove(k);
    vstd::set_lib::lemma_len_subset(users(meshes, u), meshes.dom());
    if u == t {
        assert(users(m2, u) =~= base.insert(k));
    } else {
        assert(users(m2, u) =~= base);
    }
}

/// Removing the mesh at `k` takes it from the meshes drawn with what it had.
proof fn lemma_users_remove(meshes: Map<ArenaKey, MeshTexture>, k: ArenaKey, u: MeshTexture)
    requires
        meshes.dom().finite(),
    ensures
        users(meshes, u).finite(),
        users(meshes.remove(k), u).len() == users(meshes, u).len() - (if meshes.contains_key(k)
            && meshes[k] == u {
            1int
        } else {
            0
        }),
{
    vstd::set_lib::lemma_len_subset(users(meshes, u), meshes.dom());
    assert(users(meshes.remove(k), u) =~= users(meshes, u).remove(k));
}

/// How many meshes of `m` are drawn with `t`, counted over `entries`,
/// which lists the meshes of `m` once each.
fn count_users(
    entries: &Vec<(ArenaKey, MeshTexture)>,
    t: MeshTexture,
    Ghost(m): Ghost<Map<ArenaKey, MeshTexture>>,
) -> (n: usize)
    requires
        forall|i: int, j: int| 0 <= i < j < entries@.len() ==> entries@[i].0 != entries@[j].0,
        forall|i: int|
            0 <= i < entries@.len() ==> m.contains_key(#[trigger] entries@[i].0) && m[entries@[i].0]
                == entries@[i].1,
        forall|k: ArenaKey| #[trigger]
            m.contains_key(k) ==> exists|i: int| 0 <= i < entries@.len() && #[trigger] entries@[i].0 == k,
    ensures
        n == users(m, t).len(),
{
    let mut n: usize = 0;
    let ghost mut seen: Set<ArenaKey> = Set::empty();
    let mut i: usize = 0;
    while i < entries.len()
        invariant
            i <= entries@.len(),
            forall|a: int, b: int| 0 <= a < b < entries@.len() ==> entries@[a].0 != entries@[b].0,
            seen.finite(),
            n == seen.len(),
            n <= i,
            forall|k: ArenaKey|
                seen.contains(k) <==> exists|j: int|
                    0 <= j < i && #[trigger] entries@[j] == (k, t),
        decreases entries@.len() - i,
    {
        let e = entries[i];
        if e.1 == t {
            proof {
                if seen.contains(e.0) {
                    let j = choose|j: int| 0 <= j < i && #[trigger] entries@[j] == (e.0, t);
                    assert(entries@[j].0 != entries@[i as int].0);
                }
                seen = seen.insert(e.0);
                assert forall|k: ArenaKey|
                    seen.contains(k) <==> exists|j: int|
                        0 <= j < i + 1 && #[trigger] entries@[j] == (k, t) by {
                    if k == e.0 {
                        assert(entries@[i as int] == (k, t));
                    }
                }
            }
            n = n + 1;
        } else {
            proof {
                assert forall|k: ArenaKey|
                    seen.contains(k) <==> exists|j: int|
                        0 <= j < i + 1 && #[trigger] entries@[j] == (k, t) by {
                    if exists|j: int| 0 <= j < i + 1 && #[trigger] entries@[j] == (k, t) {
                        let j = choose|j: int| 0 <= j < i + 1 && #[trigger] entries@[j] == (k, t);
                        assert(j != i);
                    }
                }
            }
        }
        i = i + 1;
    }
    proof {
        assert forall|k: ArenaKey| seen.contains(k) <==> users(m, t).contains(k) by {
            if users(m, t).contains(k) {
                let j = choose|j: int| 0 <= j < entries@.len() && #[trigger] entries@[j].0 == k;
                assert(entries@[j] == (k, t));
            }
            if seen.contains(k) {
                let j = choose|j: int| 0 <= j < i && #[trigger] entries@[j] == (k, t);
                assert(m.contains_key(entries@[j].0));
            }
        }
        assert(seen =~= users(m, t));
    }
    n
}

/// Whether `list` holds `t`.
fn texture_in(list: &[MeshTexture], t: &MeshTexture) -> (r: bool)
    ensures
        r == list@.contains(*t),
{
    let mut i: usize = 0;
    while i < list.len()
        invariant
            i <= list@.len(),
            forall|j: int| 0 <= j < i ==> list@[j] != *t,
        decreases list@.len() - i,
    {
        if list[i] == *t {
            return true;
        }
        i = i + 1;
    }
    false
}

impl ResourceTracker {
    /// No meshes, textures or framebuffers; draws go to the screen.
    pub fn new() -> (r: Self)
        ensures
            r.wf(),
            r.meshes() == Map::<ArenaKey, MeshTexture>::empty(),
            r.texture_refs() == Map::<ArenaKey, usize>::empty(),
            r.framebuffer_refs() == Map::<ArenaKey, usize>::empty(),
            r.pending() == Seq::<MeshTexture>::empty(),
            r.bound() == BoundFramebuffer::ScreenFramebuffer,
    {
        let r = ResourceTracker {
            models: texture_arena_new(),
            textures: count_arena_new(),
            framebuffer_arena: count_arena_new(),
            to_free_textures: Vec::new(),
            bound_framebuffer: BoundFramebuffer::ScreenFramebuffer,
        };
        assert(r.meshes().dom() =~= Set::empty());
        r
    }

    /// Adds one reference to `texture` (`up`) or drops one; nothing changes
    /// if `texture` has been freed.
    fn add_refrences(&mut self, texture: &MeshTexture, up: bool)
        requires
            old(self).live(*texture) ==> (up ==> old(self).refs(*texture) < usize::MAX),
            old(self).live(*texture) ==> (!up ==> old(self).refs(*texture) >= 1),
        ensures
            final(self).meshes() == old(self).meshes(),
            final(self).pending() == old(self).pending(),
            final(self).bound() == old(self).bound(),
            !old(self).live(*texture) ==> final(self).texture_refs() == old(self).texture_refs()
                && final(self).framebuffer_refs() == old(self).framebuffer_refs(),
            forall|u: MeshTexture| #[trigger] final(self).live(u) == old(self).live(u),
            forall|u: MeshTexture|
                old(self).live(u) ==> #[trigger] final(self).refs(u) == old(self).refs(u) + (if u
                    == *texture {
                    if up {
                        1int
                    } else {
                        -1int
                    }
                } else {
                    0int
                }),
    {
        match texture {
            MeshTexture::RegularTexture(id) => {
                let k = (id.index, id.generation);
                if let Some(n) = count_arena_get(&self.textures, k) {
                    let m = if up {
                        n + 1
                    } else {
                        n - 1
                    };
                    count_arena_set(&mut self.textures, k, m);
                }
            },
            MeshTexture::Framebuffer(id) => {
                let k = (id.index, id.generation);
                if let Some(n) = count_arena_get(&self.framebuffer_arena, k) {
                    let m = if up {
                        n + 1
                    } else {
                        n - 1
                    };
                    count_arena_set(&mut self.framebuffer_arena, k, m);
                }
            },
        }
    }

    /// Decrements refrences on mesh texture, and marks for freeing if
    /// refrences is zero.
    fn decr_texture_refrences(&mut self, texture: &MeshTexture)
        requires
            old(self).live(*texture),
            old(self).refs(*texture) >= 1,
            old(self).pending().no_duplicates(),
        ensures
            final(self).meshes() == old(self).meshes(),
            final(self).pending() == mark_if_unused(old(self).pending(), *texture, old(self).refs(*texture) == 1),
            final(self).pending().no_duplicates(),
            final(self).bound() == old(self).bound(),
            forall|u: MeshTexture| #[trigger] final(self).live(u) == old(self).live(u),
            forall|u: MeshTexture|
                old(self).live(u) ==> #[trigger] final(self).refs(u) == old(self).refs(u) - (if u
                    == *texture {
                    1int
                } else {
                    0int
                }),
    {
        self.add_refrences(texture, false);
        let ghost s1 = *self;
        let count = match texture {
            MeshTexture::RegularTexture(id) => count_arena_get(&self.textures, (id.index, id.generation)),
            MeshTexture::Framebuffer(id) => count_arena_get(&self.framebuffer_arena, (id.index, id.generation)),
        };
        let unused = match count {
            Some(n) => n == 0,
            None => false,
        };
        proof {
            assert(s1.live(*texture));
            assert(unused == (s1.refs(*texture) == 0));
        }
        if unused && !texture_in(self.to_free_textures.as_slice(), texture) {
            let ghost p0 = self.to_free_textures@;
            self.to_free_textures.push(*texture);
            proof {
                lemma_same_counts(*self, s1);
                assert forall|i: int, j: int|
                    0 <= i < self.pending().len() && 0 <= j < self.pending().len() && i != j implies self.pending()[i]
                    != self.pending()[j] by {
                    if i < p0.len() && j < p0.len() {
                    } else if i < p0.len() {
                        assert(p0.contains(p0[i]));
                    } else if j < p0.len() {
                        assert(p0.contains(p0[j]));
                    }
                }
            }
        }
    }

    /// Increments refrences on mesh texture; a texture or framebuffer that
    /// has been freed is left alone. An increment that no mesh accounts for
    /// makes the counts disagree with the meshes, which `check_state`
    /// reports.
    pub fn incr_texture_refrences(&mut self, texture: &MeshTexture)
        requires
            old(self).live(*texture) ==> old(self).refs(*texture) < usize::MAX,
        ensures
            final(self).meshes() == old(self).meshes(),
            final(self).pending() == old(self).pending(),
            final(self).bound() == old(self).bound(),
            !old(self).live(*texture) ==> final(self).texture_refs() == old(self).texture_refs()
                && final(self).framebuffer_refs() == old(self).framebuffer_refs(),
            old(self).wf() && !old(self).live(*texture) ==> final(self).wf(),
            forall|u: MeshTexture| #[trigger] final(self).live(u) == old(self).live(u),
            forall|u: MeshTexture|
                old(self).live(u) ==> #[trigger] final(self).refs(u) == old(self).refs(u) + (if u
                    == *texture {
                    1int
                } else {
                    0int
                }),
    {
        self.add_refrences(texture, true);
        proof {
            if old(self).wf() && !old(self).live(*texture) {
                lemma_wf_frame(*self, *old(self));
            }
        }
    }

    /// Registers a mesh drawn with `texture`, which gains a reference; the
    /// mesh gets an index that no mesh has.
    pub fn build_mesh(&mut self, texture: MeshTexture) -> (id: MeshID)
        requires
            old(self).wf(),
            old(self).live(texture),
            old(self).refs(texture) < usize::MAX,
        ensures
            final(self).wf(),
            !old(self).meshes().contains_key(mesh_key(id)),
            final(self).meshes() == old(self).meshes().insert(mesh_key(id), texture),
            final(self).pending() == old(self).pending(),
            final(self).bound() == old(self).bound(),
            forall|u: MeshTexture| #[trigger] final(self).live(u) == old(self).live(u),
            forall|u: MeshTexture|
                old(self).live(u) ==> #[trigger] final(self).refs(u) == old(self).refs(u) + (if u
                    == texture {
                    1int
                } else {
                    0int
                }),
    {
        self.add_refrences(&texture, true);
        let ghost mid = *self;
        let ghost m0 = self.meshes();
        let k = texture_arena_insert(&mut self.models, texture);
        proof {
            lemma_same_counts(*self, mid);
            assert forall|t: MeshTexture| #[trigger] self.live(t) implies users(self.meshes(), t).len()
                == self.refs(t) by {
                assert(mid.live(t));
                assert(old(self).live(t));
                lemma_users_insert(m0, k, texture, t);
            }
            assert forall|k2: ArenaKey| #[trigger] self.meshes().contains_key(k2) implies self.live(
                self.meshes()[k2],
            ) by {
                if k2 != k {
                    assert(m0.contains_key(k2));
                }
            }
        }
        MeshID { index: k.0, generation: k.1 }
    }

    /// Draws the mesh with `texture` from now on: the texture it had loses
    /// a reference and `texture` gains one.
    pub fn bind_texture(&mut self, mesh_id: &mut MeshID, texture: MeshTexture)
        requires
            old(self).wf(),
            old(self).meshes().contains_key(mesh_key(*old(mesh_id))),
            old(self).live(texture),
            old(self).refs(texture) < usize::MAX,
        ensures
            final(self).wf(),
            *final(mesh_id) == *old(mesh_id),
            final(self).meshes() == old(self).meshes().insert(mesh_key(*old(mesh_id)), texture),
            final(self).pending() == mark_if_unused(
                old(self).pending(),
                old(self).meshes()[mesh_key(*old(mesh_id))],
                old(self).refs(old(self).meshes()[mesh_key(*old(mesh_id))]) == 1,
            ),
            final(self).bound() == old(self).bound(),
            forall|u: MeshTexture| #[trigger] final(self).live(u) == old(self).live(u),
            forall|u: MeshTexture|
                old(self).live(u) ==> #[trigger] final(self).refs(u) == old(self).refs(u) - (if u
                    == old(self).meshes()[mesh_key(*old(mesh_id))] {
                    1int
                } else {
                    0int
                }) + (if u == texture {
                    1int
                } else {
                    0int
                }),
    {
        let k = (mesh_id.index, mesh_id.generation);
        let ghost m0 = self.meshes();
        let old_texture = match texture_arena_get(&self.models, k) {
            Some(t) => t,
            None => {
                proof {
                    assert(false);
                }
                texture
            },
        };
        proof {
            lemma_users_remove(m0, k, old_texture);
            assert(users(m0, old_texture).contains(k));
            assert(users(m0, old_texture).remove(k).len() + 1 == users(m0, old_texture).len());
        }
        self.decr_texture_refrences(&old_texture);
        let ghost s1 = *self;
        texture_arena_set(&mut self.models, k, texture);
        let ghost s2 = *self;
        proof {
            lemma_same_counts(s2, s1);
            assert(s1.live(texture));
        }
        self.add_refrences(&texture, true);
        proof {
            assert forall|t: MeshTexture| #[trigger] self.live(t) implies users(self.meshes(), t).len()
                == self.refs(t) by {
                assert(s2.live(t));
                assert(s1.live(t));
                assert(old(self).live(t));
                lemma_users_insert(m0, k, texture, t);
            }
            assert forall|k2: ArenaKey| #[trigger] self.meshes().contains_key(k2) implies self.live(
                self.meshes()[k2],
            ) by {
                if k2 != k {
                    assert(m0.contains_key(k2));
                }
            }
            assert forall|i: int| 0 <= i < self.pending().len() implies self.live(
                #[trigger] self.pending()[i],
            ) by {
                if i < old(self).pending().len() {
                    assert(old(self).live(old(self).pending()[i]));
                }
                assert(s1.live(self.pending()[i]));
                assert(s2.live(self.pending()[i]));
            }
        }
    }

    /// Registers a new texture with no references.
    pub fn allocate_texture(&mut self) -> (id: TextureID)
        requires
            old(self).wf(),
        ensures
            final(self).wf(),
            !old(self).live(MeshTexture::RegularTexture(id)),
            final(self).texture_refs() == old(self).texture_refs().insert((id.index, id.generation), 0),
            final(self).framebuffer_refs() == old(self).framebuffer_refs(),
            final(self).meshes() == old(self).meshes(),
            final(self).pending() == old(self).pending(),
            final(self).bound() == old(self).bound(),
    {
        let k = count_arena_insert(&mut self.textures, 0);
        let id = TextureID { index: k.0, generation: k.1 };
        proof {
            let t0 = MeshTexture::RegularTexture(id);
            assert(texture_key(t0) == k);
            assert forall|t: MeshTexture| #[trigger] self.live(t) implies users(self.meshes(), t).len()
                == self.refs(t) by {
                if t == t0 {
                    assert(users(self.meshes(), t) =~= Set::empty()) by {
                        assert forall|k2: ArenaKey| self.meshes().contains_key(k2) implies self.meshes()[k2]
                            != t0 by {
                            assert(old(self).live(old(self).meshes()[k2]));
                        }
                    }
                } else {
                    assert(old(self).live(t));
                }
            }
            assert forall|k2: ArenaKey| #[trigger] self.meshes().contains_key(k2) implies self.live(
                self.meshes()[k2],
            ) by {
                assert(old(self).live(old(self).meshes()[k2]));
            }
            assert forall|i: int| 0 <= i < self.pending().len() implies self.live(
                #[trigger] self.pending()[i],
            ) by {
                assert(old(self).live(old(self).pending()[i]));
            }
        }
        id
    }

    /// Registers a new framebuffer with no references. It is freed only
    /// after `free_texture` marks it (when its handle is dropped) and
    /// nothing uses it any more.
    pub fn build_framebuffer(&mut self) -> (id: FramebufferID)
        requires
            old(self).wf(),
        ensures
            final(self).wf(),
            !old(self).live(MeshTexture::Framebuffer(id)),
            final(self).framebuffer_refs() == old(self).framebuffer_refs().insert(
                (id.index, id.generation),
                0,
            ),
            final(self).texture_refs() == old(self).texture_refs(),
            final(self).meshes() == old(self).meshes(),
            final(self).pending() == old(self).pending(),
            final(self).bound() == old(self).bound(),
    {
        let k = count_arena_insert(&mut self.framebuffer_arena, 0);
        let id = FramebufferID { index: k.0, generation: k.1 };
        proof {
            let t0 = MeshTexture::Framebuffer(id);
            assert(texture_key(t0) == k);
            assert forall|t: MeshTexture| #[trigger] self.live(t) implies users(self.meshes(), t).len()
                == self.refs(t) by {
                if t == t0 {
                    assert(users(self.meshes(), t) =~= Set::empty()) by {
                        assert forall|k2: ArenaKey| self.meshes().contains_key(k2) implies self.meshes()[k2]
                            != t0 by {
                            assert(old(self).live(old(self).meshes()[k2]));
                        }
                    }
                } else {
                    assert(old(self).live(t));
                }
            }
            assert forall|k2: ArenaKey| #[trigger] self.meshes().contains_key(k2) implies self.live(
                self.meshes()[k2],
            ) by {
                assert(old(self).live(old(self).meshes()[k2]));
            }
            assert forall|i: int| 0 <= i < self.pending().len() implies self.live(
                #[trigger] self.pending()[i],
            ) by {
                assert(old(self).live(old(self).pending()[i]));
            }
        }
        id
    }

    /// Lazily frees textures once the texture is no longer in use: marks it
    /// to be freed (once, however often it is marked).
    pub fn free_texture(&mut self, tex: MeshTexture)
        requires
            old(self).wf(),
            old(self).live(tex),
        ensures
            final(self).wf(),
            final(self).pending() == (if old(self).pending().contains(tex) {
                old(self).pending()
            } else {
                old(self).pending().push(tex)
            }),
            final(self).meshes() == old(self).meshes(),
            final(self).texture_refs() == old(self).texture_refs(),
            final(self).framebuffer_refs() == old(self).framebuffer_refs(),
            final(self).bound() == old(self).bound(),
    {
        if !texture_in(self.to_free_textures.as_slice(), &tex) {
            self.to_free_textures.push(tex);
            proof {
                assert forall|i: int| 0 <= i < self.pending().len() implies old(self).live(
                    #[trigger] self.pending()[i],
                ) by {
                    if i < old(self).pending().len() {
                        assert(old(self).live(old(self).pending()[i]));
                    }
                }
                assert forall|i: int, j: int|
                    0 <= i < self.pending().len() && 0 <= j < self.pending().len() && i != j implies self.pending()[i]
                    != self.pending()[j] by {
                    if i < old(self).pending().len() && j < old(self).pending().len() {
                        assert(old(self).pending().no_duplicates());
                    } else if i < old(self).pending().len() {
                        assert(old(self).pending().contains(old(self).pending()[i]));
                    } else if j < old(self).pending().len() {
                        assert(old(self).pending().contains(old(self).pending()[j]));
                    }
                }
                lemma_wf_frame(*self, *old(self));
            }
        }
    }

    /// Frees what waits to be freed, holds no reference and is not used by
    /// a renderpass in `in_use`, and hands it back so that its memory can
    /// be released; the rest keeps waiting. Nothing handed back is drawn
    /// with by a mesh.
    pub fn collect_garbage(&mut self, in_use: &[MeshTexture]) -> (freed: Vec<MeshTexture>)
        requires
            old(self).wf(),
        ensures
            final(self).wf(),
            freed@ == old(self).pending().filter(|t: MeshTexture| old(self).collectable(t, in_use@)),
            forall|i: int|
                0 <= i < freed@.len() ==> !in_use@.contains(#[trigger] freed@[i]) && old(self).refs(freed@[i]) == 0,
            final(self).pending() == old(self).pending().filter(
                |t: MeshTexture| !old(self).collectable(t, in_use@),
            ),
            forall|i: int|
                0 <= i < freed@.len() ==> users(old(self).meshes(), #[trigger] freed@[i]).len() == 0,
            final(self).meshes() == old(self).meshes(),
            final(self).bound() == old(self).bound(),
            forall|u: MeshTexture| #[trigger]
                final(self).live(u) == (old(self).live(u) && !freed@.contains(u)),
            forall|u: MeshTexture| #[trigger]
                final(self).live(u) ==> final(self).refs(u) == old(self).refs(u),
    {
        let ghost s0 = *self;
        let ghost pend = self.to_free_textures@;
        let ghost keep_pred = |t: MeshTexture| !s0.collectable(t, in_use@);
        let ghost free_pred = |t: MeshTexture| s0.collectable(t, in_use@);
        let mut kept: Vec<MeshTexture> = Vec::new();
        let mut freed: Vec<MeshTexture> = Vec::new();
        let mut i: usize = 0;
        while i < self.to_free_textures.len()
            invariant
                s0.wf(),
                s0 == *old(self),
                pend == s0.pending(),
                self.to_free_textures@ == pend,
                self.meshes() == s0.meshes(),
                self.bound() == s0.bound(),
                keep_pred == (|t: MeshTexture| !s0.collectable(t, in_use@)),
                free_pred == (|t: MeshTexture| s0.collectable(t, in_use@)),
                i <= pend.len(),
                kept@ == pend.take(i as int).filter(keep_pred),
                freed@ == pend.take(i as int).filter(free_pred),
                kept@.no_duplicates(),
                forall|j: int|
                    0 <= j < kept@.len() ==> pend.take(i as int).contains(#[trigger] kept@[j])
                        && keep_pred(kept@[j]) && self.live(kept@[j]),
                forall|j: int|
                    0 <= j < freed@.len() ==> pend.take(i as int).contains(#[trigger] freed@[j])
                        && free_pred(freed@[j]) && s0.live(freed@[j]),
                forall|u: MeshTexture| #[trigger] self.live(u) == (s0.live(u) && !freed@.contains(u)),
                forall|u: MeshTexture| #[trigger] self.live(u) ==> self.refs(u) == s0.refs(u),
            decreases pend.len() - i,
        {
            let tex = self.to_free_textures[i];
            proof {
                assert(s0.live(pend[i as int]));
                assert(!pend.take(i as int).contains(tex)) by {
                    if pend.take(i as int).contains(tex) {
                        let j2 = choose|j2: int| 0 <= j2 < i && pend.take(i as int)[j2] == tex;
                        assert(pend[j2] == pend[i as int]);
                    }
                }
                assert(!freed@.contains(tex));
                assert(!kept@.contains(tex));
                assert(self.live(tex));
            }
            let count = match tex {
                MeshTexture::RegularTexture(id) => count_arena_get(&self.textures, (id.index, id.generation)),
                MeshTexture::Framebuffer(id) => count_arena_get(
                    &self.framebuffer_arena,
                    (id.index, id.generation),
                ),
            };
            let collect = match count {
                Some(n) => n == 0 && !texture_in(in_use, &tex),
                None => false,
            };
            proof {
                assert(collect == s0.collectable(tex, in_use@));
                reveal_with_fuel(Seq::filter, 1);
                assert(pend.take(i as int + 1).drop_last() =~= pend.take(i as int));
                assert(pend.take(i as int + 1).last() == tex);
                assert(pend.take(i as int + 1).filter(keep_pred) == (if !collect {
                    pend.take(i as int).filter(keep_pred).push(tex)
                } else {
                    pend.take(i as int).filter(keep_pred)
                }));
                assert(pend.take(i as int + 1).filter(free_pred) == (if collect {
                    pend.take(i as int).filter(free_pred).push(tex)
                } else {
                    pend.take(i as int).filter(free_pred)
                }));
                assert forall|x: MeshTexture| pend.take(i as int).contains(x) implies pend.take(
                    i as int + 1,
                ).contains(x) by {
                    let j2 = choose|j2: int| 0 <= j2 < i && pend.take(i as int)[j2] == x;
                    assert(pend.take(i as int + 1)[j2] == x);
                }
                assert(pend.take(i as int + 1)[i as int] == tex);
            }
            let ghost before = *self;
            let ghost freed0 = freed@;
            let ghost kept0 = kept@;
            if collect {
                match tex {
                    MeshTexture::RegularTexture(id) => {
                        count_arena_remove(&mut self.textures, (id.index, id.generation));
                    },
                    MeshTexture::Framebuffer(id) => {
                        count_arena_remove(&mut self.framebuffer_arena, (id.index, id.generation));
                    },
                }
                freed.push(tex);
                proof {
                    assert forall|u: MeshTexture| #[trigger]
                        self.live(u) == (s0.live(u) && !freed@.contains(u)) by {
                        assert(freed@.contains(u) == (freed0.contains(u) || u == tex)) by {
                            if u == tex {
                                assert(freed@[freed@.len() - 1] == tex);
                            }
                            if freed@.contains(u) && u != tex {
                                let j = choose|j: int| 0 <= j < freed@.len() && freed@[j] == u;
                                assert(freed0[j] == u);
                            }
                        }
                        assert(before.live(u) == (s0.live(u) && !freed0.contains(u)));
                    }
                    assert forall|u: MeshTexture| #[trigger] self.live(u) implies self.refs(u) == s0.refs(
                        u,
                    ) by {
                        assert(before.live(u));
                    }
                    assert forall|j: int| 0 <= j < kept@.len() implies self.live(#[trigger] kept@[j]) by {
                        assert(before.live(kept0[j]));
                        assert(kept0[j] != tex);
                    }
                }
            } else {
                kept.push(tex);
                proof {
                    assert forall|j: int, j2: int|
                        0 <= j < kept@.len() && 0 <= j2 < kept@.len() && j != j2 implies kept@[j]
                        != kept@[j2] by {
                        if j < kept0.len() && j2 < kept0.len() {
                            assert(kept0[j] != kept0[j2]);
                        } else if j < kept0.len() {
                            assert(kept0.contains(kept0[j]));
                        } else if j2 < kept0.len() {
                            assert(kept0.contains(kept0[j2]));
                        }
                    }
                }
            }
            i = i + 1;
        }
        proof {
            assert(pend.take(i as int) =~= pend);
        }
        let ghost s1 = *self;
        self.to_free_textures = kept;
        proof {
            lemma_same_counts(*self, s1);
            // what is handed back holds no reference, so no mesh is drawn with it
            assert forall|j: int| 0 <= j < freed@.len() implies users(
                s0.meshes(),
                #[trigger] freed@[j],
            ).len() == 0 by {
                assert(free_pred(freed@[j]));
                assert(s0.live(freed@[j]));
            }
            assert forall|j: int| 0 <= j < self.pending().len() implies self.live(
                #[trigger] self.pending()[j],
            ) by {
                assert(s1.live(kept@[j]));
            }
            assert forall|t: MeshTexture| #[trigger] self.live(t) implies users(self.meshes(), t).len()
                == self.refs(t) by {
                assert(s1.live(t));
                assert(s0.live(t));
            }
            assert forall|k: ArenaKey| #[trigger] self.meshes().contains_key(k) implies self.live(
                self.meshes()[k],
            ) by {
                let t = s0.meshes()[k];
                assert(s0.live(t));
                if freed@.contains(t) {
                    let j = choose|j: int| 0 <= j < freed@.len() && freed@[j] == t;
                    assert(free_pred(freed@[j]));
                    vstd::set_lib::lemma_len_subset(users(s0.meshes(), t), s0.meshes().dom());
                    assert(users(s0.meshes(), t).contains(k));
                }
                assert(s1.live(t));
            }
            assert forall|i: int| 0 <= i < freed@.len() implies !in_use@.contains(#[trigger] freed@[i])
                && old(self).refs(freed@[i]) == 0 by {
                pend.lemma_filter_pred(free_pred, i);
            }
        }
        freed
    }

    /// Drops the mesh that the renderpasses are done with: the texture it
    /// was drawn with loses a reference.
    pub fn release_mesh(&mut self, mesh_id: MeshID)
        requires
            old(self).wf(),
            old(self).meshes().contains_key(mesh_key(mesh_id)),
        ensures
            final(self).wf(),
            final(self).meshes() == old(self).meshes().remove(mesh_key(mesh_id)),
            final(self).pending() == mark_if_unused(
                old(self).pending(),
                old(self).meshes()[mesh_key(mesh_id)],
                old(self).refs(old(self).meshes()[mesh_key(mesh_id)]) == 1,
            ),
            final(self).bound() == old(self).bound(),
            forall|u: MeshTexture| #[trigger] final(self).live(u) == old(self).live(u),
            forall|u: MeshTexture|
                old(self).live(u) ==> #[trigger] final(self).refs(u) == old(self).refs(u) - (if u
                    == old(self).meshes()[mesh_key(mesh_id)] {
                    1int
                } else {
                    0int
                }),
    {
        let k = (mesh_id.index, mesh_id.generation);
        let ghost m0 = self.meshes();
        let tex = match texture_arena_get(&self.models, k) {
            Some(t) => t,
            None => {
                proof {
                    assert(false);
                }
                return ;
            },
        };
        proof {
            lemma_users_remove(m0, k, tex);
            assert(users(m0, tex).contains(k));
            assert(users(m0, tex).remove(k).len() + 1 == users(m0, tex).len());
        }
        self.decr_texture_refrences(&tex);
        let ghost s1 = *self;
        texture_arena_remove(&mut self.models, k);
        proof {
            lemma_same_counts(*self, s1);
            assert forall|t: MeshTexture| #[trigger] self.live(t) implies users(self.meshes(), t).len()
                == self.refs(t) by {
                assert(s1.live(t));
                assert(old(self).live(t));
                lemma_users_remove(m0, k, t);
            }
            assert forall|k2: ArenaKey| #[trigger] self.meshes().contains_key(k2) implies self.live(
                self.meshes()[k2],
            ) by {
                assert(m0.contains_key(k2));
                assert(old(self).live(m0[k2]));
                assert(s1.live(m0[k2]));
            }
            assert forall|i: int| 0 <= i < self.pending().len() implies self.live(
                #[trigger] self.pending()[i],
            ) by {
                if i < old(self).pending().len() {
                    assert(old(self).live(old(self).pending()[i]));
                }
                assert(s1.live(self.pending()[i]));
            }
            assert(self.meshes().dom() =~= m0.dom().remove(k));
        }
    }

    /// Ends `renderpass`: the meshes waiting in `freelist`, by the raw parts
    /// of their arena index, that no renderpass still running draws are
    /// released, in the order they were marked, and handed back; the others
    /// keep waiting. Each texture that loses its last reference so is
    /// marked for freeing.
    pub fn finish_render(&mut self, freelist: &mut Freelist<(usize, u64)>, renderpass: RenderpassID) -> (released: Vec<(usize, u64)>)
        requires
            old(self).wf(),
            old(freelist).pending().no_duplicates(),
            forall|i: int|
                0 <= i < old(freelist).pending().len() ==> old(self).meshes().contains_key(
                    #[trigger] old(freelist).pending()[i],
                ),
        ensures
            final(freelist).uses() == old(freelist).uses().remove(renderpass),
            released@ == old(freelist).pending().filter(|k: ArenaKey| !in_use(final(freelist).uses(), k)),
            final(freelist).pending() == old(freelist).pending().filter(
                |k: ArenaKey| in_use(final(freelist).uses(), k),
            ),
            forall|j: int|
                0 <= j < released@.len() ==> !in_use(final(freelist).uses(), #[trigger] released@[j]),
            final(self).wf(),
            final(self).meshes() == old(self).meshes().remove_keys(released@.to_set()),
            final(self).bound() == old(self).bound(),
            forall|u: MeshTexture| #[trigger] final(self).live(u) == old(self).live(u),
            forall|u: MeshTexture| #[trigger]
                final(self).pending().contains(u) == (old(self).pending().contains(u) || (old(self).live(u)
                    && old(self).refs(u) > 0 && final(self).refs(u) == 0)),
    {
        assert(vstd::laws_eq::obeys_concrete_eq::<(usize, u64)>());
        let ghost s0 = *self;
        let ghost pend = freelist.pending();
        let freed = freelist.finish_renderpass(renderpass);
        let ghost free_pred = |k: ArenaKey| !in_use(freelist.uses(), k);
        proof {
            lemma_filter_no_duplicates(pend, free_pred);
        }
        let mut i: usize = 0;
        while i < freed.len()
            invariant
                s0 == *old(self),
                freed@ == pend.filter(free_pred),
                freed@.no_duplicates(),
                forall|j: int| 0 <= j < pend.len() ==> s0.meshes().contains_key(#[trigger] pend[j]),
                i <= freed@.len(),
                self.wf(),
                self.meshes() == s0.meshes().remove_keys(freed@.take(i as int).to_set()),
                self.bound() == s0.bound(),
                forall|u: MeshTexture| #[trigger] self.live(u) == s0.live(u),
                forall|u: MeshTexture| s0.live(u) ==> #[trigger] self.refs(u) <= s0.refs(u),
                forall|u: MeshTexture| #[trigger]
                    self.pending().contains(u) == (s0.pending().contains(u) || (s0.live(u) && s0.refs(u) > 0
                        && self.refs(u) == 0)),
            decreases freed@.len() - i,
        {
            let k = freed[i];
            let ghost before = *self;
            let ghost gone = freed@.take(i as int).to_set();
            proof {
                assert(freed@.contains(k));
                pend.lemma_filter_contains_rev(free_pred, k);
                let jp = choose|jp: int| 0 <= jp < pend.len() && pend[jp] == k;
                assert(s0.meshes().contains_key(pend[jp]));
                if gone.contains(k) {
                    let j = choose|j: int| 0 <= j < i && freed@.take(i as int)[j] == k;
                    assert(freed@[j] == freed@[i as int]);
                }
                assert(before.meshes().contains_key(k));
            }
            self.release_mesh(MeshID { index: k.0, generation: k.1 });
            proof {
                let t = before.meshes()[k];
                assert(before.live(t));
                assert(before.refs(t) >= 1) by {
                    assert(users(before.meshes(), t).contains(k));
                }
                assert(freed@.take(i as int + 1).to_set() =~= gone.insert(k)) by {
                    assert(freed@.take(i as int + 1) =~= freed@.take(i as int).push(k));
                    freed@.take(i as int).lemma_push_to_set_commute(k);
                }
                assert(self.meshes() =~= s0.meshes().remove_keys(freed@.take(i as int + 1).to_set()));
                assert forall|u: MeshTexture| #[trigger]
                    self.pending().contains(u) == (s0.pending().contains(u) || (s0.live(u) && s0.refs(u) > 0
                        && self.refs(u) == 0)) by {
                    if u == t {
                        if before.refs(t) == 1 {
                            if !before.pending().contains(t) {
                                assert(self.pending() == before.pending().push(t));
                                assert(self.pending()[before.pending().len() as int] == t);
                            }
                        }
                    } else if self.pending().contains(u) {
                        if !before.pending().contains(u) {
                            assert(self.pending() == before.pending().push(t));
                            let j = choose|j: int| 0 <= j < self.pending().len() && self.pending()[j] == u;
                            assert(j < before.pending().len());
                            assert(before.pending()[j] == u);
                        }
                    } else {
                        if before.pending().contains(u) {
                            let j = choose|j: int| 0 <= j < before.pending().len() && before.pending()[j] == u;
                            assert(self.pending()[j] == u);
                        }
                    }
                }
            }
            i = i + 1;
        }
        proof {
            assert(freed@.take(freed@.len() as int) =~= freed@);
            assert forall|j: int| 0 <= j < freed@.len() implies !in_use(freelist.uses(), #[trigger] freed@[j]) by {
                pend.lemma_filter_pred(free_pred, j);
            }
        }
        freed
    }

    /// The ids that the renderpass is told to free once it is done with the
    /// mesh: the mesh and what it is drawn with.
    pub fn free_mesh(&self, mesh_id: &MeshID) -> (ids: RenderMeshIds)
        requires
            self.meshes().contains_key(mesh_key(*mesh_id)),
        ensures
            ids == (RenderMeshIds { mesh_id: *mesh_id, texture_id: self.meshes()[mesh_key(*mesh_id)] }),
    {
        let k = (mesh_id.index, mesh_id.generation);
        match texture_arena_get(&self.models, k) {
            Some(t) => RenderMeshIds { mesh_id: *mesh_id, texture_id: t },
            None => {
                proof {
                    assert(false);
                }
                RenderMeshIds { mesh_id: *mesh_id, texture_id: MeshTexture::RegularTexture(TextureID { index: 0, generation: 0 }) }
            },
        }
    }

    /// What a draw of the mesh uses; a mesh drawn with the framebuffer that
    /// is bound cannot be drawn.
    pub fn draw_mesh(&self, mesh_id: &MeshID) -> (r: Result<RenderMeshIds, RenderError>)
        requires
            self.meshes().contains_key(mesh_key(*mesh_id)),
        ensures
            match self.meshes()[mesh_key(*mesh_id)] {
                MeshTexture::Framebuffer(fb) if self.bound() == BoundFramebuffer::UserFramebuffer(fb) => r
                    == Err::<RenderMeshIds, RenderError>(
                    RenderError::RenderingBoundFramebuffer { fb: self.bound() },
                ),
                t => r == Ok::<RenderMeshIds, RenderError>(
                    RenderMeshIds { mesh_id: *mesh_id, texture_id: t },
                ),
            },
    {
        let ids = self.free_mesh(mesh_id);
        match ids.texture_id {
            MeshTexture::Framebuffer(fb) => {
                if BoundFramebuffer::UserFramebuffer(fb) == self.bound_framebuffer {
                    return Err(RenderError::RenderingBoundFramebuffer { fb: self.bound_framebuffer });
                }
            },
            MeshTexture::RegularTexture(_) => {},
        }
        Ok(ids)
    }

    /// Draws go to `framebuffer_id` from now on.
    pub fn bind_framebuffer(&mut self, framebuffer_id: &BoundFramebuffer)
        requires
            old(self).wf(),
            match *framebuffer_id {
                BoundFramebuffer::UserFramebuffer(fb) => old(self).live(MeshTexture::Framebuffer(fb)),
                BoundFramebuffer::ScreenFramebuffer => true,
            },
        ensures
            final(self).wf(),
            final(self).bound() == *framebuffer_id,
            final(self).meshes() == old(self).meshes(),
            final(self).texture_refs() == old(self).texture_refs(),
            final(self).framebuffer_refs() == old(self).framebuffer_refs(),
            final(self).pending() == old(self).pending(),
    {
        self.bound_framebuffer = *framebuffer_id;
        proof {
            lemma_wf_frame(*self, *old(self));
        }
    }

    /// Validates state: whether every mesh is drawn with a texture or
    /// framebuffer that has not been freed, and every texture and
    /// framebuffer holds as many references as there are meshes drawn with
    /// it. A well-formed tracker always passes.
    pub fn check_state(&self) -> (ok: bool)
        ensures
            ok == ((forall|k: ArenaKey| #[trigger]
                self.meshes().contains_key(k) ==> self.live(self.meshes()[k])) && (forall|
                t: MeshTexture,
            | #[trigger] self.live(t) ==> self.refs(t) == users(self.meshes(), t).len())),
            self.wf() ==> ok,
    {
        let entries = texture_arena_entries(&self.models);
        let ghost m = self.meshes();
        let mut i: usize = 0;
        while i < entries.len()
            invariant
                m == self.meshes(),
                i <= entries@.len(),
                forall|j: int|
                    0 <= j < entries@.len() ==> self.meshes().contains_key(#[trigger] entries@[j].0)
                        && self.meshes()[entries@[j].0] == entries@[j].1,
                forall|k: ArenaKey| #[trigger]
                    self.meshes().contains_key(k) ==> exists|j: int|
                        0 <= j < entries@.len() && #[trigger] entries@[j].0 == k,
                forall|j: int| 0 <= j < i ==> self.live(#[trigger] entries@[j].1),
            decreases entries@.len() - i,
        {
            let (_k, t) = entries[i];
            let exists = match t {
                MeshTexture::RegularTexture(id) => count_arena_get(&self.textures, (id.index, id.generation)).is_some(),
                MeshTexture::Framebuffer(id) => count_arena_get(
                    &self.framebuffer_arena,
                    (id.index, id.generation),
                ).is_some(),
            };
            if !exists {
                proof {
                    assert(!self.live(entries@[i as int].1));
                }
                return false;
            }
            i = i + 1;
        }
        proof {
            assert forall|k: ArenaKey| #[trigger] self.meshes().contains_key(k) implies self.live(
                self.meshes()[k],
            ) by {
                let j = choose|j: int| 0 <= j < entries@.len() && #[trigger] entries@[j].0 == k;
                assert(self.live(entries@[j].1));
            }
        }
        // each texture's count against the meshes drawn with it
        let counts = count_arena_entries(&self.textures);
        let mut tex_ok = true;
        let mut a: usize = 0;
        while a < counts.len()
            invariant
                m == self.meshes(),
                a <= counts@.len(),
                forall|x: int, y: int| 0 <= x < y < entries@.len() ==> entries@[x].0 != entries@[y].0,
                forall|j: int|
                    0 <= j < entries@.len() ==> m.contains_key(#[trigger] entries@[j].0)
                        && m[entries@[j].0] == entries@[j].1,
                forall|k: ArenaKey| #[trigger]
                    m.contains_key(k) ==> exists|j: int| 0 <= j < entries@.len() && #[trigger] entries@[j].0 == k,
                tex_ok == (forall|j: int|
                    0 <= j < a ==> #[trigger] counts@[j].1 == users(
                        m,
                        MeshTexture::RegularTexture(TextureID { index: counts@[j].0.0, generation: counts@[j].0.1 }),
                    ).len()),
            decreases counts@.len() - a,
        {
            let (k, c) = counts[a];
            let t = MeshTexture::RegularTexture(TextureID { index: k.0, generation: k.1 });
            let n = count_users(&entries, t, Ghost(m));
            if n != c {
                tex_ok = false;
            }
            a = a + 1;
        }
        let fcounts = count_arena_entries(&self.framebuffer_arena);
        let mut fb_ok = true;
        let mut b: usize = 0;
        while b < fcounts.len()
            invariant
                m == self.meshes(),
                b <= fcounts@.len(),
                forall|x: int, y: int| 0 <= x < y < entries@.len() ==> entries@[x].0 != entries@[y].0,
                forall|j: int|
                    0 <= j < entries@.len() ==> m.contains_key(#[trigger] entries@[j].0)
                        && m[entries@[j].0] == entries@[j].1,
                forall|k: ArenaKey| #[trigger]
                    m.contains_key(k) ==> exists|j: int| 0 <= j < entries@.len() && #[trigger] entries@[j].0 == k,
                fb_ok == (forall|j: int|
                    0 <= j < b ==> #[trigger] fcounts@[j].1 == users(
                        m,
                        MeshTexture::Framebuffer(FramebufferID { index: fcounts@[j].0.0, generation: fcounts@[j].0.1 }),
                    ).len()),
            decreases fcounts@.len() - b,
        {
            let (k, c) = fcounts[b];
            let t = MeshTexture::Framebuffer(FramebufferID { index: k.0, generation: k.1 });
            let n = count_users(&entries, t, Ghost(m));
            if n != c {
                fb_ok = false;
            }
            b = b + 1;
        }
        proof {
            if tex_ok && fb_ok {
                assert forall|t: MeshTexture| #[trigger] self.live(t) implies self.refs(t) == users(m, t).len() by {
                    match t {
                        MeshTexture::RegularTexture(id) => {
                            let key = (id.index, id.generation);
                            let j = choose|j: int| 0 <= j < counts@.len() && #[trigger] counts@[j].0 == key;
                            assert(counts@[j].1 == users(m, MeshTexture::RegularTexture(TextureID { index: counts@[j].0.0, generation: counts@[j].0.1 })).len());
                        },
                        MeshTexture::Framebuffer(id) => {
                            let key = (id.index, id.generation);
                            let j = choose|j: int| 0 <= j < fcounts@.len() && #[trigger] fcounts@[j].0 == key;
                            assert(fcounts@[j].1 == users(m, MeshTexture::Framebuffer(FramebufferID { index: fcounts@[j].0.0, generation: fcounts@[j].0.1 })).len());
                        },
                    }
                }
            }
            if !tex_ok {
                let j = choose|j: int| 0 <= j < counts@.len() && !(#[trigger] counts@[j].1 == users(
                    m,
                    MeshTexture::RegularTexture(TextureID { index: counts@[j].0.0, generation: counts@[j].0.1 }),
                ).len());
                let t = MeshTexture::RegularTexture(TextureID { index: counts@[j].0.0, generation: counts@[j].0.1 });
                assert(self.live(t));
                assert(self.refs(t) != users(m, t).len());
            }
            if !fb_ok {
                let j = choose|j: int| 0 <= j < fcounts@.len() && !(#[trigger] fcounts@[j].1 == users(
                    m,
                    MeshTexture::Framebuffer(FramebufferID { index: fcounts@[j].0.0, generation: fcounts@[j].0.1 }),
                ).len());
                let t = MeshTexture::Framebuffer(FramebufferID { index: fcounts@[j].0.0, generation: fcounts@[j].0.1 });
                assert(self.live(t));
                assert(self.refs(t) != users(m, t).len());
            }
        }
        tex_ok && fb_ok
    }

    /// The framebuffer that draws go to.
    pub fn bound_framebuffer(&self) -> (b: BoundFramebuffer)
        ensures
            b == self.bound(),
    {
        self.bound_framebuffer
    }
}

/// Collecting garbage hands back nothing that a renderpass in `in_use` still
/// uses, texture or framebuffer, nor anything that still holds a
/// reference; and what waits, holds no reference and is unused is handed
/// back.
pub proof fn lemma_collectable_unused(r: ResourceTracker, t: MeshTexture, in_use: Seq<MeshTexture>)
    ensures
        r.collectable(t, in_use) ==> !in_use.contains(t) && r.refs(t) == 0,
        !in_use.contains(t) && r.refs(t) == 0 ==> r.collectable(t, in_use),
{
}

} // verus!
