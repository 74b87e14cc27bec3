use summit_surveyor::freelist::Freelist;
use summit_surveyor::memory::find_memorytype_index;
use summit_surveyor::ref_counter::{RefCounter, RefrenceStatus};
use summit_surveyor::render::{ShaderStage, STAGE_FRAGMENT_BIT, STAGE_VERTEX_BIT};
use summit_surveyor::resources::{
    BoundFramebuffer, MeshTexture, RenderError, RenderMeshIds, ResourceTracker,
};
use summit_surveyor::shaders::ShaderTable;
use summit_surveyor::semaphores::{SemaphoreBuffer, SemaphoreGetter};
use summit_surveyor::vertex::{VertexAttribute, VertexComponent, VertexLayout};
use summit_surveyor::webgl::{CreateBackend, ShaderStage as GlShaderStage};
use summit_surveyor::render::{vertex_buffer_desc, CreateInfo, Scalar, ShaderInput, ShaderType, VertexInputAttribute};

#[test]
fn vertex_component_sizes() {
    assert_eq!(VertexComponent::Vec1F32.num_components(), 1);
    assert_eq!(VertexComponent::Vec2F32.num_components(), 2);
    assert_eq!(VertexComponent::Vec3F32.num_components(), 3);
    assert_eq!(VertexComponent::Vec4F32.num_components(), 4);
    assert_eq!(VertexComponent::Vec1F32.size(), 4);
    assert_eq!(VertexComponent::Vec2F32.size(), 8);
    assert_eq!(VertexComponent::Vec3F32.size(), 12);
    assert_eq!(VertexComponent::Vec4F32.size(), 16);
    assert_eq!(VertexComponent::Vec1F32.to_vk_format(), 100);
    assert_eq!(VertexComponent::Vec3F32.to_vk_format(), 106);
}

#[test]
fn vertex_layout_stride_and_attributes() {
    let layout = VertexLayout {
        components: vec![
            VertexComponent::Vec3F32,
            VertexComponent::Vec2F32,
            VertexComponent::Vec3F32,
        ],
    };
    assert_eq!(layout.stride(), 32);
    assert_eq!(
        layout.attributes(),
        vec![
            VertexAttribute { location: 0, num_components: 3, offset: 0 },
            VertexAttribute { location: 1, num_components: 2, offset: 12 },
            VertexAttribute { location: 2, num_components: 3, offset: 20 },
        ]
    );
    let empty = VertexLayout { components: vec![] };
    assert_eq!(empty.stride(), 0);
    assert!(empty.attributes().is_empty());
}

#[test]
fn ref_counter_counts() {
    let mut c = RefCounter::new(7u32, 0);
    assert_eq!(c.refrences(), 0);
    assert_eq!(c.incr_refrence(), RefrenceStatus::InUse);
    assert_eq!(c.incr_refrence(), RefrenceStatus::InUse);
    assert_eq!(c.refrences(), 2);
    assert_eq!(c.decr_refrence(), RefrenceStatus::InUse);
    assert_eq!(c.decr_refrence(), RefrenceStatus::NotUsed);
    assert_eq!(c.refrences(), 0);
    *c.get_mut() = 9;
    assert_eq!(*c.get(), 9);
    assert_eq!(c.refrences(), 0);
    assert_eq!(c.drain(), 9);
}

#[test]
fn freelist_frees_after_renderpass() {
    let mut f: Freelist<u32> = Freelist::new();
    f.push(1, 0);
    f.push(2, 0);
    f.push(2, 1);
    assert!(f.is_used(&1));
    assert!(f.is_used(&2));
    assert!(!f.is_used(&3));
    f.try_free(1);
    f.try_free(2);
    f.try_free(3);
    f.try_free(1);
    // renderpass 0 done: 1 and 3 are no longer used, 2 still is by 1
    assert_eq!(f.finish_renderpass(0), vec![1, 3]);
    assert!(f.is_used(&2));
    assert_eq!(f.finish_renderpass(1), vec![2]);
    assert_eq!(f.finish_renderpass(1), Vec::<u32>::new());
}

#[test]
fn memory_type_first_fit() {
    // types: 0 host visible, 1 device local, 2 device local + host visible
    let flags = [0b10u32, 0b01, 0b11];
    assert_eq!(find_memorytype_index(0b111, &flags, 3, 0b01), Some(1));
    assert_eq!(find_memorytype_index(0b101, &flags, 3, 0b01), Some(2));
    assert_eq!(find_memorytype_index(0b111, &flags, 3, 0b11), Some(2));
    assert_eq!(find_memorytype_index(0b011, &flags, 3, 0b11), None);
    assert_eq!(find_memorytype_index(0b111, &flags, 2, 0b11), None);
    assert_eq!(find_memorytype_index(0b111, &flags, 0, 0), None);
    assert_eq!(find_memorytype_index(0b100, &flags, 3, 0), Some(2));
}

#[test]
fn semaphore_chain() {
    let mut b = SemaphoreBuffer::new(10u64, 99u64);
    assert_eq!(b.missing(3), 2);
    let got = b.get_semaphores(vec![11, 12], 3);
    assert_eq!(
        got,
        vec![
            SemaphoreGetter { start_semaphore: 10, finished_semaphore: 11 },
            SemaphoreGetter { start_semaphore: 11, finished_semaphore: 12 },
            SemaphoreGetter { start_semaphore: 12, finished_semaphore: 99 },
        ]
    );
    assert_eq!(b.missing(3), 0);
    assert_eq!(b.missing(1), 0);
    assert_eq!(b.render_finished_semaphore(), 99);
    let again = b.get_semaphores(vec![], 3);
    assert_eq!(again.len(), 3);
    assert_eq!(again[2].finished_semaphore, 99);
}

#[test]
fn shader_stage_flags() {
    assert_eq!(ShaderStage::Vertex.to_vk(), STAGE_VERTEX_BIT);
    assert_eq!(ShaderStage::Fragment.to_vk(), STAGE_FRAGMENT_BIT);
    assert_eq!(ShaderStage::FragmentAndVertex.to_vk(), 0x11);
    assert_eq!(GlShaderStage::Vertex.gl_shader_type(), 0x8B31);
    assert_eq!(GlShaderStage::Fragment.gl_shader_type(), 0x8B30);
    let backend = CreateBackend::new(CreateInfo { default_size: (800, 600), name: "game".to_string() });
    assert_eq!(backend.create_info.default_size, (800, 600));
    assert_eq!(backend.create_info.name, "game");
}

#[test]
fn textures_are_freed_once_unused() {
    let mut r = ResourceTracker::new();
    let t = r.allocate_texture();
    let tex = MeshTexture::RegularTexture(t);
    let m1 = r.build_mesh(tex);
    let m2 = r.build_mesh(tex);
    assert_ne!(m1, m2);
    assert!(r.check_state());
    r.free_texture(tex);
    r.free_texture(tex);
    // two meshes hold it
    assert_eq!(r.collect_garbage(&[]), vec![]);
    r.release_mesh(m1);
    assert_eq!(r.collect_garbage(&[]), vec![]);
    r.release_mesh(m2);
    // no mesh holds it, but a renderpass still uses it
    assert_eq!(r.collect_garbage(&[tex]), vec![]);
    assert_eq!(r.collect_garbage(&[]), vec![tex]);
    // freed once
    assert_eq!(r.collect_garbage(&[]), vec![]);
    assert!(r.check_state());
}

#[test]
fn framebuffers_are_freed_after_they_are_marked() {
    let mut r = ResourceTracker::new();
    let fb = r.build_framebuffer();
    let fb_tex = MeshTexture::Framebuffer(fb);
    let t = r.allocate_texture();
    let tex = MeshTexture::RegularTexture(t);
    // not marked yet: kept although nothing holds it
    assert_eq!(r.collect_garbage(&[]), vec![]);
    let mut mesh = r.build_mesh(fb_tex);
    r.free_texture(fb_tex);
    assert_eq!(r.collect_garbage(&[]), vec![]);
    r.bind_texture(&mut mesh, tex);
    assert_eq!(r.collect_garbage(&[]), vec![fb_tex]);
    assert_eq!(r.free_mesh(&mesh), RenderMeshIds { mesh_id: mesh, texture_id: tex });
    r.release_mesh(mesh);
    r.free_texture(tex);
    assert_eq!(r.collect_garbage(&[]), vec![tex]);
    assert!(r.check_state());
}

#[test]
fn check_state_compares_counts_with_meshes() {
    let mut r = ResourceTracker::new();
    let t = r.allocate_texture();
    let tex = MeshTexture::RegularTexture(t);
    let _m = r.build_mesh(tex);
    assert!(r.check_state());
    // a reference that no mesh accounts for
    r.incr_texture_refrences(&tex);
    assert!(!r.check_state());
}

#[test]
fn incrementing_a_freed_texture_changes_nothing() {
    let mut r = ResourceTracker::new();
    let t = r.allocate_texture();
    let tex = MeshTexture::RegularTexture(t);
    r.free_texture(tex);
    assert_eq!(r.collect_garbage(&[]), vec![tex]);
    r.incr_texture_refrences(&tex);
    assert!(r.check_state());
    let fb = r.build_framebuffer();
    assert!(r.check_state());
    let _ = fb;
}

#[test]
fn drawing_with_the_bound_framebuffer_fails() {
    let mut r = ResourceTracker::new();
    let fb = r.build_framebuffer();
    let mesh = r.build_mesh(MeshTexture::Framebuffer(fb));
    assert_eq!(
        r.draw_mesh(&mesh),
        Ok(RenderMeshIds { mesh_id: mesh, texture_id: MeshTexture::Framebuffer(fb) })
    );
    r.bind_framebuffer(&BoundFramebuffer::UserFramebuffer(fb));
    assert_eq!(r.bound_framebuffer(), BoundFramebuffer::UserFramebuffer(fb));
    assert_eq!(
        r.draw_mesh(&mesh),
        Err(RenderError::RenderingBoundFramebuffer { fb: BoundFramebuffer::UserFramebuffer(fb) })
    );
    r.bind_framebuffer(&BoundFramebuffer::ScreenFramebuffer);
    assert!(r.draw_mesh(&mesh).is_ok());
}

#[test]
fn ids_are_not_reused() {
    let mut r = ResourceTracker::new();
    let t1 = r.allocate_texture();
    let tex1 = MeshTexture::RegularTexture(t1);
    r.free_texture(tex1);
    assert_eq!(r.collect_garbage(&[]), vec![tex1]);
    let t2 = r.allocate_texture();
    assert_ne!(t1, t2);
    let m = r.build_mesh(MeshTexture::RegularTexture(t2));
    r.release_mesh(m);
    let m2 = r.build_mesh(MeshTexture::RegularTexture(t2));
    assert_ne!(m, m2);
}

#[test]
fn bound_framebuffer_from_id() {
    let mut r = ResourceTracker::new();
    let fb = r.build_framebuffer();
    assert_eq!(BoundFramebuffer::from(&fb), BoundFramebuffer::UserFramebuffer(fb));
}

#[test]
fn shader_vertex_input_description() {
    let fields = [
        ShaderInput { location: 0, ty: ShaderType::Vec3(Scalar::F32) },
        ShaderInput { location: 1, ty: ShaderType::Vec2(Scalar::F32) },
        ShaderInput { location: 2, ty: ShaderType::Scalar(Scalar::U32) },
    ];
    let d = vertex_buffer_desc(3, &fields);
    assert_eq!(d.binding, 3);
    assert_eq!(d.stride, 24);
    assert_eq!(
        d.attributes,
        vec![
            VertexInputAttribute { location: 0, binding: 3, format: 106, offset: 0 },
            VertexInputAttribute { location: 1, binding: 3, format: 103, offset: 12 },
            VertexInputAttribute { location: 2, binding: 3, format: 98, offset: 20 },
        ]
    );
    let empty = vertex_buffer_desc(0, &[]);
    assert_eq!(empty.stride, 0);
    assert!(empty.attributes.is_empty());
}

#[test]
fn releasing_the_last_mesh_marks_its_texture() {
    let mut r = ResourceTracker::new();
    let t = r.allocate_texture();
    let tex = MeshTexture::RegularTexture(t);
    let m1 = r.build_mesh(tex);
    let m2 = r.build_mesh(tex);
    r.release_mesh(m1);
    // one mesh still draws with it
    assert_eq!(r.collect_garbage(&[]), vec![]);
    r.release_mesh(m2);
    // never freed by hand, yet no reference is left
    assert_eq!(r.collect_garbage(&[tex]), vec![]);
    assert_eq!(r.collect_garbage(&[]), vec![tex]);
    assert!(r.check_state());
}

#[test]
fn rebinding_away_from_a_texture_marks_it() {
    let mut r = ResourceTracker::new();
    let t1 = r.allocate_texture();
    let t2 = r.allocate_texture();
    let tex1 = MeshTexture::RegularTexture(t1);
    let tex2 = MeshTexture::RegularTexture(t2);
    let mut mesh = r.build_mesh(tex1);
    r.bind_texture(&mut mesh, tex2);
    assert_eq!(r.collect_garbage(&[]), vec![tex1]);
    assert!(r.check_state());
}

#[test]
fn binding_an_unloaded_shader_fails() {
    let mut shaders = ShaderTable::new();
    assert_eq!(shaders.bind_shader("basic"), Ok(()));
    assert_eq!(
        shaders.bind_shader("terrain"),
        Err(RenderError::ShaderNotFound { shader: "terrain".to_string() })
    );
    shaders.load_shader("terrain");
    shaders.load_shader("terrain");
    assert_eq!(shaders.bind_shader("terrain"), Ok(()));
    assert_eq!(shaders.bind_shader("basic"), Ok(()));
}

#[test]
fn meshes_are_released_once_no_renderpass_draws_them() {
    let mut r = ResourceTracker::new();
    let t = r.allocate_texture();
    let tex = MeshTexture::RegularTexture(t);
    let m = r.build_mesh(tex);
    let key = (m.index, m.generation);
    let mut fl: Freelist<(usize, u64)> = Freelist::new();
    fl.push(key, 0);
    fl.push(key, 1);
    fl.try_free(key);
    // renderpass 1 still draws it
    assert_eq!(r.finish_render(&mut fl, 0), vec![]);
    assert!(r.draw_mesh(&m).is_ok());
    assert_eq!(r.finish_render(&mut fl, 1), vec![key]);
    // the texture lost its last reference
    assert_eq!(r.collect_garbage(&[]), vec![tex]);
    assert!(r.check_state());
}
