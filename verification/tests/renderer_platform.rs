use elderforge::handle::Handle;
use elderforge::platform::input::{InputEvent, InputState};
use elderforge::platform::window::{should_exit, FrameControl, WindowConfig, WindowError};
use elderforge::renderer::buffers::{grown_capacity, next_power_of_two, vertices_to_write};
use elderforge::renderer::cache::ResourceCache;
use elderforge::renderer::error::RendererError;
use elderforge::renderer::pipeline::PipelineBuilder;
use elderforge::renderer::primitives::{cube_indices, plane_indices, sphere_topology, CUBE_VERTEX_COUNT};

const KEY_W: u32 = 22;
const KEY_S: u32 = 18;
const SPACE: u32 = 61;
const LEFT: u32 = 0;

#[test]
fn keys_track_press_and_release() {
    let mut input = InputState::new();
    input.handle_event(&InputEvent::KeyPressed(KEY_W));
    assert!(input.is_key_down(KEY_W));
    assert!(!input.is_key_down(KEY_S));

    // Held keys survive other events; only a release lets go.
    input.handle_event(&InputEvent::Resized { width: 800, height: 600 });
    assert!(input.is_key_down(KEY_W));

    input.handle_event(&InputEvent::KeyReleased(KEY_W));
    assert!(!input.is_key_down(KEY_W));
}

#[test]
fn losing_focus_releases_held_keys_and_buttons() {
    let mut input = InputState::new();
    input.handle_event(&InputEvent::KeyPressed(SPACE));
    input.handle_event(&InputEvent::MouseButtonPressed(LEFT));
    input.handle_event(&InputEvent::FocusChanged(false));
    assert!(!input.is_key_down(SPACE));
    assert!(!input.is_button_down(LEFT));
}

#[test]
fn gaining_focus_keeps_held_buttons() {
    let mut input = InputState::default();
    input.handle_event(&InputEvent::MouseButtonPressed(LEFT));
    input.handle_event(&InputEvent::FocusChanged(true));
    assert!(input.is_button_down(LEFT));
    input.handle_event(&InputEvent::MouseButtonReleased(LEFT));
    assert!(!input.is_button_down(LEFT));
}

#[test]
fn close_request_or_exit_ends_the_loop() {
    assert!(!should_exit(&[], FrameControl::Continue));
    assert!(should_exit(&[], FrameControl::Exit));
    assert!(should_exit(&[InputEvent::FocusChanged(true), InputEvent::CloseRequested], FrameControl::Continue));
    assert!(!should_exit(&[InputEvent::KeyPressed(KEY_W)], FrameControl::Continue));
}

#[test]
fn window_config_defaults() {
    let c = WindowConfig::default();
    assert_eq!(c.title, "Elderforge");
    assert_eq!((c.width, c.height), (1600, 900));
    assert!(c.resizable && c.decorations && c.vsync);
    assert_eq!(c.clone().title, "Elderforge");
}

#[test]
fn error_messages() {
    assert_eq!(WindowError::Creation("no display".to_string()).message(), "failed to create window: no display");
    assert_eq!(WindowError::EventLoop("x".to_string()).message(), "event loop error: x");
    assert_eq!(RendererError::NoAdapter.message(), "no suitable GPU adapter found");
    assert_eq!(RendererError::DeviceRequest("lost".to_string()).message(), "failed to request device: lost");
    assert_eq!(RendererError::Surface("outdated".to_string()).message(), "surface error: outdated");
}

#[test]
fn cache_reads_back_and_counts_handles() {
    let mut cache: ResourceCache<&str, u8, char> = ResourceCache::new();
    let m = cache.insert_mesh("cube");
    let t = cache.insert_texture(7);
    let a = cache.insert_material('m');
    assert_eq!(m, Handle::new(0, 0));
    assert_eq!(t, Handle::new(1, 0));
    assert_eq!(a, Handle::new(2, 0));
    assert_eq!(cache.mesh(m), Some(&"cube"));
    assert_eq!(cache.texture(t), Some(&7));
    assert_eq!(cache.material(a), Some(&'m'));
    assert_eq!(cache.mesh(t), None);
    let at = Handle::new(40, 2);
    cache.insert_mesh_at(at, "scene mesh");
    cache.insert_mesh_at(at, "replaced");
    assert_eq!(cache.mesh(at), Some(&"replaced"));
    assert_eq!(cache.mesh(Handle::new(40, 1)), None);
    cache.insert_texture_at(at, 9);
    cache.insert_material_at(at, 'x');
    assert_eq!(cache.texture(at), Some(&9));
    assert_eq!(cache.material(at), Some(&'x'));
    let empty: ResourceCache<u8, u8, u8> = ResourceCache::default();
    assert_eq!(empty.mesh(Handle::new(0, 0)), None);
}

#[test]
fn pipeline_builder_defaults_to_depth_test() {
    let b = PipelineBuilder::new("unlit", "shader");
    assert!(b.depth_test);
    assert_eq!(b.label, "unlit");
    let b = b.depth_test(false);
    assert!(!b.depth_test);
    assert_eq!(b.shader_source, "shader");
}

#[test]
fn cube_has_24_vertices_and_36_indices() {
    let indices = cube_indices();
    assert_eq!(CUBE_VERTEX_COUNT, 24);
    assert_eq!(indices.len(), 36);
    // Every index is in range.
    assert!(indices.iter().all(|&i| (i as usize) < CUBE_VERTEX_COUNT));
    assert_eq!(&indices[6..12], &[4, 5, 6, 4, 6, 7]);
}

#[test]
fn sphere_is_well_formed() {
    let (sectors, stacks, indices) = sphere_topology(16, 12);
    assert_eq!((sectors, stacks), (16, 12));
    let vertex_count = ((sectors + 1) * (stacks + 1)) as usize;
    // Whole triangles, every index in range.
    assert_eq!(indices.len() % 3, 0);
    assert!(indices.iter().all(|&i| (i as usize) < vertex_count));
    // Two triangles per quad except one for each quad of the two pole rings.
    assert_eq!(indices.len(), 3 * (2 * 16 * 12 - 2 * 16));
}

#[test]
fn sphere_clamps_small_counts() {
    let (sectors, stacks, indices) = sphere_topology(1, 0);
    assert_eq!((sectors, stacks), (3, 2));
    // Two stacks: every quad touches a pole, one triangle each.
    assert_eq!(indices.len(), 3 * 6);
    assert_eq!(&indices[0..3], &[1, 4, 5]);
}

#[test]
fn plane_is_one_quad() {
    assert_eq!(plane_indices(), vec![0, 1, 2, 0, 2, 3]);
}

#[test]
fn buffers_grow_to_powers_of_two() {
    assert_eq!(next_power_of_two(0), 1);
    assert_eq!(next_power_of_two(1), 1);
    assert_eq!(next_power_of_two(5), 8);
    assert_eq!(next_power_of_two(64), 64);
    assert_eq!(next_power_of_two(1 << 63), 1 << 63);
    assert_eq!(grown_capacity(16, 10), 16);
    assert_eq!(grown_capacity(16, 17), 32);
    assert_eq!(grown_capacity(0, 1000), 1024);
    assert_eq!(vertices_to_write(10, 4), 4);
    assert_eq!(vertices_to_write(3, 4), 3);
}
