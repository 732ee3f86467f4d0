use heven::{acquisition_step, size_drawable, FrameStep, RenderStatus, TextureAcquisition};
use heven::{
    depth_key, draw_order, rgb, Scene, SurfaceContent, SurfaceUpload, UploadState, UploadedSurface,
};

#[test]
fn new_scene_is_gray_and_empty() {
    let scene: Scene<u32, u8> = Scene::new();
    assert_eq!(scene.background_color(), rgb(128, 128, 128));
    assert!(scene.surfaces().is_empty());
    assert_eq!(scene.content_version(), 1);
    assert_eq!(scene.camera, 0);
}

#[test]
fn adding_surfaces_bumps_the_version() {
    let mut scene: Scene<u32, u8> = Scene::with_camera(3);
    scene.add(7).add(8);
    assert_eq!(scene.surfaces(), &[7, 8]);
    assert_eq!(scene.content_version(), 3);
}

#[test]
fn background_keeps_the_version() {
    let mut scene: Scene<u32, u8> = Scene::default();
    scene.add(7);
    scene.background(rgb(255, 253, 245));
    scene.camera = 9;
    assert_eq!(scene.background_color(), rgb(255, 253, 245));
    assert_eq!(scene.content_version(), 2);
}

#[test]
fn surface_mut_bumps_the_version_and_changes_the_surface() {
    let mut scene: Scene<u32, u8> = Scene::new();
    scene.add(7);
    *scene.surface_mut(0).unwrap() = 70;
    assert_eq!(scene.surfaces(), &[70]);
    assert_eq!(scene.content_version(), 3);
    assert!(scene.surface_mut(1).is_none());
    assert_eq!(scene.content_version(), 4);
}

#[test]
fn depth_keys_order_like_total_cmp() {
    let values = [-2.0f32, -0.0, 0.0, 1.5, f32::INFINITY, -f32::INFINITY];
    for a in values {
        for b in values {
            assert_eq!(depth_key(a.to_bits()).cmp(&depth_key(b.to_bits())), a.total_cmp(&b));
        }
    }
}

#[test]
fn surfaces_are_drawn_back_to_front_stably() {
    assert_eq!(draw_order(&[5, -1, 5, 0]), vec![1, 3, 0, 2]);
    assert_eq!(draw_order(&[]), Vec::<usize>::new());
    assert_eq!(draw_order(&[3, 2, 1]), vec![2, 1, 0]);
}

#[test]
fn first_frame_uploads_everything_new() {
    let mut state = UploadState::new();
    let contents = [
        SurfaceContent { content_version: 1, vertex_count: 6 },
        SurfaceContent { content_version: 0, vertex_count: 0 },
    ];
    let plan = state.plan(1, &contents);
    assert!(plan.upload_atlas);
    assert_eq!(plan.created, 2);
    assert_eq!(plan.surfaces, vec![SurfaceUpload::Recreate, SurfaceUpload::Keep]);
    assert_eq!(state.surfaces[0], UploadedSurface { content_version: 1, vertex_capacity: 6 });
    let again = state.plan(1, &contents);
    assert!(!again.upload_atlas);
    assert_eq!(again.created, 0);
    assert_eq!(again.surfaces, vec![SurfaceUpload::Keep, SurfaceUpload::Keep]);
}

#[test]
fn smaller_vertices_are_written_in_place() {
    let mut state = UploadState::new();
    state.plan(1, &[SurfaceContent { content_version: 1, vertex_count: 12 }]);
    let plan = state.plan(1, &[SurfaceContent { content_version: 2, vertex_count: 6 }]);
    assert_eq!(plan.surfaces, vec![SurfaceUpload::Write]);
    assert_eq!(state.surfaces[0], UploadedSurface { content_version: 2, vertex_capacity: 12 });
    let plan = state.plan(2, &[]);
    assert!(plan.upload_atlas);
    assert!(state.surfaces.is_empty());
}

#[test]
fn prepared_geometry_stays_current_until_the_content_changes() {
    let mut scene: Scene<u32, u8> = Scene::new();
    let prepared = scene.content_version();
    assert!(scene.geometry_current(prepared));
    scene.background(rgb(1, 2, 3));
    scene.camera = 4;
    assert!(scene.geometry_current(prepared));
    scene.add(5);
    assert!(!scene.geometry_current(prepared));
}

#[test]
fn frame_steps_follow_the_texture_acquisition() {
    assert!(size_drawable(800, 600));
    assert!(!size_drawable(0, 600));
    assert!(!size_drawable(800, 0));
    assert_eq!(acquisition_step(TextureAcquisition::Success), FrameStep::Draw);
    assert_eq!(acquisition_step(TextureAcquisition::Suboptimal), FrameStep::Draw);
    assert_eq!(acquisition_step(TextureAcquisition::Outdated), FrameStep::Reconfigure);
    assert_eq!(acquisition_step(TextureAcquisition::Lost), FrameStep::Reconfigure);
    assert_eq!(acquisition_step(TextureAcquisition::Timeout), FrameStep::Wait);
    assert_eq!(acquisition_step(TextureAcquisition::Occluded), FrameStep::Wait);
    assert_eq!(acquisition_step(TextureAcquisition::Validation), FrameStep::Wait);
    assert_eq!(FrameStep::Draw.status(), RenderStatus::Presented);
    assert_eq!(FrameStep::Reconfigure.status(), RenderStatus::NeedsRedraw);
    assert_eq!(FrameStep::Wait.status(), RenderStatus::Waiting);
}
