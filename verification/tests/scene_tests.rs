use alloy_engine::ordering::{painter_order, stable_order};
use alloy_engine::primitives::{Capsule3D, ColoredTriangle, Cube3D, CubeColors, Plane3D, TriangleIndices};
use alloy_engine::scene::{RenderOrderMode, RenderStep, SceneComposer};

#[test]
fn painter_mode_draws_far_to_near_stably() {
    let mut s: SceneComposer<&str> = SceneComposer::new(RenderOrderMode::Painter3D);
    s.add_3d(5, "mid");
    s.add_3d(9, "far");
    s.add_3d(1, "near");
    s.add_3d(5, "mid2");
    s.add_2d(0, "ignored");
    let steps = s.render_steps();
    assert_eq!(
        steps,
        vec![RenderStep::Draw3D(1), RenderStep::Draw3D(0), RenderStep::Draw3D(3), RenderStep::Draw3D(2)]
    );
    assert_eq!(*s.item_3d(1), "far");
}

#[test]
fn layers_mode_draws_low_to_high_stably() {
    let mut s: SceneComposer<u8> = SceneComposer::new(RenderOrderMode::Layers2D);
    s.add_2d(3, 0);
    s.add_2d(-2, 1);
    s.add_2d(3, 2);
    s.add_2d(0, 3);
    assert_eq!(
        s.render_steps(),
        vec![RenderStep::Draw2D(1), RenderStep::Draw2D(3), RenderStep::Draw2D(0), RenderStep::Draw2D(2)]
    );
    assert_eq!(*s.item_2d(2), 2);
}

#[test]
fn hardware_zbuffer_steps() {
    let mut s: SceneComposer<u8> = SceneComposer::new(RenderOrderMode::HardwareZBuffer);
    s.add_3d(7, 10);
    s.add_3d_vertices(20);
    s.add_3d(2, 11);
    assert_eq!(s.mode(), RenderOrderMode::HardwareZBuffer);
    assert_eq!(
        s.render_steps(),
        vec![
            RenderStep::EnableDepth(true),
            RenderStep::ClearDepth,
            RenderStep::DrawVertices3D(0),
            RenderStep::SetDepth(0),
            RenderStep::Draw3D(0),
            RenderStep::SetDepth(1),
            RenderStep::Draw3D(1),
            RenderStep::EnableDepth(false),
        ]
    );
    assert_eq!(*s.item_3d_vertices(0), 20);
}

#[test]
fn software_zbuffer_steps_skip_vertex_items() {
    let mut s: SceneComposer<u8> = SceneComposer::new(RenderOrderMode::SoftwareZBuffer);
    s.add_3d_vertices(1);
    s.add_3d(4, 2);
    assert_eq!(
        s.render_steps(),
        vec![
            RenderStep::EnableDepth(true),
            RenderStep::ClearDepth,
            RenderStep::SetDepth(0),
            RenderStep::Draw3D(0),
            RenderStep::EnableDepth(false),
        ]
    );
}

#[test]
fn empty_scene_draws_nothing() {
    let s: SceneComposer<u8> = SceneComposer::new(RenderOrderMode::Painter3D);
    assert!(s.render_steps().is_empty());
}

#[test]
fn stable_order_filters_and_sorts() {
    assert_eq!(stable_order(&vec![3, 1, 2, 1], &vec![true, true, false, true], false), vec![1, 3, 0]);
    assert_eq!(stable_order(&vec![3, 1, 2, 1], &vec![true, true, true, true], true), vec![0, 2, 1, 3]);
    assert_eq!(painter_order(&vec![true, false, true], &vec![1, 100, 50]), vec![2, 0]);
}

#[test]
fn capsule_indices_small() {
    let idx = Capsule3D::create_indices(0, 2);
    // Two rings of three vertices: one band of two quads.
    assert_eq!(
        idx,
        vec![
            TriangleIndices { a: 0, b: 3, c: 1 },
            TriangleIndices { a: 1, b: 3, c: 4 },
            TriangleIndices { a: 1, b: 4, c: 2 },
            TriangleIndices { a: 2, b: 4, c: 5 },
        ]
    );
}

#[test]
fn capsule_indices_count_and_range() {
    let (lat, lon) = (8usize, 16usize);
    let idx = Capsule3D::create_indices(lat, lon);
    let rings = (lat + 1) * 2;
    assert_eq!(idx.len(), 2 * (rings - 1) * lon);
    let vertices = rings * (lon + 1);
    assert!(idx.iter().all(|t| t.a < vertices && t.b < vertices && t.c < vertices));
    assert!(Capsule3D::create_indices(3, 0).is_empty());
}

#[test]
fn cube_faces_and_colors() {
    let solid = CubeColors::Solid([1, 2, 3, 4]);
    assert_eq!(Cube3D::face_colors(solid), [[1, 2, 3, 4]; 6]);
    let per = CubeColors::PerFace([[0; 4], [1; 4], [2; 4], [3; 4], [4; 4], [5; 4]]);
    assert_eq!(Cube3D::face_colors(per)[4], [4; 4]);
    assert_eq!(Cube3D::face_corners(1), [5, 4, 7, 6]);
    assert_eq!(
        Cube3D::face_triangles(3, per),
        (
            ColoredTriangle { a: 1, b: 5, c: 6, color: [3; 4] },
            ColoredTriangle { a: 1, b: 6, c: 2, color: [3; 4] },
        )
    );
}

#[test]
fn plane_triangles_need_all_corners() {
    assert!(Plane3D::triangles([true, true, false, true], [9; 4]).is_empty());
    assert_eq!(
        Plane3D::triangles([true; 4], [9; 4]),
        vec![
            ColoredTriangle { a: 0, b: 1, c: 2, color: [9; 4] },
            ColoredTriangle { a: 0, b: 2, c: 3, color: [9; 4] },
        ]
    );
}
