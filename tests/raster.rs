use space_travel::depth::Depth;
use space_travel::framebuffer::{Color, FrameBuffer};
use space_travel::line::stamp_square;
use space_travel::obj::Face;
use space_travel::pixel::{point, Pixel};
use space_travel::setup::setup_vertex_array;
use space_travel::triangle::triangle;

fn d(z: f32) -> Depth {
    Depth::from_bits(z.to_bits())
}

fn red() -> Color {
    Color::new(255, 0, 0, 255)
}

fn green() -> Color {
    Color::new(0, 255, 0, 255)
}

fn blue() -> Color {
    Color::new(0, 0, 255, 255)
}

fn lit(fb: &FrameBuffer) -> Vec<(i32, i32)> {
    let mut out = Vec::new();
    for y in 0..fb.height() {
        for x in 0..fb.width() {
            if fb.color_at(x, y) != fb.background_color() {
                out.push((x, y));
            }
        }
    }
    out
}

#[test]
fn new_frame_buffer_is_blank() {
    let fb = FrameBuffer::new(5, 3, Color::black());
    assert_eq!(fb.colors().len(), 15);
    assert_eq!(fb.current_color(), Color::white());
    for y in 0..3 {
        for x in 0..5 {
            assert_eq!(fb.color_at(x, y), Color::black());
            assert_eq!(f32::from_bits(fb.depth_at(x, y).to_bits()), f32::INFINITY);
        }
    }
}

#[test]
fn clear_resets_colors_and_depths() {
    let mut fb = FrameBuffer::new(4, 4, Color::black());
    fb.set_color(red());
    fb.set_pixel_z(1, 2, d(0.5));
    fb.set_pixel(3, 3);
    fb.clear();
    for y in 0..4 {
        for x in 0..4 {
            assert_eq!(fb.color_at(x, y), Color::black());
            assert_eq!(fb.depth_at(x, y), Depth::infinity());
        }
    }
}

#[test]
fn set_background_color_clears_to_the_new_color() {
    let mut fb = FrameBuffer::new(2, 2, Color::black());
    fb.set_pixel_z(0, 0, d(1.0));
    fb.set_background_color(blue());
    assert_eq!(fb.background_color(), blue());
    assert_eq!(fb.color_at(0, 0), blue());
    assert_eq!(fb.depth_at(0, 0), Depth::infinity());
}

#[test]
fn decreasing_depths_leave_the_last_write() {
    let mut fb = FrameBuffer::new(3, 3, Color::black());
    for (c, z) in [(red(), 0.9f32), (green(), 0.5), (blue(), -0.25)] {
        fb.set_color(c);
        fb.set_pixel_z(1, 1, d(z));
    }
    assert_eq!(fb.color_at(1, 1), blue());
    assert_eq!(fb.depth_at(1, 1), d(-0.25));
}

#[test]
fn farther_or_equal_depth_changes_nothing() {
    let mut fb = FrameBuffer::new(3, 3, Color::black());
    fb.set_color(red());
    fb.set_pixel_z(2, 0, d(0.5));
    fb.set_color(green());
    fb.set_pixel_z(2, 0, d(0.5));
    fb.set_pixel_z(2, 0, d(0.75));
    fb.set_pixel_z(2, 0, d(f32::NAN));
    assert_eq!(fb.color_at(2, 0), red());
    assert_eq!(fb.depth_at(2, 0), d(0.5));
}

#[test]
fn signed_zeros_tie() {
    let mut fb = FrameBuffer::new(1, 1, Color::black());
    fb.set_color(red());
    fb.set_pixel_z(0, 0, d(0.0));
    fb.set_color(green());
    fb.set_pixel_z(0, 0, d(-0.0));
    assert_eq!(fb.color_at(0, 0), red());
}

#[test]
fn depth_order_matches_f32_order() {
    let values = [
        f32::NEG_INFINITY, -1e30, -2.0, -1.0, -1e-40, -0.0, 0.0, 1e-40, 0.5, 1.0, 3e38,
        f32::INFINITY, f32::NAN, -f32::NAN,
    ];
    for a in values {
        for b in values {
            assert_eq!(d(a).is_nearer(&d(b)), a < b, "{a} < {b}");
        }
    }
}

#[test]
fn writes_outside_the_grid_are_skipped() {
    let mut fb = FrameBuffer::new(3, 2, Color::black());
    fb.set_color(red());
    fb.set_pixel(-1, 0);
    fb.set_pixel(3, 0);
    fb.set_pixel(0, 2);
    fb.set_pixel_z(0, -1, d(0.0));
    fb.set_pixel_z(i32::MAX, i32::MAX, d(0.0));
    assert!(lit(&fb).is_empty());
    point(&mut fb, Pixel::new(2, 1));
    assert_eq!(lit(&fb), vec![(2, 1)]);
}

#[test]
fn line_includes_both_ends() {
    let mut fb = FrameBuffer::new(10, 10, Color::black());
    fb.set_color(red());
    space_travel::line::line(&mut fb, Pixel::new(0, 0), Pixel::new(2, 1));
    assert_eq!(lit(&fb), vec![(0, 0), (1, 0), (2, 1)]);
}

#[test]
fn line_steps_once_per_unit_of_the_longer_axis() {
    let mut fb = FrameBuffer::new(20, 20, Color::black());
    fb.set_color(red());
    space_travel::line::line(&mut fb, Pixel::new(1, 2), Pixel::new(13, 7));
    assert_eq!(lit(&fb).len(), 13);
    let mut fb = FrameBuffer::new(20, 20, Color::black());
    space_travel::line::line(&mut fb, Pixel::new(4, 18), Pixel::new(1, 3));
    assert_eq!(lit(&fb).len(), 16);
    assert!(lit(&fb).contains(&(4, 18)) && lit(&fb).contains(&(1, 3)));
}

#[test]
fn line_of_one_point() {
    let mut fb = FrameBuffer::new(4, 4, Color::black());
    space_travel::line::line(&mut fb, Pixel::new(2, 3), Pixel::new(2, 3));
    assert_eq!(lit(&fb), vec![(2, 3)]);
}

#[test]
fn line_is_clipped_to_the_grid() {
    let mut fb = FrameBuffer::new(4, 4, Color::black());
    space_travel::line::line(&mut fb, Pixel::new(-3, 1), Pixel::new(6, 1));
    assert_eq!(lit(&fb), vec![(0, 1), (1, 1), (2, 1), (3, 1)]);
}

#[test]
fn wireframe_triangle_draws_its_edges() {
    let mut fb = FrameBuffer::new(6, 6, Color::black());
    triangle(&mut fb, Pixel::new(0, 0), Pixel::new(4, 0), Pixel::new(0, 4));
    let l = lit(&fb);
    assert!(l.contains(&(0, 0)) && l.contains(&(4, 0)) && l.contains(&(0, 4)));
    assert!(l.contains(&(2, 2)) && l.contains(&(2, 0)) && l.contains(&(0, 2)));
    assert!(!l.contains(&(1, 1)));
    assert_eq!(l.len(), 12);
}

#[test]
fn stamp_covers_a_square() {
    let mut fb = FrameBuffer::new(8, 8, Color::black());
    fb.set_color(red());
    stamp_square(&mut fb, 3, 3, 2, d(0.5));
    let l = lit(&fb);
    assert_eq!(l.len(), 25);
    assert!(l.contains(&(1, 1)) && l.contains(&(5, 5)) && !l.contains(&(6, 3)));
    assert_eq!(fb.depth_at(5, 1), d(0.5));
}

#[test]
fn stamp_thickness_below_one_counts_as_one() {
    let mut fb = FrameBuffer::new(8, 8, Color::black());
    stamp_square(&mut fb, 0, 0, 0, d(0.5));
    assert_eq!(lit(&fb), vec![(0, 0), (1, 0), (0, 1), (1, 1)]);
}

#[test]
fn stamp_is_depth_tested() {
    let mut fb = FrameBuffer::new(5, 5, Color::black());
    fb.set_color(red());
    fb.set_pixel_z(2, 2, d(0.1));
    fb.set_color(green());
    stamp_square(&mut fb, 2, 2, 1, d(0.3));
    assert_eq!(fb.color_at(2, 2), red());
    assert_eq!(fb.color_at(1, 1), green());
    assert_eq!(fb.depth_at(3, 3), d(0.3));
}

#[test]
fn vertex_array_lists_face_corners() {
    let verts = [10, 20, 30, 40];
    let faces = [Face { vertex_indices: [0, 1, 2] }, Face { vertex_indices: [3, 0, 2] }];
    assert_eq!(setup_vertex_array(&verts, &faces), vec![10, 20, 30, 40, 10, 30]);
}

#[test]
fn line_is_the_same_in_both_directions() {
    let ends = [(0, 0, 2, 1), (1, 2, 13, 7), (4, 18, 1, 3), (0, 5, 7, 0), (3, 3, 3, 9), (9, 2, 0, 2)];
    for (ax, ay, bx, by) in ends {
        let mut fwd = FrameBuffer::new(20, 20, Color::black());
        let mut back = FrameBuffer::new(20, 20, Color::black());
        space_travel::line::line(&mut fwd, Pixel::new(ax, ay), Pixel::new(bx, by));
        space_travel::line::line(&mut back, Pixel::new(bx, by), Pixel::new(ax, ay));
        assert_eq!(lit(&fwd), lit(&back));
    }
    let mut fb = FrameBuffer::new(10, 10, Color::black());
    space_travel::line::line(&mut fb, Pixel::new(2, 1), Pixel::new(0, 0));
    assert_eq!(lit(&fb), vec![(0, 0), (1, 0), (2, 1)]);
}
