use dot_pattern::canvas::{AllocationError, Canvas, Rgba};
use dot_pattern::frame::{ColorScheme, Config, FrameDriver, RenderError};

const RED: Rgba = Rgba { r: 255, g: 0, b: 0, a: 255 };
const BLUE: Rgba = Rgba { r: 0, g: 0, b: 255, a: 255 };
const ZERO: Rgba = Rgba { r: 0, g: 0, b: 0, a: 0 };

fn config(width: u32, point_count: u32, dot_size: u32) -> Config {
    Config {
        width,
        height: width,
        point_count,
        dot_size,
        scheme: ColorScheme::Indexed { blue: 100 },
    }
}

fn all_zero(c: &Canvas) -> bool {
    c.as_bytes().iter().all(|b| *b == 0)
}

#[test]
fn new_canvas_is_blank_and_sized() {
    let c = Canvas::new(7, 5).unwrap();
    assert_eq!(c.width(), 7);
    assert_eq!(c.height(), 5);
    assert_eq!(c.as_bytes().len(), 7 * 5 * 4);
    assert!(all_zero(&c));
}

#[test]
fn new_canvas_too_large_is_refused() {
    assert_eq!(Canvas::new(u32::MAX, u32::MAX).err(), Some(AllocationError));
}

#[test]
fn write_dot_sets_the_four_bytes_of_one_pixel() {
    let mut c = Canvas::new(10, 8).unwrap();
    assert!(c.write_dot(3, 2, Rgba { r: 1, g: 2, b: 3, a: 4 }, 1));
    let base = (2 * 10 + 3) * 4;
    assert_eq!(&c.as_bytes()[base..base + 4], &[1, 2, 3, 4]);
    let written = c.as_bytes().iter().filter(|b| **b != 0).count();
    assert_eq!(written, 4);
    assert_eq!(c.pixel_at(3, 2), Some(Rgba { r: 1, g: 2, b: 3, a: 4 }));
    assert_eq!(c.pixel_at(4, 2), Some(ZERO));
}

#[test]
fn negative_coordinate_is_skipped_not_wrapped() {
    let mut c = Canvas::new(540, 540).unwrap();
    assert!(!c.write_dot(-10, 370, RED, 1));
    assert!(!c.write_dot(5, -1, RED, 1));
    assert!(all_zero(&c));
    assert_eq!(c.as_bytes().len(), 540 * 540 * 4);
}

#[test]
fn coordinate_past_the_right_edge_does_not_wrap_to_next_row() {
    let mut c = Canvas::new(4, 4).unwrap();
    assert!(!c.write_dot(4, 0, RED, 1));
    assert!(all_zero(&c));
}

#[test]
fn extreme_coordinates_leave_the_buffer_alone() {
    let mut c = Canvas::new(16, 9).unwrap();
    for (x, y) in [(i64::MIN, i64::MIN), (i64::MAX, i64::MAX), (i64::MIN, 0), (0, i64::MAX), (-1, -1)] {
        assert!(!c.write_dot(x, y, BLUE, u32::MAX));
        assert_eq!(c.as_bytes().len(), 16 * 9 * 4);
    }
    // (-1, -1) with side u32::MAX covers the whole canvas
    assert!(c.as_bytes().chunks(4).all(|p| p == [0, 0, 255, 255]));
}

#[test]
fn square_dot_is_clipped_at_the_origin() {
    let mut c = Canvas::new(6, 6).unwrap();
    assert!(!c.write_dot(-1, -1, RED, 3));
    for row in 0..6u32 {
        for col in 0..6u32 {
            let expected = if col < 2 && row < 2 { RED } else { ZERO };
            assert_eq!(c.pixel_at(col, row), Some(expected));
        }
    }
    assert_eq!(c.pixel_at(6, 0), None);
}

#[test]
fn square_dot_inside_reports_true() {
    let mut c = Canvas::new(6, 6).unwrap();
    assert!(c.write_dot(3, 3, BLUE, 3));
    assert_eq!(c.pixel_at(5, 5), Some(BLUE));
    assert_eq!(c.pixel_at(2, 3), Some(ZERO));
    assert!(!c.write_dot(4, 4, BLUE, 3));
}

#[test]
fn second_colour_replaces_the_first() {
    let mut c = Canvas::new(3, 3).unwrap();
    c.write_dot(1, 1, RED, 1);
    c.write_dot(1, 1, Rgba { r: 0, g: 9, b: 0, a: 128 }, 1);
    assert_eq!(c.pixel_at(1, 1), Some(Rgba { r: 0, g: 9, b: 0, a: 128 }));
    assert_eq!(c.as_bytes().iter().filter(|b| **b != 0).count(), 2);
}

#[test]
fn indexed_colours_follow_the_step_indices() {
    let s = ColorScheme::Indexed { blue: 100 };
    assert_eq!(s.dot_color(3, 7), Rgba { r: 3, g: 7, b: 100, a: 255 });
    assert_eq!(s.dot_color(300, 259), Rgba { r: 44, g: 3, b: 100, a: 255 });
    let solid = ColorScheme::Solid { color: BLUE };
    assert_eq!(solid.dot_color(12, 34), BLUE);
}

#[test]
fn screen_point_adds_the_canvas_centre() {
    let cfg = config(540, 100, 1);
    assert_eq!(cfg.screen_point((0, 100)), (270, 370));
    assert_eq!(cfg.screen_point((-300, i32::MIN)), (-30, i32::MIN as i64 + 270));
    let odd = Config { width: 7, height: 5, ..cfg };
    assert_eq!(odd.screen_point((0, 0)), (3, 2));
}

#[test]
fn first_point_of_frame_zero() {
    let cfg = config(540, 100, 1);
    let n = 100.0_f64;
    let (x, y, t) = (0.0_f64, 0.0_f64, 0.0_f64);
    let r = std::f64::consts::PI * 2.0 / n;
    let ii = 0.0_f64;
    let u = (ii + y).sin() + (r * ii + x).sin();
    let v = (ii + y).cos() + (r * ii + x).cos();
    assert_eq!((u, v), (0.0, 2.0));
    assert_eq!(u + t, 0.0);
    let first = ((u * (n / 2.0)) as i32, (v * (n / 2.0)) as i32);
    assert_eq!(cfg.screen_point(first), (270, 370));

    let mut offsets = vec![(-1000, -1000); 100 * 100];
    offsets[0] = first;
    let mut driver = FrameDriver::new(cfg);
    let canvas = driver.render_frame(&offsets).unwrap();
    assert_eq!(canvas.pixel_at(270, 370), Some(Rgba { r: 0, g: 0, b: 100, a: 255 }));
    let base = (370 * 540 + 270) * 4;
    assert_eq!(&canvas.as_bytes()[base..base + 4], &[0, 0, 100, 255]);
    assert_eq!(canvas.as_bytes().iter().filter(|b| **b != 0).count(), 2);
}

#[test]
fn render_frame_advances_the_counter_once() {
    let cfg = config(20, 3, 1);
    let mut driver = FrameDriver::new(cfg);
    assert_eq!(driver.frame_count(), 0);
    let offsets = vec![(0, 0); 9];
    assert!(driver.render_frame(&offsets).is_ok());
    assert_eq!(driver.frame_count(), 1);
    assert!(driver.render_frame(&offsets).is_ok());
    assert_eq!(driver.frame_count(), 2);
    assert_eq!(driver.config(), cfg);
}

#[test]
fn render_frame_draws_one_dot_per_step() {
    let cfg = config(20, 3, 1);
    let mut driver = FrameDriver::new(cfg);
    let offsets: Vec<(i32, i32)> = (0..9).map(|k| (k - 10, 0)).collect();
    let canvas = driver.render_frame(&offsets).unwrap();
    for k in 0..9u32 {
        let (i, j) = (k / 3, k % 3);
        assert_eq!(canvas.pixel_at(k, 10), Some(Rgba { r: i as u8, g: j as u8, b: 100, a: 255 }));
    }
    assert_eq!(canvas.pixel_at(9, 10), Some(ZERO));
}

#[test]
fn later_steps_overwrite_earlier_ones() {
    let cfg = config(8, 2, 2);
    let mut driver = FrameDriver::new(cfg);
    let offsets = vec![(0, 0), (0, 0), (1, 1), (-4, -4)];
    let canvas = driver.render_frame(&offsets).unwrap();
    // step (1, 0) at (5, 5) covers (5..7, 5..7) over step (0, 1) at (4, 4)
    assert_eq!(canvas.pixel_at(4, 4), Some(Rgba { r: 0, g: 1, b: 100, a: 255 }));
    assert_eq!(canvas.pixel_at(5, 5), Some(Rgba { r: 1, g: 0, b: 100, a: 255 }));
    assert_eq!(canvas.pixel_at(6, 6), Some(Rgba { r: 1, g: 0, b: 100, a: 255 }));
    assert_eq!(canvas.pixel_at(0, 0), Some(Rgba { r: 1, g: 1, b: 100, a: 255 }));
    assert_eq!(canvas.pixel_at(2, 2), Some(ZERO));
}

#[test]
fn wrong_point_count_is_refused_and_counter_kept() {
    let mut driver = FrameDriver::new(config(20, 3, 1));
    assert_eq!(driver.render_frame(&vec![(0, 0); 8]).err(), Some(RenderError::PointCountMismatch));
    assert_eq!(driver.frame_count(), 0);
}

#[test]
fn unallocatable_canvas_is_refused_and_counter_kept() {
    let cfg = Config { width: u32::MAX, height: u32::MAX, point_count: 0, dot_size: 1, scheme: ColorScheme::Solid { color: RED } };
    let mut driver = FrameDriver::new(cfg);
    assert_eq!(driver.render_frame(&Vec::new()).err(), Some(RenderError::BufferAllocationFailed));
    assert_eq!(driver.frame_count(), 0);
}

#[test]
fn zero_points_give_a_blank_frame() {
    let mut driver = FrameDriver::new(config(10, 0, 1));
    let canvas = driver.render_frame(&Vec::new()).unwrap();
    assert!(all_zero(&canvas));
    assert_eq!(canvas.as_bytes().len(), 400);
    assert_eq!(driver.frame_count(), 1);
}

#[test]
fn identical_inputs_give_identical_frames() {
    let cfg = config(64, 16, 2);
    let offsets: Vec<(i32, i32)> = (0..256).map(|k| ((k * 7) % 80 - 40, (k * 13) % 90 - 45)).collect();
    let mut a = FrameDriver::new(cfg);
    let mut b = FrameDriver::new(cfg);
    let fa = a.render_frame(&offsets).unwrap();
    let fb = b.render_frame(&offsets).unwrap();
    assert_eq!(fa.as_bytes(), fb.as_bytes());
    assert_eq!(a.frame_count(), b.frame_count());
}
