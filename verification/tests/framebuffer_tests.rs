use systems_lab::framebuffer::{draw_line, Framebuffer};

const INK: [u8; 3] = [255, 255, 255];

/// The painted positions, row by row.
fn painted(fb: &Framebuffer) -> Vec<(i32, i32)> {
    let mut pts = Vec::new();
    for y in 0..fb.height {
        for x in 0..fb.width {
            if fb.color[y * fb.width + x] == INK {
                pts.push((x as i32, y as i32));
            }
        }
    }
    pts
}

fn drawn(x0: i32, y0: i32, x1: i32, y1: i32) -> Vec<(i32, i32)> {
    let mut fb = Framebuffer::new(8, 8);
    draw_line(&mut fb, x0, y0, x1, y1, INK);
    painted(&fb)
}

fn sorted(mut v: Vec<(i32, i32)>) -> Vec<(i32, i32)> {
    v.sort_by_key(|&(x, y)| (y, x));
    v
}

#[test]
fn new_framebuffer_is_black() {
    let fb = Framebuffer::new(3, 2);
    assert_eq!((fb.width, fb.height), (3, 2));
    assert_eq!(fb.color, vec![[0u8; 3]; 6]);
}

#[test]
fn set_pixel_ignores_outside_points() {
    let mut fb = Framebuffer::new(3, 2);
    fb.set_pixel(2, 1, INK);
    fb.set_pixel(-1, 0, INK);
    fb.set_pixel(3, 0, INK);
    fb.set_pixel(0, 2, INK);
    assert_eq!(painted(&fb), vec![(2, 1)]);
    assert_eq!(fb.color[5], INK);
}

#[test]
fn clear_paints_everything() {
    let mut fb = Framebuffer::new(2, 2);
    fb.set_pixel(1, 1, INK);
    fb.clear([10, 20, 30]);
    assert!(fb.color.iter().all(|&p| p == [10, 20, 30]));
}

#[test]
fn shallow_line_pixels() {
    assert_eq!(drawn(0, 0, 4, 2), sorted(vec![(0, 0), (1, 0), (2, 1), (3, 1), (4, 2)]));
}

#[test]
fn steep_line_upwards_pixels() {
    assert_eq!(drawn(1, 5, 3, 0), sorted(vec![(1, 5), (1, 4), (2, 3), (2, 2), (3, 1), (3, 0)]));
}

#[test]
fn leftward_line_pixels() {
    assert_eq!(drawn(6, 1, 0, 3), sorted(vec![(6, 1), (5, 1), (4, 2), (3, 2), (2, 2), (1, 3), (0, 3)]));
}

#[test]
fn degenerate_and_axis_lines() {
    assert_eq!(drawn(2, 2, 2, 2), vec![(2, 2)]);
    assert_eq!(drawn(0, 3, 5, 3), vec![(0, 3), (1, 3), (2, 3), (3, 3), (4, 3), (5, 3)]);
    assert_eq!(drawn(3, 0, 3, 4), vec![(3, 0), (3, 1), (3, 2), (3, 3), (3, 4)]);
    assert_eq!(drawn(0, 0, 3, 3), vec![(0, 0), (1, 1), (2, 2), (3, 3)]);
}

#[test]
fn line_is_clipped_to_the_framebuffer() {
    assert_eq!(drawn(-2, 0, 2, 0), vec![(0, 0), (1, 0), (2, 0)]);
}

#[test]
fn every_line_joins_its_endpoints() {
    for &(x0, y0, x1, y1) in &[(0, 0, 7, 3), (7, 7, 0, 0), (2, 6, 5, 1), (0, 4, 7, 5)] {
        let pts = drawn(x0, y0, x1, y1);
        assert!(pts.contains(&(x0, y0)) && pts.contains(&(x1, y1)));
    }
}
