use systems_lab::raster::{bresenham, draw_bresenham_demo, draw_dot, draw_line, Color, Image};

fn lit(img: &Image, c: Color) -> Vec<(usize, usize)> {
    let mut out = Vec::new();
    for y in 0..img.h {
        for x in 0..img.w {
            if img.pixels[y * img.w + x] == c {
                out.push((x, y));
            }
        }
    }
    out
}

#[test]
fn new_image_is_black() {
    let img = Image::new(4, 3);
    assert_eq!(img.pixels.len(), 12);
    assert!(img.pixels.iter().all(|&p| p == Color::new(0, 0, 0)));
}

#[test]
fn set_ignores_outside_points() {
    let mut img = Image::new(3, 3);
    let red = Color::new(255, 0, 0);
    img.set(1, 2, red);
    img.set(-1, 0, red);
    img.set(3, 0, red);
    img.set(0, 3, red);
    assert_eq!(lit(&img, red), vec![(1, 2)]);
}

#[test]
fn bresenham_shallow_line() {
    let mut img = Image::new(8, 4);
    let w = Color::new(255, 255, 255);
    bresenham(0, 0, 6, 2, &mut img, w);
    assert_eq!(
        lit(&img, w),
        vec![(0, 0), (1, 0), (2, 1), (3, 1), (4, 1), (5, 2), (6, 2)]
    );
}

#[test]
fn bresenham_steep_and_reversed_lines() {
    let w = Color::new(255, 255, 255);
    let mut a = Image::new(5, 5);
    bresenham(1, 0, 2, 4, &mut a, w);
    let mut b = Image::new(5, 5);
    bresenham(2, 4, 1, 0, &mut b, w);
    assert_eq!(lit(&a, w), lit(&b, w));
    assert_eq!(lit(&a, w).len(), 5);
    assert!(lit(&a, w).contains(&(1, 0)));
    assert!(lit(&a, w).contains(&(2, 4)));
    let mut p = Image::new(3, 3);
    bresenham(1, 1, 1, 1, &mut p, w);
    assert_eq!(lit(&p, w), vec![(1, 1)]);
}

#[test]
fn bresenham_clips_to_image() {
    let w = Color::new(255, 255, 255);
    let mut img = Image::new(4, 4);
    bresenham(-2, 1, 6, 1, &mut img, w);
    assert_eq!(lit(&img, w), vec![(0, 1), (1, 1), (2, 1), (3, 1)]);
}

#[test]
fn spokes_demo_draws_through_center() {
    let w = Color::new(255, 255, 255);
    let mut img = Image::new(256, 200);
    draw_bresenham_demo(&mut img);
    let px = lit(&img, w);
    assert!(px.contains(&(128, 90)));
    assert!(px.contains(&(188, 90)));
    assert!(px.contains(&(68, 90)));
    assert!(px.contains(&(128, 150)));
    assert!(px.contains(&(128, 30)));
    assert!(px.contains(&(148, 150)));
}

#[test]
fn dot_fills_disc() {
    let mut pixels = vec![(0u8, 0u8, 0u8); 7 * 7];
    draw_dot(&mut pixels, 7, 7, 3, 3, 2, (9, 9, 9));
    let count = pixels.iter().filter(|&&p| p == (9, 9, 9)).count();
    assert_eq!(count, 13);
    assert_eq!(pixels[3 * 7 + 3], (9, 9, 9));
    assert_eq!(pixels[1 * 7 + 3], (9, 9, 9));
    assert_eq!(pixels[1 * 7 + 1], (0, 0, 0));
    let mut edge = vec![(0u8, 0u8, 0u8); 4 * 4];
    draw_dot(&mut edge, 4, 4, 0, 0, 1, (1, 1, 1));
    let lit_edge: Vec<usize> = (0..16).filter(|&i| edge[i] == (1, 1, 1)).collect();
    assert_eq!(lit_edge, vec![0, 1, 4]);
    let mut none = vec![(0u8, 0u8, 0u8); 4];
    draw_dot(&mut none, 2, 2, 0, 0, -1, (1, 1, 1));
    assert!(none.iter().all(|&p| p == (0, 0, 0)));
}

fn lit_cells(pixels: &[(u8, u8, u8)], w: usize, c: (u8, u8, u8)) -> Vec<(usize, usize)> {
    (0..pixels.len()).filter(|&i| pixels[i] == c).map(|i| (i % w, i / w)).collect()
}

#[test]
fn draw_line_all_octants() {
    let c = (7u8, 7u8, 7u8);
    let mut a = vec![(0u8, 0u8, 0u8); 8 * 4];
    draw_line(&mut a, 8, 4, 0, 0, 6, 2, c);
    assert_eq!(
        lit_cells(&a, 8, c),
        vec![(0, 0), (1, 0), (2, 1), (3, 1), (4, 1), (5, 2), (6, 2)]
    );
    let mut b = vec![(0u8, 0u8, 0u8); 4 * 4];
    draw_line(&mut b, 4, 4, 3, 0, 0, 3, c);
    assert_eq!(lit_cells(&b, 4, c), vec![(3, 0), (2, 1), (1, 2), (0, 3)]);
    let mut d = vec![(0u8, 0u8, 0u8); 4 * 4];
    draw_line(&mut d, 4, 4, 1, 3, 2, -1, c);
    assert_eq!(lit_cells(&d, 4, c), vec![(2, 0), (1, 1), (1, 2), (1, 3)]);
    let mut e = vec![(0u8, 0u8, 0u8); 4];
    draw_line(&mut e, 2, 2, 1, 1, 1, 1, c);
    assert_eq!(lit_cells(&e, 2, c), vec![(1, 1)]);
}
