use pixelate::assets::ImageData;
use pixelate::renderer::{Renderer, ResizeEffect};

fn cell(r: &Renderer, x: u32, y: u32) -> u32 {
    r.framebuffer()[(y * r.width() + x) as usize]
}

fn changed(before: &[u32], after: &[u32]) -> Vec<usize> {
    (0..before.len()).filter(|&i| before[i] != after[i]).collect()
}

#[test]
fn packs_rgb_and_drops_alpha() {
    assert_eq!(Renderer::rgba_to_u32([0x12, 0x34, 0x56, 0x78]), 0x0012_3456);
    assert_eq!(Renderer::rgba_to_u32([0x12, 0x34, 0x56, 0x00]), 0x0012_3456);
    assert_eq!(Renderer::rgba_to_u32([255, 255, 255, 255]), 0x00ff_ffff);
}

#[test]
fn new_surface_is_black() {
    let r = Renderer::new(4, 3);
    assert_eq!(r.width(), 4);
    assert_eq!(r.height(), 3);
    assert_eq!(r.framebuffer(), &[0u32; 12][..]);
}

#[test]
fn point_reads_back_packed() {
    let mut r = Renderer::new(10, 8);
    r.draw_point(3, 5, [1, 2, 3, 4]);
    assert_eq!(r.framebuffer()[5 * 10 + 3], 0x0001_0203);
    assert_eq!(changed(&[0; 80], r.framebuffer()), vec![53]);
}

#[test]
fn off_surface_point_is_noop() {
    let mut r = Renderer::new(10, 8);
    r.clear([9, 9, 9, 9]);
    let before = r.framebuffer().to_vec();
    r.draw_point(-1, 0, [1, 2, 3, 4]);
    r.draw_point(0, -1, [1, 2, 3, 4]);
    r.draw_point(10, 0, [1, 2, 3, 4]);
    r.draw_point(0, 8, [1, 2, 3, 4]);
    r.draw_point(i32::MAX, i32::MIN, [1, 2, 3, 4]);
    assert_eq!(r.framebuffer(), &before[..]);
}

#[test]
fn off_surface_rectangle_is_noop() {
    let mut r = Renderer::new(10, 8);
    let before = r.framebuffer().to_vec();
    r.draw_rectangle(10, 0, 5, 5, [1, 2, 3, 4]);
    r.draw_rectangle(-5, -5, 5, 5, [1, 2, 3, 4]);
    r.draw_rectangle(0, 8, 3, 3, [1, 2, 3, 4]);
    assert_eq!(r.framebuffer(), &before[..]);
}

#[test]
fn off_surface_image_is_noop() {
    let mut r = Renderer::new(10, 8);
    let image = ImageData::from_bytes(vec![255; 4], 1, 1);
    let before = r.framebuffer().to_vec();
    r.draw_image(&image, 10, 0, 4);
    r.draw_image(&image, -4, -4, 4);
    assert_eq!(r.framebuffer(), &before[..]);
}

#[test]
fn rectangle_clips_at_edges() {
    let mut r = Renderer::new(4, 4);
    r.draw_rectangle(-1, 2, 3, 5, [0, 0, 7, 0]);
    let expected: Vec<u32> = (0..16)
        .map(|i| {
            let (x, y) = (i % 4, i / 4);
            if x < 2 && y >= 2 { 7 } else { 0 }
        })
        .collect();
    assert_eq!(r.framebuffer(), &expected[..]);
}

#[test]
fn rectangle_scenario_on_800_square() {
    let mut r = Renderer::new(800, 800);
    r.draw_rectangle(0, 0, 200, 200, [0, 225, 0, 225]);
    let green = 225u32 << 8;
    for y in 0..800u32 {
        for x in 0..800u32 {
            let want = if x < 200 && y < 200 { green } else { 0 };
            assert_eq!(cell(&r, x, y), want);
        }
    }
}

#[test]
fn degenerate_line_writes_one_cell() {
    let mut r = Renderer::new(6, 6);
    r.draw_line(2, 4, 2, 4, [0, 0, 1, 0]);
    assert_eq!(changed(&[0; 36], r.framebuffer()), vec![4 * 6 + 2]);
}

#[test]
fn horizontal_line_scenario() {
    let mut r = Renderer::new(8, 8);
    r.draw_line(0, 0, 3, 0, [5, 6, 7, 8]);
    assert_eq!(changed(&[0; 64], r.framebuffer()), vec![0, 1, 2, 3]);
    for x in 0..4 {
        assert_eq!(cell(&r, x, 0), 0x0005_0607);
    }
}

#[test]
fn line_is_symmetric_in_direction() {
    let mut a = Renderer::new(8, 8);
    let mut b = Renderer::new(8, 8);
    a.draw_line(0, 0, 5, 5, [0, 0, 1, 0]);
    b.draw_line(5, 5, 0, 0, [0, 0, 1, 0]);
    assert_eq!(a.framebuffer(), b.framebuffer());
    assert_eq!(changed(&[0; 64], a.framebuffer()), vec![0, 9, 18, 27, 36, 45]);
}

#[test]
fn shallow_line_steps_by_bresenham() {
    let mut r = Renderer::new(5, 3);
    r.draw_line(0, 0, 4, 2, [0, 0, 1, 0]);
    let lit: Vec<(usize, usize)> = changed(&[0; 15], r.framebuffer())
        .into_iter()
        .map(|i| (i % 5, i / 5))
        .collect();
    assert_eq!(lit, vec![(0, 0), (1, 1), (2, 1), (3, 2), (4, 2)]);
}

#[test]
fn line_clips_off_surface() {
    let mut r = Renderer::new(4, 1);
    r.draw_line(-3, 0, 6, 0, [0, 0, 1, 0]);
    assert_eq!(r.framebuffer(), &[1, 1, 1, 1][..]);
}

#[test]
fn zero_radius_circle_writes_centre() {
    let mut r = Renderer::new(7, 7);
    r.draw_circle(3, 2, 0, [0, 0, 1, 0]);
    assert_eq!(changed(&[0; 49], r.framebuffer()), vec![2 * 7 + 3]);
}

#[test]
fn radius_one_circle_outline() {
    let mut r = Renderer::new(5, 5);
    r.draw_circle(2, 2, 1, [0, 0, 1, 0]);
    let lit: Vec<(usize, usize)> = changed(&[0; 25], r.framebuffer())
        .into_iter()
        .map(|i| (i % 5, i / 5))
        .collect();
    assert_eq!(lit, vec![(2, 1), (1, 2), (3, 2), (2, 3)]);
}

#[test]
fn radius_two_circle_outline() {
    let mut r = Renderer::new(5, 5);
    r.draw_circle(2, 2, 2, [0, 0, 1, 0]);
    let lit: Vec<(usize, usize)> = changed(&[0; 25], r.framebuffer())
        .into_iter()
        .map(|i| (i % 5, i / 5))
        .collect();
    assert_eq!(
        lit,
        vec![
            (1, 0), (2, 0), (3, 0), (0, 1), (4, 1), (0, 2), (4, 2), (0, 3), (4, 3), (1, 4), (2, 4),
            (3, 4)
        ]
    );
}

#[test]
fn clear_fills_every_cell() {
    let mut r = Renderer::new(3, 2);
    r.clear([1, 1, 1, 0]);
    assert_eq!(r.framebuffer(), &[0x0001_0101; 6][..]);
}

#[test]
fn resize_sets_length() {
    let mut r = Renderer::new(2, 2);
    for (w, h) in [(3u32, 5u32), (0, 7), (7, 0), (1, 1), (640, 480)] {
        r.resize(w, h);
        assert_eq!(r.framebuffer().len(), (w * h) as usize);
        assert_eq!((r.width(), r.height()), (w, h));
    }
}

#[test]
fn resize_twice_is_resize_once() {
    let mut r = Renderer::new(2, 2);
    assert_eq!(r.resize(4, 3), ResizeEffect::BufferAndSurface);
    let once = r.framebuffer().to_vec();
    assert_eq!(r.resize(4, 3), ResizeEffect::Unchanged);
    assert_eq!(r.framebuffer(), &once[..]);
    assert_eq!(once.len(), 12);
}

#[test]
fn resize_to_zero_skips_surface() {
    let mut r = Renderer::new(800, 800);
    assert_eq!(r.resize(0, 0), ResizeEffect::BufferOnly);
    assert!(r.framebuffer().is_empty());
    assert_eq!(r.resize(0, 0), ResizeEffect::Unchanged);
}

#[test]
fn resize_keeps_prefix_and_zero_fills() {
    let mut r = Renderer::new(2, 1);
    r.clear([0, 0, 9, 0]);
    r.resize(2, 2);
    assert_eq!(r.framebuffer(), &[9, 9, 0, 0][..]);
}

#[test]
fn image_skips_transparent_pixels() {
    let mut r = Renderer::new(2, 1);
    r.clear([0, 0, 5, 0]);
    let image = ImageData::from_bytes(vec![1, 2, 3, 0, 4, 5, 6, 1], 2, 1);
    r.draw_image(&image, 0, 0, 2);
    assert_eq!(r.framebuffer(), &[5, 0x0004_0506][..]);
}

#[test]
fn image_stretches_by_nearest_neighbour() {
    let mut r = Renderer::new(4, 4);
    let image = ImageData::from_bytes(
        vec![
            0, 0, 1, 255, 0, 0, 2, 255, //
            0, 0, 3, 255, 0, 0, 4, 255,
        ],
        2,
        2,
    );
    r.draw_image(&image, 0, 0, 4);
    assert_eq!(
        r.framebuffer(),
        &[1, 1, 2, 2, 1, 1, 2, 2, 3, 3, 4, 4, 3, 3, 4, 4][..]
    );
}

#[test]
fn image_stretches_each_axis_on_its_own() {
    let mut r = Renderer::new(2, 2);
    let image = ImageData::from_bytes(vec![0, 0, 1, 9, 0, 0, 2, 9, 0, 0, 3, 9], 3, 1);
    r.draw_image(&image, 0, 0, 2);
    assert_eq!(r.framebuffer(), &[1, 2, 1, 2][..]);
}

#[test]
fn empty_image_draws_nothing() {
    let mut r = Renderer::new(2, 2);
    let image = ImageData::from_bytes(Vec::new(), 0, 0);
    r.draw_image(&image, 0, 0, 2);
    assert_eq!(r.framebuffer(), &[0; 4][..]);
}

#[test]
fn image_with_extra_bytes_draws() {
    let mut r = Renderer::new(1, 1);
    let image = ImageData::from_bytes(vec![0, 0, 3, 1, 9, 9, 9, 9], 1, 1);
    assert!(image.is_well_formed());
    r.draw_image(&image, 0, 0, 1);
    assert_eq!(r.framebuffer(), &[3][..]);
}

#[test]
fn short_image_is_not_well_formed() {
    assert!(!ImageData::from_bytes(vec![0, 0, 3], 1, 1).is_well_formed());
    assert!(ImageData::from_bytes(Vec::new(), 0, 5).is_well_formed());
}
