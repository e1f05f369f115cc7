//! Pixel-exact behaviour of blending, clearing and the render step.

use ass_overlay::ass::{AssData, RenderOutcome, CANVAS_HEIGHT, CANVAS_WIDTH};
use ass_overlay::layer::{draw_layer, LastLayer, Layer};
use ass_overlay::surface::Surface;

fn full_cover_layer(x: usize, y: usize, width: usize, height: usize, color: u32) -> Layer {
    Layer { x, y, width, height, color, bitmap: vec![255u8; width * height] }
}

fn loaded_compositor() -> AssData {
    let text = "[Events]\n\
Format: Layer, Start, End, Style, Name, MarginL, MarginR, MarginV, Effect, Text\n\
Dialogue: 0,0:00:00.00,0:00:01.20,Default,,0,0,0,,Hello\n";
    let mut data = AssData::new();
    data.load_track(&text.as_bytes().to_vec()).unwrap();
    data
}

fn pixel(surface: &Surface, x: usize, y: usize) -> [u8; 4] {
    let base = (y * surface.width + x) * 4;
    [
        surface.data[base],
        surface.data[base + 1],
        surface.data[base + 2],
        surface.data[base + 3],
    ]
}

fn inside(x: usize, y: usize, r: &LastLayer) -> bool {
    r.x <= x && x < r.x + r.width && r.y <= y && y < r.y + r.height
}

#[test]
fn zero_coverage_leaves_destination_unchanged() {
    let mut surface = Surface::new(4, 2);
    for i in 0..surface.data.len() {
        surface.data[i] = (10 + i) as u8;
    }
    let before = surface.data.clone();
    let layer = Layer { x: 0, y: 0, width: 4, height: 2, color: 0xC8C8C800, bitmap: vec![0u8; 8] };
    draw_layer(&layer, &mut surface);
    assert_eq!(surface.data, before);
}

#[test]
fn full_coverage_replaces_destination_with_source() {
    let mut surface = Surface::new(4, 2);
    for i in 0..surface.data.len() {
        surface.data[i] = 99;
    }
    // Stored alpha 0 is inverted to a fully opaque alpha channel of 255.
    let layer = full_cover_layer(1, 0, 2, 2, 0x11223300);
    draw_layer(&layer, &mut surface);
    for y in 0..2 {
        for x in 1..3 {
            assert_eq!(pixel(&surface, x, y), [0x11, 0x22, 0x33, 255]);
        }
    }
    assert_eq!(pixel(&surface, 0, 0), [99, 99, 99, 99]);
    assert_eq!(pixel(&surface, 3, 1), [99, 99, 99, 99]);
}

#[test]
fn half_coverage_blends_with_truncation() {
    let mut surface = Surface::new(2, 1);
    for i in 0..surface.data.len() {
        surface.data[i] = 100;
    }
    // Channels 200/200/200, stored alpha 0xFF inverted to 0.
    let layer = Layer { x: 0, y: 0, width: 1, height: 1, color: 0xC8C8C8FF, bitmap: vec![128u8] };
    draw_layer(&layer, &mut surface);
    // (100 * 127 + 200 * 128) / 255 == 150 for the colour channels,
    // (100 * 127 + 0 * 128) / 255 == 49 for the alpha channel.
    assert_eq!(pixel(&surface, 0, 0), [150, 150, 150, 49]);
    assert_eq!(pixel(&surface, 1, 0), [100, 100, 100, 100]);
}

#[test]
fn changed_render_paints_exactly_its_layers() {
    let mut data = loaded_compositor();
    let mut surface = Surface::new(CANVAS_WIDTH, CANVAS_HEIGHT);

    let first = full_cover_layer(5, 3, 10, 2, 0x11223300);
    let second = full_cover_layer(100, 50, 4, 4, 0x44556600);
    data.render(&mut surface, RenderOutcome::Changed(vec![first, second]));

    let rects = vec![
        LastLayer { width: 10, height: 2, x: 5, y: 3 },
        LastLayer { width: 4, height: 4, x: 100, y: 50 },
    ];
    assert_eq!(data.last_image, rects);

    for y in 0..CANVAS_HEIGHT {
        for x in 0..CANVAS_WIDTH {
            let p = pixel(&surface, x, y);
            if inside(x, y, &rects[0]) {
                assert_eq!(p, [0x11, 0x22, 0x33, 255]);
            } else if inside(x, y, &rects[1]) {
                assert_eq!(p, [0x44, 0x55, 0x66, 255]);
            } else {
                assert_eq!(p, [0, 0, 0, 0]);
            }
        }
    }
}

#[test]
fn changed_render_clears_previous_regions() {
    let mut data = loaded_compositor();
    let mut surface = Surface::new(CANVAS_WIDTH, CANVAS_HEIGHT);

    data.render(
        &mut surface,
        RenderOutcome::Changed(vec![full_cover_layer(5, 3, 10, 2, 0x11223300)]),
    );
    data.render(
        &mut surface,
        RenderOutcome::Changed(vec![full_cover_layer(300, 200, 6, 1, 0x44556600)]),
    );

    let rect = LastLayer { width: 6, height: 1, x: 300, y: 200 };
    assert_eq!(data.last_image, vec![rect]);
    for y in 0..CANVAS_HEIGHT {
        for x in 0..CANVAS_WIDTH {
            let p = pixel(&surface, x, y);
            if inside(x, y, &rect) {
                assert_eq!(p, [0x44, 0x55, 0x66, 255]);
            } else {
                assert_eq!(p, [0, 0, 0, 0]);
            }
        }
    }
}

#[test]
fn empty_changed_frame_clears_everything() {
    let mut data = loaded_compositor();
    let mut surface = Surface::new(CANVAS_WIDTH, CANVAS_HEIGHT);

    data.render(
        &mut surface,
        RenderOutcome::Changed(vec![full_cover_layer(5, 3, 10, 2, 0x11223300)]),
    );
    data.render(&mut surface, RenderOutcome::Changed(vec![]));

    assert!(data.last_image.is_empty());
    assert!(surface.data.iter().all(|&b| b == 0));
}

#[test]
fn unchanged_render_is_bit_identical() {
    let mut data = loaded_compositor();
    let mut surface = Surface::new(CANVAS_WIDTH, CANVAS_HEIGHT);

    data.render(
        &mut surface,
        RenderOutcome::Changed(vec![full_cover_layer(5, 3, 10, 2, 0x11223300)]),
    );
    let before = surface.data.clone();
    let regions = data.last_image.clone();

    data.render(&mut surface, RenderOutcome::Unchanged);
    assert_eq!(surface.data, before);
    assert_eq!(data.last_image, regions);

    data.render(&mut surface, RenderOutcome::Unchanged);
    assert_eq!(surface.data, before);
}

#[test]
fn later_layers_paint_over_earlier_ones() {
    let mut data = loaded_compositor();
    let mut surface = Surface::new(CANVAS_WIDTH, CANVAS_HEIGHT);

    let under = full_cover_layer(10, 10, 4, 4, 0x11223300);
    let over = full_cover_layer(12, 10, 4, 4, 0x44556600);
    data.render(&mut surface, RenderOutcome::Changed(vec![under, over]));

    assert_eq!(pixel(&surface, 11, 11), [0x11, 0x22, 0x33, 255]);
    assert_eq!(pixel(&surface, 12, 11), [0x44, 0x55, 0x66, 255]);
    assert_eq!(pixel(&surface, 15, 11), [0x44, 0x55, 0x66, 255]);
}
