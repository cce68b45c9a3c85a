use autodetect_pdf_fields::debug::{color_for_type, draw_label_tag, draw_rect, Canvas};
use autodetect_pdf_fields::labeler::{draw_numbered_box, encode_png_base64};
use autodetect_pdf_fields::output::FieldType;

fn blank(w: u32, h: u32) -> Canvas {
    Canvas::from_raw(w, h, vec![0u8; (w * h * 4) as usize]).expect("buffer fits")
}

fn pixel(raw: &[u8], w: u32, x: u32, y: u32) -> [u8; 4] {
    let i = ((y * w + x) * 4) as usize;
    [raw[i], raw[i + 1], raw[i + 2], raw[i + 3]]
}

#[test]
fn colors_per_type() {
    assert_eq!(color_for_type(FieldType::Text), [0, 120, 255, 255]);
    assert_eq!(color_for_type(FieldType::Checkbox), [0, 200, 0, 255]);
    assert_eq!(color_for_type(FieldType::Date), [200, 100, 0, 255]);
    assert_eq!(color_for_type(FieldType::Signature), [200, 0, 200, 255]);
    assert_eq!(color_for_type(FieldType::Number), [0, 180, 180, 255]);
}

#[test]
fn canvas_rejects_short_buffer() {
    assert!(Canvas::from_raw(2, 2, vec![0u8; 15]).is_none());
    assert!(Canvas::from_raw(2, 2, vec![0u8; 16]).is_some());
}

#[test]
fn rect_border_only() {
    let red = [255, 0, 0, 255];
    let mut c = blank(10, 10);
    draw_rect(&mut c, 2, 2, 5, 4, red, 1);
    assert_eq!(c.dimensions(), (10, 10));
    let raw = c.into_raw();
    for y in 0..10 {
        for x in 0..10 {
            let on_border = ((y == 2 || y == 6) && (2..=7).contains(&x))
                || ((x == 2 || x == 7) && (2..=6).contains(&y));
            let expected = if on_border { red } else { [0, 0, 0, 0] };
            assert_eq!(pixel(&raw, 10, x, y), expected, "pixel ({x}, {y})");
        }
    }
}

#[test]
fn rect_thickness_and_clipping() {
    let blue = [0, 0, 255, 255];
    let mut c = blank(6, 6);
    draw_rect(&mut c, -2, -2, 6, 6, blue, 2);
    let raw = c.into_raw();
    // Right column x = 4 and x = 3, bottom rows y = 4 and y = 3 are inside.
    assert_eq!(pixel(&raw, 6, 4, 1), blue);
    assert_eq!(pixel(&raw, 6, 3, 0), blue);
    assert_eq!(pixel(&raw, 6, 0, 4), blue);
    assert_eq!(pixel(&raw, 6, 1, 3), blue);
    assert_eq!(pixel(&raw, 6, 1, 1), [0, 0, 0, 0]);
    assert_eq!(pixel(&raw, 6, 5, 5), [0, 0, 0, 0]);
}

#[test]
fn rect_zero_thickness_draws_nothing() {
    let mut c = blank(4, 4);
    draw_rect(&mut c, 0, 0, 3, 3, [9, 9, 9, 9], 0);
    assert!(c.into_raw().iter().all(|&b| b == 0));
}

#[test]
fn rect_with_negative_sizes_draws_nothing() {
    let mut c = blank(4, 4);
    draw_rect(&mut c, 0, 0, i32::MIN, -1, [9, 9, 9, 9], 2);
    assert!(c.into_raw().iter().all(|&b| b == 0));
}

#[test]
fn label_tag_width_and_position() {
    let green = [0, 200, 0, 255];
    let mut c = blank(200, 60);
    // "checkbox": 8 letters, 8 * 7 + 50 = 106 wide, rows 30 - 19 = 11 .. 29.
    draw_label_tag(&mut c, 10, 30, FieldType::Checkbox, green);
    let raw = c.into_raw();
    assert_eq!(pixel(&raw, 200, 10, 11), green);
    assert_eq!(pixel(&raw, 200, 115, 28), green);
    assert_eq!(pixel(&raw, 200, 116, 20), [0, 0, 0, 0]);
    assert_eq!(pixel(&raw, 200, 50, 29), [0, 0, 0, 0]);
    assert_eq!(pixel(&raw, 200, 50, 10), [0, 0, 0, 0]);
}

#[test]
fn label_tag_clamped_at_top() {
    let c0 = [1, 2, 3, 4];
    let mut c = blank(100, 40);
    draw_label_tag(&mut c, 0, 5, FieldType::Text, c0);
    let raw = c.into_raw();
    assert_eq!(pixel(&raw, 100, 0, 0), c0);
    assert_eq!(pixel(&raw, 100, 77, 17), c0);
    assert_eq!(pixel(&raw, 100, 78, 0), [0, 0, 0, 0]);
    assert_eq!(pixel(&raw, 100, 0, 18), [0, 0, 0, 0]);
}

#[test]
fn numbered_box_border_and_tag() {
    let red = [255, 0, 0, 255];
    let mut c = blank(40, 40);
    draw_numbered_box(&mut c, 5, 20, 10, 5, red, 1);
    let raw = c.into_raw();
    assert_eq!(pixel(&raw, 40, 5, 20), red);
    assert_eq!(pixel(&raw, 40, 15, 25), red);
    assert_eq!(pixel(&raw, 40, 10, 22), [0, 0, 0, 0]);
    // Tag: rows 3..19, columns 5..25.
    assert_eq!(pixel(&raw, 40, 24, 3), red);
    assert_eq!(pixel(&raw, 40, 24, 18), red);
    assert_eq!(pixel(&raw, 40, 25, 10), [0, 0, 0, 0]);
    assert_eq!(pixel(&raw, 40, 10, 2), [0, 0, 0, 0]);
}

#[test]
fn png_base64_of_canvas() {
    let c = blank(2, 2);
    let encoded = encode_png_base64(&c).ok().expect("encodes");
    // The PNG signature, 89 50 4E 47 0D 0A 1A 0A, in base64.
    assert!(encoded.starts_with("iVBORw0KGgo"));
    assert!(encoded.len() % 4 == 0);
}
