//! Drawing the detected fields onto a rendered page.
use vstd::prelude::*;
use crate::output::FieldType;

verus! {

/// An RGBA image to draw on: `image::RgbaImage` held behind the wrappers
/// below, which state what each call does to its pixels.
#[verifier::external_body]
pub struct Canvas {
    image: image::RgbaImage,
}

#[verifier::external_type_specification]
#[verifier::external_body]
pub struct ExImageError(image::ImageError);

/// The PNG file that the image crate writes for an RGBA image with these
/// pixels and this size.
pub uninterp spec fn png_encoding(pixels: Map<(u32, u32), Seq<u8>>, size: (u32, u32)) -> Seq<u8>;

/// The pixels of a canvas: the four channels at each `(x, y)`.
pub uninterp spec fn canvas_pixels(c: Canvas) -> Map<(u32, u32), Seq<u8>>;

/// The width and height that a canvas was made with.
pub uninterp spec fn canvas_size(c: Canvas) -> (u32, u32);

/// The pixels that a row-major RGBA buffer of the given size holds: pixel
/// `(x, y)` is the four bytes from `4 * (y * width + x)` on.
pub open spec fn raw_pixels(data: Seq<u8>, size: (u32, u32)) -> Map<(u32, u32), Seq<u8>> {
    Map::new(
        |k: (u32, u32)| k.0 < size.0 && k.1 < size.1,
        |k: (u32, u32)| data.subrange(4 * (k.1 * size.0 + k.0), 4 * (k.1 * size.0 + k.0) + 4),
    )
}

impl Canvas {
    /// `ImageBuffer::from_raw` for RGBA pixels: a canvas over the row-major
    /// buffer `data`, or `None` when `data` is shorter than `4 * width *
    /// height` bytes.
    #[verifier::external_body]
    fn wrap_raw(width: u32, height: u32, data: Vec<u8>) -> (c: Option<Canvas>)
        ensures
            c is Some <==> 4 * width * height <= data@.len(),
            c matches Some(c) ==> canvas_size(c) == (width, height) && canvas_pixels(c)
                == raw_pixels(data@, (width, height)),
    {
        image::RgbaImage::from_raw(width, height, data).map(|image| Canvas { image })
    }

    /// `ImageBuffer::into_raw`: the row-major buffer behind the canvas. What
    /// it holds past the canvas's `4 * width * height` bytes is left unsaid.
    #[verifier::external_body]
    fn unwrap_raw(self) -> (data: Vec<u8>)
        ensures
            4 * canvas_size(self).0 * canvas_size(self).1 <= data@.len(),
            raw_pixels(data@, canvas_size(self)) == canvas_pixels(self),
    {
        self.image.into_raw()
    }

    /// `ImageBuffer::write_to` with `ImageFormat::Png` into an in-memory
    /// buffer: the PNG file of the canvas. The PNG encoder refuses an image of
    /// zero width or height and nothing else for 8-bit RGBA.
    #[verifier::external_body]
    pub(crate) fn encode_png(&self) -> (r: Result<Vec<u8>, image::ImageError>)
        ensures
            r is Ok <==> (canvas_size(*self).0 > 0 && canvas_size(*self).1 > 0),
            r matches Ok(bytes) ==> bytes@ == png_encoding(canvas_pixels(*self), canvas_size(*self)),
    {
        let mut buf = std::io::Cursor::new(Vec::new());
        self.image.write_to(&mut buf, image::ImageFormat::Png).map(|_| buf.into_inner())
    }

    /// A canvas over the row-major RGBA buffer `data` of the given size, or
    /// `None` when `data` is shorter than `4 * width * height` bytes.
    pub fn from_raw(width: u32, height: u32, data: Vec<u8>) -> (c: Option<Canvas>)
        ensures
            c is Some <==> 4 * width * height <= data@.len(),
            c matches Some(c) ==> canvas_size(c) == (width, height) && canvas_pixels(c)
                == raw_pixels(data@, (width, height)),
    {
        Canvas::wrap_raw(width, height, data)
    }

    /// The row-major RGBA buffer behind the canvas, holding its pixels.
    pub fn into_raw(self) -> (data: Vec<u8>)
        ensures
            4 * canvas_size(self).0 * canvas_size(self).1 <= data@.len(),
            raw_pixels(data@, canvas_size(self)) == canvas_pixels(self),
    {
        self.unwrap_raw()
    }

    /// The canvas's width and height.
    pub fn dimensions(&self) -> (d: (u32, u32))
        ensures
            d == canvas_size(*self),
    {
        (self.width(), self.height())
    }

    /// `ImageBuffer::width`: the canvas's width.
    #[verifier::external_body]
    fn width(&self) -> (w: u32)
        ensures
            w == canvas_size(*self).0,
    {
        self.image.width()
    }

    /// `ImageBuffer::height`: the canvas's height.
    #[verifier::external_body]
    fn height(&self) -> (h: u32)
        ensures
            h == canvas_size(*self).1,
    {
        self.image.height()
    }

    /// `ImageBuffer::put_pixel`: sets the pixel at `(x, y)` to `color` and
    /// leaves the size and every other pixel as they were. It panics outside
    /// the canvas, which the `requires` rules out.
    #[verifier::external_body]
    fn put_pixel(&mut self, x: u32, y: u32, color: [u8; 4])
        requires
            x < canvas_size(*old(self)).0,
            y < canvas_size(*old(self)).1,
        ensures
            canvas_size(*final(self)) == canvas_size(*old(self)),
            canvas_pixels(*final(self)) == canvas_pixels(*old(self)).insert((x, y), color@),
    {
        self.image.put_pixel(x, y, image::Rgba(color))
    }
}

/// Whether `(px, py)` lies inside an image of size `size`, tested as the
/// drawing code tests it: against the width and height taken as `i32`.
pub open spec fn inside(size: (u32, u32), px: int, py: int) -> bool {
    &&& 0 <= px < (size.0 as i32)
    &&& 0 <= py < (size.1 as i32)
}

/// The pixels `m` with every point of `region` that lies inside the image
/// set to `color`.
pub open spec fn painted(
    m: Map<(u32, u32), Seq<u8>>,
    size: (u32, u32),
    region: spec_fn(int, int) -> bool,
    color: [u8; 4],
) -> Map<(u32, u32), Seq<u8>> {
    m.union_prefer_right(
        Map::new(
            |k: (u32, u32)| inside(size, k.0 as int, k.1 as int) && region(k.0 as int, k.1 as int),
            |k: (u32, u32)| color@,
        ),
    )
}

/// The union of two regions.
pub open spec fn either(r1: spec_fn(int, int) -> bool, r2: spec_fn(int, int) -> bool) -> spec_fn(
    int,
    int,
) -> bool {
    |a: int, b: int| r1(a, b) || r2(a, b)
}

/// The horizontal run of points `from..=to` on row `py`.
pub open spec fn row_run(from: int, to: int, py: int) -> spec_fn(int, int) -> bool {
    |a: int, b: int| from <= a <= to && b == py
}

/// The vertical run of points `from..=to` in column `px`.
pub open spec fn column_run(px: int, from: int, to: int) -> spec_fn(int, int) -> bool {
    |a: int, b: int| a == px && from <= b <= to
}

/// A size taken as `i32` is the size itself, or negative when it does not fit.
pub proof fn lemma_size_as_i32(d: u32)
    ensures
        (d as i32) as int == d as int || (d as i32) < 0,
{
    if d > 0x7fff_ffff {
        assert((d as i32) < 0) by (bit_vector)
            requires
                d > 0x7fff_ffff,
        ;
    }
}

/// Painting changes exactly the points of the region that lie inside the
/// image: those take the color, every other pixel keeps its value.
pub proof fn lemma_painted_pixel(
    m: Map<(u32, u32), Seq<u8>>,
    size: (u32, u32),
    region: spec_fn(int, int) -> bool,
    color: [u8; 4],
    k: (u32, u32),
)
    ensures
        (inside(size, k.0 as int, k.1 as int) && region(k.0 as int, k.1 as int)) ==> painted(
            m,
            size,
            region,
            color,
        )[k] == color@,
        !(inside(size, k.0 as int, k.1 as int) && region(k.0 as int, k.1 as int)) ==> (painted(
            m,
            size,
            region,
            color,
        ).dom().contains(k) == m.dom().contains(k) && (m.dom().contains(k) ==> painted(
            m,
            size,
            region,
            color,
        )[k] == m[k])),
{
}

/// Painting two regions one after the other paints their union.
pub proof fn lemma_painted_twice(
    m: Map<(u32, u32), Seq<u8>>,
    size: (u32, u32),
    r1: spec_fn(int, int) -> bool,
    r2: spec_fn(int, int) -> bool,
    color: [u8; 4],
)
    ensures
        painted(painted(m, size, r1, color), size, r2, color) == painted(m, size, either(r1, r2), color),
{
    assert(painted(painted(m, size, r1, color), size, r2, color) =~= painted(
        m,
        size,
        either(r1, r2),
        color,
    ));
}

/// Painting a region that holds the same points as another paints the same.
pub proof fn lemma_painted_same_region(
    m: Map<(u32, u32), Seq<u8>>,
    size: (u32, u32),
    r1: spec_fn(int, int) -> bool,
    r2: spec_fn(int, int) -> bool,
    color: [u8; 4],
)
    requires
        forall|a: int, b: int| #[trigger] r1(a, b) == r2(a, b),
    ensures
        painted(m, size, r1, color) == painted(m, size, r2, color),
{
    assert(painted(m, size, r1, color) =~= painted(m, size, r2, color));
}

/// Sets the pixel at `(px, py)` to `color` where it lies inside the image.
fn put_pixel_if_inside(img: &mut Canvas, px: i32, py: i32, color: [u8; 4])
    ensures
        canvas_size(*final(img)) == canvas_size(*old(img)),
        canvas_pixels(*final(img)) == painted(
            canvas_pixels(*old(img)),
            canvas_size(*old(img)),
            |a: int, b: int| a == px && b == py,
            color,
        ),
{
    let ghost size = canvas_size(*img);
    let ghost m = canvas_pixels(*img);
    let img_w = img.width() as i32;
    let img_h = img.height() as i32;
    proof {
        lemma_size_as_i32(size.0);
        lemma_size_as_i32(size.1);
    }
    if px >= 0 && px < img_w && py >= 0 && py < img_h {
        img.put_pixel(px as u32, py as u32, color);
        assert(canvas_pixels(*img) =~= painted(m, size, |a: int, b: int| a == px && b == py, color));
    } else {
        assert(m =~= painted(m, size, |a: int, b: int| a == px && b == py, color));
    }
}

/// Paints the points `from..=to` of row `py` that lie inside the image.
fn paint_row(img: &mut Canvas, from: i32, to: i32, py: i32, color: [u8; 4])
    ensures
        canvas_size(*final(img)) == canvas_size(*old(img)),
        canvas_pixels(*final(img)) == painted(
            canvas_pixels(*old(img)),
            canvas_size(*old(img)),
            row_run(from as int, to as int, py as int),
            color,
        ),
{
    let ghost size = canvas_size(*img);
    let ghost m = canvas_pixels(*img);
    if from > to {
        assert(m =~= painted(m, size, row_run(from as int, to as int, py as int), color));
        return;
    }
    let mut px = from;
    while px < to
        invariant
            from <= px <= to,
            canvas_size(*img) == size,
            canvas_pixels(*img) == painted(m, size, row_run(from as int, px - 1, py as int), color),
        decreases to - px,
    {
        put_pixel_if_inside(img, px, py, color);
        proof {
            lemma_painted_twice(
                m,
                size,
                row_run(from as int, px - 1, py as int),
                |a: int, b: int| a == px && b == py,
                color,
            );
            lemma_painted_same_region(
                m,
                size,
                either(row_run(from as int, px - 1, py as int), |a: int, b: int| a == px && b == py),
                row_run(from as int, px as int, py as int),
                color,
            );
        }
        px += 1;
    }
    put_pixel_if_inside(img, to, py, color);
    proof {
        lemma_painted_twice(
            m,
            size,
            row_run(from as int, to - 1, py as int),
            |a: int, b: int| a == to && b == py,
            color,
        );
        lemma_painted_same_region(
            m,
            size,
            either(row_run(from as int, to - 1, py as int), |a: int, b: int| a == to && b == py),
            row_run(from as int, to as int, py as int),
            color,
        );
    }
}

/// Paints the points `from..=to` of column `px` that lie inside the image.
fn paint_column(img: &mut Canvas, px: i32, from: i32, to: i32, color: [u8; 4])
    ensures
        canvas_size(*final(img)) == canvas_size(*old(img)),
        canvas_pixels(*final(img)) == painted(
            canvas_pixels(*old(img)),
            canvas_size(*old(img)),
            column_run(px as int, from as int, to as int),
            color,
        ),
{
    let ghost size = canvas_size(*img);
    let ghost m = canvas_pixels(*img);
    if from > to {
        assert(m =~= painted(m, size, column_run(px as int, from as int, to as int), color));
        return;
    }
    let mut py = from;
    while py < to
        invariant
            from <= py <= to,
            canvas_size(*img) == size,
            canvas_pixels(*img) == painted(m, size, column_run(px as int, from as int, py - 1), color),
        decreases to - py,
    {
        put_pixel_if_inside(img, px, py, color);
        proof {
            lemma_painted_twice(
                m,
                size,
                column_run(px as int, from as int, py - 1),
                |a: int, b: int| a == px && b == py,
                color,
            );
            lemma_painted_same_region(
                m,
                size,
                either(column_run(px as int, from as int, py - 1), |a: int, b: int| a == px && b == py),
                column_run(px as int, from as int, py as int),
                color,
            );
        }
        py += 1;
    }
    put_pixel_if_inside(img, px, to, color);
    proof {
        lemma_painted_twice(
            m,
            size,
            column_run(px as int, from as int, to - 1),
            |a: int, b: int| a == px && b == to,
            color,
        );
        lemma_painted_same_region(
            m,
            size,
            either(column_run(px as int, from as int, to - 1), |a: int, b: int| a == px && b == to),
            column_run(px as int, from as int, to as int),
            color,
        );
    }
}

/// The color in which fields of each type are drawn.
pub open spec fn type_color(t: FieldType) -> Seq<u8> {
    match t {
        FieldType::Text => seq![0u8, 120u8, 255u8, 255u8],
        FieldType::Checkbox => seq![0u8, 200u8, 0u8, 255u8],
        FieldType::Date => seq![200u8, 100u8, 0u8, 255u8],
        FieldType::Signature => seq![200u8, 0u8, 200u8, 255u8],
        FieldType::Number => seq![0u8, 180u8, 180u8, 255u8],
    }
}

/// The color (red, green, blue, alpha) in which fields of a type are drawn.
pub fn color_for_type(field_type: FieldType) -> (c: [u8; 4])
    ensures
        c@ == type_color(field_type),
{
    let c: [u8; 4] = match field_type {
        FieldType::Text => [0, 120, 255, 255],
        FieldType::Checkbox => [0, 200, 0, 255],
        FieldType::Date => [200, 100, 0, 255],
        FieldType::Signature => [200, 0, 200, 255],
        FieldType::Number => [0, 180, 180, 255],
    };
    assert(c@ =~= type_color(field_type));
    c
}

/// The border of thickness `thickness` of the box from `(x, y)` to
/// `(x + w, y + h)`: the rows `y + t` and `y + h - t` between `x` and
/// `x + w`, and the columns `x + t` and `x + w - t` between `y` and `y + h`,
/// for each `t` below the thickness.
pub open spec fn rect_border(x: int, y: int, w: int, h: int, thickness: int) -> spec_fn(
    int,
    int,
) -> bool {
    |a: int, b: int|
        (x <= a <= x + w && ((0 <= b - y < thickness) || (0 <= y + h - b < thickness))) || (y <= b
            <= y + h && ((0 <= a - x < thickness) || (0 <= x + w - a < thickness)))
}

/// The coordinates that drawing the border computes fit in `i32`: the far
/// corner always; the rows `y + t` and `y + h - t` only when there are rows
/// to draw (`w >= 0`), the columns `x + t` and `x + w - t` only when there
/// are columns to draw (`h >= 0`).
pub open spec fn rect_fits(x: i32, y: i32, w: i32, h: i32, thickness: i32) -> bool {
    thickness <= 0 || {
        &&& i32::MIN <= x + w <= i32::MAX
        &&& i32::MIN <= y + h <= i32::MAX
        &&& w >= 0 ==> (y + thickness - 1 <= i32::MAX && i32::MIN <= y + h - (thickness - 1))
        &&& h >= 0 ==> (x + thickness - 1 <= i32::MAX && i32::MIN <= x + w - (thickness - 1))
    }
}

/// The rows `y + t` and `y + h - t` of the border, between `x` and `x + w`.
pub open spec fn border_rows(x: int, y: int, w: int, h: int, t: int) -> spec_fn(int, int) -> bool {
    |a: int, b: int| x <= a <= x + w && (b == y + t || b == y + h - t)
}

/// The columns `x + t` and `x + w - t` of the border, between `y` and `y + h`.
pub open spec fn border_columns(x: int, y: int, w: int, h: int, t: int) -> spec_fn(int, int) -> bool {
    |a: int, b: int| y <= b <= y + h && (a == x + t || a == x + w - t)
}

/// The points `(a, b)` with `x0 <= a < x1` and `y0 <= b < y1`.
pub open spec fn block(x0: int, x1: int, y0: int, y1: int) -> spec_fn(int, int) -> bool {
    |a: int, b: int| x0 <= a < x1 && y0 <= b < y1
}

/// Draws the border of a box onto the canvas: for each `t` below the
/// thickness, the top row, the bottom row, the left and the right column,
/// clipped to the canvas.
pub fn draw_rect(img: &mut Canvas, x: i32, y: i32, w: i32, h: i32, color: [u8; 4], thickness: i32)
    requires
        rect_fits(x, y, w, h, thickness),
    ensures
        canvas_size(*final(img)) == canvas_size(*old(img)),
        canvas_pixels(*final(img)) == painted(
            canvas_pixels(*old(img)),
            canvas_size(*old(img)),
            rect_border(x as int, y as int, w as int, h as int, thickness as int),
            color,
        ),
{
    let ghost size = canvas_size(*img);
    let ghost m = canvas_pixels(*img);
    proof {
        lemma_painted_same_region(m, size, |a: int, b: int| false, rect_border(x as int, y as int, w as int, h as int, 0), color);
        assert(m =~= painted(m, size, |a: int, b: int| false, color));
    }
    let mut t: i32 = 0;
    while t < thickness
        invariant
            0 <= t,
            t == 0 || t <= thickness,
            rect_fits(x, y, w, h, thickness),
            canvas_size(*img) == size,
            canvas_pixels(*img) == painted(m, size, rect_border(x as int, y as int, w as int, h as int, t as int), color),
        decreases thickness - t,
    {
        let ghost done = rect_border(x as int, y as int, w as int, h as int, t as int);
        let ghost rows = border_rows(x as int, y as int, w as int, h as int, t as int);
        let ghost columns = border_columns(x as int, y as int, w as int, h as int, t as int);
        let xe = x + w;
        let ye = y + h;
        if x <= xe {
            let ghost top = row_run(x as int, x + w, y + t);
            let ghost bottom = row_run(x as int, x + w, y + h - t);
            paint_row(img, x, xe, y + t, color);
            paint_row(img, x, xe, ye - t, color);
            proof {
                lemma_painted_twice(m, size, done, top, color);
                lemma_painted_twice(m, size, either(done, top), bottom, color);
                lemma_painted_same_region(m, size, either(either(done, top), bottom), either(done, rows), color);
            }
        } else {
            proof {
                lemma_painted_same_region(m, size, done, either(done, rows), color);
            }
        }
        if y <= ye {
            let ghost left = column_run(x + t, y as int, y + h);
            let ghost right = column_run(x + w - t, y as int, y + h);
            paint_column(img, x + t, y, ye, color);
            paint_column(img, xe - t, y, ye, color);
            proof {
                lemma_painted_twice(m, size, either(done, rows), left, color);
                lemma_painted_twice(m, size, either(either(done, rows), left), right, color);
                lemma_painted_same_region(
                    m,
                    size,
                    either(either(either(done, rows), left), right),
                    either(either(done, rows), columns),
                    color,
                );
            }
        } else {
            proof {
                lemma_painted_same_region(m, size, either(done, rows), either(either(done, rows), columns), color);
            }
        }
        proof {
            lemma_painted_same_region(
                m,
                size,
                either(either(done, rows), columns),
                rect_border(x as int, y as int, w as int, h as int, t + 1),
                color,
            );
        }
        t += 1;
    }
    proof {
        if thickness <= 0 {
            lemma_painted_same_region(m, size, rect_border(x as int, y as int, w as int, h as int, 0), rect_border(x as int, y as int, w as int, h as int, thickness as int), color);
        }
    }
}

/// Fills the points of the block `x0..x1` by `y0..y1` that lie inside the
/// canvas, walking the rows and columns clipped to the canvas.
pub fn fill_block(img: &mut Canvas, x0: i32, x1: i32, y0: i32, y1: i32, color: [u8; 4])
    ensures
        canvas_size(*final(img)) == canvas_size(*old(img)),
        canvas_pixels(*final(img)) == painted(
            canvas_pixels(*old(img)),
            canvas_size(*old(img)),
            block(x0 as int, x1 as int, y0 as int, y1 as int),
            color,
        ),
{
    let ghost size = canvas_size(*img);
    let ghost m = canvas_pixels(*img);
    let img_w = img.width() as i32;
    let img_h = img.height() as i32;
    let xs = if x0 < 0 { 0 } else { x0 };
    let xe = if x1 < img_w { x1 } else { img_w };
    let ys = if y0 < 0 { 0 } else { y0 };
    let ye = if y1 < img_h { y1 } else { img_h };
    proof {
        lemma_painted_same_region(m, size, |a: int, b: int| false, block(xs as int, xe as int, ys as int, ys as int), color);
        assert(m =~= painted(m, size, |a: int, b: int| false, color));
    }
    let mut py = ys;
    while py < ye
        invariant
            ys <= py,
            py <= ye || py == ys,
            canvas_size(*img) == size,
            canvas_pixels(*img) == painted(m, size, block(xs as int, xe as int, ys as int, py as int), color),
        decreases ye - py,
    {
        let mut px = xs;
        while px < xe
            invariant
                ys <= py < ye,
                xs <= px,
                px <= xe || px == xs,
                canvas_size(*img) == size,
                canvas_pixels(*img) == painted(
                    m,
                    size,
                    either(block(xs as int, xe as int, ys as int, py as int), block(xs as int, px as int, py as int, py + 1)),
                    color,
                ),
            decreases xe - px,
        {
            put_pixel_if_inside(img, px, py, color);
            proof {
                let before = either(block(xs as int, xe as int, ys as int, py as int), block(xs as int, px as int, py as int, py + 1));
                lemma_painted_twice(m, size, before, |a: int, b: int| a == px && b == py, color);
                lemma_painted_same_region(
                    m,
                    size,
                    either(before, |a: int, b: int| a == px && b == py),
                    either(block(xs as int, xe as int, ys as int, py as int), block(xs as int, px + 1, py as int, py + 1)),
                    color,
                );
            }
            px += 1;
        }
        proof {
            lemma_painted_same_region(
                m,
                size,
                either(block(xs as int, xe as int, ys as int, py as int), block(xs as int, px as int, py as int, py + 1)),
                block(xs as int, xe as int, ys as int, py + 1),
                color,
            );
        }
        py += 1;
    }
    proof {
        lemma_size_as_i32(size.0);
        lemma_size_as_i32(size.1);
        assert(painted(m, size, block(xs as int, xe as int, ys as int, py as int), color) =~= painted(
            m,
            size,
            block(x0 as int, x1 as int, y0 as int, y1 as int),
            color,
        ));
    }
}

/// The width of the tag drawn above a field of a type: seven pixels per
/// letter of the type's name plus fifty, and at least sixty.
pub open spec fn tag_width(t: FieldType) -> int {
    let w = crate::output::field_type_name(t).len() as int * 7 + 50;
    if w < 60 {
        60
    } else {
        w
    }
}

/// Draws the filled tag above a field's box: `tag_width` wide, 18 pixels
/// high, its bottom one pixel above `y` (its top clamped at row 0).
pub fn draw_label_tag(img: &mut Canvas, x: i32, y: i32, field_type: FieldType, color: [u8; 4])
    requires
        i32::MIN <= y - 19,
        x + tag_width(field_type) <= i32::MAX,
    ensures
        canvas_size(*final(img)) == canvas_size(*old(img)),
        canvas_pixels(*final(img)) == painted(
            canvas_pixels(*old(img)),
            canvas_size(*old(img)),
            block(
                x as int,
                x + tag_width(field_type),
                if y - 19 < 0 { 0 } else { y - 19 },
                (if y - 19 < 0 { 0 } else { y - 19 }) + 18,
            ),
            color,
        ),
{
    let label = field_type.name();
    proof {
        vstd::string::is_ascii_spec_bytes(label);
        reveal_strlit("text");
        reveal_strlit("checkbox");
        reveal_strlit("date");
        reveal_strlit("signature");
        reveal_strlit("number");
    }
    let letters = label.len() as i32;
    let tag_w = if letters * 7 + 50 < 60 { 60 } else { letters * 7 + 50 };
    let tag_h: i32 = 18;
    let tag_y = if y - tag_h - 1 < 0 { 0 } else { y - tag_h - 1 };
    fill_block(img, x, x + tag_w, tag_y, tag_y + tag_h, color);
}

} // verus!
