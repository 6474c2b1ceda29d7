//! The regions of the picture in which a curve is drawn.

use vstd::prelude::*;

verus! {

/// The pixels `x0 <= x < x1`, `y0 <= y < y1`.
#[derive(Clone, Copy, Debug, PartialEq, Eq, Structural)]
pub struct Rectangle {
    pub x0: u32,
    pub y0: u32,
    pub x1: u32,
    pub y1: u32,
}

impl Rectangle {
    /// The rectangle with the given corners.
    pub fn new(x0: u32, y0: u32, x1: u32, y1: u32) -> (r: Self)
        ensures
            r == (Rectangle { x0, y0, x1, y1 }),
    {
        Rectangle { x0, y0, x1, y1 }
    }

    /// The number of pixels.
    pub fn size(&self) -> (r: u32)
        requires
            self.x0 <= self.x1,
            self.y0 <= self.y1,
            (self.y1 - self.y0) * (self.x1 - self.x0) <= u32::MAX,
        ensures
            r == (self.y1 - self.y0) * (self.x1 - self.x0),
    {
        (self.y1 - self.y0) * (self.x1 - self.x0)
    }

    /// The four quarters cut at the middle of each side, rounding down:
    /// top left, top right, bottom left, bottom right.
    pub fn subdivide(&self) -> (r: [Rectangle; 4])
        requires
            self.x0 + self.x1 <= u32::MAX,
            self.y0 + self.y1 <= u32::MAX,
        ensures
            ({
                let xm = ((self.x0 + self.x1) / 2) as u32;
                let ym = ((self.y0 + self.y1) / 2) as u32;
                &&& r@[0] == (Rectangle { x0: self.x0, y0: self.y0, x1: xm, y1: ym })
                &&& r@[1] == (Rectangle { x0: xm, y0: self.y0, x1: self.x1, y1: ym })
                &&& r@[2] == (Rectangle { x0: self.x0, y0: ym, x1: xm, y1: self.y1 })
                &&& r@[3] == (Rectangle { x0: xm, y0: ym, x1: self.x1, y1: self.y1 })
            }),
    {
        let x_mid = (self.x0 + self.x1) / 2;
        let y_mid = (self.y0 + self.y1) / 2;
        [
            Rectangle::new(self.x0, self.y0, x_mid, y_mid),
            Rectangle::new(x_mid, self.y0, self.x1, y_mid),
            Rectangle::new(self.x0, y_mid, x_mid, self.y1),
            Rectangle::new(x_mid, y_mid, self.x1, self.y1),
        ]
    }
}

/// A colour by its red, green and blue parts.
#[derive(Clone, Copy, Debug, PartialEq, Eq, Structural)]
pub struct Color {
    pub r: u8,
    pub g: u8,
    pub b: u8,
}

impl Color {
    /// The colour with the given parts.
    pub fn new(r: u8, g: u8, b: u8) -> (c: Self)
        ensures
            c == (Color { r, g, b }),
    {
        Color { r, g, b }
    }
}


/// The colour of the last entry for the pixel `(x, y)`, if any.
pub open spec fn last_color(ps: Seq<(u32, u32, Color)>, x: u32, y: u32) -> Option<Color>
    decreases ps.len(),
{
    if ps.len() == 0 {
        None
    } else if ps.last().0 == x && ps.last().1 == y {
        Some(ps.last().2)
    } else {
        last_color(ps.drop_last(), x, y)
    }
}

/// The three bytes of a pixel in blue, green, red order; white where no
/// colour is given.
pub open spec fn pixel_bytes(c: Option<Color>) -> Seq<u8> {
    match c {
        Some(c) => seq![c.b, c.g, c.r],
        None => seq![255u8, 255u8, 255u8],
    }
}

/// A number below `2^32` as four bytes, least significant first.
pub open spec fn le32(n: int) -> Seq<u8> {
    seq![(n % 256) as u8, ((n / 256) % 256) as u8, ((n / 65536) % 256) as u8, ((n / 16777216) % 256) as u8]
}

/// The 54 bytes of the header of a 24-bit BMP picture of `w` by `h` pixels.
pub open spec fn bmp_header(w: int, h: int) -> Seq<u8> {
    seq![0x42u8, 0x4Du8] + le32(54 + 3 * w * h) + seq![0u8, 0u8, 0u8, 0u8, 0x36u8, 0u8, 0u8, 0u8, 0x28u8, 0u8, 0u8, 0u8]
        + le32(w) + le32(h) + seq![
        1u8, 0u8, 0x18u8, 0u8, 0u8, 0u8, 0u8, 0u8, 0u8, 0u8, 0u8, 0u8, 0x13u8, 0x0Bu8, 0u8, 0u8, 0x13u8, 0x0Bu8, 0u8, 0u8,
        0u8, 0u8, 0u8, 0u8, 0u8, 0u8, 0u8, 0u8
    ]
}

/// The pixels `0 <= x < n` of row `y`.
pub open spec fn row_bytes(ps: Seq<(u32, u32, Color)>, y: u32, n: nat) -> Seq<u8>
    decreases n,
{
    if n == 0 {
        Seq::empty()
    } else {
        row_bytes(ps, y, (n - 1) as nat) + pixel_bytes(last_color(ps, (n - 1) as u32, y))
    }
}

/// The first `k` rows of the picture, the bottom row first (rows `h - 1`
/// down to `h - k`).
pub open spec fn image_rows(ps: Seq<(u32, u32, Color)>, w: nat, h: nat, k: nat) -> Seq<u8>
    decreases k,
{
    if k == 0 {
        Seq::empty()
    } else {
        image_rows(ps, w, h, (k - 1) as nat) + row_bytes(ps, (h - k) as u32, w)
    }
}

/// The bytes of the BMP picture of `w` by `h` pixels in which pixel `(x, y)`
/// has the colour of the last entry for it in `ps`, white where none.
pub open spec fn bmp_bytes(w: u32, h: u32, ps: Seq<(u32, u32, Color)>) -> Seq<u8> {
    bmp_header(w as int, h as int) + image_rows(ps, w as nat, h as nat, h as nat)
}

/// The colour of the last entry for the pixel `(x, y)`.
fn find_last_color(ps: &Vec<(u32, u32, Color)>, x: u32, y: u32) -> (r: Option<Color>)
    ensures
        r == last_color(ps@, x, y),
{
    let mut i: usize = ps.len();
    assert(ps@.take(i as int) =~= ps@);
    while i > 0
        invariant
            i <= ps@.len(),
            last_color(ps@.take(i as int), x, y) == last_color(ps@, x, y),
        decreases i,
    {
        let e = ps[i - 1];
        assert(ps@.take(i as int).drop_last() =~= ps@.take(i - 1));
        if e.0 == x && e.1 == y {
            return Some(e.2);
        }
        i = i - 1;
    }
    None
}

/// Appends `n` as four bytes, least significant first.
fn push_le32(out: &mut Vec<u8>, n: u32)
    ensures
        final(out)@ == old(out)@ + le32(n as int),
{
    out.push((n % 256) as u8);
    out.push(((n / 256) % 256) as u8);
    out.push(((n / 65536) % 256) as u8);
    out.push(((n / 16777216) % 256) as u8);
}

/// The bytes of a 24-bit BMP picture of `width` by `height` pixels: the
/// header, then the rows from the bottom up, each pixel in blue, green, red
/// order; a pixel takes the colour of the last entry for it in `pixels`, and
/// is white where there is none.
pub fn bmp_image(width: u32, height: u32, pixels: &Vec<(u32, u32, Color)>) -> (r: Vec<u8>)
    requires
        54 + 3 * width * height <= u32::MAX,
    ensures
        r@ == bmp_bytes(width, height, pixels@),
{
    let mut out: Vec<u8> = Vec::new();
    out.push(0x42);
    out.push(0x4D);
    let file_size = (54 + 3 * (width as u64) * (height as u64)) as u32;
    push_le32(&mut out, file_size);
    let fixed1: [u8; 12] = [0, 0, 0, 0, 0x36, 0, 0, 0, 0x28, 0, 0, 0];
    let mut k: usize = 0;
    let ghost start = out@;
    while k < 12
        invariant
            k <= 12,
            out@ == start + fixed1@.take(k as int),
        decreases 12 - k,
    {
        out.push(fixed1[k]);
        assert(fixed1@.take(k as int + 1) =~= fixed1@.take(k as int).push(fixed1@[k as int]));
        k = k + 1;
    }
    push_le32(&mut out, width);
    push_le32(&mut out, height);
    let fixed2: [u8; 28] = [
        1, 0, 0x18, 0, 0, 0, 0, 0, 0, 0, 0, 0, 0x13, 0x0B, 0, 0, 0x13, 0x0B, 0, 0, 0, 0, 0, 0, 0, 0, 0, 0,
    ];
    let ghost start2 = out@;
    k = 0;
    while k < 28
        invariant
            k <= 28,
            out@ == start2 + fixed2@.take(k as int),
        decreases 28 - k,
    {
        out.push(fixed2[k]);
        assert(fixed2@.take(k as int + 1) =~= fixed2@.take(k as int).push(fixed2@[k as int]));
        k = k + 1;
    }
    proof {
        assert(fixed1@.take(12) =~= fixed1@);
        assert(fixed2@.take(28) =~= fixed2@);
        assert(fixed1@ =~= seq![0u8, 0u8, 0u8, 0u8, 0x36u8, 0u8, 0u8, 0u8, 0x28u8, 0u8, 0u8, 0u8]);
        assert(fixed2@ =~= seq![
            1u8, 0u8, 0x18u8, 0u8, 0u8, 0u8, 0u8, 0u8, 0u8, 0u8, 0u8, 0u8, 0x13u8, 0x0Bu8, 0u8, 0u8, 0x13u8, 0x0Bu8, 0u8,
            0u8, 0u8, 0u8, 0u8, 0u8, 0u8, 0u8, 0u8, 0u8
        ]);
        assert(file_size as int == 54 + 3 * width * height);
        assert(out@ =~= bmp_header(width as int, height as int));
    }
    let ghost header = out@;
    let mut rows: u32 = 0;
    while rows < height
        invariant
            rows <= height,
            out@ == header + image_rows(pixels@, width as nat, height as nat, rows as nat),
        decreases height - rows,
    {
        let y = height - 1 - rows;
        let ghost before = out@;
        let mut x: u32 = 0;
        while x < width
            invariant
                x <= width,
                y == height - 1 - rows,
                out@ == before + row_bytes(pixels@, y, x as nat),
            decreases width - x,
        {
            let c = find_last_color(pixels, x, y);
            match c {
                Some(col) => {
                    out.push(col.b);
                    out.push(col.g);
                    out.push(col.r);
                },
                None => {
                    out.push(255);
                    out.push(255);
                    out.push(255);
                },
            }
            proof {
                assert(row_bytes(pixels@, y, (x + 1) as nat) == row_bytes(pixels@, y, x as nat) + pixel_bytes(
                    last_color(pixels@, x, y),
                ));
                assert(out@ =~= before + row_bytes(pixels@, y, (x + 1) as nat));
            }
            x = x + 1;
        }
        proof {
            assert(image_rows(pixels@, width as nat, height as nat, (rows + 1) as nat) == image_rows(
                pixels@,
                width as nat,
                height as nat,
                rows as nat,
            ) + row_bytes(pixels@, y, width as nat));
            assert(out@ =~= header + image_rows(pixels@, width as nat, height as nat, (rows + 1) as nat));
        }
        rows = rows + 1;
    }
    out
}

} // verus!
