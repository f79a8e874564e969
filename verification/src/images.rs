//! RGB pictures: cropping, resizing, decoding and channel extraction.

use crate::cost::Rgb;
use vstd::prelude::*;

verus! {

/// An RGB picture: three bytes per pixel, row-major.
#[derive(Clone)]
pub struct Picture {
    pub width: u32,
    pub height: u32,
    pub data: Vec<u8>,
}

/// The contents of a [`Picture`].
#[verifier::ext_equal]
pub struct PictureData {
    pub width: u32,
    pub height: u32,
    pub data: Seq<u8>,
}

impl View for Picture {
    type V = PictureData;

    open spec fn view(&self) -> PictureData {
        PictureData { width: self.width, height: self.height, data: self.data@ }
    }
}

/// The number of bytes of a picture.
pub open spec fn bytes_needed(width: u32, height: u32) -> nat {
    (width * height * 3) as nat
}

impl PictureData {
    /// There are bytes for every pixel.
    pub open spec fn complete(self) -> bool {
        self.data.len() >= bytes_needed(self.width, self.height)
    }

    /// The pixel at position `k`, row by row.
    pub open spec fn pixel(self, k: int) -> Rgb {
        (self.data[3 * k], self.data[3 * k + 1], self.data[3 * k + 2])
    }

    /// All pixels, row by row.
    pub open spec fn pixels(self) -> Seq<Rgb> {
        Seq::new((self.width * self.height) as nat, |k: int| self.pixel(k))
    }

    /// The red channel, row by row.
    pub open spec fn reds(self) -> Seq<i64> {
        Seq::new((self.width * self.height) as nat, |k: int| self.data[3 * k] as i64)
    }
}

/// The square of side `side` with its corner at `(x, y)`.
pub open spec fn cropped(p: PictureData, x: int, y: int, side: u32) -> PictureData {
    PictureData {
        width: side,
        height: side,
        data: Seq::new(
            bytes_needed(side, side),
            |i: int|
                p.data[3 * ((y + (i / 3) / side as int) * p.width + x + (i / 3) % side as int) + i
                    % 3],
        ),
    }
}

proof fn lemma_bytes(width: u32, height: u32)
    ensures
        0 <= width * height <= 0xffff_fffe_0000_0001,
{
    assert(0 <= width * height <= 0xffff_ffff * 0xffff_ffff) by (nonlinear_arith)
        requires
            0 <= width <= 0xffff_ffff,
            0 <= height <= 0xffff_ffff,
    ;
}

impl Picture {
    /// A picture over `data`; `None` if there are too few bytes.
    pub fn from_vec(width: u32, height: u32, data: Vec<u8>) -> (r: Option<Self>)
        ensures
            r is Some <==> data@.len() >= bytes_needed(width, height),
            r matches Some(p) ==> p@ == (PictureData { width, height, data: data@ })
                && p@.complete(),
    {
        proof {
            lemma_bytes(width, height);
        }
        let needed: u128 = width as u128 * height as u128 * 3;
        if (data.len() as u128) < needed {
            None
        } else {
            Some(Picture { width, height, data })
        }
    }

    /// Whether there are bytes for every pixel.
    pub fn is_complete(&self) -> (r: bool)
        ensures
            r == self@.complete(),
    {
        proof {
            lemma_bytes(self.width, self.height);
        }
        self.data.len() as u128 >= self.width as u128 * self.height as u128 * 3
    }

    /// All pixels, row by row.
    pub fn pixels(&self) -> (r: Vec<Rgb>)
        requires
            self@.complete(),
        ensures
            r@ == self@.pixels(),
    {
        proof {
            lemma_bytes(self.width, self.height);
        }
        let total: u64 = self.width as u64 * self.height as u64;
        let len: usize = self.data.len();
        let mut out: Vec<Rgb> = Vec::new();
        let mut k: usize = 0;
        while (k as u64) < total
            invariant
                k <= total,
                total == self.width * self.height,
                self@.complete(),
                len == self.data@.len(),
                out@ == self@.pixels().take(k as int),
            decreases total - k,
        {
            assert(3 * k + 2 < self.data@.len());
            out.push((self.data[3 * k], self.data[3 * k + 1], self.data[3 * k + 2]));
            proof {
                let goal = self@.pixels();
                assert(goal.take(k + 1) =~= goal.take(k as int).push(goal[k as int]));
            }
            k += 1;
        }
        assert(out@ =~= self@.pixels());
        out
    }

    /// The square of side `side` with its corner at `(x, y)`.
    pub fn crop(&self, x: u32, y: u32, side: u32) -> (r: Picture)
        requires
            self@.complete(),
            x + side <= self.width,
            y + side <= self.height,
        ensures
            r@ == cropped(self@, x as int, y as int, side),
            r@.complete(),
            r.data@.len() == bytes_needed(side, side),
    {
        let ghost p = self@;
        let ghost goal = cropped(p, x as int, y as int, side);
        proof {
            lemma_bytes(side, side);
            lemma_bytes(self.width, self.height);
            let w = self.width as int;
            let h = self.height as int;
            assert(side * side <= w * h) by (nonlinear_arith)
                requires
                    0 <= side <= w,
                    side <= h,
            ;
        }
        let len: usize = self.data.len();
        let mut out: Vec<u8> = Vec::with_capacity(len);
        let mut row: u32 = 0;
        while row < side
            invariant
                p == self@,
                p.complete(),
                x + side <= self.width,
                y + side <= self.height,
                row <= side,
                0 <= side * side,
                bytes_needed(self.width, self.height) <= usize::MAX,
                goal == cropped(p, x as int, y as int, side),
                out@ == goal.data.take(3 * (row * side)),
            decreases side - row,
        {
            let mut col: u32 = 0;
            proof {
                assert(row * side + side <= side * side) by (nonlinear_arith)
                    requires
                        row + 1 <= side,
                ;
                assert(0 <= row * side) by (nonlinear_arith);
            }
            while col < side
                invariant
                    p == self@,
                    p.complete(),
                    x + side <= self.width,
                    y + side <= self.height,
                    row < side,
                    col <= side,
                    0 <= row * side,
                    row * side + side <= side * side,
                    bytes_needed(self.width, self.height) <= usize::MAX,
                    goal == cropped(p, x as int, y as int, side),
                    out@ == goal.data.take(3 * (row * side + col)),
                decreases side - col,
            {
                let ghost k = row * side + col;
                proof {
                    let w = self.width as int;
                    let h = self.height as int;
                    let b = y + row;
                    let a = x + col;
                    assert(b * w + a < w * h && 0 <= b * w + a && 0 <= b * w) by (nonlinear_arith)
                        requires
                            0 <= a < w,
                            0 <= b < h,
                    ;
                    vstd::arithmetic::div_mod::lemma_fundamental_div_mod_converse(
                        k,
                        side as int,
                        row as int,
                        col as int,
                    );
                    assert((3 * k) / 3 == k && (3 * k + 1) / 3 == k && (3 * k + 2) / 3 == k);
                }
                let at: usize = (y as usize + row as usize) * self.width as usize + (x as usize
                    + col as usize);
                out.push(self.data[3 * at]);
                out.push(self.data[3 * at + 1]);
                out.push(self.data[3 * at + 2]);
                proof {
                    let g = goal.data;
                    assert(g.take(3 * k + 3) =~= g.take(3 * k).push(g[3 * k]).push(
                        g[3 * k + 1],
                    ).push(g[3 * k + 2]));
                }
                col += 1;
            }
            proof {
                assert((row + 1) * side == row * side + side) by (nonlinear_arith);
            }
            row += 1;
        }
        let r = Picture { width: side, height: side, data: out };
        proof {
            assert(r@ =~= goal);
        }
        r
    }
}

/// The bytes of a black picture.
pub open spec fn black(width: u32, height: u32) -> Seq<u8> {
    Seq::new(bytes_needed(width, height), |i: int| 0u8)
}

/// `out` is what resizing a picture with a Lanczos filter of window three can
/// give on some machine.
pub uninterp spec fn lanczos3_outcome(
    width: u32,
    height: u32,
    data: Seq<u8>,
    new_width: u32,
    new_height: u32,
    out: Seq<u8>,
) -> bool;

/// `image::imageops::resize` with the `Lanczos3` filter: the bytes of a picture of
/// the new size, which depend on the old picture and on both sizes, and are zero
/// where the old picture has no pixels. The filter is computed in floating point,
/// so the bytes may differ in the last bit between machines; their values are not
/// stated otherwise.
#[verifier::external_body]
fn resize_lanczos3(data: Vec<u8>, width: u32, height: u32, new_width: u32, new_height: u32) -> (r:
    Vec<u8>)
    requires
        data@.len() == bytes_needed(width, height),
        new_width <= 65535,
        new_height <= 65535,
    ensures
        r@.len() == bytes_needed(new_width, new_height),
        lanczos3_outcome(width, height, data@, new_width, new_height, r@),
        width == 0 || height == 0 ==> r@ == black(new_width, new_height),
{
    let img = image::RgbImage::from_vec(width, height, data).unwrap();
    let filter = image::imageops::FilterType::Lanczos3;
    image::imageops::resize(&img, new_width, new_height, filter).into_raw()
}

/// The width, height and RGB bytes of the picture that `bytes` encodes, if the
/// `image` crate can decode it.
pub uninterp spec fn decoded(bytes: Seq<u8>) -> Option<(u32, u32, Seq<u8>)>;

/// The error of the `image` crate.
#[verifier::external_type_specification]
#[verifier::external_body]
pub struct ExImageError(image::ImageError);

/// `image::load_from_memory`, then `to_rgb8`: the picture that the bytes
/// encode, a function of the bytes alone.
#[verifier::external_body]
fn decode_rgb(bytes: &[u8]) -> (r: Result<(u32, u32, Vec<u8>), image::ImageError>)
    ensures
        match r {
            Ok((w, h, d)) => decoded(bytes@) == Some((w, h, d@)),
            Err(_) => decoded(bytes@) is None,
        },
{
    let img = image::load_from_memory(bytes)?.to_rgb8();
    Ok((img.width(), img.height(), img.into_raw()))
}

/// The picture that `bytes` encodes, if it can be decoded and is complete.
pub open spec fn decoded_picture(bytes: Seq<u8>) -> Option<PictureData> {
    match decoded(bytes) {
        Some((width, height, data)) => if (PictureData { width, height, data }).complete() {
            Some(PictureData { width, height, data })
        } else {
            None
        },
        None => None,
    }
}

/// Decodes an encoded picture; `None` if it cannot be decoded or lacks bytes.
pub fn decode_picture(bytes: &[u8]) -> (r: Option<Picture>)
    ensures
        match r {
            Some(p) => decoded_picture(bytes@) == Some(p@) && p@.complete(),
            None => decoded_picture(bytes@) is None,
        },
{
    match decode_rgb(bytes) {
        Ok((width, height, data)) => Picture::from_vec(width, height, data),
        Err(_) => None,
    }
}

/// Which part of a picture is shown.
#[derive(Clone, Copy, PartialEq, Eq, Structural, Debug)]
pub enum Crop {
    /// The greatest centred square.
    Identity,
    /// The square of side `side` with its corner at `(x, y)`.
    Window { x: u32, y: u32, side: u32 },
}

/// Corner and side of the part of a picture of the given size.
pub open spec fn crop_window(crop: Crop, width: u32, height: u32) -> (int, int, u32) {
    match crop {
        Crop::Identity => {
            let side = if width < height {
                width
            } else {
                height
            };
            ((width - side) / 2, (height - side) / 2, side)
        },
        Crop::Window { x, y, side } => (x as int, y as int, side),
    }
}

/// The part lies within the picture.
pub open spec fn crop_fits(crop: Crop, width: u32, height: u32) -> bool {
    let (x, y, side) = crop_window(crop, width, height);
    &&& x + side <= width
    &&& y + side <= height
}

/// `out` is the part of `p` at the side `sidelen`: cropped, and resized if it
/// has another side. A part without pixels is resized to a black picture.
pub open spec fn shows(crop: Crop, p: PictureData, sidelen: u32, out: PictureData) -> bool {
    let (x, y, side) = crop_window(crop, p.width, p.height);
    let part = cropped(p, x, y, side);
    &&& out.width == sidelen
    &&& out.height == sidelen
    &&& out.data.len() == bytes_needed(sidelen, sidelen)
    &&& if side == sidelen {
        out == part
    } else {
        &&& lanczos3_outcome(side, side, part.data, sidelen, sidelen, out.data)
        &&& side == 0 ==> out.data == black(sidelen, sidelen)
    }
}

/// Byte `b` of the pixel at column `col` and row `row`.
pub open spec fn byte_at(p: PictureData, col: int, row: int, b: int) -> u8 {
    p.data[3 * (row * p.width + col) + b]
}

/// `part` holds the square of side `side` of `p` that has its corner at `(x, y)`.
pub open spec fn is_part(p: PictureData, x: int, y: int, side: int, part: Seq<u8>) -> bool {
    &&& part.len() == side * side * 3
    &&& forall|i: int, j: int, b: int|
        0 <= i < side && 0 <= j < side && 0 <= b < 3 ==> part[3 * (j * side + i) + b]
            == #[trigger] byte_at(p, x + i, y + j, b)
}

/// Two sequences that hold the same square are the same.
proof fn lemma_part_unique(p: PictureData, x: int, y: int, side: int, a: Seq<u8>, b: Seq<u8>)
    requires
        0 <= side,
        is_part(p, x, y, side, a),
        is_part(p, x, y, side, b),
    ensures
        a == b,
{
    assert forall|k: int| 0 <= k < a.len() implies a[k] == b[k] by {
        let at = k / 3;
        assert(side > 0 && 0 <= at < side * side) by (nonlinear_arith)
            requires
                0 <= k < side * side * 3,
                at == k / 3,
                0 <= side,
        ;
        let i = at % side;
        let j = at / side;
        vstd::arithmetic::div_mod::lemma_fundamental_div_mod(at, side);
        assert(0 <= j < side) by (nonlinear_arith)
            requires
                at == side * j + i,
                0 <= i < side,
                0 <= at < side * side,
        ;
        assert(side * j == j * side) by (nonlinear_arith);
        assert(k == 3 * (j * side + i) + k % 3);
        let shown = byte_at(p, x + i, y + j, k % 3);
    }
    assert(a =~= b);
}

/// What is cut out of a picture is the square at the corner.
proof fn lemma_cropped_part(p: PictureData, x: int, y: int, side: u32)
    ensures
        is_part(p, x, y, side as int, cropped(p, x, y, side).data),
{
    let n = side as int;
    let part = cropped(p, x, y, side).data;
    assert(0 <= n * n) by (nonlinear_arith);
    assert forall|i: int, j: int, b: int| 0 <= i < n && 0 <= j < n && 0 <= b < 3 implies part[3 * (j
        * n + i) + b] == #[trigger] byte_at(p, x + i, y + j, b) by {
        let at = j * n + i;
        let k = 3 * at + b;
        assert(0 <= at < n * n) by (nonlinear_arith)
            requires
                0 <= i < n,
                0 <= j < n,
                at == j * n + i,
        ;
        assert(k / 3 == at && k % 3 == b);
        vstd::arithmetic::div_mod::lemma_fundamental_div_mod_converse(at, n, j, i);
        assert((y + at / n) * p.width + x + at % n == (y + j) * p.width + (x + i));
    }
}

/// A window of the side that is asked for is shown pixel by pixel: column `i` and
/// row `j` of what is shown are column `x + i` and row `y + j` of the picture.
pub proof fn lemma_window_pixels(
    p: PictureData,
    x: u32,
    y: u32,
    side: u32,
    out: PictureData,
    i: int,
    j: int,
    b: int,
)
    requires
        shows(Crop::Window { x, y, side }, p, side, out),
        0 <= i < side,
        0 <= j < side,
        0 <= b < 3,
    ensures
        out.width == side && out.height == side,
        out.data[3 * (j * side + i) + b] == p.data[3 * ((y + j) * p.width + (x + i)) + b],
{
    lemma_cropped_part(p, x as int, y as int, side);
    let shown = byte_at(p, x + i, y + j, b);
}

/// A window of another side is what the filter makes of exactly that square.
pub proof fn lemma_window_resized(
    p: PictureData,
    x: u32,
    y: u32,
    side: u32,
    sidelen: u32,
    out: PictureData,
    part: Seq<u8>,
)
    requires
        shows(Crop::Window { x, y, side }, p, sidelen, out),
        side != sidelen,
        is_part(p, x as int, y as int, side as int, part),
    ensures
        out.width == sidelen && out.height == sidelen,
        out.data.len() == sidelen * sidelen * 3,
        lanczos3_outcome(side, side, part, sidelen, sidelen, out.data),
        side == 0 ==> forall|k: int| 0 <= k < out.data.len() ==> #[trigger] out.data[k] == 0,
{
    assert(0 <= sidelen * sidelen) by (nonlinear_arith);
    lemma_cropped_part(p, x as int, y as int, side);
    lemma_part_unique(
        p,
        x as int,
        y as int,
        side as int,
        part,
        cropped(p, x as int, y as int, side).data,
    );
}

/// Without a window the greatest square is shown, with equal margins, or one pixel
/// more on the far side.
pub proof fn lemma_identity_is_centred(p: PictureData, sidelen: u32, out: PictureData) -> (w: (
    u32,
    u32,
    u32,
))
    requires
        shows(Crop::Identity, p, sidelen, out),
    ensures
        shows(Crop::Window { x: w.0, y: w.1, side: w.2 }, p, sidelen, out),
        w.2 == p.width || w.2 == p.height,
        w.2 <= p.width && w.2 <= p.height,
        0 <= (p.width - w.2 - w.0) - w.0 <= 1,
        0 <= (p.height - w.2 - w.1) - w.1 <= 1,
{
    let side = if p.width < p.height {
        p.width
    } else {
        p.height
    };
    (((p.width - side) / 2) as u32, ((p.height - side) / 2) as u32, side)
}

/// A window is accepted exactly if it lies within the picture; the greatest square
/// always does.
pub proof fn lemma_window_fits(x: u32, y: u32, side: u32, width: u32, height: u32)
    ensures
        crop_fits(Crop::Window { x, y, side }, width, height) <==> x + side <= width && y + side
            <= height,
        crop_fits(Crop::Identity, width, height),
{
}

impl Crop {
    /// The crop that shows the greatest centred square.
    pub fn identity() -> (r: Crop)
        ensures
            r == Crop::Identity,
    {
        Crop::Identity
    }

    /// Whether the part lies within a picture of the given size.
    pub fn fits(self, width: u32, height: u32) -> (r: bool)
        ensures
            r == crop_fits(self, width, height),
            match self {
                Crop::Identity => r,
                Crop::Window { x, y, side } => r == (x + side <= width && y + side <= height),
            },
    {
        match self {
            Crop::Identity => true,
            Crop::Window { x, y, side } => x as u64 + side as u64 <= width as u64 && y as u64 + side as u64 <= height as u64,
        }
    }

    /// Crops a picture and scales the part to `sidelen` by `sidelen`.
    pub fn apply(self, img: &Picture, sidelen: u32) -> (r: Picture)
        requires
            img@.complete(),
            crop_fits(self, img.width, img.height),
            sidelen <= 65535,
        ensures
            shows(self, img@, sidelen, r@),
            r@.complete(),
            self matches Crop::Window { x, y, side } ==> {
                if side == sidelen {
                    is_part(img@, x as int, y as int, side as int, r.data@)
                } else {
                    forall|part: Seq<u8>| #[trigger]
                        is_part(img@, x as int, y as int, side as int, part) ==> lanczos3_outcome(
                            side,
                            side,
                            part,
                            sidelen,
                            sidelen,
                            r.data@,
                        )
                }
            },
    {
        let (x, y, side) = match self {
            Crop::Identity => {
                let side: u32 = if img.width < img.height {
                    img.width
                } else {
                    img.height
                };
                ((img.width - side) / 2, (img.height - side) / 2, side)
            },
            Crop::Window { x, y, side } => (x, y, side),
        };
        let part = img.crop(x, y, side);
        proof {
            lemma_cropped_part(img@, x as int, y as int, side);
            assert forall|other: Seq<u8>| #[trigger]
                is_part(img@, x as int, y as int, side as int, other) implies other
                == part.data@ by {
                lemma_part_unique(img@, x as int, y as int, side as int, other, part.data@);
            }
        }
        if side == sidelen {
            return part;
        }
        proof {
            lemma_bytes(sidelen, sidelen);
        }
        Picture {
            width: sidelen,
            height: sidelen,
            data: resize_lanczos3(part.data, side, side, sidelen, sidelen),
        }
    }
}

/// Extracts per-pixel weights from the red channel of a picture.
pub fn load_weights(source: &Picture) -> (r: Vec<i64>)
    requires
        source@.complete(),
    ensures
        r@ == source@.reds(),
{
    proof {
        lemma_bytes(source.width, source.height);
    }
    let total: u64 = source.width as u64 * source.height as u64;
    let len: usize = source.data.len();
    let mut out: Vec<i64> = Vec::new();
    let mut k: usize = 0;
    while (k as u64) < total
        invariant
            k <= total,
            total == source.width * source.height,
            source@.complete(),
            len == source.data@.len(),
            out@ == source@.reds().take(k as int),
        decreases total - k,
    {
        assert(3 * k < source.data@.len());
        out.push(source.data[3 * k] as i64);
        proof {
            let goal = source@.reds();
            assert(goal.take(k + 1) =~= goal.take(k as int).push(goal[k as int]));
        }
        k += 1;
    }
    assert(out@ =~= source@.reds());
    out
}

} // verus!
