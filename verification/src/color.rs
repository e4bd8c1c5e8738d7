//! Encoding of linear colours as eight-bit channels and as text.

use crate::fixed::{lemma_floor_sqrt_below, quot, Fixed, ONE_RAW};
use crate::interval::Interval;
use crate::vec3::Vec3;
use vstd::prelude::*;

verus! {

/// Raw value of the largest intensity that is encoded as it is; larger
/// ones are cut down to it.
pub const INTENSITY_MAX_RAW: i64 = 4290672328;

/// The intensities that are encoded as they are.
pub open spec fn intensity() -> Interval {
    Interval { min: Fixed { raw: 0 }, max: Fixed { raw: INTENSITY_MAX_RAW } }
}

/// The eight-bit level of a linear intensity: the intensity is cut to
/// `intensity()`, its square root taken for a gamma of two, and the
/// root scaled by 256 and rounded down.
pub open spec fn level_spec(x: Fixed) -> u8 {
    quot(Fixed::from_int(256).times(intensity().clamp(x).sqrt()).raw as int, ONE_RAW as int) as u8
}

/// The decimal digits of `n` as ASCII, without leading zeros.
pub open spec fn digits(n: nat) -> Seq<u8>
    decreases n,
{
    if n < 10 {
        seq![(48 + n) as u8]
    } else {
        digits(n / 10).push((48 + n % 10) as u8)
    }
}

/// The line of a plain pixmap for one pixel: the three levels in
/// decimal, with one space between them and a line feed at the end.
pub open spec fn ppm_line(v: Vec3) -> Seq<u8> {
    digits(level_spec(v.0) as nat).push(32u8) + digits(level_spec(v.1) as nat).push(32u8) + digits(
        level_spec(v.2) as nat,
    ).push(10u8)
}

/// The head of a plain pixmap `w` pixels wide and `h` high, with 255
/// as the highest level.
pub open spec fn ppm_head(w: u16, h: u16) -> Seq<u8> {
    seq![80u8, 51u8, 10u8] + digits(w as nat).push(32u8) + digits(h as nat).push(10u8)
        + seq![50u8, 53u8, 53u8, 10u8]
}

/// The levels of the first `w` pixels of each of `rows`, three for
/// each pixel, row by row.
pub open spec fn packed(rows: Seq<Vec<Vec3>>, w: int) -> Seq<u8>
    decreases rows.len(),
{
    if rows.len() == 0 {
        Seq::empty()
    } else {
        packed(rows.drop_last(), w) + packed_row(rows.last()@.take(w))
    }
}

/// The levels of the pixels of one row, three for each pixel.
pub open spec fn packed_row(row: Seq<Vec3>) -> Seq<u8>
    decreases row.len(),
{
    if row.len() == 0 {
        Seq::empty()
    } else {
        packed_row(row.drop_last()).push(level_spec(row.last().0)).push(
            level_spec(row.last().1),
        ).push(level_spec(row.last().2))
    }
}

/// Computes the eight-bit level of a linear intensity.
pub fn level(x: Fixed) -> (l: u8)
    ensures
        l == level_spec(x),
{
    let bounds: Interval = Interval { min: Fixed { raw: 0 }, max: Fixed { raw: INTENSITY_MAX_RAW } };
    let clamped: Fixed = bounds.clamp(x);
    proof {
        assert(clamped.raw * ONE_RAW < 0x1_0000_0000 * 0x1_0000_0000) by (nonlinear_arith)
            requires
                0 <= clamped.raw <= INTENSITY_MAX_RAW,
                ONE_RAW == 0x1_0000_0000,
                INTENSITY_MAX_RAW == 4290672328,
        ;
        assert(0 <= clamped.raw * ONE_RAW) by (nonlinear_arith)
            requires
                0 <= clamped.raw,
                ONE_RAW == 0x1_0000_0000,
        ;
        lemma_floor_sqrt_below(clamped.raw * ONE_RAW, 0x1_0000_0000);
    }
    let root: Fixed = clamped.sqrt();
    assert(0 <= root.raw < ONE_RAW);
    let scaled: Fixed = Fixed::from_int(256).times(root);
    proof {
        assert(0 <= 256 * ONE_RAW * root.raw < 256 * ONE_RAW * ONE_RAW) by (nonlinear_arith)
            requires
                0 <= root.raw < ONE_RAW,
                ONE_RAW == 0x1_0000_0000,
        ;
    }
    let whole: i64 = scaled.trunc();
    whole as u8
}

/// Appends the decimal digits of `n` to `out`.
pub fn push_decimal(out: &mut Vec<u8>, n: u32)
    ensures
        final(out)@ == old(out)@ + digits(n as nat),
    decreases n,
{
    if n >= 10 {
        push_decimal(out, n / 10);
    }
    out.push(48u8 + (n % 10) as u8);
}

/// Encodes the colour `v` as one line of a plain pixmap.
pub fn write_ppm(v: Vec3) -> (line: Vec<u8>)
    ensures
        line@ == ppm_line(v),
{
    let mut line: Vec<u8> = Vec::new();
    push_decimal(&mut line, level(v.0) as u32);
    line.push(32u8);
    push_decimal(&mut line, level(v.1) as u32);
    line.push(32u8);
    push_decimal(&mut line, level(v.2) as u32);
    line.push(10u8);
    line
}

/// Encodes the head of a plain pixmap `w` pixels wide and `h` high.
pub fn ppm_header(w: u16, h: u16) -> (head: Vec<u8>)
    ensures
        head@ == ppm_head(w, h),
{
    let mut head: Vec<u8> = Vec::new();
    head.push(80u8);
    head.push(51u8);
    head.push(10u8);
    push_decimal(&mut head, w as u32);
    head.push(32u8);
    push_decimal(&mut head, h as u32);
    head.push(10u8);
    head.push(50u8);
    head.push(53u8);
    head.push(53u8);
    head.push(10u8);
    head
}

/// A picture with a red, a green and a blue level for each pixel,
/// held in the pixel buffer `image::RgbImage`. What the buffer holds
/// is known only through `picture_levels` and `picture_size`.
#[verifier::external_body]
pub struct Picture {
    buffer: image::RgbImage,
}

/// The channel levels that a picture holds, three for each pixel, row
/// by row.
pub uninterp spec fn picture_levels(picture: Picture) -> Seq<u8>;

/// The width and the height of a picture, in pixels.
pub uninterp spec fn picture_size(picture: Picture) -> (u32, u32);

/// Calls `image::ImageBuffer::from_raw`. Taken on trust: it takes the
/// levels as the picture's own buffer if they are enough for
/// `width * height` pixels of three channels, and refuses them
/// otherwise. It counts the levels needed in machine words, first for
/// one row, then for all, and refuses where a count does not fit.
#[verifier::external_body]
fn picture_from_raw(width: u32, height: u32, levels: Vec<u8>) -> (picture: Option<Picture>)
    ensures
        picture.is_some() == (3 * width <= usize::MAX && 3 * width * height <= levels@.len()),
        picture.is_some() ==> picture_levels(picture.unwrap()) == levels@,
        picture.is_some() ==> picture_size(picture.unwrap()) == (width, height),
{
    match image::RgbImage::from_raw(width, height, levels) {
        Some(buffer) => Some(Picture { buffer }),
        None => None,
    }
}

/// Calls `image::ImageBuffer::as_raw` and copies what it lends. Taken
/// on trust: it lends the picture's buffer.
#[verifier::external_body]
fn picture_as_raw(picture: &Picture) -> (levels: Vec<u8>)
    ensures
        levels@ == picture_levels(*picture),
{
    picture.buffer.as_raw().clone()
}

/// Calls `image::ImageBuffer::dimensions`. Taken on trust: it gives
/// the picture's width and height.
#[verifier::external_body]
fn picture_dimensions(picture: &Picture) -> (size: (u32, u32))
    ensures
        size == picture_size(*picture),
{
    picture.buffer.dimensions()
}

impl Picture {
    /// The levels of the picture, three for each pixel, row by row.
    pub fn levels(&self) -> (levels: Vec<u8>)
        ensures
            levels@ == picture_levels(*self),
    {
        picture_as_raw(self)
    }

    /// The width and the height of the picture.
    pub fn dimensions(&self) -> (size: (u32, u32))
        ensures
            size == picture_size(*self),
    {
        picture_dimensions(self)
    }
}

/// Whether each of the rows holds at least `w` pixels.
pub open spec fn wide_enough(rows: Seq<Vec<Vec3>>, w: int) -> bool {
    forall|j: int| 0 <= j < rows.len() ==> (#[trigger] rows[j])@.len() >= w
}

/// A row of pixels packs into three levels for each pixel.
pub proof fn lemma_packed_row_len(row: Seq<Vec3>)
    ensures
        packed_row(row).len() == 3 * row.len(),
    decreases row.len(),
{
    if row.len() > 0 {
        lemma_packed_row_len(row.drop_last());
    }
}

/// Rows packed `w` pixels wide give `3 * w` levels for each row.
pub proof fn lemma_packed_len(rows: Seq<Vec<Vec3>>, w: int)
    requires
        0 <= w,
        wide_enough(rows, w),
    ensures
        packed(rows, w).len() == 3 * w * rows.len(),
    decreases rows.len(),
{
    if rows.len() > 0 {
        assert(wide_enough(rows.drop_last(), w));
        lemma_packed_len(rows.drop_last(), w);
        lemma_packed_row_len(rows.last()@.take(w));
        assert(3 * w * rows.len() == 3 * w * (rows.len() - 1) + 3 * w) by (nonlinear_arith);
    } else {
        assert(3 * w * 0 == 0) by (nonlinear_arith);
    }
}

/// Packs the levels of the first `w` pixels of each of `rows`, three
/// for each pixel, row by row.
pub fn pack(rows: &Vec<Vec<Vec3>>, w: usize) -> (levels: Vec<u8>)
    requires
        wide_enough(rows@, w as int),
    ensures
        levels@ == packed(rows@, w as int),
{
    let mut levels: Vec<u8> = Vec::new();
    let mut j: usize = 0;
    assert(rows@.take(0) =~= Seq::empty());
    while j < rows.len()
        invariant
            j <= rows@.len(),
            wide_enough(rows@, w as int),
            levels@ == packed(rows@.take(j as int), w as int),
        decreases rows@.len() - j,
    {
        let row: &Vec<Vec3> = &rows[j];
        let ghost before = levels@;
        let ghost used = row@.take(w as int);
        let mut i: usize = 0;
        assert(used.take(0) =~= Seq::empty());
        while i < w
            invariant
                i <= w <= row@.len(),
                used == row@.take(w as int),
                levels@ == before + packed_row(used.take(i as int)),
            decreases w - i,
        {
            let v: Vec3 = row[i];
            proof {
                assert(used.take(i + 1).drop_last() =~= used.take(i as int));
                assert(used.take(i + 1).last() == v);
            }
            levels.push(level(v.0));
            levels.push(level(v.1));
            levels.push(level(v.2));
            i = i + 1;
        }
        proof {
            assert(used.take(i as int) =~= used);
            assert(rows@.take(j + 1).drop_last() =~= rows@.take(j as int));
            assert(rows@.take(j + 1).last() == rows@[j as int]);
        }
        j = j + 1;
    }
    assert(rows@.take(j as int) =~= rows@);
    levels
}

/// Encodes the pixels of `img_matrix`, given row by row from the top,
/// as a picture of eight-bit levels. The picture is as wide as the
/// first row; no row may be shorter.
pub fn write_png(img_matrix: &Vec<Vec<Vec3>>) -> (picture: Picture)
    requires
        img_matrix@.len() > 0,
        wide_enough(img_matrix@, img_matrix@[0]@.len() as int),
        img_matrix@.len() <= u32::MAX,
        img_matrix@[0]@.len() <= u32::MAX,
    ensures
        picture_levels(picture) == packed(img_matrix@, img_matrix@[0]@.len() as int),
        picture_size(picture) == (img_matrix@[0]@.len() as u32, img_matrix@.len() as u32),
{
    let h: u32 = img_matrix.len() as u32;
    let width: usize = img_matrix[0].len();
    let w: u32 = width as u32;
    let levels: Vec<u8> = pack(img_matrix, width);
    let count: usize = levels.len();
    proof {
        lemma_packed_len(img_matrix@, w as int);
        let n = count as int;
        assert(n == 3 * (w as int) * (h as int));
        assert(3 * (w as int) <= n) by (nonlinear_arith)
            requires
                n == 3 * (w as int) * (h as int),
                h >= 1,
                w >= 0,
        ;
        assert(n <= usize::MAX);
    }
    picture_from_raw(w, h, levels).unwrap()
}

} // verus!
