//! Pixel-format conversion.
//!
//! ScreenCaptureKit hands us NV12 directly, but Windows Graphics Capture delivers BGRA.
//! Hardware H.264 encoders want NV12 (4:2:0), so we convert BGRA -> NV12 on the CPU here.
//! BT.601 limited-range coefficients (the common default for sub-4K H.264 / MPEG-TS).

use vstd::prelude::*;

use crate::capture::frame::Nv12Planes;
use crate::capture::frame::PlanesData;

verus! {

/// `n` rounded down to an even number.
pub open spec fn even(n: u32) -> u32 {
    (n - n % 2) as u32
}

/// `v` held between 0 and 255.
pub open spec fn clamped(v: int) -> u8 {
    if v < 0 {
        0
    } else if v > 255 {
        255
    } else {
        v as u8
    }
}

/// BT.601 limited-range luma.
pub open spec fn luma(r: int, g: int, b: int) -> u8 {
    clamped((66 * r + 129 * g + 25 * b + 128) / 256 + 16)
}

/// BT.601 limited-range blue difference.
pub open spec fn chroma_blue(r: int, g: int, b: int) -> u8 {
    clamped((-38 * r - 74 * g + 112 * b + 128) / 256 + 128)
}

/// BT.601 limited-range red difference.
pub open spec fn chroma_red(r: int, g: int, b: int) -> u8 {
    clamped((112 * r - 94 * g - 18 * b + 128) / 256 + 128)
}

/// Where the pixel in `row` and `col` begins.
pub open spec fn pixel_at(stride: int, row: int, col: int) -> int {
    row * stride + col * 4
}

/// Channel `k` (0: blue, 1: green, 2: red) of the pixel in `row` and `col`.
pub open spec fn channel(src: Seq<u8>, stride: int, row: int, col: int, k: int) -> int {
    src[pixel_at(stride, row, col) + k] as int
}

/// The average of channel `k` over the two by two pixels of a block.
pub open spec fn block_average(src: Seq<u8>, stride: int, by: int, bx: int, k: int) -> int {
    (channel(src, stride, 2 * by, 2 * bx, k) + channel(src, stride, 2 * by, 2 * bx + 1, k)
        + channel(src, stride, 2 * by + 1, 2 * bx, k) + channel(
        src,
        stride,
        2 * by + 1,
        2 * bx + 1,
        k,
    )) / 4
}

/// A row of the Y plane: the luma of each pixel.
pub open spec fn y_row(src: Seq<u8>, stride: int, w: nat, row: int) -> Seq<u8> {
    Seq::new(
        w,
        |col: int|
            luma(
                channel(src, stride, row, col, 2),
                channel(src, stride, row, col, 1),
                channel(src, stride, row, col, 0),
            ),
    )
}

/// The first `n` rows of the Y plane.
pub open spec fn y_rows(src: Seq<u8>, stride: int, w: nat, n: nat) -> Seq<u8>
    decreases n,
{
    if n == 0 {
        Seq::empty()
    } else {
        y_rows(src, stride, w, (n - 1) as nat) + y_row(src, stride, w, n - 1)
    }
}

/// A row of the UV plane: for each block its blue and then its red difference.
pub open spec fn uv_row(src: Seq<u8>, stride: int, w: nat, by: int) -> Seq<u8> {
    Seq::new(
        w,
        |i: int|
            {
                let r = block_average(src, stride, by, i / 2, 2);
                let g = block_average(src, stride, by, i / 2, 1);
                let b = block_average(src, stride, by, i / 2, 0);
                if i % 2 == 0 {
                    chroma_blue(r, g, b)
                } else {
                    chroma_red(r, g, b)
                }
            },
    )
}

/// The first `n` rows of the UV plane.
pub open spec fn uv_rows(src: Seq<u8>, stride: int, w: nat, n: nat) -> Seq<u8>
    decreases n,
{
    if n == 0 {
        Seq::empty()
    } else {
        uv_rows(src, stride, w, (n - 1) as nat) + uv_row(src, stride, w, n - 1)
    }
}

/// The NV12 planes of a BGRA image. Both are tightly packed.
pub open spec fn nv12_of(src: Seq<u8>, width: u32, height: u32, src_stride: u32) -> PlanesData {
    let w = even(width);
    let h = even(height);
    PlanesData {
        y: y_rows(src, src_stride as int, w as nat, h as nat),
        y_stride: w,
        uv: uv_rows(src, src_stride as int, w as nat, h as nat / 2),
        uv_stride: w,
    }
}

/// The last pixel that is read lies in the `len` bytes of the image.
pub open spec fn bgra_fits(len: nat, width: u32, height: u32, src_stride: u32) -> bool {
    let w = even(width);
    let h = even(height);
    w > 0 && h > 0 ==> pixel_at(src_stride as int, h - 1, w - 1) + 3 <= len
}

proof fn lemma_pixel_in_image(len: nat, stride: int, w: int, h: int, row: int, col: int)
    requires
        0 <= stride,
        0 <= row < h,
        0 <= col < w,
        pixel_at(stride, h - 1, w - 1) + 3 <= len,
    ensures
        0 <= row * stride,
        row * stride <= pixel_at(stride, row, col),
        pixel_at(stride, row, col) + 2 < len,
{
    assert(0 <= row * stride <= (h - 1) * stride) by (nonlinear_arith)
        requires
            0 <= stride,
            0 <= row <= h - 1,
    ;
}

fn clamp_u8(v: i32) -> (r: u8)
    ensures
        r == clamped(v as int),
{
    if v < 0 {
        0
    } else if v > 255 {
        255
    } else {
        v as u8
    }
}

/// `v / 256`, rounded down.
fn shift_down(v: i32) -> (r: i32)
    ensures
        r == v as int / 256,
{
    let r: i32 = v >> 8;
    assert(v >> 8 == v as int / 256) by {
        assert((v >> 8) * 256 <= v && v < (v >> 8) * 256 + 256) by (bit_vector);
    }
    r
}

fn luma_of(r: i32, g: i32, b: i32) -> (y: u8)
    requires
        0 <= r <= 255,
        0 <= g <= 255,
        0 <= b <= 255,
    ensures
        y == luma(r as int, g as int, b as int),
{
    clamp_u8(shift_down(66 * r + 129 * g + 25 * b + 128) + 16)
}

fn chroma_blue_of(r: i32, g: i32, b: i32) -> (u: u8)
    requires
        0 <= r <= 255,
        0 <= g <= 255,
        0 <= b <= 255,
    ensures
        u == chroma_blue(r as int, g as int, b as int),
{
    clamp_u8(shift_down(112 * b - 38 * r - 74 * g + 128) + 128)
}

fn chroma_red_of(r: i32, g: i32, b: i32) -> (v: u8)
    requires
        0 <= r <= 255,
        0 <= g <= 255,
        0 <= b <= 255,
    ensures
        v == chroma_red(r as int, g as int, b as int),
{
    clamp_u8(shift_down(112 * r - 94 * g - 18 * b + 128) + 128)
}

/// The average of channel `k` over a block.
fn average(src: &[u8], stride: usize, by: usize, bx: usize, k: usize) -> (a: i32)
    requires
        k < 3,
        2 * by + 1 <= usize::MAX,
        2 * bx + 1 <= usize::MAX,
        forall|row: int, col: int|
            2 * by <= row <= 2 * by + 1 && 2 * bx <= col <= 2 * bx + 1 ==> 0 <= row * stride && row
                * stride <= #[trigger] pixel_at(stride as int, row, col) && pixel_at(
                stride as int,
                row,
                col,
            ) + 2 < src.len(),
    ensures
        a == block_average(src@, stride as int, by as int, bx as int, k as int),
        0 <= a <= 255,
{
    let (r, c): (usize, usize) = (2 * by, 2 * bx);
    let sum: i32 = channel_at(src, stride, r, c, k) + channel_at(src, stride, r, c + 1, k)
        + channel_at(src, stride, r + 1, c, k) + channel_at(src, stride, r + 1, c + 1, k);
    sum / 4
}

fn channel_at(src: &[u8], stride: usize, row: usize, col: usize, k: usize) -> (v: i32)
    requires
        k < 3,
        0 <= row * stride <= pixel_at(stride as int, row as int, col as int),
        pixel_at(stride as int, row as int, col as int) + 2 < src.len(),
    ensures
        v == channel(src@, stride as int, row as int, col as int, k as int),
        0 <= v <= 255,
{
    src[row * stride + col * 4 + k] as i32
}

/// Convert a BGRA buffer to NV12 planes.
///
/// `src` is `height` rows of `src_stride` bytes; only the first `width * 4` bytes of each
/// row are pixels (the rest is alignment padding). Output planes are tightly packed: the Y
/// plane and the interleaved UV plane both have a stride of the even width.
/// Odd `width`/`height` are rounded down to even so 4:2:0 subsampling stays in bounds.
#[must_use]
pub fn bgra_to_nv12(src: &[u8], width: u32, height: u32, src_stride: u32) -> (planes: Nv12Planes)
    requires
        bgra_fits(src@.len(), width, height, src_stride),
    ensures
        planes@ == nv12_of(src@, width, height, src_stride),
{
    let w: u32 = width - width % 2;
    let h: u32 = height - height % 2;
    let stride: usize = src_stride as usize;

    let mut y_plane: Vec<u8> = Vec::new();
    let mut row: u32 = 0;
    while row < h
        invariant
            row <= h,
            w == even(width),
            h == even(height),
            stride == src_stride,
            bgra_fits(src.len() as nat, width, height, src_stride),
            y_plane@ == y_rows(src@, stride as int, w as nat, row as nat),
        decreases h - row,
    {
        let ghost done = y_plane@;
        let mut col: u32 = 0;
        while col < w
            invariant
                col <= w,
                row < h,
                w == even(width),
                h == even(height),
                stride == src_stride,
                bgra_fits(src.len() as nat, width, height, src_stride),
                y_plane@ =~= done + y_row(src@, stride as int, w as nat, row as int).take(
                    col as int,
                ),
            decreases w - col,
        {
            proof {
                lemma_pixel_in_image(
                    src.len() as nat,
                    stride as int,
                    w as int,
                    h as int,
                    row as int,
                    col as int,
                );
            }
            let b: i32 = channel_at(src, stride, row as usize, col as usize, 0);
            let g: i32 = channel_at(src, stride, row as usize, col as usize, 1);
            let r: i32 = channel_at(src, stride, row as usize, col as usize, 2);
            y_plane.push(luma_of(r, g, b));
            col += 1;
        }
        assert(y_row(src@, stride as int, w as nat, row as int).take(w as int) =~= y_row(
            src@,
            stride as int,
            w as nat,
            row as int,
        ));
        row += 1;
    }

    // Chroma: average each 2x2 block, then BT.601 U/V.
    let mut uv_plane: Vec<u8> = Vec::new();
    let mut by: u32 = 0;
    while by < h / 2
        invariant
            by <= h / 2,
            w == even(width),
            h == even(height),
            stride == src_stride,
            bgra_fits(src.len() as nat, width, height, src_stride),
            uv_plane@ == uv_rows(src@, stride as int, w as nat, by as nat),
        decreases h / 2 - by,
    {
        let ghost done = uv_plane@;
        let mut bx: u32 = 0;
        while bx < w / 2
            invariant
                bx <= w / 2,
                by < h / 2,
                w == even(width),
                h == even(height),
                stride == src_stride,
                bgra_fits(src.len() as nat, width, height, src_stride),
                uv_plane@ =~= done + uv_row(src@, stride as int, w as nat, by as int).take(2 * bx),
            decreases w / 2 - bx,
        {
            proof {
                assert forall|row: int, col: int|
                    2 * by <= row <= 2 * by + 1 && 2 * bx <= col <= 2 * bx + 1 implies 0 <= row
                    * stride && row * stride <= #[trigger] pixel_at(stride as int, row, col)
                    && pixel_at(stride as int, row, col) + 2 < src.len() by {
                    lemma_pixel_in_image(
                        src.len() as nat,
                        stride as int,
                        w as int,
                        h as int,
                        row,
                        col,
                    );
                }
            }
            let b: i32 = average(src, stride, by as usize, bx as usize, 0);
            let g: i32 = average(src, stride, by as usize, bx as usize, 1);
            let r: i32 = average(src, stride, by as usize, bx as usize, 2);
            uv_plane.push(chroma_blue_of(r, g, b));
            uv_plane.push(chroma_red_of(r, g, b));
            bx += 1;
        }
        assert(uv_row(src@, stride as int, w as nat, by as int).take(w as int) =~= uv_row(
            src@,
            stride as int,
            w as nat,
            by as int,
        ));
        by += 1;
    }

    Nv12Planes { y: y_plane, y_stride: w, uv: uv_plane, uv_stride: w }
}

// --- Laws ----------------------------------------------------------------------------

/// The planes have one byte of luma for each pixel, and one byte of chroma for every two.
pub proof fn law_plane_sizes(src: Seq<u8>, width: u32, height: u32, src_stride: u32)
    ensures
        nv12_of(src, width, height, src_stride).y.len() == even(width) * even(height),
        nv12_of(src, width, height, src_stride).uv.len() == even(width) * (even(height) / 2),
{
    lemma_rows_len(src, src_stride as int, even(width) as nat, even(height) as nat);
    lemma_rows_len(src, src_stride as int, even(width) as nat, even(height) as nat / 2);
}

proof fn lemma_rows_len(src: Seq<u8>, stride: int, w: nat, n: nat)
    ensures
        y_rows(src, stride, w, n).len() == w * n,
        uv_rows(src, stride, w, n).len() == w * n,
    decreases n,
{
    if n > 0 {
        lemma_rows_len(src, stride, w, (n - 1) as nat);
        assert(w * (n - 1) + w == w * n) by (nonlinear_arith);
    } else {
        assert(w * 0 == 0) by (nonlinear_arith);
    }
}

/// The luma of the pixel in `row` and `col` stands at `row * width + col` of the Y plane.
pub proof fn law_luma_position(
    src: Seq<u8>,
    width: u32,
    height: u32,
    src_stride: u32,
    row: int,
    col: int,
)
    requires
        0 <= row < even(height),
        0 <= col < even(width),
    ensures
        nv12_of(src, width, height, src_stride).y[row * even(width) + col] == luma(
            channel(src, src_stride as int, row, col, 2),
            channel(src, src_stride as int, row, col, 1),
            channel(src, src_stride as int, row, col, 0),
        ),
{
    lemma_y_index(src, src_stride as int, even(width) as nat, even(height) as nat, row, col);
}

proof fn lemma_y_index(src: Seq<u8>, stride: int, w: nat, n: nat, row: int, col: int)
    requires
        0 <= row < n,
        0 <= col < w,
    ensures
        0 <= row * w + col < w * n,
        y_rows(src, stride, w, n)[row * w + col] == y_row(src, stride, w, row)[col],
    decreases n,
{
    let rest = (n - 1) as nat;
    lemma_rows_len(src, stride, w, rest);
    if row == rest {
        assert(row * w == w * rest) by (nonlinear_arith)
            requires
                row == rest,
        ;
        assert(0 <= w * rest && w * rest + w == w * n) by (nonlinear_arith)
            requires
                rest == n - 1,
        ;
    } else {
        lemma_y_index(src, stride, w, rest, row, col);
        assert(w * rest <= w * n) by (nonlinear_arith)
            requires
                rest <= n,
        ;
    }
}

/// Red, green and blue of each pixel decide its place in the Y plane and nothing else does:
/// with the four bytes of a pixel in the order blue, green, red, alpha, the byte at
/// `row * width + col` is 16 and (66 red + 129 green + 25 blue) / 256, rounded.
pub proof fn law_luma_is_weighed(
    src: Seq<u8>,
    width: u32,
    height: u32,
    src_stride: u32,
    row: int,
    col: int,
)
    requires
        0 <= row < height / 2 * 2,
        0 <= col < width / 2 * 2,
    ensures
        ({
            let at = row * src_stride + col * 4;
            let weighed = 66 * src[at + 2] + 129 * src[at + 1] + 25 * src[at];
            let y = nv12_of(src, width, height, src_stride).y[row * (width / 2 * 2) + col];
            256 * (y - 16) <= weighed + 128 < 256 * (y - 15)
        }),
{
    law_luma_position(src, width, height, src_stride, row, col);
    let at = row * src_stride + col * 4;
    law_limited_range(src[at + 2] as int, src[at + 1] as int, src[at] as int);
    assert(even(width) == width / 2 * 2);
}

/// Each block of two by two pixels has its own two bytes in the UV plane: the byte at
/// `by * width + 2 * bx` is the blue difference of the averages over rows `2 * by` and
/// `2 * by + 1` and columns `2 * bx` and `2 * bx + 1`, and the byte after it is their red
/// difference.
pub proof fn law_chroma_position(
    src: Seq<u8>,
    width: u32,
    height: u32,
    src_stride: u32,
    by: int,
    bx: int,
)
    requires
        0 <= by < even(height) as int / 2,
        0 <= bx < even(width) as int / 2,
    ensures
        ({
            let s = src_stride as int;
            let sum = |k: int|
                channel(src, s, 2 * by, 2 * bx, k) + channel(src, s, 2 * by, 2 * bx + 1, k)
                    + channel(src, s, 2 * by + 1, 2 * bx, k) + channel(
                    src,
                    s,
                    2 * by + 1,
                    2 * bx + 1,
                    k,
                );
            let r = sum(2) / 4;
            let g = sum(1) / 4;
            let b = sum(0) / 4;
            let uv = nv12_of(src, width, height, src_stride).uv;
            &&& uv[by * even(width) + 2 * bx] == chroma_blue(r, g, b)
            &&& uv[by * even(width) + 2 * bx + 1] == chroma_red(r, g, b)
        }),
{
    let w = even(width) as nat;
    let n = even(height) as nat / 2;
    lemma_uv_index(src, src_stride as int, w, n, by, 2 * bx);
    lemma_uv_index(src, src_stride as int, w, n, by, 2 * bx + 1);
    assert((2 * bx) / 2 == bx && (2 * bx + 1) / 2 == bx);
}

/// The two bytes of a block in the UV plane, over the bytes of its four pixels: with the
/// sums of a channel over the four divided by 4, rounded down, they are 128 and
/// (112 blue - 74 green - 38 red) / 256, and 128 and (112 red - 94 green - 18 blue) / 256,
/// both rounded.
pub proof fn law_chroma_is_weighed(
    src: Seq<u8>,
    width: u32,
    height: u32,
    src_stride: u32,
    by: int,
    bx: int,
)
    requires
        0 <= by < height as int / 2,
        0 <= bx < width as int / 2,
    ensures
        ({
            let top = (2 * by) * src_stride + (2 * bx) * 4;
            let low = (2 * by + 1) * src_stride + (2 * bx) * 4;
            let b = (src[top] + src[top + 4] + src[low] + src[low + 4]) / 4;
            let g = (src[top + 1] + src[top + 5] + src[low + 1] + src[low + 5]) / 4;
            let r = (src[top + 2] + src[top + 6] + src[low + 2] + src[low + 6]) / 4;
            let uv = nv12_of(src, width, height, src_stride).uv;
            let u = uv[by * (width / 2 * 2) + 2 * bx];
            let v = uv[by * (width / 2 * 2) + 2 * bx + 1];
            &&& 256 * (u - 128) <= 112 * b - 74 * g - 38 * r + 128 < 256 * (u - 127)
            &&& 256 * (v - 128) <= 112 * r - 94 * g - 18 * b + 128 < 256 * (v - 127)
        }),
{
    law_chroma_position(src, width, height, src_stride, by, bx);
    let top = (2 * by) * src_stride + (2 * bx) * 4;
    let low = (2 * by + 1) * src_stride + (2 * bx) * 4;
    let b = (src[top] + src[top + 4] + src[low] + src[low + 4]) / 4;
    let g = (src[top + 1] + src[top + 5] + src[low + 1] + src[low + 5]) / 4;
    let r = (src[top + 2] + src[top + 6] + src[low + 2] + src[low + 6]) / 4;
    law_limited_range(r, g, b);
    assert(even(width) == width / 2 * 2);
    assert((2 * bx + 1) * 4 == (2 * bx) * 4 + 4);
}

proof fn lemma_uv_index(src: Seq<u8>, stride: int, w: nat, n: nat, row: int, i: int)
    requires
        0 <= row < n,
        0 <= i < w,
    ensures
        0 <= row * w + i < w * n,
        uv_rows(src, stride, w, n)[row * w + i] == uv_row(src, stride, w, row)[i],
    decreases n,
{
    let rest = (n - 1) as nat;
    lemma_rows_len(src, stride, w, rest);
    if row == rest {
        assert(row * w == w * rest) by (nonlinear_arith)
            requires
                row == rest,
        ;
        assert(0 <= w * rest && w * rest + w == w * n) by (nonlinear_arith)
            requires
                rest == n - 1,
        ;
    } else {
        lemma_uv_index(src, stride, w, rest, row, i);
        assert(w * rest <= w * n) by (nonlinear_arith)
            requires
                rest <= n,
        ;
    }
}

/// A size is rounded down to an even number, by one at most.
pub proof fn law_even_sizes(src: Seq<u8>, width: u32, height: u32, src_stride: u32)
    ensures
        ({
            let p = nv12_of(src, width, height, src_stride);
            &&& p.y_stride % 2 == 0 && p.uv_stride == p.y_stride
            &&& width - 1 <= p.y_stride <= width
            &&& p.y.len() == p.y_stride * (height / 2 * 2)
            &&& 2 * p.uv.len() == p.y.len()
        }),
{
    law_plane_sizes(src, width, height, src_stride);
    let w = even(width) as int;
    let h = even(height) as int;
    assert(h == height / 2 * 2 && h / 2 * 2 == h);
    assert(2 * (w * (h / 2)) == w * h) by (nonlinear_arith)
        requires
            h / 2 * 2 == h,
    ;
}

/// Luma stays in the limited range of 16 to 235, and chroma in 16 to 240.
pub proof fn law_limited_range(r: int, g: int, b: int)
    requires
        0 <= r <= 255,
        0 <= g <= 255,
        0 <= b <= 255,
    ensures
        16 <= luma(r, g, b) <= 235,
        16 <= chroma_blue(r, g, b) <= 240,
        16 <= chroma_red(r, g, b) <= 240,
{
}

/// Greys have no colour: both differences are the neutral 128.
pub proof fn law_grey_is_neutral(v: int)
    requires
        0 <= v <= 255,
    ensures
        chroma_blue(v, v, v) == 128,
        chroma_red(v, v, v) == 128,
{
}

/// Every image whose rows hold its pixels and whose bytes hold its rows can be converted.
pub proof fn law_images_fit(len: nat, width: u32, height: u32, src_stride: u32)
    requires
        src_stride >= 4 * width,
        len >= src_stride * height,
    ensures
        bgra_fits(len, width, height, src_stride),
{
    let h = even(height);
    if h > 0 {
        assert((h - 1) * src_stride + src_stride == h * src_stride && h * src_stride <= src_stride
            * height) by (nonlinear_arith)
            requires
                0 < h <= height,
        ;
    }
}

} // verus!
