//! Copying planes between buffers with different strides.

use vstd::prelude::*;

use crate::bytes::append_range;
use crate::capture::frame::Nv12Planes;
use crate::capture::frame::PlanesData;

verus! {

/// The first `n` rows of a plane without their padding: `row` bytes from each.
pub open spec fn tight_rows(plane: Seq<u8>, stride: int, row: int, n: nat) -> Seq<u8>
    decreases n,
{
    if n == 0 {
        Seq::empty()
    } else {
        tight_rows(plane, stride, row, (n - 1) as nat) + plane.subrange(
            (n - 1) * stride,
            (n - 1) * stride + row,
        )
    }
}

/// The plane holds `n` rows: the last of them ends inside of it.
pub open spec fn has_rows(len: nat, stride: int, row: int, n: int) -> bool {
    n > 0 ==> (n - 1) * stride + row <= len
}

/// The Y plane and then the UV plane of a frame, without padding.
pub open spec fn tight_nv12(planes: PlanesData, width: u32, height: u32) -> Seq<u8> {
    tight_rows(planes.y, planes.y_stride as int, width as int, height as nat) + tight_rows(
        planes.uv,
        planes.uv_stride as int,
        width as int,
        height as nat / 2,
    )
}

fn append_rows(out: &mut Vec<u8>, plane: &[u8], stride: u32, row: u32, n: u32)
    requires
        has_rows(plane@.len(), stride as int, row as int, n as int),
    ensures
        final(out)@ == old(out)@ + tight_rows(plane@, stride as int, row as int, n as nat),
{
    let total: usize = plane.len();
    let mut r: u32 = 0;
    assert(out@ =~= old(out)@ + tight_rows(plane@, stride as int, row as int, 0));
    while r < n
        invariant
            r <= n,
            total == plane@.len(),
            has_rows(plane@.len(), stride as int, row as int, n as int),
            out@ == old(out)@ + tight_rows(plane@, stride as int, row as int, r as nat),
        decreases n - r,
    {
        proof {
            assert(0 <= r * stride <= (n - 1) * stride) by (nonlinear_arith)
                requires
                    0 <= r <= n - 1,
                    0 <= stride,
            ;
        }
        let s: usize = r as usize * stride as usize;
        append_range(out, plane, s, s + row as usize);
        r += 1;
        assert(out@ =~= old(out)@ + tight_rows(plane@, stride as int, row as int, r as nat));
    }
}

/// The bytes of an NV12 input sample: contiguous Y then UV, with any stride padding
/// tightened to `width`.
pub fn contiguous_nv12(planes: &Nv12Planes, width: u32, height: u32) -> (out: Vec<u8>)
    requires
        has_rows(planes.y@.len(), planes.y_stride as int, width as int, height as int),
        has_rows(planes.uv@.len(), planes.uv_stride as int, width as int, height as int / 2),
    ensures
        out@ == tight_nv12(planes@, width, height),
{
    let mut out: Vec<u8> = Vec::new();
    append_rows(&mut out, &planes.y, planes.y_stride, width, height);
    append_rows(&mut out, &planes.uv, planes.uv_stride, width, height / 2);
    assert(out@ =~= tight_nv12(planes@, width, height));
    out
}

/// `len` bytes to copy, from one position to another.
#[derive(Debug, Clone, Copy, PartialEq, Eq, Structural)]
pub struct RowCopy {
    pub from: usize,
    pub to: usize,
    pub len: usize,
}

/// The least of three.
pub open spec fn least(a: int, b: int, c: int) -> int {
    let m = if a <= b {
        a
    } else {
        b
    };
    if m <= c {
        m
    } else {
        c
    }
}

/// The copies for the first `n` rows. A row is as long as it is in the frame, and no
/// longer than either stride; one that does not lie in the source is left out.
pub open spec fn row_copies(
    src_len: int,
    src_stride: int,
    dst_stride: int,
    bytes_per_row: int,
    n: nat,
) -> Seq<RowCopy>
    decreases n,
{
    if n == 0 {
        Seq::empty()
    } else {
        let rest = row_copies(src_len, src_stride, dst_stride, bytes_per_row, (n - 1) as nat);
        let len = least(bytes_per_row, src_stride, dst_stride);
        if (n - 1) * src_stride + len <= src_len {
            rest.push(
                RowCopy {
                    from: ((n - 1) * src_stride) as usize,
                    to: ((n - 1) * dst_stride) as usize,
                    len: len as usize,
                },
            )
        } else {
            rest
        }
    }
}

/// How to copy a plane of `rows` rows into a buffer with another stride.
pub fn plane_copies(
    src_len: usize,
    src_stride: usize,
    dst_stride: usize,
    bytes_per_row: usize,
    rows: usize,
) -> (copies: Vec<RowCopy>)
    requires
        rows * dst_stride <= usize::MAX,
        rows * src_stride <= usize::MAX,
    ensures
        copies@ == row_copies(
            src_len as int,
            src_stride as int,
            dst_stride as int,
            bytes_per_row as int,
            rows as nat,
        ),
{
    let shorter: usize = if bytes_per_row <= src_stride {
        bytes_per_row
    } else {
        src_stride
    };
    let len: usize = if shorter <= dst_stride {
        shorter
    } else {
        dst_stride
    };
    let mut copies: Vec<RowCopy> = Vec::new();
    let mut row: usize = 0;
    while row < rows
        invariant
            row <= rows,
            rows * dst_stride <= usize::MAX,
            rows * src_stride <= usize::MAX,
            len == least(bytes_per_row as int, src_stride as int, dst_stride as int),
            copies@ == row_copies(
                src_len as int,
                src_stride as int,
                dst_stride as int,
                bytes_per_row as int,
                row as nat,
            ),
        decreases rows - row,
    {
        proof {
            assert(0 <= row * src_stride <= rows * src_stride) by (nonlinear_arith)
                requires
                    0 <= row <= rows,
                    0 <= src_stride,
            ;
            assert(0 <= row * dst_stride <= rows * dst_stride) by (nonlinear_arith)
                requires
                    0 <= row <= rows,
                    0 <= dst_stride,
            ;
        }
        let from: usize = row * src_stride;
        if from <= src_len && len <= src_len - from {
            copies.push(RowCopy { from, to: row * dst_stride, len });
        }
        row += 1;
    }
    copies
}

/// No copy reads past the source, and none writes past its row.
pub proof fn law_copies_stay_inside(
    src_len: int,
    src_stride: int,
    dst_stride: int,
    bytes_per_row: int,
    n: nat,
)
    requires
        0 <= src_len <= usize::MAX,
        0 <= src_stride,
        0 <= dst_stride,
        0 <= bytes_per_row,
        n * dst_stride <= usize::MAX,
        n * src_stride <= usize::MAX,
    ensures
        forall|k: int|
            0 <= k < row_copies(src_len, src_stride, dst_stride, bytes_per_row, n).len() ==> {
                let c = #[trigger] row_copies(src_len, src_stride, dst_stride, bytes_per_row, n)[k];
                &&& c.from + c.len <= src_len
                &&& c.len <= dst_stride
                &&& c.to + c.len <= n * dst_stride
            },
    decreases n,
{
    if n > 0 {
        let m = (n - 1) as nat;
        assert(0 <= m * dst_stride && m * dst_stride + dst_stride == n * dst_stride && 0 <= m
            * src_stride <= n * src_stride) by (nonlinear_arith)
            requires
                m == n - 1,
                0 <= dst_stride,
                0 <= src_stride,
                0 <= m,
        ;
        law_copies_stay_inside(src_len, src_stride, dst_stride, bytes_per_row, m);
        let rest = row_copies(src_len, src_stride, dst_stride, bytes_per_row, m);
        let all = row_copies(src_len, src_stride, dst_stride, bytes_per_row, n);
        assert forall|k: int| 0 <= k < all.len() implies {
            let c = #[trigger] all[k];
            &&& c.from + c.len <= src_len
            &&& c.len <= dst_stride
            &&& c.to + c.len <= n * dst_stride
        } by {
            if k < rest.len() {
                assert(all[k] == rest[k]);
            }
        }
    }
}

proof fn lemma_tight_rows(plane: Seq<u8>, stride: int, row: int, n: nat, r: int, c: int)
    requires
        0 <= row,
        0 <= stride,
        has_rows(plane.len(), stride, row, n as int),
    ensures
        tight_rows(plane, stride, row, n).len() == n * row,
        0 <= r < n && 0 <= c < row ==> 0 <= r * row + c < n * row && tight_rows(
            plane,
            stride,
            row,
            n,
        )[r * row + c] == plane[r * stride + c],
    decreases n,
{
    if n > 0 {
        let m = (n - 1) as nat;
        assert(0 <= m * stride && (m > 0 ==> (m - 1) * stride + row <= m * stride + row) && m * row
            + row == n * row && 0 <= m * row) by (nonlinear_arith)
            requires
                m == n - 1,
                0 <= stride,
                0 <= row,
                0 <= m,
        ;
        lemma_tight_rows(plane, stride, row, m, r, c);
        let last = plane.subrange(m * stride, m * stride + row);
        assert(last.len() == row);
        if 0 <= r < n && 0 <= c < row {
            assert(0 <= r * row) by (nonlinear_arith)
                requires
                    0 <= r,
                    0 <= row,
            ;
            if r == m {
                assert(tight_rows(plane, stride, row, n)[m * row + c] == last[c]);
            }
        }
    } else {
        assert(n * row == 0) by (nonlinear_arith)
            requires
                n == 0,
        ;
    }
}

/// The contiguous sample holds the luma of each pixel and then the chroma of each block, row
/// by row: the byte in `row` and `col` of a plane is the byte that the frame has there, and
/// no byte of the padding is in it.
pub proof fn law_tight_position(planes: PlanesData, width: u32, height: u32, row: int, col: int)
    requires
        has_rows(planes.y.len(), planes.y_stride as int, width as int, height as int),
        has_rows(planes.uv.len(), planes.uv_stride as int, width as int, height as int / 2),
        0 <= col < width,
    ensures
        ({
            let out = tight_nv12(planes, width, height);
            &&& out.len() == height * width + (height as int / 2) * width
            &&& 0 <= row < height ==> out[row * width + col] == planes.y[row * planes.y_stride + col]
            &&& 0 <= row < height as int / 2 ==> out[height * width + row * width + col]
                == planes.uv[row * planes.uv_stride + col]
        }),
{
    lemma_tight_rows(planes.y, planes.y_stride as int, width as int, height as nat, row, col);
    lemma_tight_rows(planes.uv, planes.uv_stride as int, width as int, height as nat / 2, row, col);
}

/// Every row that lies in the source is copied, in order and from its start to its start, and
/// as many bytes of it as a row has in the frame and both buffers have room for; rows behind
/// the end of the source are not.
pub proof fn law_rows_are_copied(
    src_len: int,
    src_stride: int,
    dst_stride: int,
    bytes_per_row: int,
    n: nat,
    k: int,
    len: int,
)
    requires
        0 <= src_len <= usize::MAX,
        0 <= src_stride,
        0 <= dst_stride,
        0 <= bytes_per_row,
        n * dst_stride <= usize::MAX,
        n * src_stride <= usize::MAX,
        0 <= k < n,
        len <= bytes_per_row && len <= src_stride && len <= dst_stride,
        len == bytes_per_row || len == src_stride || len == dst_stride,
    ensures
        ({
            let copies = row_copies(src_len, src_stride, dst_stride, bytes_per_row, n);
            &&& copies.len() <= n
            &&& k * src_stride + len <= src_len ==> k < copies.len() && copies[k].from == k
                * src_stride && copies[k].to == k * dst_stride && copies[k].len == len
            &&& k * src_stride + len > src_len ==> copies.len() <= k
        }),
    decreases n,
{
    let m = (n - 1) as nat;
    assert(0 <= m * dst_stride <= n * dst_stride && 0 <= m * src_stride <= n * src_stride && k
        * src_stride <= m * src_stride && 0 <= k * src_stride && 0 <= k * dst_stride <= m
        * dst_stride) by (nonlinear_arith)
        requires
            m == n - 1,
            0 <= dst_stride,
            0 <= src_stride,
            0 <= k <= m,
    ;
    if m > 0 {
        law_rows_are_copied(
            src_len,
            src_stride,
            dst_stride,
            bytes_per_row,
            m,
            if k < m {
                k
            } else {
                0
            },
            len,
        );
    }
    if k == m {
        lemma_copies_before(src_len, src_stride, dst_stride, bytes_per_row, m, len);
    }
}

/// Where the row after the first `n` lies in the source, all rows before it do.
proof fn lemma_copies_before(
    src_len: int,
    src_stride: int,
    dst_stride: int,
    bytes_per_row: int,
    n: nat,
    len: int,
)
    requires
        0 <= src_stride,
        0 <= dst_stride,
        len == least(bytes_per_row, src_stride, dst_stride),
    ensures
        row_copies(src_len, src_stride, dst_stride, bytes_per_row, n).len() <= n,
        n * src_stride + len <= src_len ==> row_copies(
            src_len,
            src_stride,
            dst_stride,
            bytes_per_row,
            n,
        ).len() == n,
    decreases n,
{
    if n > 0 {
        let m = (n - 1) as nat;
        assert(m * src_stride <= n * src_stride) by (nonlinear_arith)
            requires
                m == n - 1,
                0 <= src_stride,
        ;
        lemma_copies_before(src_len, src_stride, dst_stride, bytes_per_row, m, len);
    }
}

/// A plane whose rows are as long as its stride, or shorter, and whose bytes hold its rows has
/// them all.
pub proof fn law_planes_have_rows(len: nat, stride: int, row: int, n: int)
    requires
        0 <= row <= stride,
        0 <= n,
        stride * n <= len,
    ensures
        has_rows(len, stride, row, n),
{
    if n > 0 {
        assert((n - 1) * stride + stride == stride * n) by (nonlinear_arith);
    }
}

} // verus!
