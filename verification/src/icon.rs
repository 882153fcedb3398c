//! The window icon's file formats: the bitmap one image of a Windows `.ico`
//! is stored as, the `.ico` container that holds one such image per size,
//! and the box filter that turns an oversized drawing into the icon's pixels.
//!
//! Drawing the symbol itself is geometry in floating point and stays out of
//! here; everything from its pixels onwards is counted in whole numbers.

use vstd::prelude::*;

verus! {

/// The sizes a Windows `.ico` carries. Explorer picks one per view (16 in a
/// details list, 256 for extra-large tiles) and picks badly when it has to
/// resample, so each is drawn rather than scaled from a neighbour.
pub const ICO_SIZES: [u32; 6] = [16, 32, 48, 64, 128, 256];

/// The window icon's edge, in pixels.
pub const SIZE: u32 = 256;

/// How many samples across a pixel the symbol is drawn with. The fill itself
/// is hard-edged; the antialiasing is the box filter on the way down.
pub const SUPERSAMPLE: u32 = 4;

// ---------------------------------------------------------------------------
// Bytes
// ---------------------------------------------------------------------------

/// A 16-bit field, least significant byte first.
pub open spec fn le16(v: int) -> Seq<u8> {
    seq![(v % 256) as u8, ((v / 256) % 256) as u8]
}

/// A 32-bit field, least significant byte first.
pub open spec fn le32(v: int) -> Seq<u8> {
    seq![
        (v % 256) as u8,
        ((v / 256) % 256) as u8,
        ((v / 65536) % 256) as u8,
        ((v / 16777216) % 256) as u8,
    ]
}

/// `count` zero bytes.
pub open spec fn zeros(count: int) -> Seq<u8> {
    Seq::new(count as nat, |i: int| 0u8)
}

fn push_le16(out: &mut Vec<u8>, v: u16)
    ensures
        final(out)@ == old(out)@ + le16(v as int),
{
    out.push((v % 256) as u8);
    out.push((v / 256) as u8);
    proof {
        assert(final(out)@ =~= old(out)@ + le16(v as int));
    }
}

fn push_le32(out: &mut Vec<u8>, v: u32)
    ensures
        final(out)@ == old(out)@ + le32(v as int),
{
    out.push((v % 256) as u8);
    out.push(((v / 256) % 256) as u8);
    out.push(((v / 65536) % 256) as u8);
    out.push((v / 16777216) as u8);
    proof {
        assert(final(out)@ =~= old(out)@ + le32(v as int));
    }
}

fn push_zeros(out: &mut Vec<u8>, count: u32)
    ensures
        final(out)@ == old(out)@ + zeros(count as int),
{
    let mut k: u32 = 0;
    while k < count
        invariant
            k <= count,
            out@ == old(out)@ + zeros(k as int),
        decreases count - k,
    {
        out.push(0u8);
        k = k + 1;
        proof {
            assert(out@ =~= old(out)@ + zeros(k as int));
        }
    }
}

// ---------------------------------------------------------------------------
// Cells of a square image
// ---------------------------------------------------------------------------

/// A pixel of a square image has its own place in the row-major order.
proof fn lemma_cell(edge: int, row: int, column: int)
    requires
        0 <= row < edge,
        0 <= column < edge,
    ensures
        0 <= row * edge + column,
        row * edge + column + 1 <= edge * edge,
        (row * edge + column) * 4 + 4 <= edge * edge * 4,
{
    assert(row * edge + column + 1 <= edge * edge) by (nonlinear_arith)
        requires
            0 <= row < edge,
            0 <= column < edge,
    ;
    assert(0 <= row * edge) by (nonlinear_arith)
        requires
            0 <= row,
            0 <= edge,
    ;
}

/// Pixels earlier in the row-major order have earlier places.
proof fn lemma_cell_before(edge: int, r1: int, c1: int, r2: int, c2: int)
    requires
        0 <= r1,
        0 <= c1 < edge,
        0 <= c2,
        r1 < r2 || (r1 == r2 && c1 < c2),
    ensures
        r1 * edge + c1 < r2 * edge + c2,
{
    assert(r1 * edge + c1 < r2 * edge + c2) by (nonlinear_arith)
        requires
            0 <= r1,
            0 <= c1 < edge,
            0 <= c2,
            r1 < r2 || (r1 == r2 && c1 < c2),
    ;
}

// ---------------------------------------------------------------------------
// One image as a bitmap
// ---------------------------------------------------------------------------

/// The bitmap header of one `edge`-pixel image: its own size, the width,
/// twice the height (the colour rows and the mask rows are one image), one
/// plane, 32 bits a pixel, uncompressed, and six fields left at zero.
pub open spec fn bmp_header(edge: int) -> Seq<u8> {
    le32(40) + le32(edge) + le32(2 * edge) + le16(1) + le16(32) + le32(0) + le32(0) + le32(0)
        + le32(0) + le32(0) + le32(0)
}

/// Bytes in one row of the one-bit mask, rounded up to whole 32-bit words.
pub open spec fn mask_stride(edge: int) -> int {
    ((edge + 31) / 32) * 4
}

/// The pixel at byte `at` of straight RGBA, in the order a bitmap stores it.
pub open spec fn bgra(pixels: Seq<u8>, at: int) -> Seq<u8> {
    seq![pixels[at + 2], pixels[at + 1], pixels[at], pixels[at + 3]]
}

/// The size of one image's bitmap: header, pixels and mask.
pub open spec fn bmp_len(edge: int) -> int {
    40 + edge * edge * 4 + mask_stride(edge) * edge
}

/// One entry of the icon: a bitmap header, the pixels bottom-up in BGRA, and
/// the one-bit mask that predates alpha and is still expected to be there.
///
/// `pixels` is the image as straight RGBA rows, top row first. The mask is
/// zero throughout: with 32 bits a pixel Windows reads the alpha channel and
/// ignores it, but a missing mask makes the file malformed.
pub fn bmp(edge: u32, pixels: &Vec<u8>) -> (out: Vec<u8>)
    requires
        pixels@.len() == edge * edge * 4,
        bmp_len(edge as int) <= u32::MAX,
    ensures
        out@.len() == bmp_len(edge as int),
        out@.take(40) == bmp_header(edge as int),
        forall|row: int, column: int|
            0 <= row < edge && 0 <= column < edge ==> #[trigger] out@.subrange(
                40 + ((edge - 1 - row) * edge + column) * 4,
                40 + ((edge - 1 - row) * edge + column) * 4 + 4,
            ) == bgra(pixels@, (row * edge + column) * 4),
        out@.skip(40 + edge * edge * 4) == zeros(mask_stride(edge as int) * edge),
{
    let ghost e = edge as int;
    proof {
        assert(e * e * 4 >= 0) by (nonlinear_arith);
        assert(mask_stride(e) * e >= 0) by (nonlinear_arith)
            requires
                e >= 0,
        ;
        if e > 0 {
            assert(e <= e * e) by (nonlinear_arith)
                requires
                    e > 0,
            ;
        }
    }
    let mut out: Vec<u8> = Vec::new();
    push_le32(&mut out, 40);
    push_le32(&mut out, edge);
    push_le32(&mut out, edge * 2);
    push_le16(&mut out, 1);
    push_le16(&mut out, 32);
    push_le32(&mut out, 0);
    push_le32(&mut out, 0);
    push_le32(&mut out, 0);
    push_le32(&mut out, 0);
    push_le32(&mut out, 0);
    push_le32(&mut out, 0);
    let ghost header = out@;
    proof {
        assert(header =~= bmp_header(e));
    }

    let mut down: u32 = 0;
    while down < edge
        invariant
            e == edge,
            down <= edge,
            pixels@.len() == e * e * 4,
            bmp_len(e) <= u32::MAX,
            e * e * 4 >= 0,
            out@.len() == 40 + down * e * 4,
            out@.take(40) == header,
            forall|r: int, c: int|
                0 <= r < down && 0 <= c < e ==> #[trigger] out@.subrange(
                    40 + (r * e + c) * 4,
                    40 + (r * e + c) * 4 + 4,
                ) == bgra(pixels@, ((e - 1 - r) * e + c) * 4),
        decreases edge - down,
    {
        let row = edge - 1 - down;
        let mut column: u32 = 0;
        proof {
            lemma_cell(e, down as int, 0);
        }
        while column < edge
            invariant
                e == edge,
                down < edge,
                row == edge - 1 - down,
                column <= edge,
                pixels@.len() == e * e * 4,
                bmp_len(e) <= u32::MAX,
                out@.len() == 40 + (down * e + column) * 4,
                out@.take(40) == header,
                forall|r: int, c: int|
                    (0 <= r < down && 0 <= c < e) || (r == down && 0 <= c < column)
                        ==> #[trigger] out@.subrange(
                        40 + (r * e + c) * 4,
                        40 + (r * e + c) * 4 + 4,
                    ) == bgra(pixels@, ((e - 1 - r) * e + c) * 4),
            decreases edge - column,
        {
            proof {
                lemma_cell(e, row as int, column as int);
                lemma_cell(e, down as int, column as int);
            }
            let at = ((row * edge + column) * 4) as usize;
            let ghost before = out@;
            out.push(pixels[at + 2]);
            out.push(pixels[at + 1]);
            out.push(pixels[at]);
            out.push(pixels[at + 3]);
            proof {
                let here = 40 + (down * e + column) * 4;
                assert(out@.subrange(here, here + 4) =~= bgra(pixels@, at as int));
                assert(out@.take(40) =~= before.take(40));
                assert forall|r: int, c: int|
                    (0 <= r < down && 0 <= c < e) || (r == down && 0 <= c < column + 1)
                        implies #[trigger] out@.subrange(
                    40 + (r * e + c) * 4,
                    40 + (r * e + c) * 4 + 4,
                ) == bgra(pixels@, ((e - 1 - r) * e + c) * 4) by {
                    if r == down && c == column {
                    } else {
                        lemma_cell_before(e, r, c, down as int, column as int);
                        assert(out@.subrange(40 + (r * e + c) * 4, 40 + (r * e + c) * 4 + 4)
                            =~= before.subrange(40 + (r * e + c) * 4, 40 + (r * e + c) * 4 + 4));
                    }
                }
            }
            column = column + 1;
        }
        down = down + 1;
        proof {
            assert((down - 1) * e + e == down * e) by (nonlinear_arith);
        }
    }
    let ghost body = out@;
    let stride = ((edge + 31) / 32) * 4;
    proof {
        assert(body.len() == 40 + e * e * 4) by (nonlinear_arith)
            requires
                body.len() == 40 + down * e * 4,
                down == e,
        ;
        assert(stride * e <= u32::MAX);
    }
    push_zeros(&mut out, stride * edge);
    proof {
        assert(out@.skip(40 + e * e * 4) =~= zeros(mask_stride(e) * e));
        assert(out@.take(40) =~= body.take(40));
        assert forall|row: int, column: int|
            0 <= row < edge && 0 <= column < edge implies #[trigger] out@.subrange(
            40 + ((edge - 1 - row) * edge + column) * 4,
            40 + ((edge - 1 - row) * edge + column) * 4 + 4,
        ) == bgra(pixels@, (row * edge + column) * 4) by {
            let r = e - 1 - row;
            lemma_cell(e, r, column);
            assert(e - 1 - r == row);
            assert(out@.subrange(40 + (r * e + column) * 4, 40 + (r * e + column) * 4 + 4)
                =~= body.subrange(40 + (r * e + column) * 4, 40 + (r * e + column) * 4 + 4));
        }
    }
    out
}

// ---------------------------------------------------------------------------
// The icon file
// ---------------------------------------------------------------------------

/// How an image's edge is written in the directory: the field is one byte
/// wide, so 256 is written as zero.
pub open spec fn edge_byte(edge: u32) -> u8 {
    if edge < 256 {
        edge as u8
    } else {
        0
    }
}

/// One directory entry: width and height, no palette, a reserved byte, one
/// plane, 32 bits a pixel, the image's size, and where in the file it starts.
pub open spec fn ico_entry(edge: u32, size: int, offset: int) -> Seq<u8> {
    seq![edge_byte(edge), edge_byte(edge), 0u8, 0u8] + le16(1) + le16(32) + le32(size) + le32(offset)
}

/// The bytes of all the images, one after another.
pub open spec fn images_len(images: Seq<(u32, Vec<u8>)>) -> int
    decreases images.len(),
{
    if images.len() == 0 {
        0
    } else {
        images_len(images.drop_last()) + images.last().1@.len()
    }
}

/// The directory entries, the first image starting at `start` and each of
/// the others right after the one before it.
pub open spec fn ico_entries(images: Seq<(u32, Vec<u8>)>, start: int) -> Seq<u8>
    decreases images.len(),
{
    if images.len() == 0 {
        Seq::empty()
    } else {
        ico_entries(images.drop_last(), start) + ico_entry(
            images.last().0,
            images.last().1@.len() as int,
            start + images_len(images.drop_last()),
        )
    }
}

/// The images themselves, one after another.
pub open spec fn ico_images(images: Seq<(u32, Vec<u8>)>) -> Seq<u8>
    decreases images.len(),
{
    if images.len() == 0 {
        Seq::empty()
    } else {
        ico_images(images.drop_last()) + images.last().1@
    }
}

/// A whole `.ico` file: a reserved field, the type (an icon, not a cursor),
/// the number of images, the directory, and then the images.
pub open spec fn ico_bytes(images: Seq<(u32, Vec<u8>)>) -> Seq<u8> {
    le16(0) + le16(1) + le16(images.len() as int) + ico_entries(images, 6 + 16 * images.len() as int)
        + ico_images(images)
}

proof fn lemma_images_len(images: Seq<(u32, Vec<u8>)>)
    ensures
        images_len(images) >= 0,
        ico_images(images).len() == images_len(images),
        forall|k: int| 0 <= k <= images.len() ==> images_len(#[trigger] images.take(k)) <= images_len(images),
    decreases images.len(),
{
    if images.len() > 0 {
        lemma_images_len(images.drop_last());
        assert forall|k: int| 0 <= k <= images.len() implies images_len(#[trigger] images.take(k))
            <= images_len(images) by {
            if k < images.len() {
                assert(images.take(k) == images.drop_last().take(k));
            } else {
                assert(images.take(k) == images);
            }
        }
    } else {
        assert forall|k: int| 0 <= k <= images.len() implies images_len(#[trigger] images.take(k))
            <= images_len(images) by {
            assert(images.take(k) =~= images);
        }
    }
}

/// The mark as a Windows icon file, from its images: each one an edge in
/// pixels and that image's [`bmp`], in the order the directory lists them.
pub fn ico(images: &Vec<(u32, Vec<u8>)>) -> (file: Vec<u8>)
    requires
        images@.len() <= u16::MAX,
        6 + 16 * images@.len() + images_len(images@) <= u32::MAX,
    ensures
        file@ == ico_bytes(images@),
{
    proof {
        lemma_images_len(images@);
    }
    let count = images.len();
    let header = 6 + 16 * count;
    let mut file: Vec<u8> = Vec::new();
    push_le16(&mut file, 0);
    push_le16(&mut file, 1);
    push_le16(&mut file, count as u16);
    let ghost lead = file@;
    let mut offset: u32 = header as u32;
    let mut k: usize = 0;
    proof {
        assert(images@.take(0) =~= Seq::<(u32, Vec<u8>)>::empty());
    }
    while k < count
        invariant
            count == images@.len(),
            header == 6 + 16 * count,
            header + images_len(images@) <= u32::MAX,
            images_len(images@) >= 0,
            forall|j: int| 0 <= j <= images@.len() ==> images_len(#[trigger] images@.take(j)) <= images_len(images@),
            k <= count,
            offset == header + images_len(images@.take(k as int)),
            file@ == lead + ico_entries(images@.take(k as int), header as int),
        decreases count - k,
    {
        let edge = images[k].0;
        let size = images[k].1.len();
        let ghost next = images@.take(k + 1);
        proof {
            assert(next.drop_last() =~= images@.take(k as int));
            assert(next.last() == images@[k as int]);
            assert(images_len(next) == images_len(images@.take(k as int)) + size);
            assert(images_len(next) <= images_len(images@));
        }
        let width: u8 = if edge < 256 { edge as u8 } else { 0 };
        file.push(width);
        file.push(width);
        file.push(0u8);
        file.push(0u8);
        push_le16(&mut file, 1);
        push_le16(&mut file, 32);
        push_le32(&mut file, size as u32);
        push_le32(&mut file, offset);
        proof {
            assert(file@ =~= lead + ico_entries(next, header as int));
        }
        offset = offset + size as u32;
        k = k + 1;
    }
    let ghost listed = file@;
    proof {
        assert(images@.take(count as int) =~= images@);
    }
    let mut m: usize = 0;
    proof {
        assert(images@.take(0) =~= Seq::<(u32, Vec<u8>)>::empty());
    }
    while m < count
        invariant
            count == images@.len(),
            m <= count,
            file@ == listed + ico_images(images@.take(m as int)),
        decreases count - m,
    {
        let ghost next = images@.take(m + 1);
        proof {
            assert(next.drop_last() =~= images@.take(m as int));
            assert(next.last() == images@[m as int]);
        }
        let image = &images[m].1;
        let mut b: usize = 0;
        while b < image.len()
            invariant
                b <= image@.len(),
                file@ == listed + ico_images(images@.take(m as int)) + image@.take(b as int),
            decreases image@.len() - b,
        {
            file.push(image[b]);
            b = b + 1;
            proof {
                assert(image@.take(b as int) =~= image@.take(b - 1).push(image@[b - 1]));
            }
        }
        proof {
            assert(image@.take(b as int) =~= image@);
            assert(file@ =~= listed + ico_images(next));
        }
        m = m + 1;
    }
    proof {
        assert(images@.take(count as int) =~= images@);
        assert(file@ =~= ico_bytes(images@));
    }
    file
}

// ---------------------------------------------------------------------------
// The box filter
// ---------------------------------------------------------------------------

/// Where sample `(y, x)` of the icon pixel at `(row, column)` starts, in a
/// canvas `high` samples across drawn `factor` samples to a pixel each way.
pub open spec fn sample_at(high: int, factor: int, row: int, column: int, y: int, x: int) -> int {
    ((row * factor + y) * high + column * factor + x) * 4
}

/// What one sample adds to a sum: to a colour channel (0, 1, 2) its value and
/// to the count (3) one, and nothing at all where the sample is transparent.
pub open spec fn contribution(canvas: Seq<u8>, at: int, channel: int) -> int {
    if canvas[at + 3] == 0 {
        0
    } else if channel < 3 {
        canvas[at + channel] as int
    } else {
        1
    }
}

/// The first `n` samples of line `y` of a pixel's block, summed.
pub open spec fn line_sum(
    canvas: Seq<u8>,
    high: int,
    factor: int,
    row: int,
    column: int,
    y: int,
    n: nat,
    channel: int,
) -> int
    decreases n,
{
    if n == 0 {
        0
    } else {
        line_sum(canvas, high, factor, row, column, y, (n - 1) as nat, channel) + contribution(
            canvas,
            sample_at(high, factor, row, column, y, n - 1),
            channel,
        )
    }
}

/// The first `n` lines of a pixel's block, summed.
pub open spec fn block_sum(
    canvas: Seq<u8>,
    high: int,
    factor: int,
    row: int,
    column: int,
    n: nat,
    channel: int,
) -> int
    decreases n,
{
    if n == 0 {
        0
    } else {
        block_sum(canvas, high, factor, row, column, (n - 1) as nat, channel) + line_sum(
            canvas,
            high,
            factor,
            row,
            column,
            n - 1,
            factor as nat,
            channel,
        )
    }
}

/// One icon pixel: each colour the average of the covered samples of its
/// block, and its opacity the share of the block that is covered. A block
/// with nothing covered is transparent black.
pub open spec fn filtered(canvas: Seq<u8>, edge: int, high: int, row: int, column: int) -> Seq<u8> {
    let factor = high / edge;
    let sum = |channel: int| block_sum(canvas, high, factor, row, column, factor as nat, channel);
    let covered = sum(3);
    if covered == 0 {
        seq![0u8, 0u8, 0u8, 0u8]
    } else {
        seq![
            (sum(0) / covered) as u8,
            (sum(1) / covered) as u8,
            (sum(2) / covered) as u8,
            (covered * 255 / (factor * factor)) as u8,
        ]
    }
}

/// Sums of samples stay within what that many samples can hold.
proof fn lemma_line_sum_bound(
    canvas: Seq<u8>,
    high: int,
    factor: int,
    row: int,
    column: int,
    y: int,
    n: nat,
    channel: int,
)
    ensures
        0 <= line_sum(canvas, high, factor, row, column, y, n, channel) <= 255 * n,
        0 <= line_sum(canvas, high, factor, row, column, y, n, 3) <= n,
        line_sum(canvas, high, factor, row, column, y, n, channel) <= 255 * line_sum(
            canvas,
            high,
            factor,
            row,
            column,
            y,
            n,
            3,
        ),
    decreases n,
{
    if n > 0 {
        lemma_line_sum_bound(canvas, high, factor, row, column, y, (n - 1) as nat, channel);
    }
}

proof fn lemma_block_sum_bound(
    canvas: Seq<u8>,
    high: int,
    factor: int,
    row: int,
    column: int,
    n: nat,
    channel: int,
)
    requires
        factor >= 0,
    ensures
        0 <= block_sum(canvas, high, factor, row, column, n, channel) <= 255 * (n * factor),
        0 <= block_sum(canvas, high, factor, row, column, n, 3) <= n * factor,
        block_sum(canvas, high, factor, row, column, n, channel) <= 255 * block_sum(
            canvas,
            high,
            factor,
            row,
            column,
            n,
            3,
        ),
    decreases n,
{
    if n > 0 {
        lemma_block_sum_bound(canvas, high, factor, row, column, (n - 1) as nat, channel);
        lemma_line_sum_bound(canvas, high, factor, row, column, n - 1, factor as nat, channel);
        assert((n - 1) * factor + factor == n * factor) by (nonlinear_arith);
    }
}

/// Box-filters an oversized canvas down to the icon, averaging only the
/// covered samples so an edge pixel keeps its colour and loses its opacity
/// instead of fading towards black.
///
/// `canvas` is `high` by `high` samples of straight RGBA; the icon is `edge`
/// by `edge` pixels, each the block of `high / edge` samples each way that
/// lies over it.
pub fn downsample(canvas: &Vec<u8>, edge: u32, high: u32) -> (icon: Vec<u8>)
    requires
        edge > 0,
        canvas@.len() == high * high * 4,
        high * high * 4 <= u32::MAX,
        edge * edge * 4 <= u32::MAX,
        (high / edge) * (high / edge) * 255 <= u32::MAX,
    ensures
        icon@.len() == edge * edge * 4,
        forall|row: int, column: int|
            0 <= row < edge && 0 <= column < edge ==> #[trigger] icon@.subrange(
                (row * edge + column) * 4,
                (row * edge + column) * 4 + 4,
            ) == filtered(canvas@, edge as int, high as int, row, column),
{
    let factor = high / edge;
    let per_pixel = factor * factor;
    let ghost f = factor as int;
    let ghost h = high as int;
    let ghost e = edge as int;
    proof {
        assert(e * f <= h) by (nonlinear_arith)
            requires
                f == h / e,
                e > 0,
                h >= 0,
        ;
        assert(e * e * 4 >= 0) by (nonlinear_arith);
    }
    let mut icon: Vec<u8> = Vec::new();
    let mut row: u32 = 0;
    while row < edge
        invariant
            e == edge,
            f == factor,
            h == high,
            f == h / e,
            e * f <= h,
            per_pixel == f * f,
            f * f * 255 <= u32::MAX,
            canvas@.len() == h * h * 4,
            h * h * 4 <= u32::MAX,
            e * e * 4 <= u32::MAX,
            row <= edge,
            icon@.len() == row * e * 4,
            forall|r: int, c: int|
                0 <= r < row && 0 <= c < e ==> #[trigger] icon@.subrange(
                    (r * e + c) * 4,
                    (r * e + c) * 4 + 4,
                ) == filtered(canvas@, e, h, r, c),
        decreases edge - row,
    {
        let mut column: u32 = 0;
        proof {
            lemma_cell(e, row as int, 0);
        }
        while column < edge
            invariant
                e == edge,
                f == factor,
                h == high,
                f == h / e,
                e * f <= h,
                per_pixel == f * f,
                f * f * 255 <= u32::MAX,
                canvas@.len() == h * h * 4,
                h * h * 4 <= u32::MAX,
                e * e * 4 <= u32::MAX,
                row < edge,
                column <= edge,
                icon@.len() == (row * e + column) * 4,
                forall|r: int, c: int|
                    (0 <= r < row && 0 <= c < e) || (r == row && 0 <= c < column)
                        ==> #[trigger] icon@.subrange((r * e + c) * 4, (r * e + c) * 4 + 4)
                        == filtered(canvas@, e, h, r, c),
            decreases edge - column,
        {
            let mut red: u32 = 0;
            let mut green: u32 = 0;
            let mut blue: u32 = 0;
            let mut covered: u32 = 0;
            let mut y: u32 = 0;
            while y < factor
                invariant
                    e == edge,
                    f == factor,
                    h == high,
                    e * f <= h,
                    f * f * 255 <= u32::MAX,
                    canvas@.len() == h * h * 4,
                    h * h * 4 <= u32::MAX,
                    row < edge,
                    column < edge,
                    y <= factor,
                    red == block_sum(canvas@, h, f, row as int, column as int, y as nat, 0),
                    green == block_sum(canvas@, h, f, row as int, column as int, y as nat, 1),
                    blue == block_sum(canvas@, h, f, row as int, column as int, y as nat, 2),
                    covered == block_sum(canvas@, h, f, row as int, column as int, y as nat, 3),
                decreases factor - y,
            {
                let mut x: u32 = 0;
                proof {
                    assert(row * f + y < h) by (nonlinear_arith)
                        requires
                            row < e,
                            y < f,
                            e * f <= h,
                    ;
                    assert(column * f + f <= h) by (nonlinear_arith)
                        requires
                            column < e,
                            e * f <= h,
                            f >= 0,
                    ;
                    assert(y * f + f <= f * f) by (nonlinear_arith)
                        requires
                            y < f,
                    ;
                }
                while x < factor
                    invariant
                        e == edge,
                        f == factor,
                        h == high,
                        f * f * 255 <= u32::MAX,
                        canvas@.len() == h * h * 4,
                        h * h * 4 <= u32::MAX,
                        row * f + y < h,
                        column * f + f <= h,
                        y * f + f <= f * f,
                        y < factor,
                        x <= factor,
                        red == block_sum(canvas@, h, f, row as int, column as int, y as nat, 0) + line_sum(canvas@, h, f, row as int, column as int, y as int, x as nat, 0),
                        green == block_sum(canvas@, h, f, row as int, column as int, y as nat, 1) + line_sum(canvas@, h, f, row as int, column as int, y as int, x as nat, 1),
                        blue == block_sum(canvas@, h, f, row as int, column as int, y as nat, 2) + line_sum(canvas@, h, f, row as int, column as int, y as int, x as nat, 2),
                        covered == block_sum(canvas@, h, f, row as int, column as int, y as nat, 3) + line_sum(canvas@, h, f, row as int, column as int, y as int, x as nat, 3),
                    decreases factor - x,
                {
                    proof {
                        lemma_cell(h, row * f + y, column * f + x);
                        lemma_block_sum_bound(canvas@, h, f, row as int, column as int, y as nat, 0);
                        lemma_block_sum_bound(canvas@, h, f, row as int, column as int, y as nat, 1);
                        lemma_block_sum_bound(canvas@, h, f, row as int, column as int, y as nat, 2);
                        lemma_block_sum_bound(canvas@, h, f, row as int, column as int, y as nat, 3);
                        lemma_line_sum_bound(canvas@, h, f, row as int, column as int, y as int, x as nat, 0);
                        lemma_line_sum_bound(canvas@, h, f, row as int, column as int, y as int, x as nat, 1);
                        lemma_line_sum_bound(canvas@, h, f, row as int, column as int, y as int, x as nat, 2);
                        lemma_line_sum_bound(canvas@, h, f, row as int, column as int, y as int, x as nat, 3);
                        assert(255 * (y * f) + 255 * x + 255 <= f * f * 255) by (nonlinear_arith)
                            requires
                                y * f + f <= f * f,
                                x < f,
                        ;
                    }
                    let at = (((row * factor + y) * high + column * factor + x) * 4) as usize;
                    if canvas[at + 3] != 0 {
                        red = red + canvas[at] as u32;
                        green = green + canvas[at + 1] as u32;
                        blue = blue + canvas[at + 2] as u32;
                        covered = covered + 1;
                    }
                    x = x + 1;
                }
                y = y + 1;
            }
            proof {
                lemma_block_sum_bound(canvas@, h, f, row as int, column as int, f as nat, 3);
                lemma_cell(e, row as int, column as int);
            }
            let ghost before = icon@;
            if covered == 0 {
                icon.push(0u8);
                icon.push(0u8);
                icon.push(0u8);
                icon.push(0u8);
            } else {
                icon.push((red / covered) as u8);
                icon.push((green / covered) as u8);
                icon.push((blue / covered) as u8);
                icon.push((covered * 255 / per_pixel) as u8);
            }
            proof {
                let here = (row * e + column) * 4;
                assert(icon@.subrange(here, here + 4) =~= filtered(canvas@, e, h, row as int, column as int));
                assert forall|r: int, c: int|
                    (0 <= r < row && 0 <= c < e) || (r == row && 0 <= c < column + 1)
                        implies #[trigger] icon@.subrange((r * e + c) * 4, (r * e + c) * 4 + 4)
                        == filtered(canvas@, e, h, r, c) by {
                    if r == row && c == column {
                    } else {
                        lemma_cell_before(e, r, c, row as int, column as int);
                        assert(icon@.subrange((r * e + c) * 4, (r * e + c) * 4 + 4)
                            =~= before.subrange((r * e + c) * 4, (r * e + c) * 4 + 4));
                    }
                }
            }
            column = column + 1;
        }
        row = row + 1;
        proof {
            assert((row - 1) * e + e == row * e) by (nonlinear_arith);
        }
    }
    icon
}

} // verus!
