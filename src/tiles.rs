//! Tile geometry: which tiles cover an image, and how a tile's pixels are
//! copied into a frame buffer.
use vstd::prelude::*;
use vstd::arithmetic::div_mod::{lemma_div_is_ordered, lemma_fundamental_div_mod, lemma_fundamental_div_mod_converse};
use crate::error::ErrorKind;

verus! {

/// Number of steps of length `step` from 0 that stay below `extent`:
/// `extent / step` rounded up.
pub open spec fn ceil_div(extent: int, step: int) -> int {
    (extent + step - 1) / step
}

/// Number of tile columns of an image.
pub open spec fn tiles_across(image_size: (usize, usize), tile_size: (usize, usize)) -> int {
    ceil_div(image_size.0 as int, tile_size.0 as int)
}

/// Number of tile rows of an image.
pub open spec fn tiles_down(image_size: (usize, usize), tile_size: (usize, usize)) -> int {
    ceil_div(image_size.1 as int, tile_size.1 as int)
}

/// The origins of the tiles that cover an image, row by row from the top, and
/// from left to right within a row.
pub open spec fn tile_origins(image_size: (usize, usize), tile_size: (usize, usize)) -> Seq<(usize, usize)> {
    let across = tiles_across(image_size, tile_size);
    Seq::new(
        (across * tiles_down(image_size, tile_size)) as nat,
        |i: int| (((i % across) * tile_size.0) as usize, ((i / across) * tile_size.1) as usize),
    )
}

/// `i * step < extent` exactly for the first `ceil_div(extent, step)` values of `i`.
proof fn lemma_steps_below(extent: int, step: int, i: int)
    requires
        extent >= 0,
        step > 0,
        i >= 0,
    ensures
        (i * step < extent) <==> (i < ceil_div(extent, step)),
{
    let q = ceil_div(extent, step);
    let r = (extent + step - 1) % step;
    assert(extent + step - 1 == q * step + r && 0 <= r < step) by (nonlinear_arith)
        requires
            step > 0,
            q == (extent + step - 1) / step,
            r == (extent + step - 1) % step,
    ;
    if i < q {
        assert(i * step < extent) by (nonlinear_arith)
            requires
                i < q,
                i >= 0,
                step > 0,
                extent + step - 1 == q * step + r,
                r >= 0,
        ;
    } else {
        assert(i * step >= extent) by (nonlinear_arith)
            requires
                i >= q,
                step > 0,
                extent + step - 1 == q * step + r,
                r < step,
        ;
    }
}

/// The number of tiles needed to cover `extent` in steps of `step`.
fn count_steps(extent: usize, step: usize) -> (n: usize)
    requires
        step > 0,
    ensures
        n == ceil_div(extent as int, step as int),
{
    if extent == 0 {
        assert(ceil_div(0, step as int) == 0) by {
            lemma_fundamental_div_mod_converse(step - 1, step as int, 0, step - 1);
        }
        0
    } else {
        let q = (extent - 1) / step;
        proof {
            let r = ((extent - 1) % step as int) as int;
            assert(extent - 1 == q * step + r && 0 <= r < step) by (nonlinear_arith)
                requires
                    step > 0,
                    q == (extent - 1) / (step as int),
                    r == (extent - 1) % (step as int),
            ;
            assert(extent + step - 1 == (q + 1) * step + r) by (nonlinear_arith)
                requires
                    extent - 1 == q * step + r,
            ;
            lemma_fundamental_div_mod_converse(extent + step - 1, step as int, q + 1, r);
            assert(q * step <= extent - 1) by (nonlinear_arith)
                requires
                    extent - 1 == q * step + r,
                    r >= 0,
            ;
            assert(q < extent) by (nonlinear_arith)
                requires
                    q * step <= extent - 1,
                    step >= 1,
                    q >= 0,
            ;
        }
        q + 1
    }
}

/// The origins of the tiles of size `tile_size` that cover an image of size
/// `image_size`, row by row from the top and from left to right within a row.
/// Tiles in the last column and row may reach past the image's edge.
pub fn tiles(image_size: (usize, usize), tile_size: (usize, usize)) -> (r: Vec<(usize, usize)>)
    requires
        tile_size.0 > 0,
        tile_size.1 > 0,
    ensures
        r@ == tile_origins(image_size, tile_size),
{
    let (image_width, image_height) = image_size;
    let (tile_width, tile_height) = tile_size;
    let across = count_steps(image_width, tile_width);
    let down = count_steps(image_height, tile_height);
    let ghost spec_tiles = tile_origins(image_size, tile_size);
    let mut tiles: Vec<(usize, usize)> = Vec::new();
    let mut row: usize = 0;
    while row < down
        invariant
            row <= down,
            across == tiles_across(image_size, tile_size),
            down == tiles_down(image_size, tile_size),
            tile_width == tile_size.0,
            tile_height == tile_size.1,
            image_width == image_size.0,
            image_height == image_size.1,
            tile_width > 0,
            tile_height > 0,
            spec_tiles == tile_origins(image_size, tile_size),
            tiles.len() == row * across,
            forall|k: int| 0 <= k < tiles.len() ==> tiles@[k] == #[trigger] spec_tiles[k],
        decreases down - row,
    {
        proof {
            lemma_steps_below(image_height as int, tile_height as int, row as int);
        }
        let y = row * tile_height;
        let mut column: usize = 0;
        while column < across
            invariant
                row < down,
                column <= across,
                across == tiles_across(image_size, tile_size),
                down == tiles_down(image_size, tile_size),
                tile_width == tile_size.0,
                tile_height == tile_size.1,
                image_width == image_size.0,
                image_height == image_size.1,
                tile_width > 0,
                y == row * tile_height,
                spec_tiles == tile_origins(image_size, tile_size),
                tiles.len() == row * across + column,
                forall|k: int| 0 <= k < tiles.len() ==> tiles@[k] == #[trigger] spec_tiles[k],
            decreases across - column,
        {
            proof {
                lemma_steps_below(image_width as int, tile_width as int, column as int);
            }
            let x = column * tile_width;
            proof {
                let k = row * across + column;
                lemma_fundamental_div_mod_converse(k, across as int, row as int, column as int);
                assert(k < across * down) by (nonlinear_arith)
                    requires
                        k == row * across + column,
                        column < across,
                        row < down,
                        row >= 0,
                        column >= 0,
                ;
            }
            tiles.push((x, y));
            column += 1;
        }
        row += 1;
        assert(tiles.len() == row * across) by (nonlinear_arith)
            requires
                tiles.len() == (row - 1) * across + across,
        ;
    }
    assert(tiles.len() == spec_tiles.len()) by (nonlinear_arith)
        requires
            tiles.len() == down * across,
            spec_tiles.len() == across * down,
    ;
    assert(tiles@ =~= spec_tiles);
    tiles
}

/// One side of the tile size: as given, or the image's own side where none
/// is given.
pub open spec fn side_or(given: Option<usize>, image_side: usize) -> usize {
    match given {
        Some(v) => v,
        None => image_side,
    }
}

/// The tile size for an image of `image_size`: each side as given, or the
/// image's side where none is given, so that by default one tile spans the
/// image. A side of zero is refused.
pub fn tile_dims(image_size: (usize, usize), tile_width: Option<usize>, tile_height: Option<usize>) -> (r: Result<
    (usize, usize),
    ErrorKind,
>)
    ensures
        side_or(tile_width, image_size.0) > 0 && side_or(tile_height, image_size.1) > 0 ==> r == Ok::<
            (usize, usize),
            ErrorKind,
        >((side_or(tile_width, image_size.0), side_or(tile_height, image_size.1))),
        side_or(tile_width, image_size.0) == 0 || side_or(tile_height, image_size.1) == 0 ==> r == Err::<
            (usize, usize),
            ErrorKind,
        >(ErrorKind::InvalidTileGeometry),
{
    let width = match tile_width {
        Some(v) => v,
        None => image_size.0,
    };
    let height = match tile_height {
        Some(v) => v,
        None => image_size.1,
    };
    if width == 0 || height == 0 {
        Err(ErrorKind::InvalidTileGeometry)
    } else {
        Ok((width, height))
    }
}

/// Bytes per RGB pixel.
pub const BYTES_PER_PIXEL: usize = 3;

/// Whether byte `k` of a row-major RGB frame `image_width` pixels wide lies
/// under the tile of `tile_size` pixels placed at `origin`.
pub open spec fn under_tile(k: int, image_width: int, origin: (usize, usize), tile_size: (usize, usize)) -> bool {
    let row = k / (3 * image_width);
    let column = k % (3 * image_width);
    &&& origin.1 <= row < origin.1 + tile_size.1
    &&& 3 * origin.0 <= column < 3 * (origin.0 + tile_size.0)
}

/// Where, in the tile's own row-major RGB data, the byte that lands on byte
/// `k` of the frame comes from.
pub open spec fn tile_byte(k: int, image_width: int, origin: (usize, usize), tile_size: (usize, usize)) -> int {
    let row = k / (3 * image_width);
    let column = k % (3 * image_width);
    (row - origin.1) * (3 * tile_size.0) + (column - 3 * origin.0)
}

/// The frame `dest` after the tile `src` was copied in at `origin`: bytes under
/// the tile come from it, the others are kept, and what of the tile falls
/// past the frame's right or bottom edge is dropped.
pub open spec fn blitted(
    src: Seq<u8>,
    dest: Seq<u8>,
    origin: (usize, usize),
    image_size: (usize, usize),
    tile_size: (usize, usize),
) -> Seq<u8> {
    Seq::new(
        dest.len(),
        |k: int|
            if under_tile(k, image_size.0 as int, origin, tile_size) {
                src[tile_byte(k, image_size.0 as int, origin, tile_size)]
            } else {
                dest[k]
            },
    )
}

/// Whether a tile of `src_len` bytes can be composited at `origin` into a
/// frame of `dest_len` bytes: both hold RGB data of their stated size, and
/// the origin lies inside the frame.
pub open spec fn blit_fits(
    src_len: int,
    dest_len: int,
    origin: (usize, usize),
    image_size: (usize, usize),
    tile_size: (usize, usize),
) -> bool {
    &&& src_len == 3 * tile_size.0 * tile_size.1
    &&& dest_len == 3 * image_size.0 * image_size.1
    &&& origin.0 < image_size.0
    &&& origin.1 < image_size.1
}

/// Position `k` of a frame whose rows are `stride` bytes long splits into
/// row `k / stride` and column `k % stride`.
proof fn lemma_row_column(k: int, stride: int)
    requires
        k >= 0,
        stride > 0,
    ensures
        k == (k / stride) * stride + k % stride,
        0 <= k % stride < stride,
        k / stride >= 0,
{
    lemma_fundamental_div_mod(k, stride);
    assert(stride * (k / stride) == (k / stride) * stride) by (nonlinear_arith);
    assert(0 <= k % stride < stride && k / stride >= 0) by (nonlinear_arith)
        requires
            k >= 0,
            stride > 0,
    ;
}

/// No byte between the end of a tile's row in the frame and the start of its
/// next row lies under the tile; neither does any byte before its first row.
proof fn lemma_outside_rows(
    k: int,
    image_size: (usize, usize),
    origin: (usize, usize),
    tile_size: (usize, usize),
    row: int,
    width: int,
)
    requires
        image_size.0 > 0,
        origin.0 < image_size.0,
        0 <= row,
        width == if tile_size.0 <= image_size.0 - origin.0 { tile_size.0 as int } else { image_size.0 - origin.0 },
        0 <= k,
        (row == 0 && k < origin.1 * (3 * image_size.0) + 3 * origin.0) || (
            (origin.1 + row - 1) * (3 * image_size.0) + 3 * origin.0 + 3 * width <= k
            && k < (origin.1 + row) * (3 * image_size.0) + 3 * origin.0),
    ensures
        !under_tile(k, image_size.0 as int, origin, tile_size),
{
    let stride = 3 * image_size.0;
    lemma_row_column(k, stride);
    let r = k / stride;
    let c = k % stride;
    let (x, y) = (origin.0 as int, origin.1 as int);
    if row == 0 && k < y * stride + 3 * x {
        if r >= y {
            assert(r * stride >= y * stride) by (nonlinear_arith)
                requires
                    r >= y,
                    stride > 0,
            ;
        }
    } else {
        assert(r == y + row - 1 || r == y + row) by (nonlinear_arith)
            requires
                k == r * stride + c,
                0 <= c < stride,
                (y + row - 1) * stride <= k,
                k < (y + row) * stride + stride,
                stride > 0,
        ;
        if r == y + row - 1 {
            assert(c >= 3 * x + 3 * width) by (nonlinear_arith)
                requires
                    k == r * stride + c,
                    r == y + row - 1,
                    (y + row - 1) * stride + 3 * x + 3 * width <= k,
            ;
        } else {
            assert(c < 3 * x) by (nonlinear_arith)
                requires
                    k == r * stride + c,
                    r == y + row,
                    k < (y + row) * stride + 3 * x,
            ;
        }
    }
}

/// Whether `len` bytes are exactly the RGB data of `width` by `height` pixels.
fn holds_rgb(len: usize, width: usize, height: usize) -> (r: bool)
    ensures
        r == (len == 3 * width * height),
{
    proof {
        assert(3 * width * height == 3 * (width * height)) by (nonlinear_arith);
    }
    match width.checked_mul(height) {
        Some(area) => area <= usize::MAX / BYTES_PER_PIXEL && BYTES_PER_PIXEL * area == len,
        None => false,
    }
}

/// Copies the RGB tile `src`, `tile_size` pixels large, into the RGB frame
/// `dest`, `image_size` pixels large, with the tile's top left corner at
/// `origin`. What of the tile falls past the frame's right or bottom edge is
/// dropped. A tile whose data or frame has the wrong size, or whose origin lies
/// outside the frame, is refused and the frame left as it was.
pub fn blit_rgb(
    src: &[u8],
    dest: &mut [u8],
    origin: (usize, usize),
    image_size: (usize, usize),
    tile_size: (usize, usize),
) -> (r: Result<(), ErrorKind>)
    ensures
        blit_fits(src@.len() as int, old(dest)@.len() as int, origin, image_size, tile_size) ==> r == Ok::<(), ErrorKind>(())
            && final(dest)@ == blitted(src@, old(dest)@, origin, image_size, tile_size),
        !blit_fits(src@.len() as int, old(dest)@.len() as int, origin, image_size, tile_size) ==> r == Err::<(), ErrorKind>(ErrorKind::InvalidTileGeometry)
            && final(dest)@ == old(dest)@,
{
    let (x, y) = origin;
    let (image_width, image_height) = image_size;
    let (tile_width, tile_height) = tile_size;
    if !holds_rgb(src.len(), tile_width, tile_height) || !holds_rgb(dest.len(), image_width, image_height) {
        return Err(ErrorKind::InvalidTileGeometry);
    }
    if x >= image_width || y >= image_height {
        return Err(ErrorKind::InvalidTileGeometry);
    }
    proof {
        assert(3 * tile_width * tile_height == 3 * (tile_width * tile_height)) by (nonlinear_arith);
        assert(3 * image_width * image_height == 3 * (image_width * image_height)) by (nonlinear_arith);
        assert(blit_fits(src@.len() as int, dest@.len() as int, origin, image_size, tile_size));
    }
    if tile_height == 0 {
        assert(dest@ =~= blitted(src@, dest@, origin, image_size, tile_size));
        return Ok(());
    }
    proof {
        assert(3 * image_width <= 3 * image_width * image_height) by (nonlinear_arith)
            requires
                image_height >= 1,
        ;
        assert(3 * tile_width <= 3 * tile_width * tile_height) by (nonlinear_arith)
            requires
                tile_height >= 1,
        ;
    }
    let stride = BYTES_PER_PIXEL * image_width;
    let tile_stride = BYTES_PER_PIXEL * tile_width;
    let ghost initial = dest@;
    // Rows and bytes per row of the tile that fall inside the frame.
    let rows = if tile_height <= image_height - y { tile_height } else { image_height - y };
    let width = if tile_width <= image_width - x { tile_width } else { image_width - x };
    let row_bytes = width * BYTES_PER_PIXEL;
    assert forall|k: int| 0 <= k < origin.1 * (3 * image_size.0) + 3 * origin.0 implies
        !under_tile(k, image_width as int, origin, tile_size) by {
        lemma_outside_rows(k, image_size, origin, tile_size, 0, width as int);
    }
    let mut row: usize = 0;
    while row < rows
        invariant
            blit_fits(src@.len() as int, initial.len() as int, origin, image_size, tile_size),
            image_size == (image_width, image_height),
            tile_size == (tile_width, tile_height),
            origin == (x, y),
            stride == 3 * image_width,
            tile_stride == 3 * tile_width,
            rows == if tile_height <= image_height - y { tile_height } else { (image_height - y) as usize },
            width == if tile_width <= image_width - x { tile_width } else { (image_width - x) as usize },
            row_bytes == 3 * width,
            row <= rows,
            dest@.len() == initial.len(),
            initial.len() <= usize::MAX,
            src@.len() <= usize::MAX,
            forall|k: int| 0 <= k < dest@.len() ==> #[trigger] dest@[k] == if under_tile(k, image_width as int, origin, tile_size)
                && k < (y + row) * stride + 3 * x {
                src@[tile_byte(k, image_width as int, origin, tile_size)]
            } else {
                initial[k]
            },
        decreases rows - row,
    {
        assert((y + row) * stride + 3 * x + row_bytes <= 3 * image_width * image_height) by (nonlinear_arith)
            requires
                y + row < image_height,
                stride == 3 * image_width,
                x + width <= image_width,
                row_bytes == 3 * width,
        ;
        assert((row + 1) * tile_stride <= src@.len()) by (nonlinear_arith)
            requires
                row < tile_height,
                src@.len() == 3 * tile_width * tile_height,
                tile_stride == 3 * tile_width,
        ;
        assert(row * tile_stride + tile_stride == (row + 1) * tile_stride) by (nonlinear_arith);
        let dest_start = (y + row) * stride + 3 * x;
        let src_start = row * tile_stride;
        let mut column: usize = 0;
        while column < row_bytes
            invariant
                blit_fits(src@.len() as int, initial.len() as int, origin, image_size, tile_size),
                image_size == (image_width, image_height),
                tile_size == (tile_width, tile_height),
                origin == (x, y),
                stride == 3 * image_width,
                tile_stride == 3 * tile_width,
                width == if tile_width <= image_width - x { tile_width } else { (image_width - x) as usize },
                row_bytes == 3 * width,
                row < rows,
                rows <= tile_height,
                y + rows <= image_height,
                dest_start == (y + row) * stride + 3 * x,
                src_start == row * tile_stride,
                dest_start + row_bytes <= dest@.len(),
                src_start + tile_stride <= src@.len(),
                column <= row_bytes,
                row_bytes <= tile_stride,
                dest@.len() == initial.len(),
                initial.len() <= usize::MAX,
                src@.len() <= usize::MAX,
                forall|k: int| 0 <= k < dest@.len() ==> #[trigger] dest@[k] == if under_tile(k, image_width as int, origin, tile_size)
                    && k < dest_start + column {
                    src@[tile_byte(k, image_width as int, origin, tile_size)]
                } else {
                    initial[k]
                },
            decreases row_bytes - column,
        {
            let k = dest_start + column;
            proof {
                assert(k == (y + row) * stride + (3 * x + column));
                lemma_fundamental_div_mod_converse(k as int, stride as int, (y + row) as int, (3 * x + column) as int);
                assert(tile_byte(k as int, image_width as int, origin, tile_size) == src_start + column) by (nonlinear_arith)
                    requires
                        tile_byte(k as int, image_width as int, origin, tile_size) == (y + row - y) * (3 * tile_width) + (3 * x + column - 3 * x),
                        src_start == row * tile_stride,
                        tile_stride == 3 * tile_width,
                ;
            }
            dest[k] = src[src_start + column];
            column += 1;
        }
        proof {
            assert((y + row + 1) * stride == (y + row) * stride + stride) by (nonlinear_arith);
            assert forall|k: int| 0 <= k < dest@.len() implies #[trigger] dest@[k] == if under_tile(k, image_width as int, origin, tile_size)
                && k < (y + row + 1) * stride + 3 * x {
                src@[tile_byte(k, image_width as int, origin, tile_size)]
            } else {
                initial[k]
            } by {
                if dest_start + row_bytes <= k < (y + row + 1) * stride + 3 * x {
                    lemma_outside_rows(k, image_size, origin, tile_size, row + 1, width as int);
                }
            }
        }
        row += 1;
    }
    proof {
        assert forall|k: int| 0 <= k < dest@.len() && under_tile(k, image_width as int, origin, tile_size) implies
            k < (y + rows) * stride + 3 * x by {
            lemma_row_column(k, stride as int);
            let r = k / stride as int;
            let c = k % stride as int;
            assert(r < y + rows) by (nonlinear_arith)
                requires
                    k == r * stride + c,
                    0 <= c,
                    k < 3 * image_width * image_height,
                    stride == 3 * image_width,
                    r < y + tile_height,
                    rows == if tile_height <= image_height - y { tile_height as int } else { image_height - y },
            ;
            assert(k < (y + rows) * stride) by (nonlinear_arith)
                requires
                    k == r * stride + c,
                    c < stride,
                    r + 1 <= y + rows,
            ;
        }
        assert(dest@ =~= blitted(src@, initial, origin, image_size, tile_size));
    }
    Ok(())
}

/// `v` lies in the `q`-th step of length `d` exactly when `v / d == q`.
proof fn lemma_div_window(v: int, d: int, q: int)
    requires
        v >= 0,
        d > 0,
        q >= 0,
    ensures
        (q * d <= v < q * d + d) <==> v / d == q,
{
    lemma_row_column(v, d);
    if q * d <= v < q * d + d {
        lemma_fundamental_div_mod_converse(v, d, q, v - q * d);
    }
}

/// Grid position `i` of the tile grid, `across` tiles wide: its column and
/// row, and that it lies in the grid.
proof fn lemma_grid_position(i: int, across: int, down: int)
    requires
        0 <= i < across * down,
        across > 0,
    ensures
        0 <= i % across < across,
        0 <= i / across < down,
        i == (i / across) * across + i % across,
{
    lemma_row_column(i, across);
    assert(i / across < down) by (nonlinear_arith)
        requires
            i == (i / across) * across + i % across,
            0 <= i % across,
            i < across * down,
            across > 0,
    ;
}

/// The tiles of an image with positive sides: `ceil(W / tw) * ceil(H / th)`
/// origins, the first at (0, 0), each inside the image, and strictly rising
/// in row-major order: by row, then by column within a row.
pub proof fn lemma_tile_origins_ordered(image_size: (usize, usize), tile_size: (usize, usize))
    requires
        image_size.0 > 0,
        image_size.1 > 0,
        tile_size.0 > 0,
        tile_size.1 > 0,
    ensures
        tile_origins(image_size, tile_size).len() == ceil_div(image_size.0 as int, tile_size.0 as int) * ceil_div(
            image_size.1 as int,
            tile_size.1 as int,
        ),
        tile_origins(image_size, tile_size)[0] == (0usize, 0usize),
        forall|i: int| 0 <= i < tile_origins(image_size, tile_size).len()
            ==> #[trigger] tile_origins(image_size, tile_size)[i].0 < image_size.0
                && tile_origins(image_size, tile_size)[i].1 < image_size.1,
        forall|i: int, j: int| 0 <= i < j < tile_origins(image_size, tile_size).len()
            ==> #[trigger] tile_origins(image_size, tile_size)[i].1 < #[trigger] tile_origins(image_size, tile_size)[j].1
                || (tile_origins(image_size, tile_size)[i].1 == tile_origins(image_size, tile_size)[j].1
                    && tile_origins(image_size, tile_size)[i].0 < tile_origins(image_size, tile_size)[j].0),
{
    let t = tile_origins(image_size, tile_size);
    let across = tiles_across(image_size, tile_size);
    let down = tiles_down(image_size, tile_size);
    let (w, h) = (image_size.0 as int, image_size.1 as int);
    let (tw, th) = (tile_size.0 as int, tile_size.1 as int);
    lemma_steps_below(w, tw, 0);
    lemma_steps_below(h, th, 0);
    assert(across * down >= 1) by (nonlinear_arith)
        requires
            across >= 1,
            down >= 1,
    ;
    assert forall|i: int| 0 <= i < t.len() implies #[trigger] t[i].0 < image_size.0 && t[i].1 < image_size.1
        && t[i].0 == (i % across) * tw && t[i].1 == (i / across) * th by {
        lemma_grid_position(i, across, down);
        lemma_steps_below(w, tw, i % across);
        lemma_steps_below(h, th, i / across);
        assert((i % across) * tw >= 0 && (i / across) * th >= 0) by (nonlinear_arith)
            requires
                i % across >= 0,
                i / across >= 0,
                tw > 0,
                th > 0,
        ;
    }
    assert(0int % across == 0 && 0int / across == 0);
    assert forall|i: int, j: int| 0 <= i < j < t.len() implies #[trigger] t[i].1 < #[trigger] t[j].1 || (t[i].1 == t[j].1
        && t[i].0 < t[j].0) by {
        lemma_grid_position(i, across, down);
        lemma_grid_position(j, across, down);
        lemma_div_is_ordered(i, j, across);
        assert(t[i].0 < image_size.0);
        assert(t[j].0 < image_size.0);
        if i / across < j / across {
            assert((i / across) * th < (j / across) * th) by (nonlinear_arith)
                requires
                    i / across < j / across,
                    th > 0,
            ;
        } else {
            assert((i % across) * tw < (j % across) * tw) by (nonlinear_arith)
                requires
                    i / across == j / across,
                    i == (i / across) * across + i % across,
                    j == (j / across) * across + j % across,
                    i < j,
                    tw > 0,
            ;
        }
    }
}

/// The origin of the planner's tile that covers byte `k` of a frame of
/// `image_size` pixels: pixel (px, py) lies in the tile at
/// ((px / tw) * tw, (py / th) * th).
pub open spec fn covering_origin(k: int, image_size: (usize, usize), tile_size: (usize, usize)) -> (usize, usize) {
    let px = (k % (3 * image_size.0)) / 3;
    let py = k / (3 * image_size.0);
    let (tw, th) = (tile_size.0 as int, tile_size.1 as int);
    (((px / tw) * tw) as usize, ((py / th) * th) as usize)
}

/// The position, in the planner's order, of the tile that covers byte `k`.
spec fn covering_index(k: int, image_size: (usize, usize), tile_size: (usize, usize)) -> int {
    let px = (k % (3 * image_size.0)) / 3;
    let py = k / (3 * image_size.0);
    (py / (tile_size.1 as int)) * tiles_across(image_size, tile_size) + px / (tile_size.0 as int)
}

/// A tile of `tile_size` pixels whose every byte is `value`.
pub open spec fn solid_tile(tile_size: (usize, usize), value: u8) -> Seq<u8> {
    Seq::new((3 * tile_size.0 * tile_size.1) as nat, |_i: int| value)
}

/// The frame `dest` after the tiles at `origins` were composited into it in
/// order, each filled with the byte `fill` gives for its origin.
pub open spec fn composite_solid(
    origins: Seq<(usize, usize)>,
    dest: Seq<u8>,
    image_size: (usize, usize),
    tile_size: (usize, usize),
    fill: spec_fn((usize, usize)) -> u8,
) -> Seq<u8>
    decreases origins.len(),
{
    if origins.len() == 0 {
        dest
    } else {
        let origin = origins.last();
        blitted(
            solid_tile(tile_size, fill(origin)),
            composite_solid(origins.drop_last(), dest, image_size, tile_size, fill),
            origin,
            image_size,
            tile_size,
        )
    }
}

/// An image with positive sides has at least one tile.
proof fn lemma_some_tile(image_size: (usize, usize), tile_size: (usize, usize))
    requires
        image_size.0 > 0,
        image_size.1 > 0,
        tile_size.0 > 0,
        tile_size.1 > 0,
    ensures
        tile_origins(image_size, tile_size).len() > 0,
{
    lemma_steps_below(image_size.0 as int, tile_size.0 as int, 0);
    lemma_steps_below(image_size.1 as int, tile_size.1 as int, 0);
    let across = tiles_across(image_size, tile_size);
    let down = tiles_down(image_size, tile_size);
    assert(across * down >= 1) by (nonlinear_arith)
        requires
            across >= 1,
            down >= 1,
    ;
}

/// Byte `k` of a frame lies under the planner's tile `m` exactly when `m` is
/// the tile covering it; the tile's data then has a byte for it.
proof fn lemma_under_planned_tile(k: int, m: int, image_size: (usize, usize), tile_size: (usize, usize))
    requires
        image_size.0 > 0,
        image_size.1 > 0,
        tile_size.0 > 0,
        tile_size.1 > 0,
        0 <= k < 3 * image_size.0 * image_size.1,
        0 <= m < tile_origins(image_size, tile_size).len(),
    ensures
        0 <= covering_index(k, image_size, tile_size) < tile_origins(image_size, tile_size).len(),
        under_tile(k, image_size.0 as int, tile_origins(image_size, tile_size)[m], tile_size)
            <==> covering_index(k, image_size, tile_size) == m,
        covering_index(k, image_size, tile_size) == m ==> covering_origin(k, image_size, tile_size)
            == tile_origins(image_size, tile_size)[m]
            && 0 <= tile_byte(k, image_size.0 as int, tile_origins(image_size, tile_size)[m], tile_size)
                < 3 * tile_size.0 * tile_size.1,
{
    let t = tile_origins(image_size, tile_size);
    let across = tiles_across(image_size, tile_size);
    let down = tiles_down(image_size, tile_size);
    let (w, h) = (image_size.0 as int, image_size.1 as int);
    let (tw, th) = (tile_size.0 as int, tile_size.1 as int);
    let stride = 3 * w;
    lemma_row_column(k, stride);
    let c = k % stride;
    let py = k / stride;
    let px = c / 3;
    let tx = px / tw;
    let ty = py / th;
    assert(py < h) by (nonlinear_arith)
        requires
            k == py * stride + c,
            0 <= c,
            k < 3 * w * h,
            stride == 3 * w,
            w > 0,
    ;
    lemma_row_column(px, tw);
    lemma_row_column(py, th);
    assert(tx * tw <= px && ty * th <= py) by (nonlinear_arith)
        requires
            px == tx * tw + px % tw,
            py == ty * th + py % th,
            px % tw >= 0,
            py % th >= 0,
    ;
    lemma_steps_below(w, tw, tx);
    lemma_steps_below(h, th, ty);
    assert(0 <= ty * across + tx < across * down) by (nonlinear_arith)
        requires
            0 <= tx < across,
            0 <= ty < down,
    ;
    lemma_tile_origins_ordered(image_size, tile_size);
    lemma_grid_position(m, across, down);
    assert(t[m].0 == (m % across) * tw && t[m].1 == (m / across) * th) by {
        lemma_steps_below(w, tw, m % across);
        lemma_steps_below(h, th, m / across);
        assert((m % across) * tw >= 0 && (m / across) * th >= 0) by (nonlinear_arith)
            requires
                m % across >= 0,
                m / across >= 0,
                tw > 0,
                th > 0,
        ;
    }
    lemma_div_window(px, tw, m % across);
    lemma_div_window(py, th, m / across);
    if ty * across + tx == m {
        lemma_fundamental_div_mod_converse(m, across, ty, tx);
        assert(tx * tw >= 0 && ty * th >= 0) by (nonlinear_arith)
            requires
                tx >= 0,
                ty >= 0,
                tw > 0,
                th > 0,
        ;
        assert((py - t[m].1) * (3 * tw) + (c - 3 * t[m].0) < 3 * tw * th) by (nonlinear_arith)
            requires
                0 <= py - t[m].1 < th,
                0 <= c - 3 * t[m].0 < 3 * tw,
        ;
        assert((py - t[m].1) * (3 * tw) + (c - 3 * t[m].0) >= 0) by (nonlinear_arith)
            requires
                0 <= py - t[m].1,
                0 <= c - 3 * t[m].0,
                tw > 0,
        ;
    }
}

/// The composite of the planner's first `count` tiles: bytes under them
/// hold their fill, the others are as they were.
proof fn lemma_composite_prefix(
    image_size: (usize, usize),
    tile_size: (usize, usize),
    dest: Seq<u8>,
    fill: spec_fn((usize, usize)) -> u8,
    count: int,
)
    requires
        image_size.0 > 0,
        image_size.1 > 0,
        tile_size.0 > 0,
        tile_size.1 > 0,
        dest.len() == 3 * image_size.0 * image_size.1,
        0 <= count <= tile_origins(image_size, tile_size).len(),
    ensures
        composite_solid(tile_origins(image_size, tile_size).take(count), dest, image_size, tile_size, fill).len() == dest.len(),
        forall|k: int| 0 <= k < dest.len() ==> #[trigger] composite_solid(
            tile_origins(image_size, tile_size).take(count),
            dest,
            image_size,
            tile_size,
            fill,
        )[k] == if covering_index(k, image_size, tile_size) < count {
            fill(covering_origin(k, image_size, tile_size))
        } else {
            dest[k]
        },
    decreases count,
{
    let t = tile_origins(image_size, tile_size);
    if count == 0 {
        assert(t.take(0).len() == 0);
        lemma_some_tile(image_size, tile_size);
        assert forall|k: int| 0 <= k < dest.len() implies covering_index(k, image_size, tile_size) >= 0 by {
            lemma_under_planned_tile(k, 0, image_size, tile_size);
        }
    } else {
        lemma_composite_prefix(image_size, tile_size, dest, fill, count - 1);
        assert(t.take(count).drop_last() =~= t.take(count - 1));
        let m = count - 1;
        let before = composite_solid(t.take(m), dest, image_size, tile_size, fill);
        let after = composite_solid(t.take(count), dest, image_size, tile_size, fill);
        assert(after == blitted(solid_tile(tile_size, fill(t[m])), before, t[m], image_size, tile_size));
        assert forall|k: int| 0 <= k < dest.len() implies #[trigger] after[k] == if covering_index(k, image_size, tile_size)
            < count {
            fill(covering_origin(k, image_size, tile_size))
        } else {
            dest[k]
        } by {
            lemma_under_planned_tile(k, m, image_size, tile_size);
        }
    }
}

/// Compositing every tile of the planner, each filled with a value derived
/// from its origin, gives back at each pixel the value of the origin of the
/// tile that covers it: the tiles cover the frame, none overlaps another,
/// and each lands where its origin says.
pub proof fn lemma_tiles_round_trip(
    image_size: (usize, usize),
    tile_size: (usize, usize),
    dest: Seq<u8>,
    fill: spec_fn((usize, usize)) -> u8,
)
    requires
        image_size.0 > 0,
        image_size.1 > 0,
        tile_size.0 > 0,
        tile_size.1 > 0,
        dest.len() == 3 * image_size.0 * image_size.1,
    ensures
        composite_solid(tile_origins(image_size, tile_size), dest, image_size, tile_size, fill) == Seq::new(
            dest.len(),
            |k: int| fill(covering_origin(k, image_size, tile_size)),
        ),
{
    let t = tile_origins(image_size, tile_size);
    lemma_composite_prefix(image_size, tile_size, dest, fill, t.len() as int);
    assert(t.take(t.len() as int) =~= t);
    let all = composite_solid(t, dest, image_size, tile_size, fill);
    lemma_some_tile(image_size, tile_size);
    assert forall|k: int| 0 <= k < dest.len() implies covering_index(k, image_size, tile_size) < t.len() by {
        lemma_under_planned_tile(k, 0, image_size, tile_size);
    }
    assert(all =~= Seq::new(dest.len(), |k: int| fill(covering_origin(k, image_size, tile_size))));
}

} // verus!
