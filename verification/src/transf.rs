//! From blocks of coefficients to an image: dequantization into the natural
//! order of a block, grouping into coded units, and the assembly of tiles.

use crate::parsing::{
    destination_of, quantization_slot, views, Destination, HeaderSet, Segments,
};
use crate::scan::{luma_units, rewound, scan_blocks, scanned};
use vstd::prelude::*;

verus! {

/// The place in zigzag order of the coefficient at each row and column of a
/// block.
pub const ZIGZAG: [[usize; 8]; 8] = [
    [0, 1, 5, 6, 14, 15, 27, 28],
    [2, 4, 7, 13, 16, 26, 29, 42],
    [3, 8, 12, 17, 25, 30, 41, 43],
    [9, 11, 18, 24, 31, 40, 44, 53],
    [10, 19, 23, 32, 39, 45, 52, 54],
    [20, 22, 33, 38, 46, 51, 55, 60],
    [21, 34, 37, 47, 50, 56, 59, 61],
    [35, 36, 48, 49, 57, 58, 62, 63],
];

/// The place in zigzag order of the coefficient at row `v` and column `u`.
pub open spec fn zigzag(v: int, u: int) -> int {
    ZIGZAG[v][u] as int
}

/// The dequantized block in natural order: at row `v` and column `u` stands
/// the coefficient of that place in zigzag order, times the divisor that the
/// table holds for the same place.
pub open spec fn dequantized(values: Seq<i16>, table: Seq<u8>) -> Seq<Seq<int>> {
    Seq::new(
        8,
        |v: int| Seq::new(8, |u: int| values[zigzag(v, u)] as int * table[zigzag(v, u)] as int),
    )
}

/// An 8 by 8 matrix as rows of numbers.
pub open spec fn matrix_of(matrix: [[i32; 8]; 8]) -> Seq<Seq<int>> {
    Seq::new(8, |v: int| Seq::new(8, |u: int| matrix[v][u] as int))
}

/// Every place of the zigzag table lies within a block, and the first place
/// of the order is the one in the first row and column, and no other.
pub proof fn lemma_zigzag_range(v: int, u: int)
    requires
        0 <= v < 8,
        0 <= u < 8,
    ensures
        0 <= zigzag(v, u) < 64,
        zigzag(v, u) == 0 <==> v == 0 && u == 0,
{
}

/// A block whose AC coefficients are all zero dequantizes to a matrix that
/// holds the DC coefficient times the first divisor in its first place, and
/// zero everywhere else.
pub proof fn lemma_dequantize_dc_only(values: Seq<i16>, table: Seq<u8>)
    requires
        values.len() == 64,
        table.len() == 64,
        forall|k: int| 1 <= k < 64 ==> values[k] == 0,
    ensures
        dequantized(values, table)[0][0] == values[0] * table[0],
        forall|v: int, u: int|
            0 <= v < 8 && 0 <= u < 8 && !(v == 0 && u == 0) ==> #[trigger] dequantized(
                values,
                table,
            )[v][u] == 0,
{
    lemma_zigzag_range(0, 0);
    assert forall|v: int, u: int| 0 <= v < 8 && 0 <= u < 8 && !(v == 0 && u == 0) implies #[trigger]
        dequantized(values, table)[v][u] == 0 by {
        lemma_zigzag_range(v, u);
    }
}

/// Dequantizes a block of coefficients and puts it in natural order.
pub fn dequantize(values: &[i16; 64], table: &[u8; 64]) -> (matrix: [[i32; 8]; 8])
    ensures
        matrix_of(matrix) == dequantized(values@, table@),
{
    let mut res: [[i32; 8]; 8] = [[0;8];8];
    let mut v: usize = 0;
    while v < 8
        invariant
            v <= 8,
            forall|r: int, c: int|
                0 <= r < v && 0 <= c < 8 ==> #[trigger] res[r][c] == values@[zigzag(r, c)]
                    * table@[zigzag(r, c)],
        decreases 8 - v,
    {
        let mut u: usize = 0;
        while u < 8
            invariant
                v < 8,
                u <= 8,
                forall|r: int, c: int|
                    0 <= r < v && 0 <= c < 8 ==> #[trigger] res[r][c] == values@[zigzag(r, c)]
                        * table@[zigzag(r, c)],
                forall|c: int|
                    0 <= c < u ==> #[trigger] res[v as int][c] == values@[zigzag(v as int, c)]
                        * table@[zigzag(v as int, c)],
            decreases 8 - u,
        {
            proof {
                lemma_zigzag_range(v as int, u as int);
            }
            let i = ZIGZAG[v][u];
            assert(-32768 * 255 <= values[i as int] * table[i as int] <= 32767 * 255)
                by (nonlinear_arith)
                requires
                    -32768 <= values[i as int] <= 32767,
                    0 <= table[i as int] <= 255,
            ;
            res[v][u] = values[i] as i32 * table[i] as i32;
            u = u + 1;
        }
        v = v + 1;
    }
    proof {
        assert forall|r: int| 0 <= r < 8 implies #[trigger] matrix_of(res)[r] == dequantized(
            values@,
            table@,
        )[r] by {
            assert(matrix_of(res)[r] =~= dequantized(values@, table@)[r]);
        }
        assert(matrix_of(res) =~= dequantized(values@, table@));
    }
    res
}

/// The place, among the four luminance blocks of a unit, of the block that
/// holds the sample at row `i` and column `j` of a tile of 16 by 16.
pub fn lum_idx(i: usize, j: usize) -> (k: usize)
    ensures
        k == j / 8 + 2 * (i / 8),
{
    assert(j >> 3 == j / 8) by (bit_vector);
    assert((i >> 3) << 1 == 2 * (i / 8)) by (bit_vector);
    (j >> 3) + ((i >> 3) << 1)
}

/// Number of luminance blocks in a coded unit: what the frame header
/// says, and one at least.
pub open spec fn unit_luma(headers: HeaderSet) -> int {
    if luma_units(headers) > 1 {
        luma_units(headers) as int
    } else {
        1
    }
}

/// Number of blocks in a coded unit: its luminance blocks, one block of Cb
/// and one of Cr.
pub open spec fn unit_size(headers: HeaderSet) -> int {
    unit_luma(headers) + 2
}

/// The place, in the order of the headers, of the component that block
/// `j` of a coded unit belongs to.
pub open spec fn unit_component(headers: HeaderSet, j: int) -> int {
    if j < unit_luma(headers) {
        0
    } else {
        j - unit_luma(headers) + 1
    }
}

/// The place among the quantization tables of the one that the frame
/// header assigns to the component at `place`.
pub open spec fn quantization_of(headers: HeaderSet, place: int) -> Option<int> {
    match headers.start_of_frame {
        Some(frame) => if 0 <= place < frame.components.len() {
            match destination_of(frame.components[place].quantization_table) {
                Some(destination) => {
                    let slot = quantization_slot(headers.quantization_tables, destination, 0);
                    if slot < headers.quantization_tables.len() {
                        Some(slot)
                    } else {
                        None
                    }
                },
                None => None,
            }
        } else {
            None
        },
        None => None,
    }
}

/// The coded units of a file: the blocks of its scan, taken a unit at a
/// time and dequantized with the table of their component. Blocks behind the
/// last whole unit are left out. Without a table for each of the three
/// components there is no unit.
pub open spec fn units(headers: HeaderSet) -> Seq<Seq<Seq<Seq<int>>>> {
    if quantization_of(headers, 0).is_some() && quantization_of(headers, 1).is_some()
        && quantization_of(headers, 2).is_some() {
        let blocks = scanned(headers);
        let size = unit_size(headers);
        Seq::new(
            (blocks.len() / size as nat) as nat,
            |m: int|
                Seq::new(
                    size as nat,
                    |j: int|
                        dequantized(
                            blocks[m * size + j],
                            headers.quantization_tables[quantization_of(
                                headers,
                                unit_component(headers, j),
                            ).unwrap()].table,
                        ),
                ),
        )
    } else {
        Seq::empty()
    }
}

/// Coded units as sequences of matrices.
pub open spec fn units_of(mcus: Seq<Vec<[[i32; 8]; 8]>>) -> Seq<Seq<Seq<Seq<int>>>> {
    Seq::new(mcus.len(), |m: int| Seq::new(mcus[m]@.len(), |j: int| matrix_of(mcus[m]@[j])))
}

/// The place among the quantization tables of the one that the frame
/// header assigns to the component at `place`.
fn quantization_place(segments: &Segments, place: usize) -> (found: Option<usize>)
    ensures
        match found {
            Some(k) => quantization_of(segments@, place as int) == Some(k as int) && k
                < segments.quantization_tables@.len(),
            None => quantization_of(segments@, place as int).is_none(),
        },
{
    let frame = match &segments.start_of_frame {
        Some(frame) => frame,
        None => {
            return None;
        },
    };
    if place >= frame.components.len() {
        return None;
    }
    let id = frame.components[place].quantization_table;
    if id > 1 {
        return None;
    }
    let ghost destination = destination_of(id).unwrap();
    let ghost tables = views(segments.quantization_tables@);
    let mut i: usize = 0;
    while i < segments.quantization_tables.len()
        invariant
            i <= segments.quantization_tables@.len(),
            id <= 1,
            quantization_of(segments@, place as int) == (if quantization_slot(
                tables,
                destination,
                0,
            ) < tables.len() {
                Some(quantization_slot(tables, destination, 0))
            } else {
                None
            }),
            destination == destination_of(id).unwrap(),
            tables == views(segments.quantization_tables@),
            quantization_slot(tables, destination, 0) == quantization_slot(
                tables,
                destination,
                i as int,
            ),
        decreases segments.quantization_tables@.len() - i,
    {
        let same = match segments.quantization_tables[i].destination {
            Destination::Luminance => id == 0,
            Destination::Chrominance => id == 1,
        };
        assert(tables[i as int] == segments.quantization_tables@[i as int]@);
        if same {
            return Some(i);
        }
        i = i + 1;
    }
    None
}

/// Decodes the scan of `segments` and returns its coded units, each as its
/// dequantized blocks in natural order: the luminance blocks first, then Cb,
/// then Cr. The cursors of all code trees are on the root afterwards.
pub fn get_mcus(segments: &mut Segments) -> (mcus: Vec<Vec<[[i32; 8]; 8]>>)
    requires
        old(segments).wf(),
    ensures
        final(segments).wf(),
        final(segments)@ == rewound(old(segments)@),
        units_of(mcus@) == units(old(segments)@),
{
    let ghost headers = segments@;
    let blocks = scan_blocks(segments);
    let mut mcus: Vec<Vec<[[i32; 8]; 8]>> = Vec::new();
    let places = (
        quantization_place(segments, 0),
        quantization_place(segments, 1),
        quantization_place(segments, 2),
    );
    let (lum, cb, cr) = match places {
        (Some(lum), Some(cb), Some(cr)) => (lum, cb, cr),
        _ => {
            proof {
                assert(units_of(mcus@) =~= units(headers));
            }
            return mcus;
        },
    };
    let factors = segments.start_of_frame.as_ref().unwrap().components[0].factors;
    assert(factors.0 * factors.1 <= 255 * 255) by (nonlinear_arith)
        requires
            0 <= factors.0 <= 255,
            0 <= factors.1 <= 255,
    ;
    let product = factors.0 as usize * factors.1 as usize;
    let luma: usize = if product > 1 {
        product
    } else {
        1
    };
    let size = luma + 2;
    let count = blocks.len() / size;
    let mut m: usize = 0;
    while m < count
        invariant
            m <= count == blocks@.len() / size as nat,
            blocks@.len() <= usize::MAX,
            segments.wf(),
            segments@ == rewound(headers),
            views(blocks@) == scanned(headers),
            luma == unit_luma(headers),
            size == luma + 2,
            quantization_of(headers, 0) == Some(lum as int),
            quantization_of(headers, 1) == Some(cb as int),
            quantization_of(headers, 2) == Some(cr as int),
            lum < segments.quantization_tables@.len(),
            cb < segments.quantization_tables@.len(),
            cr < segments.quantization_tables@.len(),
            mcus@.len() == m,
            forall|k: int|
                0 <= k < m ==> units_of(mcus@)[k] == #[trigger] units(headers)[k],
        decreases count - m,
    {
        let mut unit: Vec<[[i32; 8]; 8]> = Vec::new();
        let mut j: usize = 0;
        assert(0 <= m * size && m * size + size <= blocks@.len()) by (nonlinear_arith)
            requires
                0 <= m < count,
                count == blocks@.len() / size as nat,
                size > 0,
        ;
        let base = m * size;
        while j < size
            invariant
                j <= size == luma + 2,
                base == m * size,
                base + size <= blocks@.len() <= usize::MAX,
                segments@ == rewound(headers),
                views(blocks@) == scanned(headers),
                luma == unit_luma(headers),
                quantization_of(headers, 0) == Some(lum as int),
                quantization_of(headers, 1) == Some(cb as int),
                quantization_of(headers, 2) == Some(cr as int),
                lum < segments.quantization_tables@.len(),
                cb < segments.quantization_tables@.len(),
                cr < segments.quantization_tables@.len(),
                unit@.len() == j,
                forall|i: int|
                    0 <= i < j ==> matrix_of(#[trigger] unit@[i]) == dequantized(
                        scanned(headers)[m * size + i],
                        headers.quantization_tables[quantization_of(
                            headers,
                            unit_component(headers, i),
                        ).unwrap()].table,
                    ),
            decreases size - j,
        {
            let place = if j < luma {
                lum
            } else if j == luma {
                cb
            } else {
                cr
            };
            assert(segments.quantization_tables@[place as int]@
                == segments@.quantization_tables[place as int]);
            assert(views(blocks@)[base + j] == blocks@[base + j]@);
            let matrix = dequantize(&blocks[base + j], &segments.quantization_tables[place].table);
            unit.push(matrix);
            j = j + 1;
        }
        mcus.push(unit);
        proof {
            assert(units_of(mcus@)[m as int] =~= units(headers)[m as int]);
        }
        m = m + 1;
    }
    proof {
        assert(units_of(mcus@) =~= units(headers));
    }
    mcus
}

/// Number of tiles that lie side by side in an image of `width` columns.
pub open spec fn tiles_per_row(width: int) -> int {
    (width + 15) / 16
}

/// Number of rows of an image of `height` by `width` that `tiles` tiles
/// cover: all of them, or as many as the whole rows of tiles reach.
pub open spec fn rows_covered(tiles: int, height: int, width: int) -> int {
    if tiles_per_row(width) == 0 {
        height
    } else if 16 * (tiles / tiles_per_row(width)) < height {
        16 * (tiles / tiles_per_row(width))
    } else {
        height
    }
}

/// The place of the tile that holds the pixel at row `i` and column `j`.
pub open spec fn tile_at(width: int, i: int, j: int) -> int {
    j / 16 + (i / 16) * tiles_per_row(width)
}

/// The image that tiles of 16 by 16 pixels make when they are put side by
/// side, row after row: the pixel at row `i` and column `j` comes from row
/// `i % 16` and column `j % 16` of the tile at `tile_at(width, i, j)`. The
/// image has `width` columns and as many of its `height` rows as the tiles
/// cover.
pub open spec fn image(mcus: Seq<[[[u8; 3]; 16]; 16]>, height: int, width: int) -> Seq<
    Seq<[u8; 3]>,
> {
    Seq::new(
        rows_covered(mcus.len() as int, height, width) as nat,
        |i: int| Seq::new(width as nat, |j: int| mcus[tile_at(width, i, j)][i % 16][j % 16]),
    )
}

/// Puts tiles of 16 by 16 pixels into an image of `width` columns and at
/// most `height` rows. What the tiles hold beyond the width or the height is
/// left out, and so are the rows that the tiles do not cover.
pub fn mcus_to_img(mcus: Vec<[[[u8; 3]; 16]; 16]>, height: u16, width: u16) -> (img: Vec<
    Vec<[u8; 3]>,
>)
    ensures
        views(img@) == image(mcus@, height as int, width as int),
{
    let mut img: Vec<Vec<[u8; 3]>> = Vec::new();
    let tiles = mcus.len();
    let per_row: usize = (width as usize + 15) / 16;
    let rows: usize = if per_row == 0 {
        height as usize
    } else if tiles / per_row < height as usize / 16 + 1 && 16 * (tiles / per_row)
        < height as usize {
        16 * (tiles / per_row)
    } else {
        height as usize
    };
    let ghost whole = image(mcus@, height as int, width as int);
    let mut i: usize = 0;
    while i < rows
        invariant
            i <= rows <= height,
            mcus@.len() <= usize::MAX,
            per_row == tiles_per_row(width as int),
            rows == rows_covered(mcus@.len() as int, height as int, width as int),
            whole == image(mcus@, height as int, width as int),
            img@.len() == i,
            forall|r: int| 0 <= r < i ==> (#[trigger] img@[r])@ == whole[r],
        decreases rows - i,
    {
        let mut row: Vec<[u8; 3]> = Vec::new();
        let mut j: usize = 0;
        while j < width as usize
            invariant
                i < rows <= height,
                j <= width,
                mcus@.len() <= usize::MAX,
                per_row == tiles_per_row(width as int),
                rows == rows_covered(mcus@.len() as int, height as int, width as int),
                whole == image(mcus@, height as int, width as int),
                row@.len() == j,
                forall|c: int| 0 <= c < j ==> #[trigger] row@[c] == whole[i as int][c],
            decreases width - j,
        {
            proof {
                lemma_tile_in_range(
                    mcus@.len() as int,
                    height as int,
                    width as int,
                    i as int,
                    j as int,
                );
            }
            assert(j >> 4 == j / 16) by (bit_vector);
            assert(i >> 4 == i / 16) by (bit_vector);
            let at = (j >> 4) + (i >> 4) * per_row;
            let pixel = mcus[at][i % 16][j % 16];
            row.push(pixel);
            j = j + 1;
        }
        proof {
            assert(row@ =~= whole[i as int]);
        }
        img.push(row);
        i = i + 1;
    }
    proof {
        assert(views(img@) =~= whole);
    }
    img
}

/// Every pixel of a covered row lies in a tile that is there.
pub proof fn lemma_tile_in_range(tiles: int, height: int, width: int, i: int, j: int)
    requires
        0 <= tiles,
        0 <= i < rows_covered(tiles, height, width),
        0 <= j < width,
    ensures
        0 <= (i / 16) * tiles_per_row(width),
        0 <= tile_at(width, i, j) < tiles,
{
    let per_row = tiles_per_row(width);
    let full = tiles / per_row;
    assert(per_row > 0);
    assert(j / 16 < per_row);
    assert(i / 16 < full);
    assert(full * per_row <= tiles) by (nonlinear_arith)
        requires
            full == tiles / per_row,
            per_row > 0,
            tiles >= 0,
    ;
    assert((i / 16) * per_row + per_row <= full * per_row) by (nonlinear_arith)
        requires
            0 <= i / 16 < full,
            per_row > 0,
    ;
    assert(0 <= (i / 16) * per_row) by (nonlinear_arith)
        requires
            0 <= i / 16,
            per_row > 0,
    ;
}

} // verus!
