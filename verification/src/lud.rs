use vstd::prelude::*;

verus! {

/// Width and height of the tiles of the tiled LU decomposition.
pub const TILE_SIZE: usize = 32;

/// The position of an element in the row-major storage of a square matrix
/// of `size` rows and columns.
pub fn linear_index(size: usize, row: usize, column: usize) -> (r: usize)
    requires
        row < size,
        column < size,
        size * size <= usize::MAX,
    ensures
        r == row * size + column,
        r < size * size,
{
    proof {
        assert(row * size + column < size * size) by (nonlinear_arith)
            requires row < size, column < size;
    }
    row * size + column
}

/// The number of tiles to the right of (and below) the diagonal tile at
/// `offset` in a matrix of `size` rows.
pub fn border_chunks(size: usize, offset: usize) -> (r: usize)
    requires
        offset + TILE_SIZE <= size,
    ensures
        r == ((size - offset - TILE_SIZE) / TILE_SIZE as int),
{
    (size - offset - TILE_SIZE) / TILE_SIZE
}

/// The top-left element of the block that chunk `chunk_index` of the left
/// border handles: blocks of `block / chunk_div` rows below the diagonal
/// tile of `TILE_SIZE / chunk_div` rows at `offset`.
pub fn border_left_origin(offset: usize, block: usize, chunk_div: usize, chunk_index: usize) -> (r: (usize, usize))
    requires
        chunk_div > 0,
        offset + TILE_SIZE / chunk_div + (block / chunk_div) * chunk_index <= usize::MAX,
    ensures
        r.0 == offset + TILE_SIZE / chunk_div + (block / chunk_div) * chunk_index,
        r.1 == offset,
{
    (offset + TILE_SIZE / chunk_div + (block / chunk_div) * chunk_index, offset)
}

/// The top-left element of the block that chunk `chunk_index` of the top
/// border handles: blocks of `block / chunk_div` columns right of the
/// diagonal tile at `offset`.
pub fn border_top_origin(offset: usize, block: usize, chunk_div: usize, chunk_index: usize) -> (r: (usize, usize))
    requires
        chunk_div > 0,
        offset + TILE_SIZE / chunk_div + (block / chunk_div) * chunk_index <= usize::MAX,
    ensures
        r.0 == offset,
        r.1 == offset + TILE_SIZE / chunk_div + (block / chunk_div) * chunk_index,
{
    (offset, offset + TILE_SIZE / chunk_div + (block / chunk_div) * chunk_index)
}

/// The top-left element of the interior block that chunk `chunk_index`
/// handles: the interior below and right of the diagonal tile at `offset`
/// is cut into blocks of `rows_block / chunk_div` rows and
/// `columns_block / chunk_div` columns, `rows` blocks per column of blocks,
/// and chunks go down a column of blocks before the next column.
pub open spec fn interior_origin_spec(offset: int, rows: int, rows_block: int, columns_block: int, chunk_div: int, chunk_index: int) -> (int, int) {
    (
        offset + (TILE_SIZE as int) / chunk_div + (rows_block / chunk_div) * (chunk_index % rows),
        offset + (TILE_SIZE as int) / chunk_div + (columns_block / chunk_div) * (chunk_index / rows),
    )
}

/// See `interior_origin_spec`.
pub fn interior_origin(offset: usize, rows: usize, rows_block: usize, columns_block: usize, chunk_div: usize, chunk_index: usize) -> (r: (usize, usize))
    requires
        chunk_div > 0,
        rows > 0,
        offset + TILE_SIZE / chunk_div + (rows_block / chunk_div) * (chunk_index % rows) <= usize::MAX,
        offset + TILE_SIZE / chunk_div + (columns_block / chunk_div) * (chunk_index / rows) <= usize::MAX,
    ensures
        (r.0 as int, r.1 as int) == interior_origin_spec(offset as int, rows as int, rows_block as int, columns_block as int, chunk_div as int, chunk_index as int),
{
    let i_global = offset + TILE_SIZE / chunk_div + (rows_block / chunk_div) * (chunk_index % rows);
    let j_global = offset + TILE_SIZE / chunk_div + (columns_block / chunk_div) * (chunk_index / rows);
    (i_global, j_global)
}

/// Different interior chunks handle blocks at different places, so no two
/// chunks of the same iteration write the same part of the matrix.
pub proof fn lemma_interior_chunks_disjoint(
    offset: int,
    rows: int,
    rows_block: int,
    columns_block: int,
    chunk_div: int,
    c1: int,
    c2: int,
)
    requires
        rows > 0,
        chunk_div > 0,
        rows_block / chunk_div > 0,
        columns_block / chunk_div > 0,
        0 <= c1,
        0 <= c2,
        c1 != c2,
    ensures
        interior_origin_spec(offset, rows, rows_block, columns_block, chunk_div, c1)
            != interior_origin_spec(offset, rows, rows_block, columns_block, chunk_div, c2),
{
    let rb = rows_block / chunk_div;
    let cb = columns_block / chunk_div;
    vstd::arithmetic::div_mod::lemma_fundamental_div_mod(c1, rows);
    vstd::arithmetic::div_mod::lemma_fundamental_div_mod(c2, rows);
    if c1 % rows == c2 % rows && c1 / rows == c2 / rows {
        assert(c1 == c2);
    }
    if rb * (c1 % rows) == rb * (c2 % rows) {
        vstd::arithmetic::mul::lemma_mul_equality_converse(rb, c1 % rows, c2 % rows);
    }
    if cb * (c1 / rows) == cb * (c2 / rows) {
        vstd::arithmetic::mul::lemma_mul_equality_converse(cb, c1 / rows, c2 / rows);
    }
}

} // verus!
