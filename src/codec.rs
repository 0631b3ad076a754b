use vstd::prelude::*;

use crate::types::PixelInfo;

verus! {

/// Width of the canvas, in cells.
pub const CANVAS_WIDTH: u32 = 362;

/// Height of the canvas, in cells.
pub const CANVAS_HEIGHT: u32 = 362;

/// Number of packed bytes needed to hold every cell (two cells per byte).
pub const CANVAS_BYTES: usize = 65522;

/// Largest colour a cell can hold; 0 means unpainted.
pub const MAX_COLOUR: u32 = 15;

/// A coordinate pair lies on the canvas.
pub open spec fn in_bounds(x: int, y: int) -> bool {
    0 <= x < CANVAS_WIDTH && 0 <= y < CANVAS_HEIGHT
}

/// Row-major position of a cell.
pub open spec fn linear_index(x: int, y: int) -> int {
    y * CANVAS_WIDTH + x
}

/// Packed byte that holds the cell at (x, y).
pub open spec fn byte_index(x: int, y: int) -> int {
    linear_index(x, y) / 2
}

/// Whether the cell sits in the upper four bits of its byte (even linear positions).
pub open spec fn is_high(x: int, y: int) -> bool {
    linear_index(x, y) % 2 == 0
}

/// The four bits of `b` selected by `high`.
pub open spec fn nibble(b: u8, high: bool) -> u8 {
    if high {
        (b >> 4u8) & 0x0Fu8
    } else {
        b & 0x0Fu8
    }
}

/// `b` with the four bits selected by `high` replaced by `c`.
pub open spec fn with_nibble(b: u8, high: bool, c: u8) -> u8 {
    if high {
        (b & 0x0Fu8) | (c << 4u8)
    } else {
        (b & 0xF0u8) | c
    }
}

/// Colour of the cell at (x, y) in a packed canvas.
pub open spec fn cell_of(bytes: Seq<u8>, x: int, y: int) -> u8 {
    nibble(bytes[byte_index(x, y)], is_high(x, y))
}

/// The packed canvas after the cell at (x, y) is set to `c`.
pub open spec fn write_cell(bytes: Seq<u8>, x: int, y: int, c: u8) -> Seq<u8> {
    bytes.update(byte_index(x, y), with_nibble(bytes[byte_index(x, y)], is_high(x, y), c))
}

/// The packed canvas after each record of `pixels` is written, first to last.
pub open spec fn write_all(bytes: Seq<u8>, pixels: Seq<PixelInfo>) -> Seq<u8>
    decreases pixels.len(),
{
    if pixels.len() == 0 {
        bytes
    } else {
        let p = pixels.last();
        write_cell(write_all(bytes, pixels.drop_last()), p.x as int, p.y as int, p.colour as u8)
    }
}

/// A cell on the canvas has a row-major position below 131044 and a byte within the
/// packed canvas.
pub proof fn lemma_index_bounds(x: int, y: int)
    requires
        in_bounds(x, y),
    ensures
        0 <= linear_index(x, y) < 131044,
        0 <= byte_index(x, y) < CANVAS_BYTES,
{
    assert(0 <= y * 362 <= 361 * 362) by (nonlinear_arith)
        requires
            0 <= y < 362,
    ;
}

/// Two cells on the canvas share a byte and a nibble only if they are the same cell.
pub proof fn lemma_location_injective(x1: int, y1: int, x2: int, y2: int)
    requires
        in_bounds(x1, y1),
        in_bounds(x2, y2),
        byte_index(x1, y1) == byte_index(x2, y2),
        is_high(x1, y1) == is_high(x2, y2),
    ensures
        x1 == x2 && y1 == y2,
{
    lemma_index_bounds(x1, y1);
    lemma_index_bounds(x2, y2);
    let l1 = linear_index(x1, y1);
    let l2 = linear_index(x2, y2);
    assert(l1 == l2);
    assert(y1 == y2) by (nonlinear_arith)
        requires
            y1 * 362 + x1 == y2 * 362 + x2,
            0 <= x1 < 362,
            0 <= x2 < 362,
            0 <= y1,
            0 <= y2,
    ;
}

proof fn lemma_nibble_write(b: u8, c: u8)
    requires
        c <= 15,
    ensures
        nibble(with_nibble(b, true, c), true) == c,
        nibble(with_nibble(b, true, c), false) == nibble(b, false),
        nibble(with_nibble(b, false, c), false) == c,
        nibble(with_nibble(b, false, c), true) == nibble(b, true),
{
    assert(((((b & 0x0Fu8) | (c << 4u8)) >> 4u8) & 0x0Fu8) == c) by (bit_vector)
        requires
            c <= 15,
    ;
    assert((((b & 0x0Fu8) | (c << 4u8)) & 0x0Fu8) == b & 0x0Fu8) by (bit_vector)
        requires
            c <= 15,
    ;
    assert((((b & 0xF0u8) | c) & 0x0Fu8) == c) by (bit_vector)
        requires
            c <= 15,
    ;
    assert(((((b & 0xF0u8) | c) >> 4u8) & 0x0Fu8) == (b >> 4u8) & 0x0Fu8) by (bit_vector)
        requires
            c <= 15,
    ;
}

/// Writing a colour into one cell makes that cell read back as the colour and leaves
/// every other cell, including the one sharing its byte, as it was.
pub proof fn lemma_write_cell(bytes: Seq<u8>, x: int, y: int, c: u8, x2: int, y2: int)
    requires
        bytes.len() == CANVAS_BYTES,
        in_bounds(x, y),
        in_bounds(x2, y2),
        c <= MAX_COLOUR,
    ensures
        write_cell(bytes, x, y, c).len() == CANVAS_BYTES,
        cell_of(write_cell(bytes, x, y, c), x2, y2) == if x2 == x && y2 == y {
            c
        } else {
            cell_of(bytes, x2, y2)
        },
{
    lemma_index_bounds(x, y);
    lemma_index_bounds(x2, y2);
    lemma_nibble_write(bytes[byte_index(x, y)], c);
    if byte_index(x2, y2) == byte_index(x, y) && is_high(x2, y2) == is_high(x, y) {
        lemma_location_injective(x, y, x2, y2);
    }
}

} // verus!
