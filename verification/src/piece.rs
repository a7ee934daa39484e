//! Piece geometry: the catalog of the seven canonical shapes and the
//! orientation transform that derives the mask of any quarter-turn count
//! from the catalog entry.

use vstd::prelude::*;

verus! {

/// A piece shape: a 4x4 occupancy mask stored row-major in 16 cells
/// (row 0 is the top row), together with the width and height of the
/// bounding box of its occupied cells.
pub struct Piece {
    pub width: usize,
    pub height: usize,
    pub cells: Vec<bool>,
}

/// Basic shape of a mask and its bounding box: 16 cells, box at most 4 by 4.
pub open spec fn piece_wf(p: Piece) -> bool {
    &&& p.cells@.len() == 16
    &&& p.width <= 4
    &&& p.height <= 4
}

/// The canonical mask of catalog piece `index` (row-major, row 0 on top).
pub open spec fn base_mask(index: int) -> Seq<bool> {
    if index == 0 {
        seq![
            true, true, true, true,
            false, false, false, false,
            false, false, false, false,
            false, false, false, false,
        ]
    } else if index == 1 {
        seq![
            true, true, true, false,
            false, false, true, false,
            false, false, false, false,
            false, false, false, false,
        ]
    } else if index == 2 {
        seq![
            true, true, true, false,
            true, false, false, false,
            false, false, false, false,
            false, false, false, false,
        ]
    } else if index == 3 {
        seq![
            true, true, false, false,
            true, true, false, false,
            false, false, false, false,
            false, false, false, false,
        ]
    } else if index == 4 {
        seq![
            false, true, true, false,
            true, true, false, false,
            false, false, false, false,
            false, false, false, false,
        ]
    } else if index == 5 {
        seq![
            true, true, true, false,
            false, true, false, false,
            false, false, false, false,
            false, false, false, false,
        ]
    } else {
        seq![
            true, true, false, false,
            false, true, true, false,
            false, false, false, false,
            false, false, false, false,
        ]
    }
}

/// Bounding-box width of catalog piece `index`.
pub open spec fn base_width(index: int) -> int {
    if index == 0 {
        4
    } else if index == 3 {
        2
    } else {
        3
    }
}

/// Bounding-box height of catalog piece `index`.
pub open spec fn base_height(index: int) -> int {
    if index == 0 {
        1
    } else {
        2
    }
}

/// One quarter turn of the 4x4 grid: the new cell (r, c) comes from the old
/// cell (c, 3 - r).
pub open spec fn rotated(m: Seq<bool>) -> Seq<bool> {
    Seq::new(16, |i: int| m[4 * (i % 4) + 3 - i / 4])
}

/// Is row `r` of the mask entirely empty?
pub open spec fn row_clear(m: Seq<bool>, r: int) -> bool {
    !m[4 * r] && !m[4 * r + 1] && !m[4 * r + 2] && !m[4 * r + 3]
}

/// Is column `c` of the mask entirely empty?
pub open spec fn col_clear(m: Seq<bool>, c: int) -> bool {
    !m[c] && !m[c + 4] && !m[c + 8] && !m[c + 12]
}

/// Shift every row of the mask up by one, filling the bottom row with
/// empty cells.
pub open spec fn shifted_up(m: Seq<bool>) -> Seq<bool> {
    Seq::new(16, |i: int| if i < 12 { m[i + 4] } else { false })
}

/// Shift every column of the mask left by one, filling the right column
/// with empty cells.
pub open spec fn shifted_left(m: Seq<bool>) -> Seq<bool> {
    Seq::new(16, |i: int| if i % 4 < 3 { m[i + 1] } else { false })
}

/// Shift the mask up until the top row is occupied. A mask with any
/// occupied cell has at most three leading clear rows, so three shifts
/// always suffice.
pub open spec fn packed_up(m: Seq<bool>) -> Seq<bool> {
    if !row_clear(m, 0) {
        m
    } else if !row_clear(shifted_up(m), 0) {
        shifted_up(m)
    } else if !row_clear(shifted_up(shifted_up(m)), 0) {
        shifted_up(shifted_up(m))
    } else {
        shifted_up(shifted_up(shifted_up(m)))
    }
}

/// Shift the mask left until the left column is occupied.
pub open spec fn packed_left(m: Seq<bool>) -> Seq<bool> {
    if !col_clear(m, 0) {
        m
    } else if !col_clear(shifted_left(m), 0) {
        shifted_left(m)
    } else if !col_clear(shifted_left(shifted_left(m)), 0) {
        shifted_left(shifted_left(m))
    } else {
        shifted_left(shifted_left(shifted_left(m)))
    }
}

/// One step of the orientation transform: rotate a quarter turn, then
/// re-pack the result to the top-left corner.
pub open spec fn turned(m: Seq<bool>) -> Seq<bool> {
    packed_left(packed_up(rotated(m)))
}

/// The mask of piece `index` after `turns` quarter turns, always derived
/// from the catalog entry.
pub open spec fn eff_mask(index: int, turns: nat) -> Seq<bool>
    decreases turns,
{
    if turns == 0 {
        base_mask(index)
    } else {
        turned(eff_mask(index, (turns - 1) as nat))
    }
}

/// The bounding-box width of piece `index` after `turns` quarter turns:
/// each turn exchanges width and height.
pub open spec fn eff_width(index: int, turns: nat) -> int
    decreases turns,
{
    if turns == 0 {
        base_width(index)
    } else {
        eff_height(index, (turns - 1) as nat)
    }
}

/// The bounding-box height of piece `index` after `turns` quarter turns.
pub open spec fn eff_height(index: int, turns: nat) -> int
    decreases turns,
{
    if turns == 0 {
        base_height(index)
    } else {
        eff_width(index, (turns - 1) as nat)
    }
}

/// Every orientation keeps the bounding box between 1 and 4 in each
/// dimension.
pub proof fn lemma_eff_dims(index: int, turns: nat)
    ensures
        1 <= eff_width(index, turns) <= 4,
        1 <= eff_height(index, turns) <= 4,
    decreases turns,
{
    if turns > 0 {
        lemma_eff_dims(index, (turns - 1) as nat);
    }
}

/// Four quarter turns of one catalog mask return the catalog mask itself.
proof fn lemma_four_turns_of_base(index: int)
    requires
        0 <= index < 7,
    ensures
        turned(turned(turned(turned(base_mask(index))))) == base_mask(index),
{
    if index == 0 {
        assert(turned(turned(turned(turned(base_mask(0))))) =~= base_mask(0));
    } else if index == 1 {
        assert(turned(turned(turned(turned(base_mask(1))))) =~= base_mask(1));
    } else if index == 2 {
        assert(turned(turned(turned(turned(base_mask(2))))) =~= base_mask(2));
    } else if index == 3 {
        assert(turned(turned(turned(turned(base_mask(3))))) =~= base_mask(3));
    } else if index == 4 {
        assert(turned(turned(turned(turned(base_mask(4))))) =~= base_mask(4));
    } else if index == 5 {
        assert(turned(turned(turned(turned(base_mask(5))))) =~= base_mask(5));
    } else {
        assert(turned(turned(turned(turned(base_mask(6))))) =~= base_mask(6));
    }
}

/// Law: rotation closure. For every piece and every starting orientation,
/// four further quarter turns reproduce the starting mask exactly.
pub proof fn lemma_rotation_closure(index: int, orient: nat)
    requires
        0 <= index < 7,
    ensures
        eff_mask(index, orient + 4) == eff_mask(index, orient),
    decreases orient,
{
    if orient == 0 {
        assert(eff_mask(index, 4) == turned(turned(turned(turned(base_mask(index)))))) by {
            reveal_with_fuel(eff_mask, 5);
        }
        lemma_four_turns_of_base(index);
    } else {
        lemma_rotation_closure(index, (orient - 1) as nat);
        assert(eff_mask(index, orient + 4) == turned(eff_mask(index, (orient - 1) as nat + 4)));
    }
}

/// Law: bounding-box duality. An even number of quarter turns keeps the
/// catalog dimensions; an odd number exchanges them.
pub proof fn lemma_bounding_box(index: int, orient: nat)
    ensures
        orient % 2 == 0 ==> eff_width(index, orient) == base_width(index)
            && eff_height(index, orient) == base_height(index),
        orient % 2 == 1 ==> eff_width(index, orient) == base_height(index)
            && eff_height(index, orient) == base_width(index),
    decreases orient,
{
    if orient > 0 {
        lemma_bounding_box(index, (orient - 1) as nat);
    }
}

/// The catalog entry for piece `index`.
pub fn base_piece(index: usize) -> (p: Piece)
    requires
        index < 7,
    ensures
        p.cells@ == base_mask(index as int),
        p.width == base_width(index as int),
        p.height == base_height(index as int),
        piece_wf(p),
{
    let cells: Vec<bool> = if index == 0 {
        vec![
            true, true, true, true,
            false, false, false, false,
            false, false, false, false,
            false, false, false, false,
        ]
    } else if index == 1 {
        vec![
            true, true, true, false,
            false, false, true, false,
            false, false, false, false,
            false, false, false, false,
        ]
    } else if index == 2 {
        vec![
            true, true, true, false,
            true, false, false, false,
            false, false, false, false,
            false, false, false, false,
        ]
    } else if index == 3 {
        vec![
            true, true, false, false,
            true, true, false, false,
            false, false, false, false,
            false, false, false, false,
        ]
    } else if index == 4 {
        vec![
            false, true, true, false,
            true, true, false, false,
            false, false, false, false,
            false, false, false, false,
        ]
    } else if index == 5 {
        vec![
            true, true, true, false,
            false, true, false, false,
            false, false, false, false,
            false, false, false, false,
        ]
    } else {
        vec![
            true, true, false, false,
            false, true, true, false,
            false, false, false, false,
            false, false, false, false,
        ]
    };
    proof {
        assert(cells@ =~= base_mask(index as int));
    }
    let width: usize = if index == 0 {
        4
    } else if index == 3 {
        2
    } else {
        3
    };
    let height: usize = if index == 0 {
        1
    } else {
        2
    };
    Piece { width, height, cells }
}

/// Rotate a 16-cell mask a quarter turn.
fn rotate_mask(cells: &Vec<bool>) -> (r: Vec<bool>)
    requires
        cells@.len() == 16,
    ensures
        r@ == rotated(cells@),
{
    let mut out: Vec<bool> = Vec::new();
    let mut i: usize = 0;
    while i < 16
        invariant
            cells@.len() == 16,
            i <= 16,
            out@.len() == i,
            forall|k: int| 0 <= k < i ==> out@[k] == cells@[4 * (k % 4) + 3 - k / 4],
        decreases 16 - i,
    {
        out.push(cells[4 * (i % 4) + 3 - i / 4]);
        i += 1;
    }
    proof {
        assert(out@ =~= rotated(cells@));
    }
    out
}

/// Shift a mask up by one row.
fn shift_mask_up(cells: &Vec<bool>) -> (r: Vec<bool>)
    requires
        cells@.len() == 16,
    ensures
        r@ == shifted_up(cells@),
{
    let mut out: Vec<bool> = Vec::new();
    let mut i: usize = 0;
    while i < 16
        invariant
            cells@.len() == 16,
            i <= 16,
            out@.len() == i,
            forall|k: int| 0 <= k < i ==> out@[k] == (if k < 12 {
                cells@[k + 4]
            } else {
                false
            }),
        decreases 16 - i,
    {
        out.push(if i < 12 {
            cells[i + 4]
        } else {
            false
        });
        i += 1;
    }
    proof {
        assert(out@ =~= shifted_up(cells@));
    }
    out
}

/// Shift a mask left by one column.
fn shift_mask_left(cells: &Vec<bool>) -> (r: Vec<bool>)
    requires
        cells@.len() == 16,
    ensures
        r@ == shifted_left(cells@),
{
    let mut out: Vec<bool> = Vec::new();
    let mut i: usize = 0;
    while i < 16
        invariant
            cells@.len() == 16,
            i <= 16,
            out@.len() == i,
            forall|k: int| 0 <= k < i ==> out@[k] == (if k % 4 < 3 {
                cells@[k + 1]
            } else {
                false
            }),
        decreases 16 - i,
    {
        out.push(if i % 4 < 3 {
            cells[i + 1]
        } else {
            false
        });
        i += 1;
    }
    proof {
        assert(out@ =~= shifted_left(cells@));
    }
    out
}

/// Is the top row of the mask entirely empty?
fn top_row_clear(cells: &Vec<bool>) -> (r: bool)
    requires
        cells@.len() == 16,
    ensures
        r == row_clear(cells@, 0),
{
    !cells[0] && !cells[1] && !cells[2] && !cells[3]
}

/// Is the left column of the mask entirely empty?
fn left_col_clear(cells: &Vec<bool>) -> (r: bool)
    requires
        cells@.len() == 16,
    ensures
        r == col_clear(cells@, 0),
{
    !cells[0] && !cells[4] && !cells[8] && !cells[12]
}

/// Pack a mask to the top edge.
fn pack_mask_up(cells: Vec<bool>) -> (r: Vec<bool>)
    requires
        cells@.len() == 16,
    ensures
        r@ == packed_up(cells@),
{
    if !top_row_clear(&cells) {
        cells
    } else {
        let s1 = shift_mask_up(&cells);
        if !top_row_clear(&s1) {
            s1
        } else {
            let s2 = shift_mask_up(&s1);
            if !top_row_clear(&s2) {
                s2
            } else {
                shift_mask_up(&s2)
            }
        }
    }
}

/// Pack a mask to the left edge.
fn pack_mask_left(cells: Vec<bool>) -> (r: Vec<bool>)
    requires
        cells@.len() == 16,
    ensures
        r@ == packed_left(cells@),
{
    if !left_col_clear(&cells) {
        cells
    } else {
        let s1 = shift_mask_left(&cells);
        if !left_col_clear(&s1) {
            s1
        } else {
            let s2 = shift_mask_left(&s1);
            if !left_col_clear(&s2) {
                s2
            } else {
                shift_mask_left(&s2)
            }
        }
    }
}

/// The shape of piece `index` after `orient` quarter turns, derived from
/// the catalog entry: rotate, re-pack to the top-left corner, and exchange
/// the bounding-box dimensions, once per turn.
pub fn effective_piece(index: usize, orient: u8) -> (p: Piece)
    requires
        index < 7,
    ensures
        p.cells@ == eff_mask(index as int, orient as nat),
        p.width == eff_width(index as int, orient as nat),
        p.height == eff_height(index as int, orient as nat),
        piece_wf(p),
{
    let base = base_piece(index);
    let mut width = base.width;
    let mut height = base.height;
    let mut cells = base.cells;
    let mut k: u8 = 0;
    while k < orient
        invariant
            index < 7,
            k <= orient,
            cells@ == eff_mask(index as int, k as nat),
            width == eff_width(index as int, k as nat),
            height == eff_height(index as int, k as nat),
            cells@.len() == 16,
            width <= 4,
            height <= 4,
        decreases orient - k,
    {
        cells = pack_mask_left(pack_mask_up(rotate_mask(&cells)));
        let t = height;
        height = width;
        width = t;
        k += 1;
        proof {
            lemma_eff_dims(index as int, k as nat);
        }
    }
    proof {
        lemma_eff_dims(index as int, orient as nat);
    }
    Piece { width, height, cells }
}

} // verus!
