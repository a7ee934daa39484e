//! Board and game state: collision detection, horizontal movement,
//! rotation, gravity stepping with locking and line clearing, and the
//! landing preview.
//!
//! The board is a growable sequence of rows ordered bottom to top (index 0
//! is the lowest row). Every row has exactly `width` cells; a cell holds 0
//! when empty and a non-zero occupancy tag otherwise. Rows above the stored
//! length are implicitly empty.

use vstd::prelude::*;
use vstd::pervasive::VecAdditionalExecFns;

use crate::piece::Piece;
use crate::piece::eff_height;
use crate::piece::eff_mask;
use crate::piece::eff_width;
use crate::piece::effective_piece;
use crate::piece::lemma_eff_dims;
use crate::piece::piece_wf;
use crate::pool::PiecePool;
use crate::pool::pool_wf;

verus! {

/// How the spawn row of a fresh piece is chosen, which also selects the
/// variant of the game.
///
/// `Fixed(row)` is the fixed-height variant: pieces always spawn with the
/// bounding-box bottom at `row`, and locked cells are tagged with the
/// piece's color index (piece index plus one). `Growing(margin)` is the
/// endless variant: pieces spawn `margin` rows above the current top of the
/// board, and locked cells are tagged with a strictly increasing generation
/// counter.
#[derive(Clone, Copy, PartialEq, Eq, Structural)]
pub enum HeightPolicy {
    Fixed(usize),
    Growing(usize),
}

/// The mutable aggregate the engine operates on: the board, the active
/// piece (index, orientation, position) and the generation counter.
///
/// `x` is the leftmost column of the piece's bounding box; `y` is the board
/// row of the bounding box's bottom.
pub struct Game {
    pub world: Vec<Vec<u32>>,
    pub width: usize,
    pub policy: HeightPolicy,
    pub next_gen: u32,
    pub piece_index: usize,
    pub orient: u8,
    pub y: usize,
    pub x: usize,
}

/// The mathematical view of a board: a sequence of rows of cell tags.
pub open spec fn bview(world: Seq<Vec<u32>>) -> Seq<Seq<u32>> {
    Seq::new(world.len(), |r: int| world[r]@)
}

/// The board of a game, as its mathematical view.
pub open spec fn board_of(g: Game) -> Seq<Seq<u32>> {
    bview(g.world@)
}

/// Every row of the board has exactly `width` cells.
pub open spec fn board_wf(board: Seq<Seq<u32>>, width: int) -> bool {
    forall|r: int| 0 <= r < board.len() ==> (#[trigger] board[r]).len() == width
}

/// Well-formedness of a game state: a playable width, uniform rows, a
/// valid active piece whose bounding box lies within the board columns,
/// and a generation counter that never tags a cell with the empty value.
pub open spec fn game_wf(g: Game) -> bool {
    &&& 4 <= g.width
    &&& board_wf(board_of(g), g.width as int)
    &&& g.piece_index < 7
    &&& g.orient < 4
    &&& g.x + eff_width(g.piece_index as int, g.orient as nat) <= g.width
    &&& 1 <= g.next_gen
}

/// Does the mask occupy the cell `j` rows above the bounding-box bottom,
/// `i` columns from its left edge?
pub open spec fn mask_at(m: Seq<bool>, w: int, h: int, j: int, i: int) -> bool {
    &&& 0 <= j < h
    &&& 0 <= i < w
    &&& m[4 * (h - 1 - j) + i]
}

/// Has a piece with mask `m` landed when its bounding-box bottom sits at
/// row `py`? It has if it touches the floor, or if some occupied cell sits
/// directly above an occupied board cell.
pub open spec fn collides(board: Seq<Seq<u32>>, m: Seq<bool>, w: int, h: int, x: int, py: int) -> bool {
    py == 0 || exists|j: int, i: int|
        #[trigger] mask_at(m, w, h, j, i) && py + j <= board.len() && board[py + j - 1][x + i] != 0
}

/// Has the active piece of `g` landed with its bounding-box bottom at `py`?
pub open spec fn landed(g: Game, py: int) -> bool {
    collides(
        board_of(g),
        eff_mask(g.piece_index as int, g.orient as nat),
        eff_width(g.piece_index as int, g.orient as nat),
        eff_height(g.piece_index as int, g.orient as nat),
        g.x as int,
        py,
    )
}

/// May the active piece shift horizontally by `delta` (-1 or +1)? The
/// shift must keep the bounding box inside the board columns and every
/// occupied cell must move onto an empty board cell (rows above the stored
/// board are implicitly empty).
pub open spec fn shift_ok(g: Game, delta: int) -> bool {
    let m = eff_mask(g.piece_index as int, g.orient as nat);
    let w = eff_width(g.piece_index as int, g.orient as nat);
    let h = eff_height(g.piece_index as int, g.orient as nat);
    let board = board_of(g);
    &&& (delta < 0 ==> g.x >= 1)
    &&& (delta > 0 ==> g.x + w < g.width)
    &&& forall|j: int, i: int|
        #[trigger] mask_at(m, w, h, j, i) && g.y + j < board.len()
            ==> board[g.y + j][g.x + i + delta] == 0
}

/// May the active piece turn one quarter turn counter-clockwise in place?
/// The new bounding box must not cross the right boundary, and the new
/// shape must not overlap any occupied board cell at the unchanged
/// position. No kick search is performed.
pub open spec fn turn_ok(g: Game) -> bool {
    let no = (((g.orient + 3) % 4) as u8) as nat;
    let m = eff_mask(g.piece_index as int, no);
    let w = eff_width(g.piece_index as int, no);
    let h = eff_height(g.piece_index as int, no);
    let board = board_of(g);
    &&& g.x + w <= g.width
    &&& forall|j: int, i: int|
        #[trigger] mask_at(m, w, h, j, i) && g.y + j < board.len()
            ==> board[g.y + j][g.x + i] == 0
}

impl Game {
    /// The shape of the active piece in its current orientation, always
    /// derived afresh from the catalog.
    pub fn effective_piece(&self) -> (p: Piece)
        requires
            self.piece_index < 7,
        ensures
            p.cells@ == eff_mask(self.piece_index as int, self.orient as nat),
            p.width == eff_width(self.piece_index as int, self.orient as nat),
            p.height == eff_height(self.piece_index as int, self.orient as nat),
            piece_wf(p),
    {
        effective_piece(self.piece_index, self.orient)
    }
}

/// Is the piece, with its bounding-box bottom at row `piece_y`, landed on
/// the board of `game`? Reused unchanged for the gravity step and for the
/// landing preview.
pub fn detect_collision(game: &Game, piece_y: usize, piece: &Piece) -> (r: bool)
    requires
        piece_wf(*piece),
        board_wf(board_of(*game), game.width as int),
        game.x + piece.width <= game.width,
    ensures
        r == collides(
            board_of(*game),
            piece.cells@,
            piece.width as int,
            piece.height as int,
            game.x as int,
            piece_y as int,
        ),
{
    let ghost board = board_of(*game);
    let ghost m = piece.cells@;
    let ghost w = piece.width as int;
    let ghost h = piece.height as int;
    if piece_y == 0 {
        return true;
    }
    let rows = game.world.len();
    let mut j: usize = 0;
    while j < piece.height
        invariant
            piece_wf(*piece),
            board_wf(board, game.width as int),
            game.x + piece.width <= game.width,
            board == board_of(*game),
            m == piece.cells@,
            w == piece.width as int,
            h == piece.height as int,
            piece_y >= 1,
            rows == board.len(),
            j <= piece.height,
            forall|jj: int, ii: int|
                #[trigger] mask_at(m, w, h, jj, ii) && jj < j && piece_y + jj <= board.len()
                    ==> board[piece_y + jj - 1][game.x + ii] == 0,
        decreases piece.height - j,
    {
        if piece_y <= rows && j <= rows - piece_y {
            let mut i: usize = 0;
            while i < piece.width
                invariant
                    piece_wf(*piece),
                    board_wf(board, game.width as int),
                    game.x + piece.width <= game.width,
                    board == board_of(*game),
                    m == piece.cells@,
                    w == piece.width as int,
                    h == piece.height as int,
                    piece_y >= 1,
                    rows == board.len(),
                    j < piece.height,
                    piece_y + j <= board.len(),
                    i <= piece.width,
                    forall|jj: int, ii: int|
                        #[trigger] mask_at(m, w, h, jj, ii) && jj < j && piece_y + jj <= board.len()
                            ==> board[piece_y + jj - 1][game.x + ii] == 0,
                    forall|ii: int|
                        0 <= ii < i && #[trigger] m[4 * (h - 1 - j) + ii]
                            ==> board[piece_y + j - 1][game.x + ii] == 0,
                decreases piece.width - i,
            {
                proof {
                    assert(board[piece_y - 1 + j] == game.world@[piece_y - 1 + j]@);
                }
                if piece.cells[(piece.height - 1 - j) * 4 + i]
                    && game.world[piece_y - 1 + j][game.x + i] != 0 {
                    proof {
                        assert(mask_at(m, w, h, j as int, i as int));
                    }
                    return true;
                }
                i += 1;
            }
        }
        j += 1;
    }
    false
}

/// Try to shift the active piece one column left (`delta == -1`) or right
/// (`delta == 1`). A shift that would leave the board or overlap an
/// occupied cell is silently refused and the state is unchanged.
pub fn move_piece(game: &mut Game, delta: isize)
    requires
        game_wf(*old(game)),
        delta == -1 || delta == 1,
    ensures
        game_wf(*final(game)),
        final(game).world == old(game).world,
        final(game).width == old(game).width,
        final(game).policy == old(game).policy,
        final(game).next_gen == old(game).next_gen,
        final(game).piece_index == old(game).piece_index,
        final(game).orient == old(game).orient,
        final(game).y == old(game).y,
        shift_ok(*old(game), delta as int) ==> final(game).x == old(game).x + delta,
        !shift_ok(*old(game), delta as int) ==> final(game).x == old(game).x,
{
    let piece = game.effective_piece();
    let ghost board = board_of(*game);
    let ghost m = piece.cells@;
    let ghost w = piece.width as int;
    let ghost h = piece.height as int;
    if delta < 0 {
        if game.x == 0 {
            return;
        }
    } else {
        if game.x + piece.width == game.width {
            return;
        }
    }
    let rows = game.world.len();
    let mut j: usize = 0;
    while j < piece.height
        invariant
            game_wf(*game),
            *game == *old(game),
            rows == board.len(),
            delta == -1 || delta == 1,
            piece_wf(piece),
            board == board_of(*game),
            m == piece.cells@,
            w == piece.width as int,
            h == piece.height as int,
            w == eff_width(game.piece_index as int, game.orient as nat),
            h == eff_height(game.piece_index as int, game.orient as nat),
            m == eff_mask(game.piece_index as int, game.orient as nat),
            delta < 0 ==> game.x >= 1,
            delta > 0 ==> game.x + w < game.width,
            game.x + w <= game.width,
            j <= piece.height,
            forall|jj: int, ii: int|
                #[trigger] mask_at(m, w, h, jj, ii) && jj < j && game.y + jj < board.len()
                    ==> board[game.y + jj][game.x + ii + delta] == 0,
        decreases piece.height - j,
    {
        if game.y < rows && j < rows - game.y {
            let mut i: usize = 0;
            while i < piece.width
                invariant
                    game_wf(*game),
                    *game == *old(game),
                    rows == board.len(),
                    delta == -1 || delta == 1,
                    piece_wf(piece),
                    board == board_of(*game),
                    m == piece.cells@,
                    w == piece.width as int,
                    h == piece.height as int,
                    m == eff_mask(game.piece_index as int, game.orient as nat),
                    w == eff_width(game.piece_index as int, game.orient as nat),
                    h == eff_height(game.piece_index as int, game.orient as nat),
                    delta < 0 ==> game.x >= 1,
                    delta > 0 ==> game.x + w < game.width,
                    game.x + w <= game.width,
                    j < piece.height,
                    game.y + j < board.len(),
                    i <= piece.width,
                    forall|jj: int, ii: int|
                        #[trigger] mask_at(m, w, h, jj, ii) && jj < j && game.y + jj < board.len()
                            ==> board[game.y + jj][game.x + ii + delta] == 0,
                    forall|ii: int|
                        0 <= ii < i && #[trigger] m[4 * (h - 1 - j) + ii]
                            ==> board[game.y + j][game.x + ii + delta] == 0,
                decreases piece.width - i,
            {
                proof {
                    assert(board[game.y + j] == game.world@[game.y + j]@);
                }
                let col = if delta < 0 {
                    game.x + i - 1
                } else {
                    game.x + i + 1
                };
                if piece.cells[(piece.height - 1 - j) * 4 + i]
                    && game.world[game.y + j][col] != 0 {
                    proof {
                        assert(mask_at(m, w, h, j as int, i as int));
                    }
                    return;
                }
                i += 1;
            }
        }
        j += 1;
    }
    if delta < 0 {
        game.x = game.x - 1;
    } else {
        game.x = game.x + 1;
    }
}

/// Shift the active piece and report whether the move was applied.
pub fn move_horizontal(game: &mut Game, delta: isize) -> (applied: bool)
    requires
        game_wf(*old(game)),
        delta == -1 || delta == 1,
    ensures
        game_wf(*final(game)),
        applied == shift_ok(*old(game), delta as int),
        final(game).world == old(game).world,
        final(game).width == old(game).width,
        final(game).policy == old(game).policy,
        final(game).next_gen == old(game).next_gen,
        final(game).piece_index == old(game).piece_index,
        final(game).orient == old(game).orient,
        final(game).y == old(game).y,
        applied ==> final(game).x == old(game).x + delta,
        !applied ==> final(game).x == old(game).x,
{
    let before = game.x;
    move_piece(game, delta);
    game.x != before
}

/// Try to turn the active piece one quarter turn counter-clockwise. A turn
/// whose new shape would cross the right boundary or overlap an occupied
/// cell is silently refused and the state is unchanged.
pub fn rotate_piece(game: &mut Game)
    requires
        game_wf(*old(game)),
    ensures
        game_wf(*final(game)),
        final(game).world == old(game).world,
        final(game).width == old(game).width,
        final(game).policy == old(game).policy,
        final(game).next_gen == old(game).next_gen,
        final(game).piece_index == old(game).piece_index,
        final(game).y == old(game).y,
        final(game).x == old(game).x,
        turn_ok(*old(game)) ==> final(game).orient == (old(game).orient + 3) % 4,
        !turn_ok(*old(game)) ==> final(game).orient == old(game).orient,
{
    let new_orient = (game.orient + 3) % 4;
    let new_piece = effective_piece(game.piece_index, new_orient);
    let ghost board = board_of(*game);
    let ghost m = new_piece.cells@;
    let ghost w = new_piece.width as int;
    let ghost h = new_piece.height as int;
    proof {
        lemma_eff_dims(game.piece_index as int, game.orient as nat);
    }
    if new_piece.width > game.width - game.x {
        return;
    }
    let rows = game.world.len();
    let mut j: usize = 0;
    while j < new_piece.height
        invariant
            game_wf(*game),
            *game == *old(game),
            rows == board.len(),
            new_orient == (game.orient + 3) % 4,
            piece_wf(new_piece),
            board == board_of(*game),
            m == new_piece.cells@,
            w == new_piece.width as int,
            h == new_piece.height as int,
            m == eff_mask(game.piece_index as int, new_orient as nat),
            w == eff_width(game.piece_index as int, new_orient as nat),
            h == eff_height(game.piece_index as int, new_orient as nat),
            game.x + w <= game.width,
            j <= new_piece.height,
            forall|jj: int, ii: int|
                #[trigger] mask_at(m, w, h, jj, ii) && jj < j && game.y + jj < board.len()
                    ==> board[game.y + jj][game.x + ii] == 0,
        decreases new_piece.height - j,
    {
        if game.y < rows && j < rows - game.y {
            let mut i: usize = 0;
            while i < new_piece.width
                invariant
                    game_wf(*game),
                    *game == *old(game),
                    rows == board.len(),
                    piece_wf(new_piece),
                    board == board_of(*game),
                    m == new_piece.cells@,
                    w == new_piece.width as int,
                    h == new_piece.height as int,
                    new_orient == (game.orient + 3) % 4,
                    m == eff_mask(game.piece_index as int, new_orient as nat),
                    w == eff_width(game.piece_index as int, new_orient as nat),
                    h == eff_height(game.piece_index as int, new_orient as nat),
                    game.x + w <= game.width,
                    j < new_piece.height,
                    game.y + j < board.len(),
                    i <= new_piece.width,
                    forall|jj: int, ii: int|
                        #[trigger] mask_at(m, w, h, jj, ii) && jj < j && game.y + jj < board.len()
                            ==> board[game.y + jj][game.x + ii] == 0,
                    forall|ii: int|
                        0 <= ii < i && #[trigger] m[4 * (h - 1 - j) + ii]
                            ==> board[game.y + j][game.x + ii] == 0,
                decreases new_piece.width - i,
            {
                proof {
                    assert(board[game.y + j] == game.world@[game.y + j]@);
                }
                if new_piece.cells[(new_piece.height - 1 - j) * 4 + i]
                    && game.world[game.y + j][game.x + i] != 0 {
                    proof {
                        assert(mask_at(m, w, h, j as int, i as int));
                    }
                    return;
                }
                i += 1;
            }
        }
        j += 1;
    }
    game.orient = new_orient;
}

/// Turn the active piece and report whether the turn was applied.
pub fn rotate(game: &mut Game) -> (applied: bool)
    requires
        game_wf(*old(game)),
    ensures
        game_wf(*final(game)),
        applied == turn_ok(*old(game)),
        final(game).world == old(game).world,
        final(game).width == old(game).width,
        final(game).policy == old(game).policy,
        final(game).next_gen == old(game).next_gen,
        final(game).piece_index == old(game).piece_index,
        final(game).y == old(game).y,
        final(game).x == old(game).x,
        applied ==> final(game).orient == (old(game).orient + 3) % 4,
        !applied ==> final(game).orient == old(game).orient,
{
    let before = game.orient;
    rotate_piece(game);
    game.orient != before
}

/// A row of `width` empty cells.
pub open spec fn empty_row(width: int) -> Seq<u32> {
    Seq::new(width as nat, |c: int| 0u32)
}

/// The board length after the lock has grown the board: rows are appended
/// until the top row of the piece exists.
pub open spec fn placed_len(len: int, y: int, h: int) -> int {
    if len >= y + h {
        len
    } else {
        y + h
    }
}

/// The board after the occupied cells of the bottom `j` rows of the piece
/// have been written at position (`x`, `y`) with tag `tag`, growing the
/// board with empty rows where the piece reaches above the stored top.
pub open spec fn place_upto(
    board: Seq<Seq<u32>>,
    m: Seq<bool>,
    w: int,
    h: int,
    x: int,
    y: int,
    width: int,
    tag: u32,
    j: int,
) -> Seq<Seq<u32>> {
    Seq::new(
        placed_len(board.len() as int, y, j) as nat,
        |r: int|
            Seq::new(
                width as nat,
                |c: int|
                    if y <= r < y + j && x <= c < x + w && m[4 * (h - 1 - (r - y)) + (c - x)] {
                        tag
                    } else if r < board.len() {
                        board[r][c]
                    } else {
                        0u32
                    },
            ),
    )
}

/// The board after every occupied cell of the piece has been written.
pub open spec fn place_mask(
    board: Seq<Seq<u32>>,
    m: Seq<bool>,
    w: int,
    h: int,
    x: int,
    y: int,
    width: int,
    tag: u32,
) -> Seq<Seq<u32>> {
    place_upto(board, m, w, h, x, y, width, tag, h)
}

/// A completed line: no cell of the row is empty.
pub open spec fn row_full(row: Seq<u32>) -> bool {
    forall|c: int| 0 <= c < row.len() ==> row[c] != 0
}

/// The clearing pass over the `j` piece rows starting at `y`, scanned from
/// the top row down so that a removal never shifts a row that is still to
/// be examined: each completed line is removed, which moves every row
/// above it down by one.
pub open spec fn clear_pass(board: Seq<Seq<u32>>, y: int, j: nat) -> Seq<Seq<u32>>
    decreases j,
{
    if j == 0 {
        board
    } else {
        let b1 = if row_full(board[y + j - 1]) {
            board.remove(y + j - 1)
        } else {
            board
        };
        clear_pass(b1, y, (j - 1) as nat)
    }
}

/// The board produced by a complete lock event: write the piece, then run
/// the clearing pass over the rows it spanned.
pub open spec fn lock_result(
    board: Seq<Seq<u32>>,
    m: Seq<bool>,
    w: int,
    h: int,
    x: int,
    y: int,
    width: int,
    tag: u32,
) -> Seq<Seq<u32>> {
    clear_pass(place_mask(board, m, w, h, x, y, width, tag), y, h as nat)
}

/// The board a lock of the active piece of `g` produces.
pub open spec fn lock_of(g: Game) -> Seq<Seq<u32>> {
    lock_result(
        board_of(g),
        eff_mask(g.piece_index as int, g.orient as nat),
        eff_width(g.piece_index as int, g.orient as nat),
        eff_height(g.piece_index as int, g.orient as nat),
        g.x as int,
        g.y as int,
        g.width as int,
        lock_tag(g),
    )
}

/// The spawn row for a board of `len` rows.
pub open spec fn spawn_row(policy: HeightPolicy, len: int) -> int {
    match policy {
        HeightPolicy::Fixed(sy) => sy as int,
        HeightPolicy::Growing(mg) => len + mg,
    }
}

/// The tag a lock of the active piece of `g` writes: the piece's color
/// index in the fixed-height variant, the generation counter in the
/// endless variant. Both are non-zero.
pub open spec fn lock_tag(g: Game) -> u32 {
    match g.policy {
        HeightPolicy::Fixed(_) => (g.piece_index + 1) as u32,
        HeightPolicy::Growing(_) => g.next_gen,
    }
}

/// The generation counter after a lock: the endless variant moves it past
/// the tag it just wrote.
pub open spec fn gen_after(g: Game) -> u32 {
    match g.policy {
        HeightPolicy::Fixed(_) => g.next_gen,
        HeightPolicy::Growing(_) => (g.next_gen + 1) as u32,
    }
}

/// Machine-limit bound: a lock may grow the board by up to four rows and
/// the spawn row must still be a `usize`.
pub open spec fn spawn_room(g: Game) -> bool {
    match g.policy {
        HeightPolicy::Fixed(_) => g.world@.len() + 4 <= usize::MAX,
        HeightPolicy::Growing(mg) => g.world@.len() + 4 + mg <= usize::MAX,
    }
}

/// Removing a stored row commutes with taking the board view.
proof fn lemma_bview_remove(world: Seq<Vec<u32>>, i: int)
    requires
        0 <= i < world.len(),
    ensures
        bview(world.remove(i)) =~= bview(world).remove(i),
{
    world.remove_ensures(i);
    bview(world).remove_ensures(i);
}

/// The clearing pass only removes rows: the result keeps every row length
/// and loses at most `j` rows.
proof fn lemma_clear_pass_len(b: Seq<Seq<u32>>, y: int, j: nat)
    requires
        0 <= y,
        y + j <= b.len(),
    ensures
        b.len() - j <= clear_pass(b, y, j).len() <= b.len(),
    decreases j,
{
    if j > 0 {
        if row_full(b[y + j - 1]) {
            lemma_clear_pass_len(b.remove(y + j - 1), y, (j - 1) as nat);
        } else {
            lemma_clear_pass_len(b, y, (j - 1) as nat);
        }
    }
}

/// The clearing pass keeps every row at the board width.
proof fn lemma_clear_pass_wf(b: Seq<Seq<u32>>, y: int, j: nat, width: int)
    requires
        board_wf(b, width),
        0 <= y,
        y + j <= b.len(),
    ensures
        board_wf(clear_pass(b, y, j), width),
    decreases j,
{
    if j > 0 {
        if row_full(b[y + j - 1]) {
            let b1 = b.remove(y + j - 1);
            b.remove_ensures(y + j - 1);
            assert(board_wf(b1, width));
            lemma_clear_pass_wf(b1, y, (j - 1) as nat, width);
        } else {
            lemma_clear_pass_wf(b, y, (j - 1) as nat, width);
        }
    }
}

/// A row of `width` empty cells.
fn zero_row(width: usize) -> (r: Vec<u32>)
    ensures
        r@ == empty_row(width as int),
{
    let mut out: Vec<u32> = Vec::new();
    let mut c: usize = 0;
    while c < width
        invariant
            c <= width,
            out@.len() == c,
            forall|k: int| 0 <= k < c ==> out@[k] == 0u32,
        decreases width - c,
    {
        out.push(0);
        c += 1;
    }
    proof {
        assert(out@ =~= empty_row(width as int));
    }
    out
}

/// The row `base` with the occupied cells of piece row `j` (counted from
/// the bounding-box bottom) written at column `x` with tag `tag`.
fn locked_row(base: &Vec<u32>, piece: &Piece, j: usize, x: usize, tag: u32) -> (r: Vec<u32>)
    requires
        piece_wf(*piece),
        j < piece.height,
        x + piece.width <= base@.len(),
    ensures
        r@.len() == base@.len(),
        forall|c: int|
            0 <= c < base@.len() ==> r@[c] == (if x <= c < x + piece.width && piece.cells@[4 * (
                piece.height - 1 - j) + (c - x)] {
                tag
            } else {
                base@[c]
            }),
{
    let mut out: Vec<u32> = Vec::new();
    let mut c: usize = 0;
    let n = base.len();
    while c < n
        invariant
            piece_wf(*piece),
            j < piece.height,
            x + piece.width <= base@.len(),
            n == base@.len(),
            c <= n,
            out@.len() == c,
            forall|k: int|
                0 <= k < c ==> out@[k] == (if x <= k < x + piece.width && piece.cells@[4 * (
                    piece.height - 1 - j) + (k - x)] {
                    tag
                } else {
                    base@[k]
                }),
        decreases n - c,
    {
        let v: u32 = if c >= x && c < x + piece.width {
            if piece.cells[(piece.height - 1 - j) * 4 + (c - x)] {
                tag
            } else {
                base[c]
            }
        } else {
            base[c]
        };
        out.push(v);
        c += 1;
    }
    out
}

/// Does the row have no empty cell?
fn row_is_full(row: &Vec<u32>) -> (r: bool)
    ensures
        r == row_full(row@),
{
    let mut c: usize = 0;
    let n = row.len();
    while c < n
        invariant
            n == row@.len(),
            c <= n,
            forall|k: int| 0 <= k < c ==> row@[k] != 0,
        decreases n - c,
    {
        if row[c] == 0 {
            return false;
        }
        c += 1;
    }
    true
}

/// No row of the board is a completed line.
pub open spec fn no_full_rows(board: Seq<Seq<u32>>) -> bool {
    forall|r: int| 0 <= r < board.len() ==> !row_full(#[trigger] board[r])
}

/// The clearing pass leaves no completed line behind: if every row outside
/// the window still to be scanned is incomplete, every row of the result
/// is incomplete.
proof fn lemma_clear_pass_no_full(b: Seq<Seq<u32>>, y: int, j: nat)
    requires
        0 <= y,
        y + j <= b.len(),
        forall|r: int| 0 <= r < b.len() && !(y <= r < y + j) ==> !row_full(#[trigger] b[r]),
    ensures
        no_full_rows(clear_pass(b, y, j)),
    decreases j,
{
    if j == 0 {
        assert(no_full_rows(b));
    } else {
        let top = y + j - 1;
        if row_full(b[top]) {
            let b1 = b.remove(top);
            b.remove_ensures(top);
            assert(forall|r: int|
                0 <= r < b1.len() && !(y <= r < y + (j - 1)) ==> !row_full(#[trigger] b1[r]));
            lemma_clear_pass_no_full(b1, y, (j - 1) as nat);
        } else {
            lemma_clear_pass_no_full(b, y, (j - 1) as nat);
        }
    }
}

/// Law: full rows never survive a lock event. If the board had no
/// completed line before the piece locked, the board produced by the lock
/// (placement followed by the clearing pass) has none either.
pub proof fn lemma_lock_no_full(
    board: Seq<Seq<u32>>,
    m: Seq<bool>,
    w: int,
    h: int,
    x: int,
    y: int,
    width: int,
    tag: u32,
)
    requires
        board_wf(board, width),
        no_full_rows(board),
        1 <= width,
        0 <= h,
        0 <= y <= board.len(),
        x + w <= width,
    ensures
        no_full_rows(lock_result(board, m, w, h, x, y, width, tag)),
{
    let placed = place_mask(board, m, w, h, x, y, width, tag);
    assert forall|r: int| 0 <= r < placed.len() && !(y <= r < y + h) implies !row_full(
        #[trigger] placed[r],
    ) by {
        if r < board.len() {
            assert(!row_full(board[r]));
            let c = choose|c: int| 0 <= c < board[r].len() && board[r][c] == 0;
            assert(placed[r][c] == 0);
            assert(placed[r].len() == width);
        } else {
            assert(placed[r][0] == 0);
        }
    }
    lemma_clear_pass_no_full(placed, y, h as nat);
}

/// One gravity step. If the active piece has not landed it falls one row
/// and the call returns false. Otherwise the piece locks: its occupied
/// cells are written into the board (growing it where needed), completed
/// lines among the spanned rows are removed top-down, the generation
/// counter advances (endless variant), and the piece position is reset to
/// the spawn point with orientation 0. The piece index is left for the
/// caller to replace.
pub fn advance(game: &mut Game) -> (locked: bool)
    requires
        game_wf(*old(game)),
        spawn_room(*old(game)),
        old(game).policy matches HeightPolicy::Growing(_) ==> old(game).next_gen < u32::MAX,
    ensures
        game_wf(*final(game)),
        final(game).width == old(game).width,
        final(game).policy == old(game).policy,
        final(game).piece_index == old(game).piece_index,
        locked == landed(*old(game), old(game).y as int),
        !locked ==> final(game).world == old(game).world && final(game).x == old(game).x
            && final(game).orient == old(game).orient && final(game).next_gen == old(
            game,
        ).next_gen && final(game).y == old(game).y - 1,
        locked ==> board_of(*final(game)) == lock_of(*old(game)) && final(game).next_gen
            == gen_after(*old(game)) && final(game).orient == 0 && final(game).x == (old(
            game,
        ).width - 4) / 2 && final(game).y == spawn_row(
            old(game).policy,
            board_of(*final(game)).len() as int,
        ),
        locked ==> no_full_rows(board_of(*old(game))) ==> no_full_rows(board_of(*final(game))),
{
    let piece = game.effective_piece();
    let collision = detect_collision(game, game.y, &piece);
    let ghost m = piece.cells@;
    let ghost w = piece.width as int;
    let ghost h = piece.height as int;
    let ghost board0 = board_of(*old(game));
    if collision {
        let tag: u32 = match game.policy {
            HeightPolicy::Fixed(_) => (game.piece_index + 1) as u32,
            HeightPolicy::Growing(_) => game.next_gen,
        };
        proof {
            if old(game).y != 0 {
                let (jj, ii) = choose|jj: int, ii: int|
                    mask_at(m, w, h, jj, ii) && old(game).y + jj <= board0.len() && board0[old(
                        game,
                    ).y + jj - 1][old(game).x + ii] != 0;
                assert(old(game).y <= board0.len());
            }
        }
        proof {
            assert(bview(game.world@) =~~= place_upto(
                board0,
                m,
                w,
                h,
                old(game).x as int,
                old(game).y as int,
                old(game).width as int,
                tag,
                0,
            ));
        }
        let mut j: usize = 0;
        while j < piece.height
            invariant
                piece_wf(piece),
                m == piece.cells@,
                w == piece.width as int,
                h == piece.height as int,
                game.width == old(game).width,
                game.policy == old(game).policy,
                game.next_gen == old(game).next_gen,
                game.piece_index == old(game).piece_index,
                game.orient == old(game).orient,
                game.x == old(game).x,
                game.y == old(game).y,
                game_wf(*old(game)),
                spawn_room(*old(game)),
                board0 == board_of(*old(game)),
                old(game).y <= board0.len(),
                old(game).x + w <= old(game).width,
                j <= piece.height,
                bview(game.world@) == place_upto(
                    board0,
                    m,
                    w,
                    h,
                    old(game).x as int,
                    old(game).y as int,
                    old(game).width as int,
                    tag,
                    j as int,
                ),
            decreases piece.height - j,
        {
            let ghost pre = bview(game.world@);
            proof {
                assert(pre.len() == placed_len(board0.len() as int, old(game).y as int, j as int));
            }
            if game.y + j == game.world.len() {
                let zr = zero_row(game.width);
                game.world.push(zr);
                proof {
                    assert(bview(game.world@) =~= pre.push(empty_row(old(game).width as int)));
                }
            }
            let ghost grown = bview(game.world@);
            proof {
                assert(grown[game.y + j] == game.world@[game.y + j]@);
                assert(grown[game.y + j].len() == old(game).width);
            }
            let nr = locked_row(&game.world[game.y + j], &piece, j, game.x, tag);
            game.world.set(game.y + j, nr);
            j += 1;
            proof {
                assert(bview(game.world@) =~= grown.update(old(game).y + j - 1, nr@));
                assert(bview(game.world@) =~~= place_upto(
                    board0,
                    m,
                    w,
                    h,
                    old(game).x as int,
                    old(game).y as int,
                    old(game).width as int,
                    tag,
                    j as int,
                ));
            }
        }
        let ghost placed = place_mask(
            board0,
            m,
            w,
            h,
            old(game).x as int,
            old(game).y as int,
            old(game).width as int,
            tag,
        );
        proof {
            assert(board_wf(placed, old(game).width as int));
        }
        let mut j2: usize = piece.height;
        while j2 > 0
            invariant
                piece_wf(piece),
                game.width == old(game).width,
                game.policy == old(game).policy,
                game.next_gen == old(game).next_gen,
                game.piece_index == old(game).piece_index,
                game.orient == old(game).orient,
                game.x == old(game).x,
                game.y == old(game).y,
                game_wf(*old(game)),
                spawn_room(*old(game)),
                board0 == board_of(*old(game)),
                old(game).y <= board0.len(),
                placed.len() == placed_len(board0.len() as int, old(game).y as int, h),
                placed.len() <= board0.len() + 4,
                board_wf(bview(game.world@), old(game).width as int),
                j2 <= piece.height,
                h == piece.height as int,
                old(game).y + j2 <= bview(game.world@).len(),
                bview(game.world@).len() <= placed.len(),
                clear_pass(bview(game.world@), old(game).y as int, j2 as nat) == clear_pass(
                    placed,
                    old(game).y as int,
                    h as nat,
                ),
            decreases j2,
        {
            j2 -= 1;
            let idx = game.y + j2;
            let ghost pre = bview(game.world@);
            proof {
                assert(pre[idx as int] == game.world@[idx as int]@);
            }
            let full = row_is_full(&game.world[idx]);
            let ghost preworld = game.world@;
            if full {
                game.world.remove(idx);
                proof {
                    lemma_bview_remove(preworld, idx as int);
                }
            }
            proof {
                assert(clear_pass(bview(game.world@), old(game).y as int, j2 as nat) == clear_pass(
                    placed,
                    old(game).y as int,
                    h as nat,
                ));
            }
        }
        match game.policy {
            HeightPolicy::Fixed(_) => {},
            HeightPolicy::Growing(_) => {
                game.next_gen = game.next_gen + 1;
            },
        }
        game.y = match game.policy {
            HeightPolicy::Fixed(sy) => sy,
            HeightPolicy::Growing(mg) => game.world.len() + mg,
        };
        game.x = (game.width - 4) / 2;
        game.orient = 0;
        proof {
            assert(game_wf(*game));
            if no_full_rows(board0) {
                lemma_lock_no_full(
                    board0,
                    m,
                    w,
                    h,
                    old(game).x as int,
                    old(game).y as int,
                    old(game).width as int,
                    tag,
                );
            }
        }
        true
    } else {
        game.y = game.y - 1;
        false
    }
}

/// The row at which the active piece of `g`, probed downward from `py`,
/// first lands.
pub open spec fn landing_row(g: Game, py: nat) -> nat
    decreases py,
{
    if landed(g, py as int) {
        py
    } else if py == 0 {
        0
    } else {
        landing_row(g, (py - 1) as nat)
    }
}

/// The landing preview: the row where the active piece would come to rest
/// if dropped now, found by probing candidate rows downward from the
/// current one with the unchanged collision test. The state is not
/// touched.
///
/// Law: no ghost beyond the floor. The returned row is a landing row, no
/// row strictly between it and the current one lands, and every occupied
/// cell of the piece placed there sits at a board row of at least zero.
pub fn ghost_row(game: &Game) -> (gy: usize)
    requires
        game_wf(*game),
    ensures
        gy <= game.y,
        gy == landing_row(*game, game.y as nat),
        landed(*game, gy as int),
        forall|py: int| gy < py <= game.y ==> !landed(*game, py),
        forall|j: int, i: int|
            #[trigger] mask_at(
                eff_mask(game.piece_index as int, game.orient as nat),
                eff_width(game.piece_index as int, game.orient as nat),
                eff_height(game.piece_index as int, game.orient as nat),
                j,
                i,
            ) ==> gy + j >= 0,
{
    let piece = game.effective_piece();
    let mut gy = game.y;
    loop
        invariant_except_break
            game_wf(*game),
            piece_wf(piece),
            piece.cells@ == eff_mask(game.piece_index as int, game.orient as nat),
            piece.width == eff_width(game.piece_index as int, game.orient as nat),
            piece.height == eff_height(game.piece_index as int, game.orient as nat),
            gy <= game.y,
            forall|py: int| gy < py <= game.y ==> !landed(*game, py),
            landing_row(*game, game.y as nat) == landing_row(*game, gy as nat),
        ensures
            gy <= game.y,
            landed(*game, gy as int),
            forall|py: int| gy < py <= game.y ==> !landed(*game, py),
            landing_row(*game, game.y as nat) == landing_row(*game, gy as nat),
        decreases gy,
    {
        if detect_collision(game, gy, &piece) {
            break;
        }
        gy -= 1;
    }
    gy
}

/// Law: lock idempotence of tags. Every cell the lock writes carries the
/// single tag of that lock. Together with `advance`'s contract — the next
/// generation counter is the written tag plus one in the endless variant —
/// the tag of each lock differs from, and strictly exceeds, the previous
/// one.
pub proof fn lemma_lock_tags(
    board: Seq<Seq<u32>>,
    m: Seq<bool>,
    w: int,
    h: int,
    x: int,
    y: int,
    width: int,
    tag: u32,
    j: int,
    i: int,
)
    requires
        0 <= y,
        0 <= x,
        x + w <= width,
        mask_at(m, w, h, j, i),
    ensures
        place_mask(board, m, w, h, x, y, width, tag)[y + j][x + i] == tag,
{
}

/// In the endless variant the counter a lock leaves behind strictly
/// exceeds the tag that lock wrote, so consecutive locks write strictly
/// increasing tags.
pub proof fn lemma_endless_tag_grows(g: Game)
    requires
        g.policy matches HeightPolicy::Growing(_),
        g.next_gen < u32::MAX,
    ensures
        gen_after(g) > lock_tag(g),
{
}

/// Drop the piece to its landing row and lock it there: gravity steps are
/// applied until one locks. Equivalent to locking the piece at the row the
/// landing preview names.
pub fn hard_drop(game: &mut Game)
    requires
        game_wf(*old(game)),
        spawn_room(*old(game)),
        old(game).policy matches HeightPolicy::Growing(_) ==> old(game).next_gen < u32::MAX,
    ensures
        game_wf(*final(game)),
        final(game).width == old(game).width,
        final(game).policy == old(game).policy,
        final(game).piece_index == old(game).piece_index,
        board_of(*final(game)) == lock_result(
            board_of(*old(game)),
            eff_mask(old(game).piece_index as int, old(game).orient as nat),
            eff_width(old(game).piece_index as int, old(game).orient as nat),
            eff_height(old(game).piece_index as int, old(game).orient as nat),
            old(game).x as int,
            landing_row(*old(game), old(game).y as nat) as int,
            old(game).width as int,
            lock_tag(*old(game)),
        ),
        final(game).next_gen == gen_after(*old(game)),
        final(game).orient == 0,
        final(game).x == (old(game).width - 4) / 2,
        final(game).y == spawn_row(old(game).policy, board_of(*final(game)).len() as int),
        no_full_rows(board_of(*old(game))) ==> no_full_rows(board_of(*final(game))),
    decreases old(game).y,
{
    let ghost pre = *game;
    let locked = advance(game);
    proof {
        assert(landed(pre, pre.y as int) == landed(*old(game), old(game).y as int));
    }
    if !locked {
        proof {
            assert(landing_row(*old(game), old(game).y as nat) == landing_row(
                *old(game),
                game.y as nat,
            ));
            assert(*game == (Game { y: game.y, ..pre }));
            assert(landing_row(*old(game), game.y as nat) == landing_row(*game, game.y as nat)) by {
                lemma_landing_row_same(*old(game), *game, game.y as nat);
            }
        }
        hard_drop(game);
        proof {
            lemma_landing_row_same(*old(game), pre, (old(game).y - 1) as nat);
        }
    }
}

/// Two states that agree on everything but the piece row probe identical
/// landing rows.
proof fn lemma_landing_row_same(a: Game, b: Game, py: nat)
    requires
        a.world == b.world,
        a.width == b.width,
        a.piece_index == b.piece_index,
        a.orient == b.orient,
        a.x == b.x,
    ensures
        landing_row(a, py) == landing_row(b, py),
    decreases py,
{
    assert(board_of(a) == board_of(b));
    assert(forall|p: int| landed(a, p) == landed(b, p));
    if !landed(a, py as int) && py > 0 {
        lemma_landing_row_same(a, b, (py - 1) as nat);
    }
}

/// A fresh game: an empty board, a piece drawn from the pool at the spawn
/// point of the chosen variant, and a generation counter starting at one.
pub fn new_game(width: usize, policy: HeightPolicy, pool: &mut PiecePool) -> (g: Game)
    requires
        4 <= width,
        pool_wf(*old(pool)),
    ensures
        pool_wf(*final(pool)),
        game_wf(g),
        g.world@.len() == 0,
        g.width == width,
        g.policy == policy,
        g.next_gen == 1,
        g.piece_index < 7,
        g.orient == 0,
        g.x == (width - 4) / 2,
        g.y == spawn_row(policy, 0),
{
    let first = pool.draw();
    let g = Game {
        world: Vec::new(),
        width,
        policy,
        next_gen: 1,
        piece_index: first,
        orient: 0,
        y: match policy {
            HeightPolicy::Fixed(sy) => sy,
            HeightPolicy::Growing(mg) => mg,
        },
        x: (width - 4) / 2,
    };
    proof {
        assert(board_of(g) =~= Seq::<Seq<u32>>::empty());
    }
    g
}

/// Hand the freshly spawned slot to the next piece. Called after a lock,
/// when the spawn point leaves room for any piece's bounding box.
pub fn set_next_piece(game: &mut Game, index: usize)
    requires
        game_wf(*old(game)),
        index < 7,
        old(game).x + 4 <= old(game).width,
    ensures
        game_wf(*final(game)),
        final(game).world == old(game).world,
        final(game).width == old(game).width,
        final(game).policy == old(game).policy,
        final(game).next_gen == old(game).next_gen,
        final(game).y == old(game).y,
        final(game).x == old(game).x,
        final(game).piece_index == index,
        final(game).orient == 0,
{
    game.piece_index = index;
    game.orient = 0;
}

} // verus!
