//! Binary codec for durable board state.
//!
//! Layout: byte 0 is the format version (only version 1 is defined), bytes
//! 1 through 7 are reserved and written as zero. Then zero or more
//! fixed-size row records follow, one per board row in bottom-to-top
//! order; a row record holds one big-endian 32-bit occupancy tag per cell.
//! The row count is implied by the total length. The caller is expected to
//! write the bytes to a temporary file and atomically rename it over the
//! canonical name; reading and writing files stays outside the engine.

use vstd::prelude::*;

use crate::game::Game;
use crate::game::HeightPolicy;
use crate::game::bview;
use crate::game::board_of;
use crate::game::board_wf;
use crate::game::game_wf;
use crate::game::spawn_row;

verus! {

/// Why a persisted state cannot be used.
#[derive(Clone, Copy, PartialEq, Eq, Structural, Debug)]
pub enum StateError {
    /// Fewer than eight bytes: no complete header.
    ShortHeader,
    /// The version byte holds the given unsupported value.
    BadVersion(u8),
    /// The row records do not fill the file: a truncated trailing record.
    TruncatedRow,
    /// A stored tag leaves no room for the next generation counter.
    TagOverflow,
}

/// The four big-endian bytes of one cell tag.
pub open spec fn be_bytes(v: u32) -> Seq<u8> {
    seq![
        ((v >> 24) & 0xff) as u8,
        ((v >> 16) & 0xff) as u8,
        ((v >> 8) & 0xff) as u8,
        (v & 0xff) as u8,
    ]
}

/// The cell tag read back from four big-endian bytes.
pub open spec fn from_be(b0: u8, b1: u8, b2: u8, b3: u8) -> u32 {
    (((b0 as u32) << 24) | ((b1 as u32) << 16) | ((b2 as u32) << 8) | (b3 as u32)) as u32
}

/// The eight header bytes: version 1, then seven reserved zero bytes.
pub open spec fn header_bytes() -> Seq<u8> {
    seq![1u8, 0u8, 0u8, 0u8, 0u8, 0u8, 0u8, 0u8]
}

/// The record of one row: the big-endian bytes of its cells, in order.
pub open spec fn row_bytes(row: Seq<u32>) -> Seq<u8>
    decreases row.len(),
{
    if row.len() == 0 {
        Seq::empty()
    } else {
        be_bytes(row[0]) + row_bytes(row.drop_first())
    }
}

/// The row records of a board, bottom row first.
pub open spec fn board_bytes(board: Seq<Seq<u32>>) -> Seq<u8>
    decreases board.len(),
{
    if board.len() == 0 {
        Seq::empty()
    } else {
        row_bytes(board[0]) + board_bytes(board.drop_first())
    }
}

/// The full encoding of a board: header, then the row records.
pub open spec fn encoded(board: Seq<Seq<u32>>) -> Seq<u8> {
    header_bytes() + board_bytes(board)
}

/// The board read back from a well-formed byte string: one row per
/// complete record after the header.
pub open spec fn decoded(bytes: Seq<u8>, width: int) -> Seq<Seq<u32>> {
    Seq::new(
        ((bytes.len() - 8) / (4 * width)) as nat,
        |r: int|
            Seq::new(
                width as nat,
                |c: int|
                    from_be(
                        bytes[8 + 4 * (r * width + c)],
                        bytes[8 + 4 * (r * width + c) + 1],
                        bytes[8 + 4 * (r * width + c) + 2],
                        bytes[8 + 4 * (r * width + c) + 3],
                    ),
            ),
    )
}

/// Does some cell of the board carry the tag `v`?
pub open spec fn has_tag(board: Seq<Seq<u32>>, v: u32) -> bool {
    exists|r: int, c: int|
        0 <= r < board.len() && 0 <= c < board[r].len() && #[trigger] board[r][c] == v
}

/// A tag survives the trip through its big-endian bytes.
proof fn lemma_from_be_of_be(v: u32)
    ensures
        from_be(
            ((v >> 24) & 0xff) as u8,
            ((v >> 16) & 0xff) as u8,
            ((v >> 8) & 0xff) as u8,
            (v & 0xff) as u8,
        ) == v,
{
    assert((((((v >> 24) & 0xff) as u8) as u32) << 24) | (((((v >> 16) & 0xff) as u8) as u32)
        << 16) | (((((v >> 8) & 0xff) as u8) as u32) << 8) | (((v & 0xff) as u8) as u32) == v)
        by (bit_vector);
}

/// A row record holds four bytes per cell.
proof fn lemma_row_bytes_len(row: Seq<u32>)
    ensures
        row_bytes(row).len() == 4 * row.len(),
    decreases row.len(),
{
    if row.len() > 0 {
        lemma_row_bytes_len(row.drop_first());
    }
}

/// The row records of a `width`-cell board hold `4 * width` bytes per row.
proof fn lemma_board_bytes_len(board: Seq<Seq<u32>>, width: int)
    requires
        board_wf(board, width),
        0 <= width,
    ensures
        board_bytes(board).len() == 4 * width * board.len(),
    decreases board.len(),
{
    if board.len() > 0 {
        lemma_row_bytes_len(board[0]);
        assert(board_wf(board.drop_first(), width));
        lemma_board_bytes_len(board.drop_first(), width);
        assert(4 * width + 4 * width * (board.len() - 1) == 4 * width * board.len())
            by (nonlinear_arith);
    }
}

/// Indexing into a row record reaches the bytes of the right cell.
proof fn lemma_row_bytes_index(row: Seq<u32>, c: int, t: int)
    requires
        0 <= c < row.len(),
        0 <= t < 4,
    ensures
        row_bytes(row)[4 * c + t] == be_bytes(row[c])[t],
    decreases c,
{
    lemma_row_bytes_len(row.drop_first());
    if c > 0 {
        lemma_row_bytes_index(row.drop_first(), c - 1, t);
    }
}

/// Indexing into the row records reaches the bytes of the right cell.
proof fn lemma_board_bytes_index(board: Seq<Seq<u32>>, width: int, r: int, c: int, t: int)
    requires
        board_wf(board, width),
        1 <= width,
        0 <= r < board.len(),
        0 <= c < width,
        0 <= t < 4,
    ensures
        board_bytes(board)[4 * (r * width + c) + t] == be_bytes(board[r][c])[t],
    decreases r,
{
    lemma_row_bytes_len(board[0]);
    assert(board_wf(board.drop_first(), width));
    lemma_board_bytes_len(board.drop_first(), width);
    if r == 0 {
        lemma_row_bytes_index(board[0], c, t);
        assert(0 <= 4 * c + t < 4 * width);
    } else {
        lemma_board_bytes_index(board.drop_first(), width, r - 1, c, t);
        assert(4 * ((r - 1) * width + c) + t == 4 * (r * width + c) + t - 4 * width)
            by (nonlinear_arith);
        assert(0 <= 4 * ((r - 1) * width + c) + t < 4 * width * (board.len() - 1))
            by (nonlinear_arith)
            requires
                0 <= r - 1 < board.len() - 1,
                0 <= c < width,
                0 <= t < 4,
                1 <= width,
        ;
    }
}

/// Appending a cell extends the row record by its bytes.
proof fn lemma_row_bytes_snoc(row: Seq<u32>, v: u32)
    ensures
        row_bytes(row.push(v)) == row_bytes(row) + be_bytes(v),
    decreases row.len(),
{
    if row.len() == 0 {
        assert(row.push(v)[0] == v);
        assert(row.push(v).drop_first() =~= Seq::<u32>::empty());
        assert(row_bytes(row.push(v)) == be_bytes(v) + row_bytes(Seq::<u32>::empty()));
        assert(row_bytes(row.push(v)) =~= row_bytes(row) + be_bytes(v));
    } else {
        assert(row.push(v).drop_first() =~= row.drop_first().push(v));
        lemma_row_bytes_snoc(row.drop_first(), v);
        assert(row_bytes(row.push(v)) == be_bytes(row[0]) + (row_bytes(row.drop_first())
            + be_bytes(v)));
        assert(row_bytes(row.push(v)) =~= row_bytes(row) + be_bytes(v));
    }
}

/// Appending a row extends the row records by its record.
proof fn lemma_board_bytes_snoc(board: Seq<Seq<u32>>, row: Seq<u32>)
    ensures
        board_bytes(board.push(row)) == board_bytes(board) + row_bytes(row),
    decreases board.len(),
{
    if board.len() == 0 {
        assert(board.push(row)[0] == row);
        assert(board.push(row).drop_first() =~= Seq::<Seq<u32>>::empty());
        assert(board_bytes(board.push(row)) == row_bytes(row) + board_bytes(
            Seq::<Seq<u32>>::empty(),
        ));
        assert(board_bytes(board.push(row)) =~= board_bytes(board) + row_bytes(row));
    } else {
        assert(board.push(row).drop_first() =~= board.drop_first().push(row));
        lemma_board_bytes_snoc(board.drop_first(), row);
        assert(board_bytes(board.push(row)) == row_bytes(board[0]) + (board_bytes(
            board.drop_first(),
        ) + row_bytes(row)));
        assert(board_bytes(board.push(row)) =~= board_bytes(board) + row_bytes(row));
    }
}

/// Law: round-trip persistence. The encoding of a well-formed board is a
/// version-1 byte string of whole row records, and reading it back
/// reproduces the board, row for row and tag for tag; the empty board
/// encodes to a bare header and decodes back to the empty board.
pub proof fn lemma_round_trip(board: Seq<Seq<u32>>, width: int)
    requires
        board_wf(board, width),
        1 <= width,
    ensures
        encoded(board).len() == 8 + 4 * width * board.len(),
        encoded(board)[0] == 1,
        (encoded(board).len() - 8) % (4 * width) == 0,
        decoded(encoded(board), width) == board,
{
    let bytes = encoded(board);
    lemma_board_bytes_len(board, width);
    assert((4 * width * board.len()) % (4 * width) == 0) by {
        vstd::arithmetic::div_mod::lemma_mod_multiples_vanish(board.len() as int, 0, 4 * width);
    }
    assert((4 * width * board.len()) / (4 * width) == board.len()) by {
        vstd::arithmetic::div_mod::lemma_div_multiples_vanish(board.len() as int, 4 * width);
    }
    assert(decoded(bytes, width).len() == board.len());
    assert forall|r: int, c: int|
        0 <= r < board.len() && 0 <= c < width implies decoded(bytes, width)[r][c]
        == board[r][c] by {
        assert(0 <= 4 * (r * width + c) && 4 * (r * width + c) + 4 <= 4 * width * board.len())
            by (nonlinear_arith)
            requires
                0 <= r < board.len(),
                0 <= c < width,
                1 <= width,
        ;
        lemma_board_bytes_index(board, width, r, c, 0);
        lemma_board_bytes_index(board, width, r, c, 1);
        lemma_board_bytes_index(board, width, r, c, 2);
        lemma_board_bytes_index(board, width, r, c, 3);
        lemma_from_be_of_be(board[r][c]);
    }
    assert forall|r: int| 0 <= r < board.len() implies decoded(bytes, width)[r] == board[r] by {
        assert(decoded(bytes, width)[r] =~= board[r]);
    }
    assert(decoded(bytes, width) =~= board);
}

/// Encode the board for storage: the header, then every row bottom to
/// top, each cell as four big-endian bytes.
pub fn encode_state(world: &Vec<Vec<u32>>, width: usize) -> (bytes: Vec<u8>)
    requires
        board_wf(bview(world@), width as int),
    ensures
        bytes@ == encoded(bview(world@)),
{
    let ghost board = bview(world@);
    let mut out: Vec<u8> = Vec::new();
    out.push(1);
    out.push(0);
    out.push(0);
    out.push(0);
    out.push(0);
    out.push(0);
    out.push(0);
    out.push(0);
    proof {
        assert(out@ =~= header_bytes());
        assert(board.take(0) =~= Seq::<Seq<u32>>::empty());
        assert(out@ =~= header_bytes() + board_bytes(board.take(0)));
    }
    let nrows = world.len();
    let mut r: usize = 0;
    while r < nrows
        invariant
            board == bview(world@),
            board_wf(board, width as int),
            nrows == board.len(),
            r <= nrows,
            out@ == header_bytes() + board_bytes(board.take(r as int)),
        decreases nrows - r,
    {
        let row = &world[r];
        proof {
            assert(board[r as int] == world@[r as int]@);
            assert(row@.take(0) =~= Seq::<u32>::empty());
            assert(out@ =~= header_bytes() + (board_bytes(board.take(r as int)) + row_bytes(
                row@.take(0),
            )));
        }
        let ncells = row.len();
        let mut c: usize = 0;
        while c < ncells
            invariant
                board == bview(world@),
                board_wf(board, width as int),
                nrows == board.len(),
                r < nrows,
                row == &world[r as int],
                row@ == board[r as int],
                ncells == row@.len(),
                c <= ncells,
                out@ == header_bytes() + (board_bytes(board.take(r as int)) + row_bytes(
                    row@.take(c as int),
                )),
            decreases ncells - c,
        {
            let cell = row[c];
            out.push(((cell >> 24) & 0xff) as u8);
            out.push(((cell >> 16) & 0xff) as u8);
            out.push(((cell >> 8) & 0xff) as u8);
            out.push((cell & 0xff) as u8);
            proof {
                lemma_row_bytes_snoc(row@.take(c as int), cell);
                assert(row@.take(c as int).push(cell) =~= row@.take(c as int + 1));
                assert(out@ =~= header_bytes() + (board_bytes(board.take(r as int)) + row_bytes(
                    row@.take(c as int + 1),
                )));
            }
            c += 1;
        }
        proof {
            assert(row@.take(ncells as int) =~= row@);
            lemma_board_bytes_snoc(board.take(r as int), row@);
            assert(board.take(r as int).push(board[r as int]) =~= board.take(r as int + 1));
            assert(out@ =~= header_bytes() + board_bytes(board.take(r as int + 1)));
        }
        r += 1;
    }
    proof {
        assert(board.take(nrows as int) =~= board);
    }
    out
}

/// Decode a stored byte string. Fails on a short header, on any version
/// byte other than 1, and on a truncated trailing row record; otherwise
/// returns the stored rows, bottom to top.
pub fn decode_state(bytes: &Vec<u8>, width: usize) -> (res: Result<Vec<Vec<u32>>, StateError>)
    requires
        1 <= width,
        width <= usize::MAX / 4,
    ensures
        bytes@.len() < 8 ==> res == Result::<Vec<Vec<u32>>, StateError>::Err(
            StateError::ShortHeader,
        ),
        bytes@.len() >= 8 && bytes@[0] != 1 ==> res == Result::<Vec<Vec<u32>>, StateError>::Err(
            StateError::BadVersion(bytes@[0]),
        ),
        bytes@.len() >= 8 && bytes@[0] == 1 && (bytes@.len() - 8) % (4 * width as int) != 0
            ==> res == Result::<Vec<Vec<u32>>, StateError>::Err(StateError::TruncatedRow),
        bytes@.len() >= 8 && bytes@[0] == 1 && (bytes@.len() - 8) % (4 * width as int) == 0 ==> (
        res matches Result::Ok(world) && bview(world@) == decoded(bytes@, width as int)
            && board_wf(bview(world@), width as int)),
{
    if bytes.len() < 8 {
        return Result::Err(StateError::ShortHeader);
    }
    let version = bytes[0];
    if version != 1 {
        return Result::Err(StateError::BadVersion(version));
    }
    let body = bytes.len() - 8;
    let rowsz = 4 * width;
    if body % rowsz != 0 {
        return Result::Err(StateError::TruncatedRow);
    }
    let nrows = body / rowsz;
    proof {
        vstd::arithmetic::div_mod::lemma_fundamental_div_mod(body as int, rowsz as int);
    }
    let ghost target = decoded(bytes@, width as int);
    let mut out: Vec<Vec<u32>> = Vec::new();
    let mut r: usize = 0;
    while r < nrows
        invariant
            1 <= width,
            width <= usize::MAX / 4,
            rowsz == 4 * width,
            bytes@.len() == 8 + body,
            body + 8 <= usize::MAX,
            body == rowsz * nrows,
            target == decoded(bytes@, width as int),
            target.len() == nrows,
            r <= nrows,
            out@.len() == r,
            forall|rr: int| 0 <= rr < r ==> out@[rr]@ == target[rr],
        decreases nrows - r,
    {
        let mut row: Vec<u32> = Vec::new();
        let mut c: usize = 0;
        while c < width
            invariant
                1 <= width,
                width <= usize::MAX / 4,
                rowsz == 4 * width,
                bytes@.len() == 8 + body,
                body + 8 <= usize::MAX,
                body == rowsz * nrows,
                target == decoded(bytes@, width as int),
                target.len() == nrows,
                r < nrows,
                c <= width,
                row@.len() == c,
                forall|cc: int| 0 <= cc < c ==> row@[cc] == target[r as int][cc],
            decreases width - c,
        {
            proof {
                assert(4 * ((r as int) * width + c) + 4 <= rowsz * nrows) by (nonlinear_arith)
                    requires
                        0 <= c < width,
                        0 <= r < nrows,
                        rowsz == 4 * width,
                ;
                assert(0 <= 4 * ((r as int) * width + c)) by (nonlinear_arith)
                    requires
                        0 <= c,
                        0 <= r,
                        1 <= width,
                ;
            }
            let pos = 8 + 4 * (r * width + c);
            let b0 = bytes[pos];
            let b1 = bytes[pos + 1];
            let b2 = bytes[pos + 2];
            let b3 = bytes[pos + 3];
            let cell: u32 = ((b0 as u32) << 24) | ((b1 as u32) << 16) | ((b2 as u32) << 8) | (
            b3 as u32);
            row.push(cell);
            proof {
                assert(target[r as int][c as int] == from_be(b0, b1, b2, b3));
            }
            c += 1;
        }
        proof {
            assert(row@ =~= target[r as int]);
        }
        out.push(row);
        r += 1;
    }
    proof {
        assert(bview(out@) =~= target);
    }
    Result::Ok(out)
}

/// The greatest tag stored anywhere in the board, or zero for an empty
/// board.
pub fn board_max_tag(world: &Vec<Vec<u32>>) -> (m: u32)
    ensures
        forall|r: int, c: int|
            0 <= r < world@.len() && 0 <= c < world@[r]@.len() ==> #[trigger] world@[r]@[c] <= m,
        m == 0 || has_tag(bview(world@), m),
{
    let mut m: u32 = 0;
    let nrows = world.len();
    let mut r: usize = 0;
    while r < nrows
        invariant
            nrows == world@.len(),
            r <= nrows,
            forall|rr: int, cc: int|
                0 <= rr < r && 0 <= cc < world@[rr]@.len() ==> #[trigger] world@[rr]@[cc] <= m,
            m == 0 || has_tag(bview(world@), m),
        decreases nrows - r,
    {
        let row = &world[r];
        let ncells = row.len();
        let mut c: usize = 0;
        while c < ncells
            invariant
                nrows == world@.len(),
                r < nrows,
                row == &world[r as int],
                ncells == row@.len(),
                c <= ncells,
                forall|rr: int, cc: int|
                    0 <= rr < r && 0 <= cc < world@[rr]@.len() ==> #[trigger] world@[rr]@[cc] <= m,
                forall|cc: int| 0 <= cc < c ==> #[trigger] row@[cc] <= m,
                m == 0 || has_tag(bview(world@), m),
            decreases ncells - c,
        {
            if row[c] > m {
                m = row[c];
                proof {
                    assert(bview(world@)[r as int][c as int] == m);
                    assert(has_tag(bview(world@), m));
                }
            }
            c += 1;
        }
        r += 1;
    }
    m
}

/// Rebuild a game from a stored byte string: the decoded board, a
/// generation counter one past the greatest stored tag, and the active
/// piece placed at the spawn point. Fails as the decoder does, and when a
/// stored tag leaves no room for the counter.
pub fn load_game(
    bytes: &Vec<u8>,
    width: usize,
    policy: HeightPolicy,
    piece_index: usize,
) -> (res: Result<Game, StateError>)
    requires
        4 <= width,
        width <= usize::MAX / 4,
        piece_index < 7,
        policy matches HeightPolicy::Growing(mg) ==> bytes@.len() + mg <= usize::MAX,
    ensures
        bytes@.len() < 8 ==> res == Result::<Game, StateError>::Err(StateError::ShortHeader),
        bytes@.len() >= 8 && bytes@[0] != 1 ==> res == Result::<Game, StateError>::Err(
            StateError::BadVersion(bytes@[0]),
        ),
        bytes@.len() >= 8 && bytes@[0] == 1 && (bytes@.len() - 8) % (4 * width as int) != 0
            ==> res == Result::<Game, StateError>::Err(StateError::TruncatedRow),
        bytes@.len() >= 8 && bytes@[0] == 1 && (bytes@.len() - 8) % (4 * width as int) == 0 ==> {
            let board = decoded(bytes@, width as int);
            if has_tag(board, u32::MAX) {
                res == Result::<Game, StateError>::Err(StateError::TagOverflow)
            } else {
                res matches Result::Ok(g) && game_wf(g) && board_of(g) == board && g.width == width
                    && g.policy == policy && g.piece_index == piece_index && g.orient == 0 && g.x
                    == (width - 4) / 2 && g.y == spawn_row(policy, board.len() as int) && (forall|
                    r: int,
                    c: int,
                |
                    0 <= r < board.len() && 0 <= c < width ==> #[trigger] board[r][c] < g.next_gen)
                    && (g.next_gen == 1 || has_tag(board, (g.next_gen - 1) as u32))
            }
        },
{
    let world = match decode_state(bytes, width) {
        Result::Ok(world) => world,
        Result::Err(e) => {
            return Result::Err(e);
        },
    };
    let max_tag = board_max_tag(&world);
    if max_tag == u32::MAX {
        proof {
            assert(has_tag(bview(world@), u32::MAX));
        }
        return Result::Err(StateError::TagOverflow);
    }
    proof {
        if has_tag(bview(world@), u32::MAX) {
            let (r, c) = choose|r: int, c: int|
                0 <= r < bview(world@).len() && 0 <= c < bview(world@)[r].len()
                    && #[trigger] bview(world@)[r][c] == u32::MAX;
            assert(world@[r]@[c] <= max_tag);
        }
    }
    let nrows = world.len();
    let g = Game {
        world,
        width,
        policy,
        next_gen: max_tag + 1,
        piece_index,
        orient: 0,
        y: match policy {
            HeightPolicy::Fixed(sy) => sy,
            HeightPolicy::Growing(mg) => nrows + mg,
        },
        x: (width - 4) / 2,
    };
    Result::Ok(g)
}

} // verus!
