//! The game board: a fixed square grid of optional tiles plus an
//! append-only history of committed moves.

use vstd::prelude::*;

use crate::letter::{letter_from_char_spec, Letter};

verus! {

/// Side length of the square board.
pub const BOARD_SIZE: usize = 21;

/// Number of cells of the board; linear indices run over `[0, ARRAY_SIZE)`.
pub const ARRAY_SIZE: usize = BOARD_SIZE * BOARD_SIZE;

/// The direction a word is laid in: `Right` increases the column,
/// `Down` increases the row.
#[derive(Debug, Clone, Copy, PartialEq, Eq, Structural)]
pub enum Direction {
    Right,
    Down,
}

/// How far one step along a direction moves the linear cell index.
pub open spec fn step_int(d: Direction) -> int {
    match d {
        Direction::Right => 1,
        Direction::Down => BOARD_SIZE as int,
    }
}

/// One step along a direction, as an executable index delta.
pub fn step_size(d: Direction) -> (r: usize)
    ensures
        r == step_int(d),
{
    match d {
        Direction::Right => 1,
        Direction::Down => BOARD_SIZE,
    }
}

/// A committed placement: the linear index the cursor reached after the
/// word was written, the direction, and the word text. The move owns a
/// copy of its text.
#[derive(Debug)]
pub struct Move {
    pub location: usize,
    pub direction: Direction,
    pub word: String,
}

/// The mathematical value of a [`Move`].
pub struct MoveView {
    pub location: int,
    pub direction: Direction,
    pub word: Seq<char>,
}

impl View for Move {
    type V = MoveView;

    open spec fn view(&self) -> MoveView {
        MoveView { location: self.location as int, direction: self.direction, word: self.word@ }
    }
}

impl Move {
    /// Builds a move record owning a copy of the word text.
    pub fn new(location: usize, direction: Direction, word: &str) -> (r: Move)
        ensures
            r@.location == location,
            r@.direction == direction,
            r@.word == word@,
    {
        Move { location, direction, word: word.to_owned() }
    }
}

/// The board: `ARRAY_SIZE` cells, each empty or holding one tile, and
/// the ordered history of committed moves.
#[derive(Debug)]
pub struct Board {
    inner: Vec<Option<Letter>>,
    moves: Vec<Move>,
}

/// Converts a row/column pair to the linear cell index `row * BOARD_SIZE + column`.
pub fn convert_to_index(row: u8, column: u8) -> (r: usize)
    ensures
        r == row as int * BOARD_SIZE + column as int,
{
    row as usize * BOARD_SIZE + column as usize
}

/// Converts a linear cell index back to its `(column, row)` pair.
pub fn convert_from_index(index: usize) -> (r: (u8, u8))
    requires
        index < ARRAY_SIZE,
    ensures
        r.0 == index as int % (BOARD_SIZE as int),
        r.1 == index as int / (BOARD_SIZE as int),
{
    ((index % BOARD_SIZE) as u8, (index / BOARD_SIZE) as u8)
}

/// The linear index of the `i`-th cell of a word laid at `(row, column)`
/// along `d`.
pub open spec fn path_index(row: int, column: int, d: Direction, i: int) -> int {
    match d {
        Direction::Right => row * (BOARD_SIZE as int) + column + i,
        Direction::Down => (row + i) * (BOARD_SIZE as int) + column,
    }
}

/// Whether a word of length `len` laid at `(row, column)` along `d`
/// stays on the board.
pub open spec fn word_fits(row: int, column: int, d: Direction, len: int) -> bool {
    match d {
        Direction::Right => 0 <= row < BOARD_SIZE && 0 <= column && column + len
            <= BOARD_SIZE,
        Direction::Down => 0 <= column < BOARD_SIZE && 0 <= row && row + len <= BOARD_SIZE,
    }
}

/// Whether linear index `j` lies on the first `len` cells of that path.
pub open spec fn on_path(row: int, column: int, d: Direction, len: int, j: int) -> bool {
    exists|i: int| 0 <= i < len && #[trigger] path_index(row, column, d, i) == j
}

/// The tiles of the occupied cells among the first `n` cells of a grid,
/// in cell order.
pub open spec fn occupied_letters_upto(g: Seq<Option<Letter>>, n: int) -> Seq<Letter>
    decreases n,
{
    if n <= 0 {
        Seq::empty()
    } else if g[n - 1] is Some {
        occupied_letters_upto(g, n - 1).push(g[n - 1]->0)
    } else {
        occupied_letters_upto(g, n - 1)
    }
}

impl Board {
    /// The grid contents: one entry per cell, by linear index.
    pub closed spec fn grid(&self) -> Seq<Option<Letter>> {
        self.inner@
    }

    /// The committed move history, oldest first.
    pub closed spec fn moves_seq(&self) -> Seq<Move> {
        self.moves@
    }

    /// A board is well formed when it has exactly one entry per cell.
    pub open spec fn wf(&self) -> bool {
        self.grid().len() == ARRAY_SIZE
    }

    /// Builds an empty board: every cell empty, no move history.
    pub fn new() -> (b: Board)
        ensures
            b.wf(),
            forall|i: int| 0 <= i < ARRAY_SIZE ==> b.grid()[i] is None,
            b.moves_seq() == Seq::<Move>::empty(),
    {
        Board { inner: vec![None; ARRAY_SIZE], moves: Vec::new() }
    }

    /// Rebuilds a board from a full grid snapshot and a move history;
    /// the new board's state is exactly the given parts.
    pub fn from_parts(cells: Vec<Option<Letter>>, moves: Vec<Move>) -> (b: Board)
        requires
            cells@.len() == ARRAY_SIZE,
        ensures
            b.wf(),
            b.grid() == cells@,
            b.moves_seq() == moves@,
    {
        Board { inner: cells, moves }
    }

    /// The grid snapshot, cell for cell.
    pub fn cells(&self) -> (r: &Vec<Option<Letter>>)
        ensures
            r@ == self.grid(),
    {
        &self.inner
    }

    /// The move history, move for move.
    pub fn move_history(&self) -> (r: &Vec<Move>)
        ensures
            r@ == self.moves_seq(),
    {
        &self.moves
    }

    /// Reads the cell at a row/column pair; the pair must be on the board.
    pub fn get(&self, row: u8, column: u8) -> (r: Option<Letter>)
        requires
            self.wf(),
            row < BOARD_SIZE,
            column < BOARD_SIZE,
        ensures
            r == self.grid()[row as int * (BOARD_SIZE as int) + column as int],
    {
        self.inner[convert_to_index(row, column)]
    }

    /// Writes the cell at a row/column pair; the pair must be on the board.
    pub fn set(&mut self, row: u8, column: u8, letter: Option<Letter>)
        requires
            old(self).wf(),
            row < BOARD_SIZE,
            column < BOARD_SIZE,
        ensures
            final(self).wf(),
            final(self).grid() == old(self).grid().update(
                row as int * (BOARD_SIZE as int) + column as int,
                letter,
            ),
            final(self).moves_seq() == old(self).moves_seq(),
    {
        let index = convert_to_index(row, column);
        self.inner[index] = letter;
    }

    /// Reads a cell by linear index; an index off the board reads as empty.
    pub fn get_index(&self, index: usize) -> (r: Option<Letter>)
        ensures
            r == if index < self.grid().len() {
                self.grid()[index as int]
            } else {
                None::<Letter>
            },
    {
        if index < self.inner.len() {
            self.inner[index]
        } else {
            None
        }
    }

    /// Writes a cell by linear index; the index must be on the board.
    pub fn set_index(&mut self, index: usize, letter: Option<Letter>)
        requires
            old(self).wf(),
            index < ARRAY_SIZE,
        ensures
            final(self).wf(),
            final(self).grid() == old(self).grid().update(index as int, letter),
            final(self).moves_seq() == old(self).moves_seq(),
    {
        self.inner[index] = letter;
    }

    /// Writes each character of `word` into consecutive cells along
    /// `direction` starting at `(row, column)`, overwriting whatever was
    /// there, then appends one move record whose location is the linear
    /// index of the cursor one step past the word's last cell. No
    /// legality check happens here: the verifier owns legality, and this
    /// operation trusts its caller to keep the word on the board.
    pub fn make_move(&mut self, row: u8, column: u8, word: &str, direction: Direction)
        requires
            old(self).wf(),
            word_fits(row as int, column as int, direction, word@.len() as int),
        ensures
            final(self).wf(),
            forall|i: int|
                0 <= i < word@.len() ==> final(self).grid()[#[trigger] path_index(
                    row as int,
                    column as int,
                    direction,
                    i,
                )] == Some(letter_from_char_spec(word@[i])),
            forall|j: int|
                0 <= j < ARRAY_SIZE && !on_path(
                    row as int,
                    column as int,
                    direction,
                    word@.len() as int,
                    j,
                ) ==> final(self).grid()[j] == old(self).grid()[j],
            final(self).moves_seq().len() == old(self).moves_seq().len() + 1,
            final(self).moves_seq().subrange(0, old(self).moves_seq().len() as int) == old(
                self,
            ).moves_seq(),
            final(self).moves_seq().last()@ == (MoveView {
                location: path_index(row as int, column as int, direction, word@.len() as int),
                direction,
                word: word@,
            }),
    {
        let ghost g0 = self.grid();
        let n = word.unicode_len();
        let mut r = row;
        let mut c = column;
        let mut i: usize = 0;
        while i < n
            invariant
                self.wf(),
                n == word@.len(),
                word_fits(row as int, column as int, direction, n as int),
                i <= n,
                r as int == (match direction {
                    Direction::Right => row as int,
                    Direction::Down => row as int + i,
                }),
                c as int == (match direction {
                    Direction::Right => column as int + i,
                    Direction::Down => column as int,
                }),
                forall|k: int|
                    0 <= k < i ==> self.grid()[#[trigger] path_index(
                        row as int,
                        column as int,
                        direction,
                        k,
                    )] == Some(letter_from_char_spec(word@[k])),
                forall|j: int|
                    0 <= j < ARRAY_SIZE && !on_path(
                        row as int,
                        column as int,
                        direction,
                        i as int,
                        j,
                    ) ==> self.grid()[j] == g0[j],
                self.moves_seq() == old(self).moves_seq(),
            decreases n - i,
        {
            let ch = word.get_char(i);
            self.set(r, c, Some(Letter::from_char(ch)));
            proof {
                assert(r as int * (BOARD_SIZE as int) + c as int == path_index(
                    row as int,
                    column as int,
                    direction,
                    i as int,
                ));
                assert forall|j: int|
                    0 <= j < ARRAY_SIZE && !on_path(
                        row as int,
                        column as int,
                        direction,
                        i + 1,
                        j,
                    ) implies self.grid()[j] == g0[j] by {
                    assert(!on_path(row as int, column as int, direction, i as int, j));
                    assert(path_index(row as int, column as int, direction, i as int) != j);
                }
                assert forall|k: int| 0 <= k < i + 1 implies self.grid()[#[trigger] path_index(
                    row as int,
                    column as int,
                    direction,
                    k,
                )] == Some(letter_from_char_spec(word@[k])) by {
                    if k < i {
                        assert(path_index(row as int, column as int, direction, k) != path_index(
                            row as int,
                            column as int,
                            direction,
                            i as int,
                        ));
                    }
                }
            }
            match direction {
                Direction::Down => {
                    r = r + 1;
                },
                Direction::Right => {
                    c = c + 1;
                },
            }
            i += 1;
        }
        let location = convert_to_index(r, c);
        let record = Move::new(location, direction, word);
        self.moves.push(record);
        proof {
            assert(final(self).moves_seq().subrange(0, old(self).moves_seq().len() as int)
                =~= old(self).moves_seq());
        }
    }

    /// The tiles of every occupied cell, in cell order.
    pub fn iter_letters(&self) -> (r: Vec<Letter>)
        requires
            self.wf(),
        ensures
            r@ == occupied_letters_upto(self.grid(), ARRAY_SIZE as int),
    {
        let mut out: Vec<Letter> = Vec::new();
        let mut i: usize = 0;
        while i < ARRAY_SIZE
            invariant
                self.wf(),
                i <= ARRAY_SIZE,
                out@ == occupied_letters_upto(self.grid(), i as int),
            decreases ARRAY_SIZE - i,
        {
            match self.inner[i] {
                Some(l) => out.push(l),
                None => {},
            }
            i += 1;
        }
        out
    }

    /// Every occupied cell as an `(index, tile)` pair: each returned pair
    /// reads the grid truly, every occupied cell appears, and the pairs
    /// come in strictly increasing index order.
    pub fn enumerate_letters(&self) -> (r: Vec<(usize, Letter)>)
        requires
            self.wf(),
        ensures
            forall|j: int|
                0 <= j < r@.len() ==> (#[trigger] r@[j]).0 < ARRAY_SIZE && self.grid()[r@[j].0
                    as int] == Some(r@[j].1),
            forall|k: int|
                0 <= k < ARRAY_SIZE && self.grid()[k] is Some ==> exists|j: int|
                    0 <= j < r@.len() && (#[trigger] r@[j]).0 == k,
            forall|j1: int, j2: int|
                0 <= j1 < j2 < r@.len() ==> (#[trigger] r@[j1]).0 < (#[trigger] r@[j2]).0,
    {
        let mut out: Vec<(usize, Letter)> = Vec::new();
        let mut i: usize = 0;
        while i < ARRAY_SIZE
            invariant
                self.wf(),
                i <= ARRAY_SIZE,
                forall|j: int|
                    0 <= j < out@.len() ==> (#[trigger] out@[j]).0 < i && self.grid()[out@[j].0
                        as int] == Some(out@[j].1),
                forall|k: int|
                    0 <= k < i && self.grid()[k] is Some ==> exists|j: int|
                        0 <= j < out@.len() && (#[trigger] out@[j]).0 == k,
                forall|j1: int, j2: int|
                    0 <= j1 < j2 < out@.len() ==> (#[trigger] out@[j1]).0 < (
                    #[trigger] out@[j2]).0,
            decreases ARRAY_SIZE - i,
        {
            let ghost prev = out@;
            match self.inner[i] {
                Some(l) => out.push((i, l)),
                None => {},
            }
            proof {
                assert forall|k: int| 0 <= k < i + 1 && self.grid()[k] is Some implies exists|j:
                    int| 0 <= j < out@.len() && (#[trigger] out@[j]).0 == k by {
                    if k < i {
                        let j0 = choose|j: int| 0 <= j < prev.len() && (#[trigger] prev[j]).0 == k;
                        assert(out@[j0].0 == k);
                    } else {
                        assert(out@[out@.len() - 1].0 == k);
                    }
                }
            }
            i += 1;
        }
        out
    }
}

} // verus!
