//! The move engine: the rack matcher, the placement verifier, the
//! scorer, and the generator that ranks every legal placement.

use vstd::multiset::Multiset;
use vstd::prelude::*;
use vstd::string::StringSliceAdditionalSpecFns;

use crate::board::{step_int, step_size, Board, Direction, Move, MoveView, ARRAY_SIZE};
use crate::letter::{
    letter_from_u8_spec, letter_multiplier, letter_multiplier_spec, letter_score_spec,
    word_multiplier, word_multiplier_spec, Letter, BLANK_SYMBOL,
};

verus! {

broadcast use {
    vstd::seq_lib::group_to_multiset_ensures,
    vstd::multiset::group_multiset_axioms,
    vstd::multiset::group_multiset_properties,
};

/// The byte sequence of a word, as the matcher consumes it.
pub open spec fn word_bytes(w: Seq<char>) -> Seq<u8> {
    vstd::utf8::encode_utf8(w)
}

/// How many wildcard (blank) tiles a rack holds.
pub open spec fn rack_blanks(rack: Seq<u8>) -> nat {
    rack.to_multiset().count(BLANK_SYMBOL)
}

/// The multiset of a rack's letter tiles, wildcards set aside.
pub open spec fn rack_tiles(rack: Seq<u8>) -> Multiset<u8> {
    rack.to_multiset().update(BLANK_SYMBOL, 0)
}

/// Greedy tile consumption: each word letter takes an exactly matching
/// tile when one remains, a wildcard only as last resort, and the word
/// forms only if every letter is satisfied.
pub open spec fn can_form_from(tiles: Multiset<u8>, blanks: nat, word: Seq<u8>) -> bool
    decreases word.len(),
{
    if word.len() == 0 {
        true
    } else if tiles.count(word[0]) > 0 {
        can_form_from(tiles.remove(word[0]), blanks, word.drop_first())
    } else if blanks > 0 {
        can_form_from(tiles, (blanks - 1) as nat, word.drop_first())
    } else {
        false
    }
}

/// Whether a rack (letter tiles plus wildcards) can spell a word.
pub open spec fn can_form(rack: Seq<u8>, word: Seq<u8>) -> bool {
    can_form_from(rack_tiles(rack), rack_blanks(rack), word)
}

proof fn lemma_can_form_from_counts(tiles: Multiset<u8>, blanks: nat, word: Seq<u8>)
    ensures
        can_form_from(tiles, blanks, word) <==> word.to_multiset().difference_with(tiles).len()
            <= blanks,
    decreases word.len(),
{
    if word.len() == 0 {
        assert(word.to_multiset() =~= Multiset::<u8>::empty());
        assert(word.to_multiset().difference_with(tiles) =~= Multiset::<u8>::empty()) by {
            assert forall|x: u8|
                word.to_multiset().difference_with(tiles).count(x) == 0 by {
                vstd::multiset::lemma_difference_count(word.to_multiset(), tiles, x);
            }
        }
    } else {
        let c = word[0];
        let rest = word.drop_first();
        assert(word =~= rest.insert(0, c));
        assert(word.to_multiset() =~= rest.insert(0, c).to_multiset());
        assert(word.to_multiset() =~= rest.to_multiset().insert(c));
        if tiles.count(c) > 0 {
            lemma_can_form_from_counts(tiles.remove(c), blanks, rest);
            assert(word.to_multiset().difference_with(tiles) =~= rest.to_multiset()
                .difference_with(tiles.remove(c))) by {
                assert forall|x: u8|
                    word.to_multiset().difference_with(tiles).count(x) == rest.to_multiset()
                        .difference_with(tiles.remove(c)).count(x) by {
                    vstd::multiset::lemma_difference_count(word.to_multiset(), tiles, x);
                    vstd::multiset::lemma_difference_count(
                        rest.to_multiset(),
                        tiles.remove(c),
                        x,
                    );
                }
            }
        } else if blanks > 0 {
            lemma_can_form_from_counts(tiles, (blanks - 1) as nat, rest);
            assert(word.to_multiset().difference_with(tiles) =~= rest.to_multiset()
                .difference_with(tiles).insert(c)) by {
                assert forall|x: u8|
                    word.to_multiset().difference_with(tiles).count(x) == rest.to_multiset()
                        .difference_with(tiles).insert(c).count(x) by {
                    vstd::multiset::lemma_difference_count(word.to_multiset(), tiles, x);
                    vstd::multiset::lemma_difference_count(rest.to_multiset(), tiles, x);
                }
            }
        } else {
            vstd::multiset::lemma_difference_count(word.to_multiset(), tiles, c);
            assert(word.to_multiset().difference_with(tiles).count(c) >= 1);
        }
    }
}

/// A rack spells a word exactly when the word's tile multiset, less the
/// rack's letter tiles, leaves no more uncovered tiles than the rack has
/// wildcards: wildcards stand in only for letters the rack cannot cover.
pub proof fn lemma_can_form_characterization(rack: Seq<u8>, word: Seq<u8>)
    ensures
        can_form(rack, word) <==> word.to_multiset().difference_with(rack_tiles(rack)).len()
            <= rack_blanks(rack),
{
    lemma_can_form_from_counts(rack_tiles(rack), rack_blanks(rack), word);
}

/// Whether the rack can spell the word. The rack is read through a
/// shared borrow and never changed; the result is a function of the
/// rack and word values alone.
pub fn can_create_word(rack: &[u8], word: &str) -> (r: bool)
    ensures
        r == can_form(rack@, word_bytes(word@)),
{
    let bytes: &[u8] = word.as_bytes();
    let ghost wb = word_bytes(word@);
    proof {
        assert(bytes@ == wb);
    }

    let mut tiles: Vec<u8> = Vec::new();
    let mut blanks: usize = 0;
    let mut k: usize = 0;
    while k < rack.len()
        invariant
            k <= rack@.len(),
            blanks <= k,
            tiles@.to_multiset() == rack_tiles(rack@.take(k as int)),
            blanks == rack_blanks(rack@.take(k as int)),
        decreases rack@.len() - k,
    {
        let ghost prefix = rack@.take(k as int);
        let b = rack[k];
        proof {
            assert(rack@.take(k + 1) =~= prefix.push(b));
        }
        if b == BLANK_SYMBOL {
            blanks = blanks + 1;
            proof {
                assert(rack_tiles(rack@.take(k + 1)) =~= tiles@.to_multiset());
            }
        } else {
            tiles.push(b);
            proof {
                assert(rack_tiles(rack@.take(k + 1)) =~= tiles@.to_multiset());
                assert(rack_blanks(rack@.take(k + 1)) == blanks);
            }
        }
        k += 1;
    }
    proof {
        assert(rack@.take(rack@.len() as int) =~= rack@);
        assert(wb.skip(0) =~= wb);
    }

    let mut j: usize = 0;
    while j < bytes.len()
        invariant
            j <= bytes@.len(),
            bytes@ == wb,
            wb == word_bytes(word@),
            can_form(rack@, wb) == can_form_from(
                tiles@.to_multiset(),
                blanks as nat,
                wb.skip(j as int),
            ),
        decreases bytes@.len() - j,
    {
        let c = bytes[j];
        let ghost wrem = wb.skip(j as int);
        proof {
            assert(wrem[0] == c);
            assert(wrem.drop_first() =~= wb.skip(j + 1));
        }
        let mut t: usize = 0;
        while t < tiles.len() && tiles[t] != c
            invariant
                t <= tiles@.len(),
                forall|u: int| 0 <= u < t ==> tiles@[u] != c,
            decreases tiles@.len() - t,
        {
            t += 1;
        }
        if t < tiles.len() {
            let ghost before = tiles@;
            tiles.remove(t);
            proof {
                assert(before[t as int] == c);
                assert(before.to_multiset().count(c) > 0);
                assert(tiles@.to_multiset() == before.to_multiset().remove(c));
            }
        } else {
            proof {
                assert(!tiles@.contains(c));
                assert(tiles@.to_multiset().count(c) == 0);
            }
            if blanks > 0 {
                blanks = blanks - 1;
            } else {
                proof {
                    assert(wrem.len() > 0);
                    assert(!can_form_from(tiles@.to_multiset(), blanks as nat, wrem));
                    assert(can_form_from(tiles@.to_multiset(), blanks as nat, wb.skip(j as int))
                        == can_form_from(tiles@.to_multiset(), blanks as nat, wrem));
                    assert(!can_form(rack@, wb));
                }
                return false;
            }
        }
        j += 1;
    }
    proof {
        assert(wb.skip(wb.len() as int) =~= Seq::<u8>::empty());
    }
    true
}

/// The subsequence of the dictionary that a rack can spell, in
/// dictionary order.
pub open spec fn createable_from(rack: Seq<u8>, words: Seq<String>) -> Seq<String>
    decreases words.len(),
{
    if words.len() == 0 {
        Seq::empty()
    } else {
        let rest = createable_from(rack, words.drop_last());
        if can_form(rack, word_bytes(words.last()@)) {
            rest.push(words.last())
        } else {
            rest
        }
    }
}

/// Every dictionary word the rack can spell, in dictionary order: each
/// returned word is one of the dictionary's words, each can be formed
/// from the rack, and every formable dictionary word is returned.
pub fn get_createable_words(rack: &[u8], words: &Vec<String>) -> (r: Vec<String>)
    ensures
        r@ == createable_from(rack@, words@),
        forall|k: int| 0 <= k < r@.len() ==> words@.contains(#[trigger] r@[k]),
        forall|k: int| 0 <= k < r@.len() ==> can_form(rack@, word_bytes((#[trigger] r@[k])@)),
        forall|wi: int|
            0 <= wi < words@.len() && can_form(rack@, word_bytes((#[trigger] words@[wi])@))
                ==> r@.contains(words@[wi]),
{
    let mut r: Vec<String> = Vec::new();
    let mut wi: usize = 0;
    while wi < words.len()
        invariant
            wi <= words@.len(),
            r@ == createable_from(rack@, words@.take(wi as int)),
            forall|k: int| 0 <= k < r@.len() ==> words@.contains(#[trigger] r@[k]),
            forall|k: int| 0 <= k < r@.len() ==> can_form(rack@, word_bytes((#[trigger] r@[k])@)),
            forall|w: int|
                0 <= w < wi && can_form(rack@, word_bytes((#[trigger] words@[w])@))
                    ==> r@.contains(words@[w]),
        decreases words@.len() - wi,
    {
        let w = &words[wi];
        let ghost prev = r@;
        if can_create_word(rack, w.as_str()) {
            r.push(w.clone());
        }
        proof {
            assert(words@.take(wi + 1).drop_last() =~= words@.take(wi as int));
            assert(words@.take(wi + 1).last() == words@[wi as int]);
            assert forall|k: int| 0 <= k < r@.len() implies words@.contains(
                #[trigger] r@[k]) by {
                if k < prev.len() {
                    assert(r@[k] == prev[k]);
                } else {
                    assert(r@[k] == words@[wi as int]);
                }
            }
            assert forall|q: int|
                0 <= q < wi + 1 && can_form(rack@, word_bytes((#[trigger] words@[q])@))
                implies r@.contains(words@[q]) by {
                if q < wi {
                    let k0 = choose|k0: int| 0 <= k0 < prev.len() && prev[k0] == words@[q];
                    assert(r@[k0] == words@[q]);
                } else {
                    assert(r@[r@.len() - 1] == words@[q]);
                }
            }
        }
        wi += 1;
    }
    proof {
        assert(words@.take(words@.len() as int) =~= words@);
    }
    r
}

/// The linear index of the `i`-th cell of a word laid from `start`
/// along `d`.
pub open spec fn cell_pos(start: int, d: Direction, i: int) -> int {
    start + i * step_int(d)
}

/// The point value one word byte contributes before any multiplier.
pub open spec fn letter_value(b: u8) -> nat {
    letter_score_spec(letter_from_u8_spec(b)) as nat
}

/// The sum of letter values times per-cell letter multipliers along a
/// word laid from `pos` in steps of `step`.
pub open spec fn word_letter_sum(w: Seq<u8>, pos: int, step: int) -> nat
    decreases w.len(),
{
    if w.len() == 0 {
        0
    } else {
        letter_value(w[0]) * letter_multiplier_spec(pos) + word_letter_sum(
            w.drop_first(),
            pos + step,
            step,
        )
    }
}

/// The product of the per-cell word multipliers along the same walk.
pub open spec fn word_mult_product(w: Seq<u8>, pos: int, step: int) -> nat
    decreases w.len(),
{
    if w.len() == 0 {
        1
    } else {
        word_multiplier_spec(pos) * word_mult_product(w.drop_first(), pos + step, step)
    }
}

/// The score of a word placed at a linear index along a direction: the
/// multiplied letter sum times the accumulated word multiplier. A pure
/// function of the placement and the static tables alone.
pub open spec fn word_score_spec(w: Seq<u8>, pos: int, d: Direction) -> nat {
    word_letter_sum(w, pos, step_int(d)) * word_mult_product(w, pos, step_int(d))
}

/// Scores a word placed at `location` along `direction`. Every cell the
/// word covers must be a board position; scoring reads only the static
/// multiplier tables, never the live board.
pub fn get_word_score(word: &str, location: usize, direction: Direction) -> (r: usize)
    requires
        forall|i: int|
            0 <= i < word_bytes(word@).len() ==> #[trigger] cell_pos(
                location as int,
                direction,
                i,
            ) < ARRAY_SIZE,
    ensures
        r == word_score_spec(word_bytes(word@), location as int, direction),
{
    let bytes: &[u8] = word.as_bytes();
    let ghost wb = word_bytes(word@);
    let step = step_size(direction);
    let mut sum: usize = 0;
    let mut wmul: usize = 1;
    let mut pos: usize = location;
    let mut i: usize = 0;
    proof {
        assert(wb.skip(0) =~= wb);
    }
    while i < bytes.len()
        invariant
            i <= wb.len(),
            bytes@ == wb,
            wb == word_bytes(word@),
            step == step_int(direction),
            pos == location + i * step,
            forall|q: int|
                0 <= q < wb.len() ==> #[trigger] cell_pos(location as int, direction, q)
                    < ARRAY_SIZE,
            sum <= 10 * i,
            i <= ARRAY_SIZE,
            wmul == 1,
            sum + word_letter_sum(wb.skip(i as int), pos as int, step as int) == word_letter_sum(
                wb,
                location as int,
                step as int,
            ),
            wmul * word_mult_product(wb.skip(i as int), pos as int, step as int)
                == word_mult_product(wb, location as int, step as int),
        decreases wb.len() - i,
    {
        proof {
            assert(cell_pos(location as int, direction, i as int) < ARRAY_SIZE);
            let pp = i as int;
            let st = step_int(direction);
            assert(pp * st >= pp) by (nonlinear_arith)
                requires
                    st >= 1,
                    pp >= 0,
            ;
            assert(wb.skip(i as int)[0] == wb[i as int]);
            assert(wb.skip(i as int).drop_first() =~= wb.skip(i + 1));
        }
        let lv = Letter::from_u8(bytes[i]).score();
        let lm = letter_multiplier(pos);
        let wm = word_multiplier(pos);
        sum = sum + (lv as usize) * lm;
        wmul = wmul * wm;
        proof {
            let ii = i as int;
            let st = step as int;
            assert((ii + 1) * st == ii * st + st) by (nonlinear_arith);
        }
        pos = pos + step;
        i += 1;
    }
    proof {
        assert(wb.skip(wb.len() as int) =~= Seq::<u8>::empty());
    }
    sum * wmul
}

/// Whether a cell of a placement keeps the word on the starting row
/// (`Right`) or column (`Down`): walking off the edge of the board must
/// be rejected, never wrapped to the next line.
pub open spec fn line_consistent(start: int, pos: int, d: Direction) -> bool {
    match d {
        Direction::Right => pos / (crate::board::BOARD_SIZE as int) == start / (
        crate::board::BOARD_SIZE as int),
        Direction::Down => pos % (crate::board::BOARD_SIZE as int) == start % (
        crate::board::BOARD_SIZE as int),
    }
}

/// Whether the `i`-th cell of a word placed at `start` along `d` is
/// acceptable: on the board, on the starting line, and either empty or
/// already holding exactly the word's letter there.
pub open spec fn placement_cell_ok(
    g: Seq<Option<Letter>>,
    start: int,
    d: Direction,
    w: Seq<u8>,
    i: int,
) -> bool {
    let pos = start + i * step_int(d);
    &&& 0 <= pos < ARRAY_SIZE
    &&& line_consistent(start, pos, d)
    &&& (g[pos] is None || g[pos] == Some(letter_from_u8_spec(w[i])))
}

/// Whether a whole word placed at `start` along `d` is acceptable.
pub open spec fn placement_valid(
    g: Seq<Option<Letter>>,
    start: int,
    d: Direction,
    w: Seq<u8>,
) -> bool {
    forall|i: int| 0 <= i < w.len() ==> placement_cell_ok(g, start, d, w, i)
}

/// Whether laying the word so that its `p`-th letter sits on the
/// occupied anchor cell `loc` yields a legal placement along `d`.
pub open spec fn anchored_at(
    g: Seq<Option<Letter>>,
    loc: int,
    w: Seq<u8>,
    p: int,
    d: Direction,
) -> bool {
    &&& 0 <= p < w.len()
    &&& g[loc] == Some(letter_from_u8_spec(w[p]))
    &&& loc - p * step_int(d) >= 0
    &&& placement_valid(g, loc - p * step_int(d), d, w)
}

/// Whether a move record describes some legal anchored placement of the
/// word through `loc` along its own direction.
pub open spec fn sound_entry(g: Seq<Option<Letter>>, loc: int, w: Seq<u8>, mv: MoveView) -> bool {
    exists|p: int|
        #[trigger] anchored_at(g, loc, w, p, mv.direction) && mv.location == loc - p * step_int(
            mv.direction,
        )
}

/// Checks one candidate start cell: whether the whole word fits there.
fn check_placement(board: &Board, start: usize, word: &str, direction: Direction) -> (r: bool)
    requires
        board.wf(),
        start < ARRAY_SIZE,
    ensures
        r == placement_valid(board.grid(), start as int, direction, word_bytes(word@)),
{
    let ghost g = board.grid();
    let ghost wb = word_bytes(word@);
    let bytes: &[u8] = word.as_bytes();
    let step = step_size(direction);
    let mut i: usize = 0;
    let mut pos: usize = start;
    while i < bytes.len()
        invariant
            board.wf(),
            g == board.grid(),
            wb == word_bytes(word@),
            bytes@ == wb,
            step == step_int(direction),
            start < ARRAY_SIZE,
            i <= wb.len(),
            pos == start + i * step,
            pos <= ARRAY_SIZE + step,
            forall|q: int| 0 <= q < i ==> placement_cell_ok(g, start as int, direction, wb, q),
        decreases wb.len() - i,
    {
        if pos >= ARRAY_SIZE {
            proof {
                assert(!placement_cell_ok(g, start as int, direction, wb, i as int));
            }
            return false;
        }
        let ok_line = match direction {
            Direction::Right => pos / crate::board::BOARD_SIZE == start
                / crate::board::BOARD_SIZE,
            Direction::Down => pos % crate::board::BOARD_SIZE == start
                % crate::board::BOARD_SIZE,
        };
        if !ok_line {
            proof {
                assert(!placement_cell_ok(g, start as int, direction, wb, i as int));
            }
            return false;
        }
        match board.get_index(pos) {
            Some(l) => {
                if !(l == Letter::from_u8(bytes[i])) {
                    proof {
                        assert(g[pos as int] is Some);
                        assert(g[pos as int] != Some(letter_from_u8_spec(wb[i as int])));
                        assert(!placement_cell_ok(g, start as int, direction, wb, i as int));
                    }
                    return false;
                }
            },
            None => {},
        }
        proof {
            assert(placement_cell_ok(g, start as int, direction, wb, i as int));
            let ii = i as int;
            let st = step as int;
            assert((ii + 1) * st == ii * st + st) by (nonlinear_arith);
        }
        i += 1;
        pos = pos + step;
    }
    true
}

/// All legal placements of the word through the anchor along one
/// direction.
fn verify_move_dir(board: &Board, location: usize, word: &str, direction: Direction) -> (r: Vec<
    Move,
>)
    requires
        board.wf(),
        location < ARRAY_SIZE,
        board.grid()[location as int] is Some,
    ensures
        forall|j: int|
            0 <= j < r@.len() ==> (#[trigger] r@[j])@.word == word@ && r@[j]@.direction
                == direction,
        forall|j: int|
            0 <= j < r@.len() ==> sound_entry(
                board.grid(),
                location as int,
                word_bytes(word@),
                (#[trigger] r@[j])@,
            ),
        forall|p: int|
            anchored_at(board.grid(), location as int, word_bytes(word@), p, direction)
                ==> exists|j: int|
                0 <= j < r@.len() && (#[trigger] r@[j])@.location == location - p * step_int(
                    direction,
                ),
{
    let ghost g = board.grid();
    let ghost wb = word_bytes(word@);
    let bytes: &[u8] = word.as_bytes();
    let anchor = board.get_index(location).unwrap();
    let step = step_size(direction);
    let mut out: Vec<Move> = Vec::new();
    let mut p: usize = 0;
    while p < bytes.len()
        invariant
            board.wf(),
            g == board.grid(),
            wb == word_bytes(word@),
            bytes@ == wb,
            location < ARRAY_SIZE,
            g[location as int] == Some(anchor),
            step == step_int(direction),
            p <= wb.len(),
            forall|j: int|
                0 <= j < out@.len() ==> (#[trigger] out@[j])@.word == word@
                    && out@[j]@.direction == direction,
            forall|j: int|
                0 <= j < out@.len() ==> sound_entry(
                    g,
                    location as int,
                    wb,
                    (#[trigger] out@[j])@,
                ),
            forall|q: int|
                0 <= q < p && anchored_at(g, location as int, wb, q, direction) ==> exists|j:
                    int|
                    0 <= j < out@.len() && (#[trigger] out@[j])@.location == location - q
                        * step_int(direction),
        decreases wb.len() - p,
    {
        let ghost prev = out@;
        let c = bytes[p];
        if Letter::from_u8(c) == anchor {
            proof {
                let pp = p as int;
                let st = step_int(direction);
                assert(st <= crate::board::BOARD_SIZE);
                assert(pp * st >= pp) by (nonlinear_arith)
                    requires
                        st >= 1,
                        pp >= 0,
                ;
            }
            let mut start_ok = false;
            let mut start: usize = 0;
            if p <= location {
                proof {
                    let pp = p as int;
                    let st = step as int;
                    assert(pp * st <= 440 * 21) by (nonlinear_arith)
                        requires
                            0 <= pp <= 440,
                            0 <= st <= 21,
                    ;
                }
                if p * step <= location {
                    start = location - p * step;
                    start_ok = true;
                }
            }
            if start_ok {
                let good = check_placement(board, start, word, direction);
                if good {
                    out.push(Move::new(start, direction, word));
                    proof {
                        assert(anchored_at(g, location as int, wb, p as int, direction));
                        assert(out@[out@.len() - 1]@.location == location - p as int * step_int(
                            direction,
                        ));
                        assert(sound_entry(g, location as int, wb, out@[out@.len() - 1]@));
                    }
                } else {
                    proof {
                        assert(!anchored_at(g, location as int, wb, p as int, direction));
                    }
                }
            } else {
                proof {
                    assert(location as int - p as int * step_int(direction) < 0);
                    assert(!anchored_at(g, location as int, wb, p as int, direction));
                }
            }
        } else {
            proof {
                assert(letter_from_u8_spec(wb[p as int]) != anchor);
                assert(!anchored_at(g, location as int, wb, p as int, direction));
            }
        }
        proof {
            assert forall|q: int|
                0 <= q < p + 1 && anchored_at(g, location as int, wb, q, direction)
                implies exists|j: int|
                0 <= j < out@.len() && (#[trigger] out@[j])@.location == location - q * step_int(
                    direction,
                ) by {
                if q < p {
                    let j0 = choose|j0: int|
                        0 <= j0 < prev.len() && (#[trigger] prev[j0])@.location == location - q
                            * step_int(direction);
                    assert(out@[j0]@.location == location - q * step_int(direction));
                } else {
                    assert(out@[out@.len() - 1]@.location == location - q * step_int(direction));
                }
            }
        }
        p += 1;
    }
    out
}

/// Every way the word can be legally laid through the occupied anchor
/// cell, in both directions: each returned move is a legal anchored
/// placement carrying this word, and every legal anchored placement is
/// returned. The two directions are judged independently. A placement
/// is rejected when the word's start would fall before the board's
/// first cell (the backward shift is checked, never wrapped), when any
/// cell leaves the board or crosses off the starting row or column, or
/// when it contradicts a letter already on the board; matching overlaps
/// of existing letters are accepted, even with no empty cell used.
pub fn verify_move(board: &Board, location: usize, word: &str) -> (r: Vec<Move>)
    requires
        board.wf(),
        location < ARRAY_SIZE,
        board.grid()[location as int] is Some,
    ensures
        forall|j: int| 0 <= j < r@.len() ==> (#[trigger] r@[j])@.word == word@,
        forall|j: int|
            0 <= j < r@.len() ==> sound_entry(
                board.grid(),
                location as int,
                word_bytes(word@),
                (#[trigger] r@[j])@,
            ),
        forall|p: int, d: Direction|
            anchored_at(board.grid(), location as int, word_bytes(word@), p, d) ==> exists|j:
                int|
                0 <= j < r@.len() && (#[trigger] r@[j])@.direction == d && r@[j]@.location
                    == location - p * step_int(d),
{
    let ghost g = board.grid();
    let ghost wb = word_bytes(word@);
    let mut r = verify_move_dir(board, location, word, Direction::Down);
    let mut rr = verify_move_dir(board, location, word, Direction::Right);
    let ghost down = r@;
    let ghost right = rr@;
    r.append(&mut rr);
    proof {
        assert(r@ == down + right);
        assert forall|p: int, d: Direction|
            anchored_at(g, location as int, wb, p, d) implies exists|j: int|
            0 <= j < r@.len() && (#[trigger] r@[j])@.direction == d && r@[j]@.location == location
                - p * step_int(d) by {
            if d == Direction::Down {
                let j0 = choose|j0: int|
                    0 <= j0 < down.len() && (#[trigger] down[j0])@.location == location - p
                        * step_int(Direction::Down);
                assert(r@[j0]@.direction == d);
                assert(r@[j0]@.location == location - p * step_int(d));
            } else {
                let j0 = choose|j0: int|
                    0 <= j0 < right.len() && (#[trigger] right[j0])@.location == location - p
                        * step_int(Direction::Right);
                assert(r@[down.len() + j0]@.direction == d);
                assert(r@[down.len() + j0]@.location == location - p * step_int(d));
            }
        }
    }
    r
}

/// A placement the verifier accepts is safe to overlay: every cell it
/// covers is a board position, and wherever the board already holds a
/// tile, that tile is exactly the word's letter there.
pub proof fn lemma_verified_placement_safe(
    g: Seq<Option<Letter>>,
    loc: int,
    w: Seq<u8>,
    mv: MoveView,
)
    requires
        sound_entry(g, loc, w, mv),
    ensures
        forall|i: int|
            0 <= i < w.len() ==> {
                let pos = #[trigger] cell_pos(mv.location, mv.direction, i);
                &&& 0 <= pos < ARRAY_SIZE
                &&& (g[pos] is Some ==> g[pos] == Some(letter_from_u8_spec(w[i])))
            },
{
    let p0 = choose|p0: int|
        #[trigger] anchored_at(g, loc, w, p0, mv.direction) && mv.location == loc - p0 * step_int(
            mv.direction,
        );
    assert forall|i: int| 0 <= i < w.len() implies {
        let pos = #[trigger] cell_pos(mv.location, mv.direction, i);
        &&& 0 <= pos < ARRAY_SIZE
        &&& (g[pos] is Some ==> g[pos] == Some(letter_from_u8_spec(w[i])))
    } by {
        assert(placement_cell_ok(g, mv.location, mv.direction, w, i));
    }
}

/// A placement the verifier accepts is direction-consistent: every cell
/// of a `Right` placement shares the starting cell's row, and every
/// cell of a `Down` placement shares the starting cell's column.
pub proof fn lemma_verified_placement_direction(
    g: Seq<Option<Letter>>,
    loc: int,
    w: Seq<u8>,
    mv: MoveView,
)
    requires
        sound_entry(g, loc, w, mv),
    ensures
        forall|i: int|
            0 <= i < w.len() ==> line_consistent(
                mv.location,
                #[trigger] cell_pos(mv.location, mv.direction, i),
                mv.direction,
            ),
{
    let p0 = choose|p0: int|
        #[trigger] anchored_at(g, loc, w, p0, mv.direction) && mv.location == loc - p0 * step_int(
            mv.direction,
        );
    assert forall|i: int| 0 <= i < w.len() implies line_consistent(
        mv.location,
        #[trigger] cell_pos(mv.location, mv.direction, i),
        mv.direction,
    ) by {
        assert(placement_cell_ok(g, mv.location, mv.direction, w, i));
    }
}

/// Whether a scored entry is a true candidate for this board, rack and
/// dictionary: some occupied anchor cell and some dictionary word the
/// extended rack can spell yield exactly this placement, and the score
/// is that placement's score.
pub open spec fn candidate_entry(
    g: Seq<Option<Letter>>,
    rack: Seq<u8>,
    dict: Seq<String>,
    e: (usize, Move),
) -> bool {
    exists|a: int, wi: int|
        {
            &&& 0 <= a < g.len()
            &&& (#[trigger] g[a]) is Some
            &&& 0 <= wi < dict.len()
            &&& e.1@.word == (#[trigger] dict[wi])@
            &&& can_form(rack.push(g[a]->0.sym()), word_bytes(dict[wi]@))
            &&& sound_entry(g, a, word_bytes(dict[wi]@), e.1@)
            &&& e.0 == word_score_spec(word_bytes(dict[wi]@), e.1@.location, e.1@.direction)
        }
}

/// Sorts the scored entries by score, highest first, keeping exactly
/// the same entries.
fn sort_moves_desc(v: &mut Vec<(usize, Move)>)
    ensures
        final(v)@.len() == old(v)@.len(),
        final(v)@.to_multiset() == old(v)@.to_multiset(),
        forall|j1: int, j2: int|
            0 <= j1 <= j2 < final(v)@.len() ==> (#[trigger] final(v)@[j1]).0 >= (
            #[trigger] final(v)@[j2]).0,
{
    if v.len() == 0 {
        return ;
    }
    let mut i: usize = 1;
    while i < v.len()
        invariant
            1 <= i <= v@.len(),
            v@.len() == old(v)@.len(),
            v@.to_multiset() == old(v)@.to_multiset(),
            forall|j1: int, j2: int|
                0 <= j1 <= j2 < i ==> (#[trigger] v@[j1]).0 >= (#[trigger] v@[j2]).0,
        decreases v@.len() - i,
    {
        let ghost before = v@;
        let x = v.remove(i);
        let ghost mid = v@;
        let mut j: usize = 0;
        while j < i && v[j].0 >= x.0
            invariant
                j <= i,
                i < before.len(),
                v@ == mid,
                mid == before.remove(i as int),
                forall|u: int| 0 <= u < j ==> (#[trigger] mid[u]).0 >= x.0,
            decreases i - j,
        {
            j += 1;
        }
        v.insert(j, x);
        proof {
            assert(v@ == mid.insert(j as int, x));
            assert(v@.to_multiset() == before.to_multiset());
            assert forall|j1: int, j2: int| 0 <= j1 <= j2 < i + 1 implies (#[trigger] v@[j1]).0
                >= (#[trigger] v@[j2]).0 by {
                assert(forall|u: int| 0 <= u < j ==> v@[u] == mid[u]);
                assert(forall|u: int| j < u < i + 1 ==> v@[u] == mid[u - 1]);
                assert(v@[j as int] == x);
                if j < i {
                    assert(mid[j as int].0 < x.0);
                }
            }
        }
        i += 1;
    }
}

/// Whether a scored entry records exactly this word, start and
/// direction, with that placement's score.
pub open spec fn entry_for(e: (usize, Move), w: Seq<char>, start: int, d: Direction) -> bool {
    &&& e.1@.word == w
    &&& e.1@.direction == d
    &&& e.1@.location == start
    &&& e.0 == word_score_spec(word_bytes(w), start, d)
}

/// Whether the list holds an entry for this word, start and direction.
pub open spec fn contains_entry(
    s: Seq<(usize, Move)>,
    w: Seq<char>,
    start: int,
    d: Direction,
) -> bool {
    exists|j: int| 0 <= j < s.len() && entry_for(#[trigger] s[j], w, start, d)
}

proof fn lemma_contains_entry_push(
    s: Seq<(usize, Move)>,
    e: (usize, Move),
    w: Seq<char>,
    start: int,
    d: Direction,
)
    requires
        contains_entry(s, w, start, d),
    ensures
        contains_entry(s.push(e), w, start, d),
{
    let j0 = choose|j0: int| 0 <= j0 < s.len() && entry_for(#[trigger] s[j0], w, start, d);
    assert(entry_for(s.push(e)[j0], w, start, d));
}

proof fn lemma_contains_entry_perm(
    s1: Seq<(usize, Move)>,
    s2: Seq<(usize, Move)>,
    w: Seq<char>,
    start: int,
    d: Direction,
)
    requires
        s1.to_multiset() == s2.to_multiset(),
        contains_entry(s1, w, start, d),
    ensures
        contains_entry(s2, w, start, d),
{
    let j0 = choose|j0: int| 0 <= j0 < s1.len() && entry_for(#[trigger] s1[j0], w, start, d);
    assert(s1.contains(s1[j0]));
    assert(s1.to_multiset().count(s1[j0]) > 0);
    assert(s2.contains(s1[j0]));
    let j1 = choose|j1: int| 0 <= j1 < s2.len() && #[trigger] s2[j1] == s1[j0];
    assert(entry_for(s2[j1], w, start, d));
}

/// Every ranked candidate move: for each occupied anchor cell, every
/// placement of every dictionary word that the rack extended with the
/// anchor's tile can spell, scored and sorted by score descending.
/// Sound and complete: each entry is such a placement with its true
/// score, and each such placement has an entry. On a board with no
/// occupied cell, or with an empty dictionary, the list is empty.
pub fn best_moves(board: &Board, letters: &[u8], words: &Vec<String>) -> (r: Vec<(usize, Move)>)
    requires
        board.wf(),
    ensures
        forall|j1: int, j2: int|
            0 <= j1 <= j2 < r@.len() ==> (#[trigger] r@[j1]).0 >= (#[trigger] r@[j2]).0,
        forall|j: int|
            0 <= j < r@.len() ==> candidate_entry(board.grid(), letters@, words@, #[trigger] r@[j]),
        forall|a: int, wi: int, p: int, d: Direction|
            {
                &&& 0 <= a < ARRAY_SIZE
                &&& board.grid()[a] is Some
                &&& 0 <= wi < words@.len()
                &&& can_form(
                    letters@.push(board.grid()[a]->0.sym()),
                    word_bytes(words@[wi]@),
                )
                &&& #[trigger] anchored_at(board.grid(), a, word_bytes(words@[wi]@), p, d)
            } ==> contains_entry(r@, words@[wi]@, a - p * step_int(d), d),
        (forall|a: int| 0 <= a < ARRAY_SIZE ==> board.grid()[a] is None) ==> r@.len() == 0,
        words@.len() == 0 ==> r@.len() == 0,
{
    let ghost g = board.grid();
    let occupied = board.enumerate_letters();
    let ghost occ = occupied@;
    let mut acc: Vec<(usize, Move)> = Vec::new();
    let mut k: usize = 0;
    while k < occupied.len()
        invariant
            board.wf(),
            g == board.grid(),
            occ == occupied@,
            k <= occ.len(),
            forall|j: int|
                0 <= j < occ.len() ==> (#[trigger] occ[j]).0 < ARRAY_SIZE && g[occ[j].0 as int]
                    == Some(occ[j].1),
            forall|k2: int|
                0 <= k2 < ARRAY_SIZE && g[k2] is Some ==> exists|j: int|
                    0 <= j < occ.len() && (#[trigger] occ[j]).0 == k2,
            forall|j: int|
                0 <= j < acc@.len() ==> candidate_entry(g, letters@, words@, #[trigger] acc@[j]),
            forall|a: int, wi: int, p: int, d: Direction|
                {
                    &&& (exists|jj: int| 0 <= jj < k && (#[trigger] occ[jj]).0 == a)
                    &&& 0 <= wi < words@.len()
                    &&& can_form(letters@.push(g[a]->0.sym()), word_bytes(words@[wi]@))
                    &&& #[trigger] anchored_at(g, a, word_bytes(words@[wi]@), p, d)
                } ==> contains_entry(acc@, words@[wi]@, a - p * step_int(d), d),
        decreases occ.len() - k,
    {
        let pair = occupied[k];
        let location = pair.0;
        let letter = pair.1;
        let mut rack2 = vstd::slice::slice_to_vec(letters);
        rack2.push(letter.to_u8());
        let cands = get_createable_words(rack2.as_slice(), words);
        let ghost cs = cands@;
        let mut c: usize = 0;
        while c < cands.len()
            invariant
                board.wf(),
                g == board.grid(),
                occ == occupied@,
                k < occ.len(),
                location == occ[k as int].0,
                cs == cands@,
                c <= cs.len(),
                location < ARRAY_SIZE,
                g[location as int] == Some(letter),
                rack2@ == letters@.push(letter.sym()),
                forall|q: int| 0 <= q < cs.len() ==> words@.contains(#[trigger] cs[q]),
                forall|q: int|
                    0 <= q < cs.len() ==> can_form(rack2@, word_bytes((#[trigger] cs[q])@)),
                forall|wi: int|
                    0 <= wi < words@.len() && can_form(
                        rack2@,
                        word_bytes((#[trigger] words@[wi])@),
                    ) ==> cs.contains(words@[wi]),
                forall|j: int|
                    0 <= j < acc@.len() ==> candidate_entry(
                        g,
                        letters@,
                        words@,
                        #[trigger] acc@[j],
                    ),
                forall|a: int, wi: int, p: int, d: Direction|
                    {
                        &&& (exists|jj: int| 0 <= jj < k && (#[trigger] occ[jj]).0 == a)
                        &&& 0 <= wi < words@.len()
                        &&& can_form(letters@.push(g[a]->0.sym()), word_bytes(words@[wi]@))
                        &&& #[trigger] anchored_at(g, a, word_bytes(words@[wi]@), p, d)
                    } ==> contains_entry(acc@, words@[wi]@, a - p * step_int(d), d),
                forall|c0: int, p: int, d: Direction|
                    0 <= c0 < c && #[trigger] anchored_at(
                        g,
                        location as int,
                        word_bytes(cs[c0]@),
                        p,
                        d,
                    ) ==> contains_entry(acc@, cs[c0]@, location - p * step_int(d), d),
            decreases cs.len() - c,
        {
            let w = &cands[c];
            let ghost wseq = w@;
            let mut mvs = verify_move(board, location, w.as_str());
            let ghost mvsv = mvs@;
            proof {
                assert(mvsv.subrange(0, mvsv.len() as int) =~= mvsv);
            }
            while mvs.len() > 0
                invariant
                    board.wf(),
                    g == board.grid(),
                    occ == occupied@,
                    k < occ.len(),
                    location == occ[k as int].0,
                    location < ARRAY_SIZE,
                    g[location as int] == Some(letter),
                    rack2@ == letters@.push(letter.sym()),
                    0 <= c < cs.len(),
                    cs == cands@,
                    w == cs[c as int],
                    wseq == cs[c as int]@,
                    words@.contains(cs[c as int]),
                    can_form(rack2@, word_bytes(wseq)),
                    mvs@.len() <= mvsv.len(),
                    mvs@ == mvsv.subrange(0, mvs@.len() as int),
                    forall|j: int| 0 <= j < mvsv.len() ==> (#[trigger] mvsv[j])@.word == wseq,
                    forall|j: int|
                        0 <= j < mvsv.len() ==> sound_entry(
                            g,
                            location as int,
                            word_bytes(wseq),
                            (#[trigger] mvsv[j])@,
                        ),
                    forall|p: int, d: Direction|
                        #[trigger] anchored_at(g, location as int, word_bytes(wseq), p, d)
                            ==> exists|jm: int|
                            0 <= jm < mvsv.len() && (#[trigger] mvsv[jm])@.direction == d
                                && mvsv[jm]@.location == location - p * step_int(d),
                    forall|j: int|
                        0 <= j < acc@.len() ==> candidate_entry(
                            g,
                            letters@,
                            words@,
                            #[trigger] acc@[j],
                        ),
                    forall|jm: int|
                        mvs@.len() <= jm < mvsv.len() ==> contains_entry(
                            acc@,
                            wseq,
                            (#[trigger] mvsv[jm])@.location,
                            mvsv[jm]@.direction,
                        ),
                    forall|a: int, wi: int, p: int, d: Direction|
                        {
                            &&& (exists|jj: int| 0 <= jj < k && (#[trigger] occ[jj]).0 == a)
                            &&& 0 <= wi < words@.len()
                            &&& can_form(letters@.push(g[a]->0.sym()), word_bytes(words@[wi]@))
                            &&& #[trigger] anchored_at(g, a, word_bytes(words@[wi]@), p, d)
                        } ==> contains_entry(acc@, words@[wi]@, a - p * step_int(d), d),
                    forall|c0: int, p: int, d: Direction|
                        0 <= c0 < c && #[trigger] anchored_at(
                            g,
                            location as int,
                            word_bytes(cs[c0]@),
                            p,
                            d,
                        ) ==> contains_entry(acc@, cs[c0]@, location - p * step_int(d), d),
                decreases mvs@.len(),
            {
                let ghost nlen = mvs@.len() - 1;
                let mv = mvs.pop().unwrap();
                proof {
                    assert(mv == mvsv[nlen]);
                    assert(mvs@ =~= mvsv.subrange(0, nlen));
                    let p0 = choose|p0: int|
                        #[trigger] anchored_at(
                            g,
                            location as int,
                            word_bytes(wseq),
                            p0,
                            mv@.direction,
                        ) && mv@.location == location as int - p0 * step_int(mv@.direction);
                    assert forall|q: int| 0 <= q < word_bytes(wseq).len() implies #[trigger]
                        cell_pos(mv.location as int, mv.direction, q) < ARRAY_SIZE by {
                        assert(placement_cell_ok(
                            g,
                            mv@.location,
                            mv@.direction,
                            word_bytes(wseq),
                            q,
                        ));
                    }
                }
                let s = get_word_score(w.as_str(), mv.location, mv.direction);
                let ghost prev = acc@;
                let ghost entry = (s, mv);
                acc.push((s, mv));
                proof {
                    let wi = choose|wi: int|
                        0 <= wi < words@.len() && #[trigger] words@[wi] == cs[c as int];
                    assert(words@[wi]@ == wseq);
                    assert(g[location as int]->0 == letter);
                    assert(candidate_entry(g, letters@, words@, acc@[acc@.len() - 1]));
                    assert(forall|j: int| 0 <= j < prev.len() ==> acc@[j] == prev[j]);
                    assert(acc@ == prev.push(entry));
                    assert(entry_for(acc@[acc@.len() - 1], wseq, mv@.location, mv@.direction));
                    assert forall|jm: int| mvs@.len() <= jm < mvsv.len() implies contains_entry(
                        acc@,
                        wseq,
                        (#[trigger] mvsv[jm])@.location,
                        mvsv[jm]@.direction,
                    ) by {
                        if jm == nlen {
                            assert(entry_for(
                                acc@[acc@.len() - 1],
                                wseq,
                                mvsv[jm]@.location,
                                mvsv[jm]@.direction,
                            ));
                        } else {
                            lemma_contains_entry_push(
                                prev,
                                entry,
                                wseq,
                                mvsv[jm]@.location,
                                mvsv[jm]@.direction,
                            );
                        }
                    }
                    assert forall|a: int, wi2: int, p: int, d: Direction|
                        {
                            &&& (exists|jj: int| 0 <= jj < k && (#[trigger] occ[jj]).0 == a)
                            &&& 0 <= wi2 < words@.len()
                            &&& can_form(letters@.push(g[a]->0.sym()), word_bytes(words@[wi2]@))
                            &&& #[trigger] anchored_at(g, a, word_bytes(words@[wi2]@), p, d)
                        } implies contains_entry(acc@, words@[wi2]@, a - p * step_int(d), d) by {
                        lemma_contains_entry_push(
                            prev,
                            entry,
                            words@[wi2]@,
                            a - p * step_int(d),
                            d,
                        );
                    }
                    assert forall|c0: int, p: int, d: Direction|
                        0 <= c0 < c && #[trigger] anchored_at(
                            g,
                            location as int,
                            word_bytes(cs[c0]@),
                            p,
                            d,
                        ) implies contains_entry(acc@, cs[c0]@, location - p * step_int(d), d) by {
                        lemma_contains_entry_push(prev, entry, cs[c0]@, location - p * step_int(d), d);
                    }
                }
            }
            proof {
                assert forall|c0: int, p: int, d: Direction|
                    0 <= c0 < c + 1 && #[trigger] anchored_at(
                        g,
                        location as int,
                        word_bytes(cs[c0]@),
                        p,
                        d,
                    ) implies contains_entry(acc@, cs[c0]@, location - p * step_int(d), d) by {
                    if c0 == c {
                        let jm = choose|jm: int|
                            0 <= jm < mvsv.len() && (#[trigger] mvsv[jm])@.direction == d
                                && mvsv[jm]@.location == location - p * step_int(d);
                        assert(contains_entry(
                            acc@,
                            wseq,
                            mvsv[jm]@.location,
                            mvsv[jm]@.direction,
                        ));
                    }
                }
            }
            c += 1;
        }
        proof {
            assert forall|a: int, wi: int, p: int, d: Direction|
                {
                    &&& (exists|jj: int| 0 <= jj < k + 1 && (#[trigger] occ[jj]).0 == a)
                    &&& 0 <= wi < words@.len()
                    &&& can_form(letters@.push(g[a]->0.sym()), word_bytes(words@[wi]@))
                    &&& #[trigger] anchored_at(g, a, word_bytes(words@[wi]@), p, d)
                } implies contains_entry(acc@, words@[wi]@, a - p * step_int(d), d) by {
                let jj = choose|jj: int| 0 <= jj < k + 1 && (#[trigger] occ[jj]).0 == a;
                if jj < k {
                    assert(exists|jj2: int| 0 <= jj2 < k && (#[trigger] occ[jj2]).0 == a);
                } else {
                    assert(a == location);
                    assert(g[a]->0 == letter);
                    assert(can_form(rack2@, word_bytes(words@[wi]@)));
                    assert(cs.contains(words@[wi]));
                    let c0 = choose|c0: int| 0 <= c0 < cs.len() && #[trigger] cs[c0] == words@[wi];
                    assert(cs[c0]@ == words@[wi]@);
                    assert(anchored_at(g, location as int, word_bytes(cs[c0]@), p, d));
                    assert(contains_entry(acc@, cs[c0]@, location - p * step_int(d), d));
                }
            }
        }
        k += 1;
    }
    let ghost pre = acc@;
    sort_moves_desc(&mut acc);
    proof {
        assert forall|j: int| 0 <= j < acc@.len() implies candidate_entry(
            g,
            letters@,
            words@,
            #[trigger] acc@[j],
        ) by {
            assert(acc@.contains(acc@[j]));
            assert(acc@.to_multiset().count(acc@[j]) > 0);
            assert(pre.to_multiset().count(acc@[j]) > 0);
            assert(pre.contains(acc@[j]));
            let j0 = choose|j0: int| 0 <= j0 < pre.len() && #[trigger] pre[j0] == acc@[j];
            assert(candidate_entry(g, letters@, words@, pre[j0]));
        }
        assert forall|a: int, wi: int, p: int, d: Direction|
            {
                &&& 0 <= a < ARRAY_SIZE
                &&& g[a] is Some
                &&& 0 <= wi < words@.len()
                &&& can_form(letters@.push(g[a]->0.sym()), word_bytes(words@[wi]@))
                &&& #[trigger] anchored_at(g, a, word_bytes(words@[wi]@), p, d)
            } implies contains_entry(acc@, words@[wi]@, a - p * step_int(d), d) by {
            let jj = choose|jj: int| 0 <= jj < occ.len() && (#[trigger] occ[jj]).0 == a;
            assert(contains_entry(pre, words@[wi]@, a - p * step_int(d), d));
            lemma_contains_entry_perm(pre, acc@, words@[wi]@, a - p * step_int(d), d);
        }
        if forall|a: int| 0 <= a < ARRAY_SIZE ==> g[a] is None {
            if acc@.len() > 0 {
                assert(candidate_entry(g, letters@, words@, acc@[0]));
                let (a, wi) = choose|a: int, wi: int|
                    0 <= a < g.len() && (#[trigger] g[a]) is Some && 0 <= wi < words@.len()
                        && acc@[0].1@.word == (#[trigger] words@[wi])@;
                assert(false);
            }
        }
        if words@.len() == 0 {
            if acc@.len() > 0 {
                assert(candidate_entry(g, letters@, words@, acc@[0]));
                let (a, wi) = choose|a: int, wi: int|
                    0 <= a < g.len() && (#[trigger] g[a]) is Some && 0 <= wi < words@.len()
                        && acc@[0].1@.word == (#[trigger] words@[wi])@;
                assert(false);
            }
        }
    }
    acc
}

} // verus!
