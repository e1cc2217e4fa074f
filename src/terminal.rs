use vstd::prelude::*;

use crate::othello::{
    lemma_masks_disjoint, lemma_masks_disjoint_start, lemma_move_counts, lemma_move_fills,
    lemma_start_count, Othello,
};
use crate::types::{is_single, popcount, BitBoard, Color, Player, Score};

verus! {

/// Who plays when it is `color`'s turn: `color` when it has a legal move, else the
/// opponent, `color` passing.
pub open spec fn mover(b: Othello, color: Color) -> Color {
    if b.legal(color) != 0 {
        color
    } else {
        color.opponent()
    }
}

/// The board that the plays of `ms`, each a color and its move, lead to from the board that
/// starts a game, Black's turn first, with the color whose turn comes next; nothing when a
/// play is not by the side whose turn it is or is not a legal move.
pub open spec fn replay(ms: Seq<(Color, u64)>) -> Option<(Othello, Color)>
    decreases ms.len(),
{
    if ms.len() == 0 {
        Some((Othello::initial(), Color::Black))
    } else {
        match replay(ms.drop_last()) {
            Some((b, turn)) => {
                let (c, m) = ms.last();
                if c == mover(b, turn) && b.wf() && is_single(m) && m & b.legal(c) != 0 {
                    Some((b.after(c, m), c.opponent()))
                } else {
                    None
                }
            },
            None => None,
        }
    }
}

/// Whether neither side has a legal move: the game is over.
pub open spec fn is_over(b: Othello) -> bool {
    b.legal(Color::Black) == 0 && b.legal(Color::White) == 0
}

/// The empty squares, as the integer value of their mask: it shrinks with every move.
spec fn empties(b: Othello) -> int {
    (!(b.black() | b.white())) as int
}

/// Returns who moves next when it is `color`'s turn: `color` if it has a legal move, else
/// the opponent if the opponent has one (the board stays as it is), else nobody, as the
/// game is over.
pub fn side_to_move(oth: &Othello, color: Color) -> (r: Option<Color>)
    ensures
        oth.legal(color) != 0 ==> r == Some(color),
        oth.legal(color) == 0 && oth.legal(color.opponent()) != 0 ==> r == Some(
            color.opponent(),
        ),
        oth.legal(color) == 0 && oth.legal(color.opponent()) == 0 ==> r is None,
        r is None <==> is_over(*oth),
{
    if oth.gen_moves(color) != 0 {
        Some(color)
    } else {
        let other = color.invert();
        if oth.gen_moves(other) != 0 {
            Some(other)
        } else {
            None
        }
    }
}

/// Whether each play of `ms` is what the player of its color chooses when handed the board
/// reached so far and the legal moves of its color.
pub open spec fn played_by<B: Player, W: Player>(black: &B, white: &W, ms: Seq<(Color, u64)>) -> bool {
    forall|k: int|
        0 <= k < ms.len() ==> match #[trigger] replay(ms.take(k)) {
            Some((b, _)) => match ms[k].0 {
                Color::Black => black.chooses(b, b.legal(Color::Black), Color::Black, ms[k].1),
                Color::White => white.chooses(b, b.legal(Color::White), Color::White, ms[k].1),
            },
            None => false,
        }
}

/// Plays a whole game between two players from the starting board, Black first, and
/// returns the final score: each player is handed the board and the legal moves of its
/// color when it is its turn, a side without a move passes, and the game ends when neither
/// side can move. Each move adds one disk to the four of the start.
pub fn no_screen_play<B: Player, W: Player>(black: &B, white: &W) -> (r: Score)
    ensures
        exists|ms: Seq<(Color, u64)>|
            #![trigger replay(ms)]
            replay(ms) matches Some((b, _)) && is_over(b) && played_by(black, white, ms)
                && r.black() as nat == popcount(b.black()) && r.white() as nat == popcount(
                b.white(),
            ) && r.black() + r.white() == 4 + ms.len(),
{
    let mut oth: Othello = Othello::new();
    let mut color: Color = Color::Black;
    let mut done: bool = false;
    let ghost mut ms: Seq<(Color, u64)> = Seq::empty();
    proof {
        lemma_masks_disjoint_start();
        lemma_start_count();
    }
    while !done
        invariant
            oth.wf(),
            replay(ms) == Some((oth, color)),
            played_by(black, white, ms),
            popcount(oth.black()) + popcount(oth.white()) == 4 + ms.len(),
            done ==> is_over(oth),
        decreases 2 * empties(oth) + if done {
            0int
        } else {
            1int
        },
    {
        match side_to_move(&oth, color) {
            None => {
                done = true;
            },
            Some(side) => {
                let moves = oth.gen_moves(side);
                let mv = match side {
                    Color::Black => black.chose_move(oth, moves, Color::Black),
                    Color::White => white.chose_move(oth, moves, Color::White),
                };
                proof {
                    assert(mv & moves != 0);
                    lemma_masks_disjoint(oth, side, mv);
                    lemma_move_fills(oth, side, mv);
                    lemma_move_counts(oth, side, mv);
                    let u = oth.black() | oth.white();
                    let e = !u;
                    let e2 = !(u | mv);
                    assert(mv & u == 0 && mv != 0 ==> e2 < e) by (bit_vector)
                        requires
                            e == !u,
                            e2 == !(u | mv),
                    ;
                }
                let ghost prev = ms;
                oth = oth.make_move(side, mv);
                color = side.invert();
                proof {
                    ms = ms.push((side, mv));
                    assert(ms.drop_last() =~= prev);
                    assert(ms.take(prev.len() as int) =~= prev);
                    assert forall|k: int| 0 <= k < prev.len() implies ms.take(k) == prev.take(k) by {
                        assert(ms.take(k) =~= prev.take(k));
                    }
                    assert(played_by(black, white, ms)) by {
                        assert forall|k: int| 0 <= k < ms.len() implies match #[trigger] replay(
                            ms.take(k),
                        ) {
                            Some((b, _)) => match ms[k].0 {
                                Color::Black => black.chooses(
                                    b,
                                    b.legal(Color::Black),
                                    Color::Black,
                                    ms[k].1,
                                ),
                                Color::White => white.chooses(
                                    b,
                                    b.legal(Color::White),
                                    Color::White,
                                    ms[k].1,
                                ),
                            },
                            None => false,
                        } by {
                            if k < prev.len() {
                                assert(ms[k] == prev[k]);
                                assert(ms.take(k) == prev.take(k));
                            } else {
                                assert(ms.take(k) == prev);
                            }
                        }
                    }
                }
            },
        }
    }
    let r = oth.score();
    assert(replay(ms) matches Some((b, _)) && is_over(b) && played_by(black, white, ms)
        && r.black() as nat == popcount(b.black()) && r.white() as nat == popcount(b.white())
        && r.black() + r.white() == 4 + ms.len());
    r
}

/// Returns the winner of a finished game by its score: the player with more disks, or
/// nobody on a draw.
pub fn winner(score: &Score) -> (r: Option<Color>)
    ensures
        score.black() > score.white() ==> r == Some(Color::Black),
        score.black() < score.white() ==> r == Some(Color::White),
        score.black() == score.white() ==> r is None,
{
    let b = score.get(Color::Black);
    let w = score.get(Color::White);
    if b > w {
        Some(Color::Black)
    } else if b < w {
        Some(Color::White)
    } else {
        None
    }
}

/// The square that a two-byte designator names: a column letter from `a` to `h`, then a row
/// digit from `1` to `8`.
pub open spec fn designated(text: Seq<u8>) -> Option<u64> {
    if text.len() == 2 && 97 <= text[0] <= 104 && 49 <= text[1] <= 56 {
        Some(1u64 << ((text[0] - 97) + 8 * (text[1] - 49)) as u64)
    } else {
        None
    }
}

/// Reads a square designator such as `e6`, and returns the square as a one-bit mask.
pub fn parse_square(text: &[u8]) -> (r: Option<u64>)
    ensures
        r == designated(text@),
        r matches Some(m) ==> is_single(m),
{
    if text.len() != 2 {
        return None;
    }
    let c: u8 = text[0];
    let row: u8 = text[1];
    if c < 97 || c > 104 || row < 49 || row > 56 {
        return None;
    }
    let i: u64 = ((c - 97) + 8 * (row - 49)) as u64;
    let m: u64 = 1u64 << i;
    assert(is_single(m)) by (bit_vector)
        requires
            i < 64,
            m == 1u64 << i,
    ;
    Some(m)
}

/// A human player at a terminal: what it types is read elsewhere and checked here.
pub struct TerminalPlayer;

impl TerminalPlayer {
    /// Returns the move that `text` designates when it is one of `moves`, and nothing
    /// otherwise, so that the player is asked again.
    pub fn pick(&self, text: &[u8], moves: BitBoard) -> (r: Option<BitBoard>)
        ensures
            r matches Some(m) ==> designated(text@) == Some(m) && is_single(m) && m & moves == m,
            r is None ==> (designated(text@) matches Some(m) ==> m & moves == 0),
    {
        match parse_square(text) {
            Some(m) => {
                if m & moves != 0 {
                    assert(m & moves == m) by (bit_vector)
                        requires
                            is_single(m),
                            m & moves != 0,
                    ;
                    Some(m)
                } else {
                    None
                }
            },
            None => None,
        }
    }
}

} // verus!
