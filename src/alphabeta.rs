use vstd::prelude::*;

use crate::othello::{lemma_masks_disjoint, Othello};
use crate::types::{
    is_single, lemma_commute, lemma_popcount_max, lemma_take_within, lemma_within_trans, lowest_bit, popcount, BitBoard, BitBoardTrait, Color, Player,
};

verus! {

/// The four corners.
pub const CORNERS: u64 = 0x8100_0000_0000_0081;

/// The edge squares two steps from a corner.
pub const NEAR_CORNERS: u64 = 0x2400_8100_0081_0024;

/// The middle squares of the edges.
pub const MID_EDGES: u64 = 0x1800_0081_8100_0018;

/// The inner square of four by four.
pub const INNER_RING: u64 = 0x0000_3C3C_3C3C_0000;

/// The ring around the inner square.
pub const SECOND_RING: u64 = 0x003C_4242_4242_3C00;

/// The edge squares next to a corner.
pub const CORNER_EDGES: u64 = 0x4281_0000_0000_8142;

/// The squares diagonally next to a corner.
pub const X_SQUARES: u64 = 0x0042_0000_0000_4200;

/// Weight times the difference between Black's and White's disks on `zone`.
pub open spec fn zone_term(b: Othello, zone: u64, weight: int) -> int {
    weight * (popcount(b.black() & zone) - popcount(b.white() & zone))
}

/// The static value of a board, positive in Black's favour: a weighted count of the disks
/// on each zone and five points per move of mobility.
pub open spec fn evaluation(b: Othello) -> int {
    zone_term(b, CORNERS, 100) + zone_term(b, NEAR_CORNERS, 10) + zone_term(b, MID_EDGES, 5)
        + zone_term(b, INNER_RING, -1) + zone_term(b, SECOND_RING, -2) + zone_term(
        b,
        CORNER_EDGES,
        -20,
    ) + zone_term(b, X_SQUARES, -50) + 5 * (popcount(b.legal(Color::Black)) - popcount(
        b.legal(Color::White),
    ))
}

/// The value of a finished game: the largest value when Black has more disks, the smallest
/// when White has, zero on a draw.
pub open spec fn end_value(b: Othello) -> int {
    if popcount(b.black()) > popcount(b.white()) {
        i32::MAX as int
    } else if popcount(b.black()) < popcount(b.white()) {
        i32::MIN as int
    } else {
        0
    }
}

/// The value that `color` starts from before looking at any move: Black maximises and
/// White minimises.
pub open spec fn worst(color: Color) -> int {
    match color {
        Color::Black => i32::MIN as int,
        Color::White => i32::MAX as int,
    }
}

/// The better of two values for `color`.
pub open spec fn better(color: Color, x: int, y: int) -> int {
    match color {
        Color::Black => if x >= y {
            x
        } else {
            y
        },
        Color::White => if x <= y {
            x
        } else {
            y
        },
    }
}

/// The minimax value of the board with `color` to move and `depth` plies left. A side
/// without a move passes, which uses up a ply; when neither side can move the game is over.
pub open spec fn minimax(b: Othello, color: Color, depth: nat) -> int
    decreases depth, 0x1_0000_0000_0000_0000int,
{
    if depth == 0 {
        evaluation(b)
    } else if b.legal(color) != 0 {
        best_from(b, color, (depth - 1) as nat, worst(color), b.legal(color))
    } else if depth == 1 {
        evaluation(b)
    } else if b.legal(color.opponent()) == 0 {
        end_value(b)
    } else {
        best_from(
            b,
            color.opponent(),
            (depth - 2) as nat,
            worst(color.opponent()),
            b.legal(color.opponent()),
        )
    }
}

/// The best for `color` of `acc` and of the minimax values, with `d` plies left, of the
/// boards that the moves in `rem` lead to.
pub open spec fn best_from(b: Othello, color: Color, d: nat, acc: int, rem: u64) -> int
    decreases d + 1, rem,
{
    if rem == 0 {
        acc
    } else {
        proof {
            lemma_lowest_bit(rem);
        }
        let m = lowest_bit(rem);
        best_from(
            b,
            color,
            d,
            better(color, acc, minimax(b.after(color, m), color.opponent(), d)),
            rem ^ m,
        )
    }
}

/// The lowest set bit of a nonzero mask is one of its bits, and clearing it makes the mask
/// smaller.
pub proof fn lemma_lowest_bit(m: u64)
    requires
        m != 0,
    ensures
        is_single(lowest_bit(m)),
        lowest_bit(m) & m == lowest_bit(m),
        m ^ lowest_bit(m) < m,
        (m ^ lowest_bit(m)) & m == m ^ lowest_bit(m),
{
    let l = lowest_bit(m);
    assert(m != 0 ==> is_single(l) && l & m == l && (m ^ l) < m && (m ^ l) & m == (m ^ l))
        by (bit_vector)
        requires
            l == lowest_bit(m),
    ;
}

/// Returns the static value of the board.
pub fn evaluate(oth: Othello) -> (r: i32)
    ensures
        r == evaluation(oth),
{
    let black: u64 = oth.get_bitboard(Color::Black);
    let white: u64 = oth.get_bitboard(Color::White);
    let mut res: i32 = 0;
    res = res + 100 * ((black & CORNERS).pop_cnt() as i32 - (white & CORNERS).pop_cnt() as i32);
    res = res + 10 * ((black & NEAR_CORNERS).pop_cnt() as i32 - (white & NEAR_CORNERS).pop_cnt() as i32);
    res = res + 5 * ((black & MID_EDGES).pop_cnt() as i32 - (white & MID_EDGES).pop_cnt() as i32);
    res = res + -1 * ((black & INNER_RING).pop_cnt() as i32 - (white & INNER_RING).pop_cnt() as i32);
    res = res + -2 * ((black & SECOND_RING).pop_cnt() as i32 - (white & SECOND_RING).pop_cnt() as i32);
    res = res + -20 * ((black & CORNER_EDGES).pop_cnt() as i32 - (white & CORNER_EDGES).pop_cnt() as i32);
    res = res + -50 * ((black & X_SQUARES).pop_cnt() as i32 - (white & X_SQUARES).pop_cnt() as i32);
    let black_mobility: i32 = oth.gen_moves(Color::Black).pop_cnt() as i32;
    let white_mobility: i32 = oth.gen_moves(Color::White).pop_cnt() as i32;
    res = res + 5 * (black_mobility - white_mobility);
    res
}

/// Returns the value of a finished game.
pub fn evaluate_end(oth: Othello) -> (r: i32)
    ensures
        r == end_value(oth),
{
    let black_score = oth.get_bitboard(Color::Black).pop_cnt();
    let white_score = oth.get_bitboard(Color::White).pop_cnt();
    if black_score > white_score {
        i32::MAX
    } else if black_score < white_score {
        i32::MIN
    } else {
        0
    }
}

/// The static value of a board lies within the range of `i32`.
proof fn lemma_evaluation_range(b: Othello)
    ensures
        i32::MIN <= evaluation(b) <= i32::MAX,
{
    let (x, y) = (b.black(), b.white());
    lemma_popcount_max(x & CORNERS);
    lemma_popcount_max(y & CORNERS);
    lemma_popcount_max(x & NEAR_CORNERS);
    lemma_popcount_max(y & NEAR_CORNERS);
    lemma_popcount_max(x & MID_EDGES);
    lemma_popcount_max(y & MID_EDGES);
    lemma_popcount_max(x & INNER_RING);
    lemma_popcount_max(y & INNER_RING);
    lemma_popcount_max(x & SECOND_RING);
    lemma_popcount_max(y & SECOND_RING);
    lemma_popcount_max(x & CORNER_EDGES);
    lemma_popcount_max(y & CORNER_EDGES);
    lemma_popcount_max(x & X_SQUARES);
    lemma_popcount_max(y & X_SQUARES);
    lemma_popcount_max(b.legal(Color::Black));
    lemma_popcount_max(b.legal(Color::White));
}

/// Minimax values lie within the range of `i32`.
proof fn lemma_minimax_range(b: Othello, color: Color, depth: nat)
    ensures
        i32::MIN <= minimax(b, color, depth) <= i32::MAX,
    decreases depth, 0x1_0000_0000_0000_0000int,
{
    lemma_evaluation_range(b);
    if depth > 0 {
        if b.legal(color) != 0 {
            lemma_best_from_range(b, color, (depth - 1) as nat, worst(color), b.legal(color));
        } else if depth > 1 && b.legal(color.opponent()) != 0 {
            lemma_best_from_range(
                b,
                color.opponent(),
                (depth - 2) as nat,
                worst(color.opponent()),
                b.legal(color.opponent()),
            );
        }
    }
}

proof fn lemma_best_from_range(b: Othello, color: Color, d: nat, acc: int, rem: u64)
    requires
        i32::MIN <= acc <= i32::MAX,
    ensures
        i32::MIN <= best_from(b, color, d, acc, rem) <= i32::MAX,
    decreases d + 1, rem,
{
    if rem != 0 {
        lemma_lowest_bit(rem);
        let m = lowest_bit(rem);
        lemma_minimax_range(b.after(color, m), color.opponent(), d);
        lemma_best_from_range(
            b,
            color,
            d,
            better(color, acc, minimax(b.after(color, m), color.opponent(), d)),
            rem ^ m,
        );
    }
}

/// Folding more moves in never makes the value worse for `color`.
proof fn lemma_best_from_acc(b: Othello, color: Color, d: nat, acc: int, rem: u64)
    ensures
        better(color, acc, best_from(b, color, d, acc, rem)) == best_from(b, color, d, acc, rem),
    decreases rem,
{
    if rem != 0 {
        lemma_lowest_bit(rem);
        let m = lowest_bit(rem);
        lemma_best_from_acc(
            b,
            color,
            d,
            better(color, acc, minimax(b.after(color, m), color.opponent(), d)),
            rem ^ m,
        );
    }
}

/// The value that the alpha-beta search returns for the board with `color` to move,
/// `depth` plies left and the window `(alpha, beta)`. A side without a move passes to the
/// opponent on the same board, which uses up a ply; when neither side can move the game is
/// over.
pub open spec fn ab_search(b: Othello, alpha: int, beta: int, color: Color, depth: nat) -> int
    decreases depth, 0x1_0000_0000_0000_0000int,
{
    if depth == 0 {
        evaluation(b)
    } else if b.legal(color) != 0 {
        ab_fold(b, color, (depth - 1) as nat, alpha, beta, worst(color), b.legal(color))
    } else if depth == 1 {
        evaluation(b)
    } else if b.legal(color.opponent()) == 0 {
        end_value(b)
    } else {
        ab_search(b, alpha, beta, color.opponent(), (depth - 1) as nat)
    }
}

/// The search over the moves of `rem` in bit order, from the best value `value` so far and
/// the window `(alpha, beta)`: each answer is searched with the current window, folded into
/// the value, and tightens the window on the side of `color` (Black raises `alpha`, White
/// lowers `beta`); once `alpha >= beta` the remaining moves are cut off.
pub open spec fn ab_fold(
    b: Othello,
    color: Color,
    d: nat,
    alpha: int,
    beta: int,
    value: int,
    rem: u64,
) -> int
    decreases d + 1, rem,
{
    if rem == 0 || alpha >= beta {
        value
    } else {
        proof {
            lemma_lowest_bit(rem);
        }
        let m = lowest_bit(rem);
        let v = better(
            color,
            value,
            ab_search(b.after(color, m), alpha, beta, color.opponent(), d),
        );
        match color {
            Color::Black => ab_fold(b, color, d, better(color, alpha, v), beta, v, rem ^ m),
            Color::White => ab_fold(b, color, d, alpha, better(color, beta, v), v, rem ^ m),
        }
    }
}

/// Minimax search with alpha-beta pruning. It returns `ab_search`; within the window
/// `(alpha, beta)` that is the minimax value, at or below `alpha` it bounds the value from
/// above, at or above `beta` from below.
pub fn alphabeta(oth: Othello, alpha: i32, beta: i32, color: Color, depth: u8) -> (r: i32)
    requires
        oth.wf(),
        alpha < beta,
    ensures
        r == ab_search(oth, alpha as int, beta as int, color, depth as nat),
        depth == 0 ==> r == evaluation(oth),
        depth == 1 && oth.legal(color) == 0 ==> r == evaluation(oth),
        depth >= 2 && oth.legal(color) == 0 && oth.legal(color.opponent()) == 0 ==> r
            == end_value(oth),
        depth >= 1 && oth.legal(color) == 0 && oth.legal(color.opponent()) != 0 ==> r
            == ab_search(oth, alpha as int, beta as int, color.opponent(), (depth - 1) as nat),
        ({
            let v = minimax(oth, color, depth as nat);
            &&& alpha < r < beta ==> r == v
            &&& r <= alpha ==> v <= r
            &&& r >= beta ==> v >= r
        }),
    decreases depth,
{
    if depth == 0 {
        return evaluate(oth);
    }
    let ghost target = minimax(oth, color, depth as nat);
    let ghost exact = ab_search(oth, alpha as int, beta as int, color, depth as nat);
    let mut side: Color = color;
    let mut left: u8 = depth;
    let mut moves: u64 = oth.gen_moves(side);
    if moves == 0 {
        side = side.invert();
        left = left - 1;
        assert(exact == ab_search(oth, alpha as int, beta as int, side, left as nat) || left == 0
            || oth.legal(side) == 0);
        if left == 0 {
            return evaluate(oth);
        }
        moves = oth.gen_moves(side);
        if moves == 0 {
            return evaluate_end(oth);
        }
    }
    let new_color: Color = side.invert();
    let d: u8 = left - 1;
    assert(target == best_from(oth, side, d as nat, worst(side), moves));
    assert(exact == ab_fold(oth, side, d as nat, alpha as int, beta as int, worst(side), moves));
    let mut a: i32 = alpha;
    let mut bt: i32 = beta;
    let mut rem: u64 = moves;
    let mut value: i32;
    let ghost mut pv: int;
    proof {
        lemma_commute(moves, moves);
    }
    match side {
        Color::Black => {
            value = i32::MIN;
            proof {
                pv = i32::MIN as int;
            }
            while rem != 0 && a < bt
                invariant
                    oth.wf(),
                    d < depth,
                    side == Color::Black,
                    new_color == Color::White,
                    moves == oth.legal(side),
                    rem & moves == rem,
                    bt == beta,
                    alpha < beta,
                    a as int == better(Color::Black, alpha as int, value as int),
                    exact == ab_fold(oth, side, d as nat, a as int, bt as int, value as int, rem),
                    target == best_from(oth, side, d as nat, pv, rem),
                    i32::MIN <= pv,
                    value <= alpha ==> pv <= value,
                    alpha < value < beta ==> pv == value,
                    value >= beta ==> pv >= value,
                decreases rem,
            {
                let ghost old_rem = rem;
                let m: u64 = rem.pop_lsb();
                proof {
                    lemma_take_within(m, old_rem, rem, moves);
                }
                let child: Othello = oth.make_move(side, m);
                proof {
                    lemma_masks_disjoint(oth, side, m);
                }
                let r: i32 = alphabeta(child, a, bt, new_color, d);
                proof {
                    pv = better(Color::Black, pv, minimax(child, new_color, d as nat));
                }
                if r > value {
                    value = r;
                }
                if value > a {
                    a = value;
                }
            }
            proof {
                lemma_best_from_acc(oth, side, d as nat, pv, rem);
            }
        },
        Color::White => {
            value = i32::MAX;
            proof {
                pv = i32::MAX as int;
            }
            while rem != 0 && a < bt
                invariant
                    oth.wf(),
                    d < depth,
                    side == Color::White,
                    new_color == Color::Black,
                    moves == oth.legal(side),
                    rem & moves == rem,
                    a == alpha,
                    alpha < beta,
                    bt as int == better(Color::White, beta as int, value as int),
                    exact == ab_fold(oth, side, d as nat, a as int, bt as int, value as int, rem),
                    target == best_from(oth, side, d as nat, pv, rem),
                    pv <= i32::MAX,
                    value <= alpha ==> pv <= value,
                    alpha < value < beta ==> pv == value,
                    value >= beta ==> pv >= value,
                decreases rem,
            {
                let ghost old_rem = rem;
                let m: u64 = rem.pop_lsb();
                proof {
                    lemma_take_within(m, old_rem, rem, moves);
                }
                let child: Othello = oth.make_move(side, m);
                proof {
                    lemma_masks_disjoint(oth, side, m);
                }
                let r: i32 = alphabeta(child, a, bt, new_color, d);
                proof {
                    pv = better(Color::White, pv, minimax(child, new_color, d as nat));
                }
                if r < value {
                    value = r;
                }
                if value < bt {
                    bt = value;
                }
            }
            proof {
                lemma_best_from_acc(oth, side, d as nat, pv, rem);
            }
        },
    }
    value
}

/// The value of playing `mv` for `color`: the minimax value, `depth` plies deep, of the
/// board it leads to.
pub open spec fn move_score(b: Othello, color: Color, mv: u64, depth: nat) -> int {
    minimax(b.after(color, mv), color.opponent(), depth)
}

/// Whether `v` is strictly better than `w` for `color`.
pub open spec fn improves(color: Color, v: int, w: int) -> bool {
    match color {
        Color::Black => v > w,
        Color::White => v < w,
    }
}

/// The moves of `rem` in bit order, each with its value for `color`.
pub open spec fn scored(b: Othello, color: Color, rem: u64, depth: nat) -> Seq<(BitBoard, i32)>
    decreases rem,
{
    if rem == 0 {
        Seq::empty()
    } else {
        proof {
            lemma_lowest_bit(rem);
        }
        let m = lowest_bit(rem);
        seq![(m, move_score(b, color, m, depth) as i32)] + scored(b, color, rem ^ m, depth)
    }
}

/// Whether entry `i` of `results` is the first of those with the best value for `color`.
pub open spec fn is_first_best(results: Seq<(BitBoard, i32)>, color: Color, i: int) -> bool {
    &&& 0 <= i < results.len()
    &&& forall|j: int|
        0 <= j < results.len() ==> !improves(color, results[j].1 as int, results[i].1 as int)
    &&& forall|j: int| 0 <= j < i ==> improves(color, results[i].1 as int, results[j].1 as int)
}

/// The listed moves are single squares among `rem`, and there is one at least when `rem`
/// is not empty.
proof fn lemma_scored(b: Othello, color: Color, rem: u64, depth: nat)
    ensures
        rem != 0 <==> scored(b, color, rem, depth).len() > 0,
        forall|k: int|
            0 <= k < scored(b, color, rem, depth).len() ==> is_single(
                #[trigger] scored(b, color, rem, depth)[k].0,
            ) && scored(b, color, rem, depth)[k].0 & rem == scored(b, color, rem, depth)[k].0,
    decreases rem,
{
    if rem != 0 {
        lemma_lowest_bit(rem);
        let m = lowest_bit(rem);
        let rest = rem ^ m;
        lemma_scored(b, color, rest, depth);
        let s = scored(b, color, rem, depth);
        assert forall|k: int| 0 <= k < s.len() implies is_single(#[trigger] s[k].0) && s[k].0 & rem
            == s[k].0 by {
            if k > 0 {
                assert(s[k] == scored(b, color, rest, depth)[k - 1]);
                lemma_within_trans(s[k].0, rest, rem);
            }
        }
    }
}

/// Only one entry can be the first with the best value: a search's choice is fixed by the
/// board, the moves, the side and the depth, whatever order the values were computed in.
pub proof fn lemma_first_best_unique(results: Seq<(BitBoard, i32)>, color: Color, i: int, j: int)
    requires
        is_first_best(results, color, i),
        is_first_best(results, color, j),
    ensures
        i == j,
{
    if i < j {
        assert(improves(color, results[j].1 as int, results[i].1 as int));
    } else if j < i {
        assert(improves(color, results[i].1 as int, results[j].1 as int));
    }
}

/// A player that searches the game tree with alpha-beta pruning.
pub struct AlphaBetaPlayer {
    max_depth: u8,
}

impl AlphaBetaPlayer {
    /// How many plies the search looks beyond each candidate move.
    pub closed spec fn depth(self) -> u8 {
        self.max_depth
    }

    /// Creates a player that searches `max_depth` plies beyond each candidate move.
    pub fn new(max_depth: u8) -> (r: AlphaBetaPlayer)
        ensures
            r.depth() == max_depth,
    {
        AlphaBetaPlayer { max_depth }
    }

    /// Returns the move of `moves` that the search prefers for `color`: of the moves in bit
    /// order, the first with the best value.
    pub fn search(&self, oth: Othello, moves: BitBoard, color: Color) -> (r: BitBoard)
        requires
            oth.wf(),
            moves != 0,
            moves == oth.legal(color),
        ensures
            exists|i: int|
                is_first_best(#[trigger] scored(oth, color, moves, self.depth() as nat), color, i)
                    && r == scored(oth, color, moves, self.depth() as nat)[i].0,
            is_single(r),
            r & moves == r,
    {
        let ghost all = scored(oth, color, moves, self.depth() as nat);
        let mut results: Vec<(BitBoard, i32)> = Vec::new();
        let mut rem: u64 = moves;
        proof {
            lemma_commute(moves, moves);
            assert(results@ + all =~= all);
        }
        while rem != 0
            invariant
                oth.wf(),
                moves == oth.legal(color),
                rem & moves == rem,
                all == scored(oth, color, moves, self.depth() as nat),
                results@ + scored(oth, color, rem, self.depth() as nat) == all,
            decreases rem,
        {
            let ghost old_rem = rem;
            let ghost prev = results@;
            let m: u64 = rem.pop_lsb();
            proof {
                lemma_take_within(m, old_rem, rem, moves);
            }
            let v: i32 = move_value(oth, color, m, self.max_depth);
            results.push((m, v));
            proof {
                let rest = scored(oth, color, rem, self.depth() as nat);
                assert(scored(oth, color, old_rem, self.depth() as nat) == seq![(m, v)] + rest);
                assert(results@ + rest =~= prev + (seq![(m, v)] + rest));
            }
        }
        proof {
            assert(results@ =~= results@ + scored(oth, color, 0, self.depth() as nat));
            lemma_scored(oth, color, moves, self.depth() as nat);
        }
        let r = pick_best(&results, color);
        proof {
            let i = choose|i: int| #[trigger] is_first_best(results@, color, i) && r == results@[i].0;
            assert(all[i].0 == r);
        }
        r
    }
}

/// Returns the value of playing `mv` for `color`, searched `depth` plies deep with a full
/// window.
pub fn move_value(oth: Othello, color: Color, mv: BitBoard, depth: u8) -> (r: i32)
    requires
        oth.wf(),
        is_single(mv),
        mv & oth.legal(color) != 0,
    ensures
        r == move_score(oth, color, mv, depth as nat),
{
    let child = oth.make_move(color, mv);
    proof {
        lemma_masks_disjoint(oth, color, mv);
        lemma_minimax_range(child, color.opponent(), depth as nat);
    }
    alphabeta(child, i32::MIN, i32::MAX, color.invert(), depth)
}

/// Returns the move of the first entry of `results` whose value is the best for `color`.
pub fn pick_best(results: &Vec<(BitBoard, i32)>, color: Color) -> (r: BitBoard)
    requires
        results.len() > 0,
    ensures
        exists|i: int| #[trigger] is_first_best(results@, color, i) && r == results@[i].0,
{
    let mut bi: usize = 0;
    let mut k: usize = 1;
    while k < results.len()
        invariant
            0 < k <= results.len(),
            bi < k,
            forall|j: int| 0 <= j < k ==> !improves(color, results@[j].1 as int, results@[bi as int].1 as int),
            forall|j: int| 0 <= j < bi ==> improves(color, results@[bi as int].1 as int, results@[j].1 as int),
        decreases results.len() - k,
    {
        let v: i32 = results[k].1;
        let w: i32 = results[bi].1;
        let better: bool = match color {
            Color::Black => v > w,
            Color::White => v < w,
        };
        if better {
            bi = k;
        }
        k = k + 1;
    }
    assert(is_first_best(results@, color, bi as int));
    results[bi].0
}

impl Player for AlphaBetaPlayer {
    /// The first move in bit order with the best value for `color`.
    open spec fn chooses(&self, oth: Othello, moves: BitBoard, color: Color, r: BitBoard) -> bool {
        exists|i: int|
            is_first_best(#[trigger] scored(oth, color, moves, self.depth() as nat), color, i)
                && r == scored(oth, color, moves, self.depth() as nat)[i].0
    }

    fn chose_move(&self, oth: Othello, moves: BitBoard, color: Color) -> (r: BitBoard) {
        self.search(oth, moves, color)
    }
}

/// Two searching players of the same depth choose the same move for the same board, moves
/// and side.
pub proof fn lemma_same_choice(
    p: AlphaBetaPlayer,
    q: AlphaBetaPlayer,
    oth: Othello,
    moves: BitBoard,
    color: Color,
    r: BitBoard,
    s: BitBoard,
)
    requires
        p.depth() == q.depth(),
        p.chooses(oth, moves, color, r),
        q.chooses(oth, moves, color, s),
    ensures
        r == s,
{
    let all = scored(oth, color, moves, p.depth() as nat);
    let i = choose|i: int| is_first_best(#[trigger] scored(oth, color, moves, p.depth() as nat), color, i)
        && r == all[i].0;
    let j = choose|j: int| is_first_best(#[trigger] scored(oth, color, moves, q.depth() as nat), color, j)
        && s == all[j].0;
    lemma_first_best_unique(all, color, i, j);
}

/// When neither side can move, a search of two plies or more values the board by its disk
/// counts alone: the largest value when Black has more disks, the smallest when White has,
/// zero on a draw.
pub proof fn lemma_terminal_value(b: Othello, color: Color, depth: nat)
    requires
        b.legal(Color::Black) == 0,
        b.legal(Color::White) == 0,
        depth >= 2,
    ensures
        minimax(b, color, depth) == end_value(b),
        popcount(b.black()) > popcount(b.white()) ==> minimax(b, color, depth) == i32::MAX,
        popcount(b.black()) < popcount(b.white()) ==> minimax(b, color, depth) == i32::MIN,
        popcount(b.black()) == popcount(b.white()) ==> minimax(b, color, depth) == 0,
{
}

} // verus!
