use vstd::prelude::*;

use crate::types::{
    has_bit, is_single, lemma_commute, lemma_popcount_single, lemma_popcount_subset, lemma_popcount_union,
    popcount, BitBoard, BitBoardTrait, Color, Score, Square,
};

verus! {

/// Every square but those of the leftmost column.
pub const NOT_FIRST_COLUMN: u64 = 0xFEFE_FEFE_FEFE_FEFE;

/// Every square but those of the rightmost column.
pub const NOT_LAST_COLUMN: u64 = 0x7F7F_7F7F_7F7F_7F7F;

/// Every square.
pub const ALL_SQUARES: u64 = 0xFFFF_FFFF_FFFF_FFFF;

/// Moves every disk of `x` one square along a direction, given as the squares that may move
/// (those that would leave the board are masked out first), the bit distance and whether
/// the bits go up or down.
pub open spec fn step(x: u64, m: u64, a: u64, l: bool) -> u64 {
    if l {
        (x & m) << a
    } else {
        (x & m) >> a
    }
}

/// `n` steps along a direction.
pub open spec fn reach(x: u64, m: u64, a: u64, l: bool, n: nat) -> u64
    decreases n,
{
    if n == 0 {
        x
    } else {
        step(reach(x, m, a, l, (n - 1) as nat), m, a, l)
    }
}

/// The squares whose `k` nearest squares behind them, against the direction, all hold a disk
/// of `opp`.
pub open spec fn opp_line(opp: u64, m: u64, a: u64, l: bool, k: nat) -> u64
    decreases k,
{
    if k == 0 {
        ALL_SQUARES
    } else {
        opp_line(opp, m, a, l, (k - 1) as nat) & reach(opp, m, a, l, k)
    }
}

/// The squares behind which, against the direction, stand exactly `k` disks of `opp` and
/// then a disk of `own`.
pub open spec fn flanked(own: u64, opp: u64, m: u64, a: u64, l: bool, k: nat) -> u64 {
    opp_line(opp, m, a, l, k) & reach(own, m, a, l, k + 1)
}

/// The squares flanking, along one direction, a line of one to `n` disks of `opp` closed
/// by a disk of `own`.
pub open spec fn flanked_upto(own: u64, opp: u64, m: u64, a: u64, l: bool, n: nat) -> u64
    decreases n,
{
    if n == 0 {
        0
    } else {
        flanked_upto(own, opp, m, a, l, (n - 1) as nat) | flanked(own, opp, m, a, l, n)
    }
}

/// The squares that a sweep of `n` steps finds: `opp` disks joined to `src` by a line of
/// `opp` disks along the direction.
pub open spec fn sweep(src: u64, opp: u64, m: u64, a: u64, l: bool, n: nat) -> u64
    decreases n,
{
    if n <= 1 {
        opp & step(src, m, a, l)
    } else {
        let t = sweep(src, opp, m, a, l, (n - 1) as nat);
        t | (opp & step(t, m, a, l))
    }
}

/// The squares `1` to `k` steps away from `mv` along the direction.
pub open spec fn ray(mv: u64, m: u64, a: u64, l: bool, k: nat) -> u64
    decreases k,
{
    if k == 0 {
        0
    } else {
        ray(mv, m, a, l, (k - 1) as nat) | reach(mv, m, a, l, k)
    }
}

/// Whether each of the squares `1` to `k` steps away from `mv` holds a disk of `opp`.
pub open spec fn opp_run(opp: u64, mv: u64, m: u64, a: u64, l: bool, k: nat) -> bool
    decreases k,
{
    k == 0 || (opp_run(opp, mv, m, a, l, (k - 1) as nat) && reach(mv, m, a, l, k) & opp != 0)
}

/// The disks of `opp` that a disk put on `mv` captures along the direction: a line of
/// `opp` disks running from `mv` and closed by a disk of `own`.
pub open spec fn captured_upto(own: u64, opp: u64, mv: u64, m: u64, a: u64, l: bool, n: nat) -> u64
    decreases n,
{
    if n == 0 {
        0
    } else {
        captured_upto(own, opp, mv, m, a, l, (n - 1) as nat) | (if opp_run(opp, mv, m, a, l, n)
            && reach(mv, m, a, l, n + 1) & own != 0 {
            ray(mv, m, a, l, n)
        } else {
            0
        })
    }
}

/// The squares that may move in direction `d` of the eight.
pub open spec fn dir_mask(d: int) -> u64 {
    if d == 0 || d == 6 || d == 7 {
        NOT_FIRST_COLUMN
    } else if d == 1 || d == 5 {
        ALL_SQUARES
    } else {
        NOT_LAST_COLUMN
    }
}

/// The bit distance of one step in direction `d`.
pub open spec fn dir_amount(d: int) -> u64 {
    if d == 0 || d == 4 {
        7
    } else if d == 1 || d == 5 {
        8
    } else if d == 2 || d == 6 {
        9
    } else {
        1
    }
}

/// Whether a step in direction `d` goes to higher bits.
pub open spec fn dir_up(d: int) -> bool {
    d < 4
}

/// The longest line of opponent disks that a move can capture along one direction.
pub open spec fn longest_line() -> nat {
    6
}

/// The squares flanking a line in one of the first `n` directions.
pub open spec fn flanked_dirs(own: u64, opp: u64, n: int) -> u64
    decreases n,
{
    if n <= 0 {
        0
    } else {
        flanked_dirs(own, opp, n - 1) | flanked_upto(
            own,
            opp,
            dir_mask(n - 1),
            dir_amount(n - 1),
            dir_up(n - 1),
            longest_line(),
        )
    }
}

/// The legal moves of the player owning `own` against `opp`: the empty squares from which,
/// in some direction, a line of opponent disks runs to a disk of the player.
pub open spec fn legal_moves(own: u64, opp: u64) -> u64 {
    !(own | opp) & flanked_dirs(own, opp, 8)
}

/// The disks captured in one of the first `n` directions by a disk put on `mv`.
pub open spec fn captured_dirs(own: u64, opp: u64, mv: u64, n: int) -> u64
    decreases n,
{
    if n <= 0 {
        0
    } else {
        captured_dirs(own, opp, mv, n - 1) | captured_upto(
            own,
            opp,
            mv,
            dir_mask(n - 1),
            dir_amount(n - 1),
            dir_up(n - 1),
            longest_line(),
        )
    }
}

/// The disks of `opp` that turn over when the owner of `own` plays `mv`.
pub open spec fn flips(own: u64, opp: u64, mv: u64) -> u64 {
    captured_dirs(own | mv, opp, mv, 8)
}

/// The mover's disks after playing `mv`.
pub open spec fn own_after(own: u64, opp: u64, mv: u64) -> u64 {
    own | mv | flips(own, opp, mv)
}

/// The opponent's disks after the mover plays `mv`.
pub open spec fn opp_after(own: u64, opp: u64, mv: u64) -> u64 {
    opp & !flips(own, opp, mv)
}

/// The shift of one step in direction `d`, wrap-safe at the board's edges.
fn shift(x: u64, d: usize) -> (r: u64)
    requires
        d < 8,
    ensures
        r == step(x, dir_mask(d as int), dir_amount(d as int), dir_up(d as int)),
{
    match d {
        0 => (x & NOT_FIRST_COLUMN) << 7u64,
        1 => (x & ALL_SQUARES) << 8u64,
        2 => (x & NOT_LAST_COLUMN) << 9u64,
        3 => (x & NOT_LAST_COLUMN) << 1u64,
        4 => (x & NOT_LAST_COLUMN) >> 7u64,
        5 => (x & ALL_SQUARES) >> 8u64,
        6 => (x & NOT_FIRST_COLUMN) >> 9u64,
        _ => (x & NOT_FIRST_COLUMN) >> 1u64,
    }
}

/// Runs the sweep of `longest_line()` steps from `src` through `opp` in direction `d`.
fn sweep_dir(src: u64, opp: u64, d: usize) -> (r: u64)
    requires
        d < 8,
    ensures
        r == sweep(src, opp, dir_mask(d as int), dir_amount(d as int), dir_up(d as int), longest_line()),
{
    let ghost m = dir_mask(d as int);
    let ghost a = dir_amount(d as int);
    let ghost l = dir_up(d as int);
    let mut t: u64 = opp & shift(src, d);
    assert(t == sweep(src, opp, m, a, l, 1));
    t = t | (opp & shift(t, d));
    assert(t == sweep(src, opp, m, a, l, 2));
    t = t | (opp & shift(t, d));
    assert(t == sweep(src, opp, m, a, l, 3));
    t = t | (opp & shift(t, d));
    assert(t == sweep(src, opp, m, a, l, 4));
    t = t | (opp & shift(t, d));
    assert(t == sweep(src, opp, m, a, l, 5));
    t = t | (opp & shift(t, d));
    assert(t == sweep(src, opp, m, a, l, 6));
    t
}

/// The column change of one step in direction `d`.
pub open spec fn dir_dx(d: int) -> int {
    if d == 2 || d == 3 || d == 4 {
        1
    } else if d == 1 || d == 5 {
        0
    } else {
        -1
    }
}

/// The row change of one step in direction `d`.
pub open spec fn dir_dy(d: int) -> int {
    if d < 3 {
        1
    } else if d == 3 || d == 7 {
        0
    } else {
        -1
    }
}

/// Whether column `x` and row `y` lie on the board.
pub open spec fn on_board(x: int, y: int) -> bool {
    0 <= x < 8 && 0 <= y < 8
}

/// A step in direction `d` moves each disk by `dir_dx(d)` columns and `dir_dy(d)` rows, and
/// drops those that would leave the board: square `i` is set after the step exactly when
/// the square one step back from it lies on the board and was set.
pub proof fn lemma_step_square(x: u64, d: int, i: u64)
    requires
        0 <= d < 8,
        i < 64,
    ensures
        has_bit(step(x, dir_mask(d), dir_amount(d), dir_up(d)), i) == ({
            let sx = (i % 8) as int - dir_dx(d);
            let sy = (i / 8) as int - dir_dy(d);
            on_board(sx, sy) && has_bit(x, (sx + 8 * sy) as u64)
        }),
{
    if d == 0 {
        assert(i < 64 ==> (has_bit(step(x, NOT_FIRST_COLUMN, 7, true), i) == (i % 8 <= 6 && i / 8 >= 1 && has_bit(x, (i - 7) as u64))))
            by (bit_vector);
    } else if d == 1 {
        assert(i < 64 ==> (has_bit(step(x, ALL_SQUARES, 8, true), i) == (i / 8 >= 1 && has_bit(x, (i - 8) as u64))))
            by (bit_vector);
    } else if d == 2 {
        assert(i < 64 ==> (has_bit(step(x, NOT_LAST_COLUMN, 9, true), i) == (i % 8 >= 1 && i / 8 >= 1 && has_bit(x, (i - 9) as u64))))
            by (bit_vector);
    } else if d == 3 {
        assert(i < 64 ==> (has_bit(step(x, NOT_LAST_COLUMN, 1, true), i) == (i % 8 >= 1 && has_bit(x, (i - 1) as u64))))
            by (bit_vector);
    } else if d == 4 {
        assert(i < 64 ==> (has_bit(step(x, NOT_LAST_COLUMN, 7, false), i) == (i % 8 >= 1 && i / 8 <= 6 && has_bit(x, (i + 7) as u64))))
            by (bit_vector);
    } else if d == 5 {
        assert(i < 64 ==> (has_bit(step(x, ALL_SQUARES, 8, false), i) == (i / 8 <= 6 && has_bit(x, (i + 8) as u64))))
            by (bit_vector);
    } else if d == 6 {
        assert(i < 64 ==> (has_bit(step(x, NOT_FIRST_COLUMN, 9, false), i) == (i % 8 <= 6 && i / 8 <= 6 && has_bit(x, (i + 9) as u64))))
            by (bit_vector);
    } else if d == 7 {
        assert(i < 64 ==> (has_bit(step(x, NOT_FIRST_COLUMN, 1, false), i) == (i % 8 <= 6 && has_bit(x, (i + 1) as u64))))
            by (bit_vector);
    }
}

/// Along each direction, one step past the sweep from `own` lands exactly on the squares
/// flanking a line of `opp` disks closed by a disk of `own`.
proof fn lemma_flank_sweep(own: u64, opp: u64, d: int)
    requires
        0 <= d < 8,
    ensures
        step(
            sweep(own, opp, dir_mask(d), dir_amount(d), dir_up(d), longest_line()),
            dir_mask(d),
            dir_amount(d),
            dir_up(d),
        ) == flanked_upto(own, opp, dir_mask(d), dir_amount(d), dir_up(d), longest_line()),
{
    if d == 0 {
        assert(step(sweep(own, opp, NOT_FIRST_COLUMN, 7, true, 6), NOT_FIRST_COLUMN, 7, true) == flanked_upto(own, opp, NOT_FIRST_COLUMN, 7, true, 6))
            by (bit_vector);
    } else if d == 1 {
        assert(step(sweep(own, opp, ALL_SQUARES, 8, true, 6), ALL_SQUARES, 8, true) == flanked_upto(own, opp, ALL_SQUARES, 8, true, 6))
            by (bit_vector);
    } else if d == 2 {
        assert(step(sweep(own, opp, NOT_LAST_COLUMN, 9, true, 6), NOT_LAST_COLUMN, 9, true) == flanked_upto(own, opp, NOT_LAST_COLUMN, 9, true, 6))
            by (bit_vector);
    } else if d == 3 {
        assert(step(sweep(own, opp, NOT_LAST_COLUMN, 1, true, 6), NOT_LAST_COLUMN, 1, true) == flanked_upto(own, opp, NOT_LAST_COLUMN, 1, true, 6))
            by (bit_vector);
    } else if d == 4 {
        assert(step(sweep(own, opp, NOT_LAST_COLUMN, 7, false, 6), NOT_LAST_COLUMN, 7, false) == flanked_upto(own, opp, NOT_LAST_COLUMN, 7, false, 6))
            by (bit_vector);
    } else if d == 5 {
        assert(step(sweep(own, opp, ALL_SQUARES, 8, false, 6), ALL_SQUARES, 8, false) == flanked_upto(own, opp, ALL_SQUARES, 8, false, 6))
            by (bit_vector);
    } else if d == 6 {
        assert(step(sweep(own, opp, NOT_FIRST_COLUMN, 9, false, 6), NOT_FIRST_COLUMN, 9, false) == flanked_upto(own, opp, NOT_FIRST_COLUMN, 9, false, 6))
            by (bit_vector);
    } else if d == 7 {
        assert(step(sweep(own, opp, NOT_FIRST_COLUMN, 1, false, 6), NOT_FIRST_COLUMN, 1, false) == flanked_upto(own, opp, NOT_FIRST_COLUMN, 1, false, 6))
            by (bit_vector);
    }
}

/// Along each direction, the sweep from a single disk `mv`, kept only when a disk of `own`
/// closes it, is exactly the line of `opp` disks that `mv` captures.
proof fn lemma_capture_sweep(own: u64, opp: u64, mv: u64, d: int)
    requires
        0 <= d < 8,
        is_single(mv),
        own & opp == 0,
        mv & own == mv,
    ensures
        ({
            let t = sweep(mv, opp, dir_mask(d), dir_amount(d), dir_up(d), longest_line());
            if t != 0 && own & step(t, dir_mask(d), dir_amount(d), dir_up(d)) != 0 {
                t
            } else {
                0
            }
        }) == captured_upto(own, opp, mv, dir_mask(d), dir_amount(d), dir_up(d), longest_line()),
        captured_upto(own, opp, mv, dir_mask(d), dir_amount(d), dir_up(d), longest_line()) & opp
            == captured_upto(own, opp, mv, dir_mask(d), dir_amount(d), dir_up(d), longest_line()),
{
    if d == 0 {
        assert(({
            let t = sweep(mv, opp, NOT_FIRST_COLUMN, 7, true, 6);
            if t != 0 && own & step(t, NOT_FIRST_COLUMN, 7, true) != 0 {
                t
            } else {
                0
            }
        }) == captured_upto(own, opp, mv, NOT_FIRST_COLUMN, 7, true, 6) && captured_upto(own, opp, mv, NOT_FIRST_COLUMN, 7, true, 6) & opp
            == captured_upto(own, opp, mv, NOT_FIRST_COLUMN, 7, true, 6)) by (bit_vector)
            requires
                mv != 0,
                mv & ((mv - 1) as u64) == 0,
                own & opp == 0,
                mv & own == mv,
        ;
    } else if d == 1 {
        assert(({
            let t = sweep(mv, opp, ALL_SQUARES, 8, true, 6);
            if t != 0 && own & step(t, ALL_SQUARES, 8, true) != 0 {
                t
            } else {
                0
            }
        }) == captured_upto(own, opp, mv, ALL_SQUARES, 8, true, 6) && captured_upto(own, opp, mv, ALL_SQUARES, 8, true, 6) & opp
            == captured_upto(own, opp, mv, ALL_SQUARES, 8, true, 6)) by (bit_vector)
            requires
                mv != 0,
                mv & ((mv - 1) as u64) == 0,
                own & opp == 0,
                mv & own == mv,
        ;
    } else if d == 2 {
        assert(({
            let t = sweep(mv, opp, NOT_LAST_COLUMN, 9, true, 6);
            if t != 0 && own & step(t, NOT_LAST_COLUMN, 9, true) != 0 {
                t
            } else {
                0
            }
        }) == captured_upto(own, opp, mv, NOT_LAST_COLUMN, 9, true, 6) && captured_upto(own, opp, mv, NOT_LAST_COLUMN, 9, true, 6) & opp
            == captured_upto(own, opp, mv, NOT_LAST_COLUMN, 9, true, 6)) by (bit_vector)
            requires
                mv != 0,
                mv & ((mv - 1) as u64) == 0,
                own & opp == 0,
                mv & own == mv,
        ;
    } else if d == 3 {
        assert(({
            let t = sweep(mv, opp, NOT_LAST_COLUMN, 1, true, 6);
            if t != 0 && own & step(t, NOT_LAST_COLUMN, 1, true) != 0 {
                t
            } else {
                0
            }
        }) == captured_upto(own, opp, mv, NOT_LAST_COLUMN, 1, true, 6) && captured_upto(own, opp, mv, NOT_LAST_COLUMN, 1, true, 6) & opp
            == captured_upto(own, opp, mv, NOT_LAST_COLUMN, 1, true, 6)) by (bit_vector)
            requires
                mv != 0,
                mv & ((mv - 1) as u64) == 0,
                own & opp == 0,
                mv & own == mv,
        ;
    } else if d == 4 {
        assert(({
            let t = sweep(mv, opp, NOT_LAST_COLUMN, 7, false, 6);
            if t != 0 && own & step(t, NOT_LAST_COLUMN, 7, false) != 0 {
                t
            } else {
                0
            }
        }) == captured_upto(own, opp, mv, NOT_LAST_COLUMN, 7, false, 6) && captured_upto(own, opp, mv, NOT_LAST_COLUMN, 7, false, 6) & opp
            == captured_upto(own, opp, mv, NOT_LAST_COLUMN, 7, false, 6)) by (bit_vector)
            requires
                mv != 0,
                mv & ((mv - 1) as u64) == 0,
                own & opp == 0,
                mv & own == mv,
        ;
    } else if d == 5 {
        assert(({
            let t = sweep(mv, opp, ALL_SQUARES, 8, false, 6);
            if t != 0 && own & step(t, ALL_SQUARES, 8, false) != 0 {
                t
            } else {
                0
            }
        }) == captured_upto(own, opp, mv, ALL_SQUARES, 8, false, 6) && captured_upto(own, opp, mv, ALL_SQUARES, 8, false, 6) & opp
            == captured_upto(own, opp, mv, ALL_SQUARES, 8, false, 6)) by (bit_vector)
            requires
                mv != 0,
                mv & ((mv - 1) as u64) == 0,
                own & opp == 0,
                mv & own == mv,
        ;
    } else if d == 6 {
        assert(({
            let t = sweep(mv, opp, NOT_FIRST_COLUMN, 9, false, 6);
            if t != 0 && own & step(t, NOT_FIRST_COLUMN, 9, false) != 0 {
                t
            } else {
                0
            }
        }) == captured_upto(own, opp, mv, NOT_FIRST_COLUMN, 9, false, 6) && captured_upto(own, opp, mv, NOT_FIRST_COLUMN, 9, false, 6) & opp
            == captured_upto(own, opp, mv, NOT_FIRST_COLUMN, 9, false, 6)) by (bit_vector)
            requires
                mv != 0,
                mv & ((mv - 1) as u64) == 0,
                own & opp == 0,
                mv & own == mv,
        ;
    } else if d == 7 {
        assert(({
            let t = sweep(mv, opp, NOT_FIRST_COLUMN, 1, false, 6);
            if t != 0 && own & step(t, NOT_FIRST_COLUMN, 1, false) != 0 {
                t
            } else {
                0
            }
        }) == captured_upto(own, opp, mv, NOT_FIRST_COLUMN, 1, false, 6) && captured_upto(own, opp, mv, NOT_FIRST_COLUMN, 1, false, 6) & opp
            == captured_upto(own, opp, mv, NOT_FIRST_COLUMN, 1, false, 6)) by (bit_vector)
            requires
                mv != 0,
                mv & ((mv - 1) as u64) == 0,
                own & opp == 0,
                mv & own == mv,
        ;
    }
}

/// What a disk put on `mv` captures, in any of the first `n` directions, are disks of `opp`.
proof fn lemma_captured_within(own: u64, opp: u64, mv: u64, n: int)
    requires
        0 <= n <= 8,
        is_single(mv),
        own & opp == 0,
        mv & own == mv,
    ensures
        captured_dirs(own, opp, mv, n) & opp == captured_dirs(own, opp, mv, n),
    decreases n,
{
    if n > 0 {
        lemma_captured_within(own, opp, mv, n - 1);
        lemma_capture_sweep(own, opp, mv, n - 1);
        let x = captured_dirs(own, opp, mv, n - 1);
        let y = captured_upto(
            own,
            opp,
            mv,
            dir_mask(n - 1),
            dir_amount(n - 1),
            dir_up(n - 1),
            longest_line(),
        );
        assert(x & opp == x && y & opp == y ==> (x | y) & opp == x | y) by (bit_vector);
    } else {
        lemma_commute(opp, opp);
    }
}

/// A board: the disks of Black and those of White.
#[derive(Clone, Copy)]
pub struct Othello(BitBoard, BitBoard);

impl Othello {
    /// Black's disks.
    pub closed spec fn black(self) -> u64 {
        self.0
    }

    /// White's disks.
    pub closed spec fn white(self) -> u64 {
        self.1
    }

    /// The disks of `color`.
    pub open spec fn bits(self, color: Color) -> u64 {
        match color {
            Color::Black => self.black(),
            Color::White => self.white(),
        }
    }

    /// No square holds two disks.
    pub open spec fn wf(self) -> bool {
        self.black() & self.white() == 0
    }

    /// The legal moves of `color`.
    pub open spec fn legal(self, color: Color) -> u64 {
        legal_moves(self.bits(color), self.bits(color.opponent()))
    }

    /// The board after `color` plays `mv`.
    pub closed spec fn after(self, color: Color, mv: u64) -> Othello {
        let own = self.bits(color);
        let opp = self.bits(color.opponent());
        match color {
            Color::Black => Othello(own_after(own, opp, mv), opp_after(own, opp, mv)),
            Color::White => Othello(opp_after(own, opp, mv), own_after(own, opp, mv)),
        }
    }

    /// The board that starts a game: the four center squares, two of each color on a
    /// diagonal.
    pub open spec fn start() -> (u64, u64) {
        (0x0000_0008_1000_0000, 0x0000_0010_0800_0000)
    }

    /// The board that starts a game.
    pub closed spec fn initial() -> Othello {
        Othello(Self::start().0, Self::start().1)
    }

    /// Creates the board that starts a game.
    pub fn new() -> (r: Othello)
        ensures
            r == Self::initial(),
            r.black() == Self::start().0,
            r.white() == Self::start().1,
            r.wf(),
    {
        proof {
            lemma_masks_disjoint_start();
        }
        Othello(0x0000_0008_1000_0000, 0x0000_0010_0800_0000)
    }

    /// Creates a board from the disks of each color.
    fn create(black: BitBoard, white: BitBoard) -> (r: Othello)
        ensures
            r.black() == black,
            r.white() == white,
    {
        Othello(black, white)
    }

    /// Returns the disks of `color`.
    pub fn get_bitboard(&self, color: Color) -> (r: BitBoard)
        ensures
            r == self.bits(color),
    {
        match color {
            Color::Black => self.0,
            Color::White => self.1,
        }
    }

    /// Returns the legal moves of `playing`.
    pub fn gen_moves(&self, playing: Color) -> (r: BitBoard)
        ensures
            r == self.legal(playing),
    {
        let own: u64 = self.get_bitboard(playing);
        let opp: u64 = self.get_bitboard(playing.invert());
        let mut moves: u64 = 0;
        let mut d: usize = 0;
        while d < 8
            invariant
                d <= 8,
                moves == flanked_dirs(own, opp, d as int),
            decreases 8 - d,
        {
            let t = sweep_dir(own, opp, d);
            proof {
                lemma_flank_sweep(own, opp, d as int);
            }
            moves = moves | shift(t, d);
            d = d + 1;
        }
        !(own | opp) & moves
    }

    /// Plays `mv` for `playing` and returns the new board; this board is left as it was.
    pub fn make_move(&self, playing: Color, mv: BitBoard) -> (r: Othello)
        requires
            self.wf(),
            is_single(mv),
            mv & self.legal(playing) != 0,
        ensures
            r == self.after(playing, mv),
            r.bits(playing) == own_after(self.bits(playing), self.bits(playing.opponent()), mv),
            r.bits(playing.opponent()) == opp_after(
                self.bits(playing),
                self.bits(playing.opponent()),
                mv,
            ),
    {
        let own: u64 = self.get_bitboard(playing);
        let opp: u64 = self.get_bitboard(playing.invert());
        let closed: u64 = own | mv;
        proof {
            let lm = self.legal(playing);
            let (b, w) = (self.black(), self.white());
            lemma_commute(b, w);
            assert(own & opp == 0);
            assert(closed & opp == 0 && mv & closed == mv) by (bit_vector)
                requires
                    own & opp == 0,
                    closed == own | mv,
                    mv & lm != 0,
                    is_single(mv),
                    lm == !(own | opp) & flanked_dirs(own, opp, 8),
            ;
        }
        let mut taken: u64 = 0;
        let mut d: usize = 0;
        while d < 8
            invariant
                d <= 8,
                closed & opp == 0,
                mv & closed == mv,
                is_single(mv),
                taken == captured_dirs(closed, opp, mv, d as int),
            decreases 8 - d,
        {
            let t = sweep_dir(mv, opp, d);
            proof {
                lemma_capture_sweep(closed, opp, mv, d as int);
                lemma_commute(taken, taken);
            }
            if t != 0 && closed & shift(t, d) != 0 {
                taken = taken | t;
            }
            d = d + 1;
        }
        let mine: u64 = closed | taken;
        let theirs: u64 = opp & !taken;
        match playing {
            Color::Black => Self::create(mine, theirs),
            Color::White => Self::create(theirs, mine),
        }
    }

    /// Plays `mv` for `playing` when it is a single legal move, and returns the new board;
    /// returns nothing for any other `mv`.
    pub fn try_make_move(&self, playing: Color, mv: BitBoard) -> (r: Option<Othello>)
        requires
            self.wf(),
        ensures
            r is Some <==> is_single(mv) && mv & self.legal(playing) != 0,
            r matches Some(b) ==> b == self.after(playing, mv) && b.wf() && b.bits(playing)
                == own_after(self.bits(playing), self.bits(playing.opponent()), mv) && b.bits(
                playing.opponent(),
            ) == opp_after(self.bits(playing), self.bits(playing.opponent()), mv),
    {
        let single: bool = mv != 0 && mv & mv.wrapping_sub(1) == 0;
        if single && mv & self.gen_moves(playing) != 0 {
            proof {
                lemma_masks_disjoint(*self, playing, mv);
            }
            Some(self.make_move(playing, mv))
        } else {
            None
        }
    }

    /// Returns what stands on the square in column `x` and row `y`.
    pub fn get_square(&self, x: u8, y: u8) -> (r: Square)
        requires
            x < 8,
            y < 8,
        ensures
            r == (if has_bit(self.black(), (x + 8 * y) as u64) {
                Square::Black
            } else if has_bit(self.white(), (x + 8 * y) as u64) {
                Square::White
            } else {
                Square::Empty
            }),
    {
        if self.get_bitboard(Color::Black).contains(x, y) {
            Square::Black
        } else if self.get_bitboard(Color::White).contains(x, y) {
            Square::White
        } else {
            Square::Empty
        }
    }

    /// Returns the number of disks of each player.
    pub fn score(&self) -> (r: Score)
        ensures
            r.black() as nat == popcount(self.black()),
            r.white() as nat == popcount(self.white()),
    {
        let black_score = self.get_bitboard(Color::Black).pop_cnt();
        let white_score = self.get_bitboard(Color::White).pop_cnt();
        Score::new(black_score, white_score)
    }
}

/// The disks of a move's mover after the move, and those of the opponent, in terms of the
/// board before it.
pub proof fn lemma_after_bits(b: Othello, color: Color, mv: u64)
    ensures
        b.after(color, mv).bits(color) == own_after(b.bits(color), b.bits(color.opponent()), mv),
        b.after(color, mv).bits(color.opponent()) == opp_after(
            b.bits(color),
            b.bits(color.opponent()),
            mv,
        ),
{
}

/// A legal move lands on an empty square, its disk and the disks it turns over join the
/// mover's, and they leave the opponent's.
proof fn lemma_move_shape(b: Othello, color: Color, mv: u64)
    requires
        b.wf(),
        is_single(mv),
        mv & b.legal(color) != 0,
    ensures
        ({
            let own = b.bits(color);
            let opp = b.bits(color.opponent());
            let own2 = own_after(own, opp, mv);
            let opp2 = opp_after(own, opp, mv);
            &&& own & opp == 0
            &&& mv & (own | opp) == 0
            &&& own2 & opp2 == 0
            &&& own2 | opp2 == (own | opp) | mv
            &&& own & own2 == own
            &&& own != own2
        }),
{
    let own = b.bits(color);
    let opp = b.bits(color.opponent());
    let lm = b.legal(color);
    let (bl, wh) = (b.black(), b.white());
    lemma_commute(bl, wh);
    assert(mv & (own | opp) == 0 && (own | mv) & opp == 0 && mv & (own | mv) == mv)
        by (bit_vector)
        requires
            own & opp == 0,
            mv & lm != 0,
            is_single(mv),
            lm == !(own | opp) & flanked_dirs(own, opp, 8),
    ;
    lemma_captured_within(own | mv, opp, mv, 8);
    let f = flips(own, opp, mv);
    let own2 = own_after(own, opp, mv);
    let opp2 = opp_after(own, opp, mv);
    assert(own2 & opp2 == 0 && own2 | opp2 == (own | opp) | mv && own & own2 == own && own
        != own2) by (bit_vector)
        requires
            own & opp == 0,
            mv & (own | opp) == 0,
            mv != 0,
            f & opp == f,
            own2 == own | mv | f,
            opp2 == opp & !f,
    ;
}

/// No square ever holds two disks: the board that starts a game has none, and a legal move
/// keeps it so.
pub proof fn lemma_masks_disjoint(b: Othello, color: Color, mv: u64)
    requires
        b.wf(),
        is_single(mv),
        mv & b.legal(color) != 0,
    ensures
        b.black() & b.white() == 0,
        b.after(color, mv).black() & b.after(color, mv).white() == 0,
{
    lemma_move_shape(b, color, mv);
    lemma_after_bits(b, color, mv);
    let (x, y) = (b.after(color, mv).black(), b.after(color, mv).white());
    lemma_commute(x, y);
}

/// A legal move only ever lands on an empty square.
pub proof fn lemma_moves_empty(b: Othello, color: Color)
    ensures
        b.legal(color) & (b.black() | b.white()) == 0,
{
    let own = b.bits(color);
    let opp = b.bits(color.opponent());
    let f = flanked_dirs(own, opp, 8);
    let (bl, wh) = (b.black(), b.white());
    assert(!(own | opp) & f & (own | opp) == 0) by (bit_vector);
    lemma_commute(bl, wh);
    assert((own | opp) == (bl | wh));
}

/// A legal move gives the mover more disks, and the board one disk more in all: disks are
/// turned over, never taken away.
pub proof fn lemma_move_counts(b: Othello, color: Color, mv: u64)
    requires
        b.wf(),
        is_single(mv),
        mv & b.legal(color) != 0,
    ensures
        popcount(b.after(color, mv).bits(color)) > popcount(b.bits(color)),
        popcount(b.after(color, mv).black()) + popcount(b.after(color, mv).white()) == popcount(
            b.black(),
        ) + popcount(b.white()) + 1,
{
    lemma_move_shape(b, color, mv);
    lemma_after_bits(b, color, mv);
    let own = b.bits(color);
    let opp = b.bits(color.opponent());
    let own2 = own_after(own, opp, mv);
    let opp2 = opp_after(own, opp, mv);
    lemma_popcount_subset(own, own2);
    lemma_popcount_union(own2, opp2);
    lemma_popcount_union(own, opp);
    let u = own | opp;
    lemma_commute(mv, u);
    lemma_popcount_union(own | opp, mv);
    lemma_popcount_single(mv);
}

/// A legal move fills exactly one empty square: the one it is played on.
pub proof fn lemma_move_fills(b: Othello, color: Color, mv: u64)
    requires
        b.wf(),
        is_single(mv),
        mv & b.legal(color) != 0,
    ensures
        mv & (b.black() | b.white()) == 0,
        b.after(color, mv).black() | b.after(color, mv).white() == (b.black() | b.white()) | mv,
{
    lemma_move_shape(b, color, mv);
    lemma_after_bits(b, color, mv);
    let (x, y) = (b.black(), b.white());
    let (x2, y2) = (b.after(color, mv).black(), b.after(color, mv).white());
    lemma_commute(x, y);
    lemma_commute(x2, y2);
}

/// The board that starts a game has no square with two disks.
pub proof fn lemma_masks_disjoint_start()
    ensures
        Othello::initial().wf(),
{
    assert(0x0000_0008_1000_0000u64 & 0x0000_0010_0800_0000u64 == 0) by (bit_vector);
}

/// Bit `i` of a meet, a join or a complement.
proof fn lemma_has_bit_ops(x: u64, y: u64, i: u64)
    by (bit_vector)
    requires
        i < 64,
    ensures
        has_bit(x & y, i) == (has_bit(x, i) && has_bit(y, i)),
        has_bit(x | y, i) == (has_bit(x, i) || has_bit(y, i)),
        has_bit(!x, i) == !has_bit(x, i),
        !has_bit(0u64, i),
        has_bit(ALL_SQUARES, i),
{
}

/// Whether the square `j` steps back from column `x`, row `y`, against direction `d`, lies
/// on the board and is set in `m`.
pub open spec fn holds_back(m: u64, d: int, x: int, y: int, j: nat) -> bool {
    let sx = x - j * dir_dx(d);
    let sy = y - j * dir_dy(d);
    on_board(sx, sy) && has_bit(m, (sx + 8 * sy) as u64)
}

/// Square `i` is set after `n` steps in direction `d` exactly when the square `n` steps
/// back from it lies on the board and was set.
proof fn lemma_reach_square(m: u64, d: int, i: u64, n: nat)
    requires
        0 <= d < 8,
        i < 64,
    ensures
        has_bit(reach(m, dir_mask(d), dir_amount(d), dir_up(d), n), i) == holds_back(
            m,
            d,
            (i % 8) as int,
            (i / 8) as int,
            n,
        ),
    decreases n,
{
    let x = (i % 8) as int;
    let y = (i / 8) as int;
    if n == 0 {
        assert(i == (x + 8 * y) as u64);
        assert(0 * dir_dx(d) == 0 && 0 * dir_dy(d) == 0);
        assert(holds_back(m, d, x, y, 0) == has_bit(m, i));
    } else {
        let prev = reach(m, dir_mask(d), dir_amount(d), dir_up(d), (n - 1) as nat);
        lemma_step_square(prev, d, i);
        assert(reach(m, dir_mask(d), dir_amount(d), dir_up(d), n) == step(
            prev,
            dir_mask(d),
            dir_amount(d),
            dir_up(d),
        ));
        let sx = x - dir_dx(d);
        let sy = y - dir_dy(d);
        if on_board(sx, sy) {
            let s = (sx + 8 * sy) as u64;
            assert(s % 8 == sx && s / 8 == sy);
            let n1 = (n - 1) as nat;
            lemma_reach_square(m, d, s, n1);
            assert(sx - n1 * dir_dx(d) == x - n * dir_dx(d)) by (nonlinear_arith)
                requires
                    sx == x - dir_dx(d),
                    n1 == n - 1,
            ;
            assert(sy - n1 * dir_dy(d) == y - n * dir_dy(d)) by (nonlinear_arith)
                requires
                    sy == y - dir_dy(d),
                    n1 == n - 1,
            ;
            assert(holds_back(m, d, sx, sy, n1) == holds_back(m, d, x, y, n));
        } else {
            assert(!holds_back(m, d, x, y, n)) by {
                let ex = x - n * dir_dx(d);
                let ey = y - n * dir_dy(d);
                if on_board(ex, ey) {
                    assert(on_board(sx, sy)) by (nonlinear_arith)
                        requires
                            on_board(x, y),
                            on_board(ex, ey),
                            ex == x - n * dir_dx(d),
                            ey == y - n * dir_dy(d),
                            sx == x - dir_dx(d),
                            sy == y - dir_dy(d),
                            n >= 1,
                            -1 <= dir_dx(d) <= 1,
                            -1 <= dir_dy(d) <= 1,
                    ;
                }
            }
        }
    }
}

/// Whether, seen from column `x`, row `y`, exactly `k` disks of `opp` stand one after the
/// other against direction `d`, and a disk of `own` closes the line.
pub open spec fn flanks_line(own: u64, opp: u64, d: int, x: int, y: int, k: nat) -> bool {
    &&& forall|j: nat| 1 <= j <= k ==> #[trigger] holds_back(opp, d, x, y, j)
    &&& holds_back(own, d, x, y, k + 1)
}

proof fn lemma_opp_line_square(opp: u64, d: int, i: u64, k: nat)
    requires
        0 <= d < 8,
        i < 64,
    ensures
        has_bit(opp_line(opp, dir_mask(d), dir_amount(d), dir_up(d), k), i) <==> forall|j: nat|
            1 <= j <= k ==> #[trigger] holds_back(opp, d, (i % 8) as int, (i / 8) as int, j),
    decreases k,
{
    let (m, a, l) = (dir_mask(d), dir_amount(d), dir_up(d));
    let x = (i % 8) as int;
    let y = (i / 8) as int;
    if k == 0 {
        lemma_has_bit_ops(opp, opp, i);
    } else {
        lemma_opp_line_square(opp, d, i, (k - 1) as nat);
        lemma_reach_square(opp, d, i, k);
        lemma_has_bit_ops(opp_line(opp, m, a, l, (k - 1) as nat), reach(opp, m, a, l, k), i);
        if has_bit(opp_line(opp, m, a, l, k), i) {
            assert forall|j: nat| 1 <= j <= k implies #[trigger] holds_back(opp, d, x, y, j) by {
                if j < k {
                    assert(holds_back(opp, d, x, y, j));
                }
            }
        } else {
            if forall|j: nat| 1 <= j <= k ==> #[trigger] holds_back(opp, d, x, y, j) {
                assert(holds_back(opp, d, x, y, k));
                assert forall|j: nat| 1 <= j <= (k - 1) as nat implies #[trigger] holds_back(
                    opp,
                    d,
                    x,
                    y,
                    j,
                ) by {
                    assert(holds_back(opp, d, x, y, j));
                }
            }
        }
    }
}

proof fn lemma_flanked_upto_square(own: u64, opp: u64, d: int, i: u64, n: nat)
    requires
        0 <= d < 8,
        i < 64,
    ensures
        has_bit(flanked_upto(own, opp, dir_mask(d), dir_amount(d), dir_up(d), n), i) <==> exists|
            k: nat,
        |
            1 <= k <= n && #[trigger] flanks_line(own, opp, d, (i % 8) as int, (i / 8) as int, k),
    decreases n,
{
    let (m, a, l) = (dir_mask(d), dir_amount(d), dir_up(d));
    let x = (i % 8) as int;
    let y = (i / 8) as int;
    if n == 0 {
        lemma_has_bit_ops(own, opp, i);
    } else {
        lemma_flanked_upto_square(own, opp, d, i, (n - 1) as nat);
        lemma_opp_line_square(opp, d, i, n);
        lemma_reach_square(own, d, i, n + 1);
        lemma_has_bit_ops(opp_line(opp, m, a, l, n), reach(own, m, a, l, n + 1), i);
        lemma_has_bit_ops(
            flanked_upto(own, opp, m, a, l, (n - 1) as nat),
            flanked(own, opp, m, a, l, n),
            i,
        );
        if exists|k: nat| 1 <= k <= n && #[trigger] flanks_line(own, opp, d, x, y, k) {
            let k = choose|k: nat| 1 <= k <= n && #[trigger] flanks_line(own, opp, d, x, y, k);
            if k < n {
                assert(1 <= k <= (n - 1) as nat && flanks_line(own, opp, d, x, y, k));
            }
        }
        if has_bit(flanked(own, opp, m, a, l, n), i) {
            assert(flanks_line(own, opp, d, x, y, n));
        }
    }
}

proof fn lemma_flanked_dirs_square(own: u64, opp: u64, i: u64, n: int)
    requires
        0 <= n <= 8,
        i < 64,
    ensures
        has_bit(flanked_dirs(own, opp, n), i) <==> exists|d: int, k: nat|
            0 <= d < n && 1 <= k <= longest_line() && #[trigger] flanks_line(
                own,
                opp,
                d,
                (i % 8) as int,
                (i / 8) as int,
                k,
            ),
    decreases n,
{
    let x = (i % 8) as int;
    let y = (i / 8) as int;
    if n == 0 {
        lemma_has_bit_ops(own, opp, i);
    } else {
        let d = n - 1;
        lemma_flanked_dirs_square(own, opp, i, n - 1);
        lemma_flanked_upto_square(own, opp, d, i, longest_line());
        lemma_has_bit_ops(
            flanked_dirs(own, opp, n - 1),
            flanked_upto(own, opp, dir_mask(d), dir_amount(d), dir_up(d), longest_line()),
            i,
        );
        if exists|e: int, k: nat|
            0 <= e < n && 1 <= k <= longest_line() && #[trigger] flanks_line(own, opp, e, x, y, k) {
            let (e, k) = choose|e: int, k: nat|
                0 <= e < n && 1 <= k <= longest_line() && #[trigger] flanks_line(
                    own,
                    opp,
                    e,
                    x,
                    y,
                    k,
                );
            if e < n - 1 {
                assert(0 <= e < n - 1 && 1 <= k <= longest_line() && flanks_line(own, opp, e, x, y, k));
            } else {
                assert(1 <= k <= longest_line() && flanks_line(own, opp, d, x, y, k));
            }
        }
    }
}

/// Square by square, a legal move is an empty square from which, in some direction, a line
/// of one to six disks of the opponent runs to a disk of the mover.
pub proof fn lemma_legal_square(b: Othello, color: Color, x: int, y: int)
    requires
        on_board(x, y),
    ensures
        has_bit(b.legal(color), (x + 8 * y) as u64) <==> {
            &&& !has_bit(b.black(), (x + 8 * y) as u64)
            &&& !has_bit(b.white(), (x + 8 * y) as u64)
            &&& exists|d: int, k: nat|
                0 <= d < 8 && 1 <= k <= 6 && #[trigger] flanks_line(
                    b.bits(color),
                    b.bits(color.opponent()),
                    d,
                    x,
                    y,
                    k,
                )
        },
{
    let i = (x + 8 * y) as u64;
    let own = b.bits(color);
    let opp = b.bits(color.opponent());
    assert(i % 8 == x && i / 8 == y);
    lemma_flanked_dirs_square(own, opp, i, 8);
    lemma_has_bit_ops(own, opp, i);
    lemma_has_bit_ops(!(own | opp), flanked_dirs(own, opp, 8), i);
    lemma_has_bit_ops(own | opp, own, i);
}

/// The board that starts a game holds two disks of each color.
pub proof fn lemma_start_count()
    ensures
        popcount(Othello::initial().black()) == 2,
        popcount(Othello::initial().white()) == 2,
{
    let (x, y) = Othello::start();
    let (a, b, c, d) = (1u64 << 28u64, 1u64 << 35u64, 1u64 << 27u64, 1u64 << 36u64);
    assert(x == a | b && y == c | d && a & b == 0 && c & d == 0 && is_single(a) && is_single(b)
        && is_single(c) && is_single(d)) by (bit_vector)
        requires
            x == 0x0000_0008_1000_0000u64,
            y == 0x0000_0010_0800_0000u64,
            a == 1u64 << 28u64,
            b == 1u64 << 35u64,
            c == 1u64 << 27u64,
            d == 1u64 << 36u64,
    ;
    lemma_popcount_union(a, b);
    lemma_popcount_union(c, d);
    lemma_popcount_single(a);
    lemma_popcount_single(b);
    lemma_popcount_single(c);
    lemma_popcount_single(d);
}

/// On the board that starts a game, Black's legal moves are d3, c4, f5 and e6: four moves.
pub proof fn lemma_start_moves()
    ensures
        Othello::initial().legal(Color::Black) == 0x0000_1020_0408_0000u64,
        popcount(Othello::initial().legal(Color::Black)) == 4,
{
    let (x, y) = Othello::start();
    let (a, b, c, d) = (1u64 << 19u64, 1u64 << 26u64, 1u64 << 37u64, 1u64 << 44u64);
    assert(legal_moves(x, y) == a | b | c | d && a | b | c | d == 0x0000_1020_0408_0000u64 && a
        & b == 0 && (a | b) & c == 0 && (a | b | c) & d == 0 && is_single(a) && is_single(b)
        && is_single(c) && is_single(d)) by (bit_vector)
        requires
            x == 0x0000_0008_1000_0000u64,
            y == 0x0000_0010_0800_0000u64,
            a == 1u64 << 19u64,
            b == 1u64 << 26u64,
            c == 1u64 << 37u64,
            d == 1u64 << 44u64,
    ;
    lemma_popcount_union(a, b);
    lemma_popcount_union(a | b, c);
    lemma_popcount_union(a | b | c, d);
    lemma_popcount_single(a);
    lemma_popcount_single(b);
    lemma_popcount_single(c);
    lemma_popcount_single(d);
}

/// The one-square mask of square `s` holds exactly that square.
proof fn lemma_square_mask(s: u64, t: u64)
    by (bit_vector)
    requires
        s < 64,
        t < 64,
    ensures
        has_bit(1u64 << s, t) == (s == t),
{
}

/// The direction opposite to `d`.
pub open spec fn opposite(d: int) -> int {
    (d + 4) % 8
}

proof fn lemma_opp_run_from(opp: u64, mv: u64, m: u64, a: u64, l: bool, k: nat)
    requires
        forall|j: nat| 1 <= j <= k ==> #[trigger] reach(mv, m, a, l, j) & opp != 0,
    ensures
        opp_run(opp, mv, m, a, l, k),
    decreases k,
{
    if k > 0 {
        lemma_opp_run_from(opp, mv, m, a, l, (k - 1) as nat);
        assert(reach(mv, m, a, l, k) & opp != 0);
    }
}

proof fn lemma_ray_has(mv: u64, m: u64, a: u64, l: bool, k: nat, j: nat, t: u64)
    requires
        1 <= j <= k,
        t < 64,
        has_bit(reach(mv, m, a, l, j), t),
    ensures
        has_bit(ray(mv, m, a, l, k), t),
    decreases k,
{
    lemma_has_bit_ops(ray(mv, m, a, l, (k - 1) as nat), reach(mv, m, a, l, k), t);
    if j < k {
        lemma_ray_has(mv, m, a, l, (k - 1) as nat, j, t);
    }
}

proof fn lemma_captured_upto_has(
    own: u64,
    opp: u64,
    mv: u64,
    m: u64,
    a: u64,
    l: bool,
    k: nat,
    n: nat,
    t: u64,
)
    requires
        1 <= k <= n,
        t < 64,
        opp_run(opp, mv, m, a, l, k),
        reach(mv, m, a, l, k + 1) & own != 0,
        has_bit(ray(mv, m, a, l, k), t),
    ensures
        has_bit(captured_upto(own, opp, mv, m, a, l, n), t),
    decreases n,
{
    let prev = captured_upto(own, opp, mv, m, a, l, (n - 1) as nat);
    if n == k {
        lemma_has_bit_ops(prev, ray(mv, m, a, l, k), t);
    } else {
        lemma_captured_upto_has(own, opp, mv, m, a, l, k, (n - 1) as nat, t);
        let last = if opp_run(opp, mv, m, a, l, n) && reach(mv, m, a, l, n + 1) & own != 0 {
            ray(mv, m, a, l, n)
        } else {
            0
        };
        lemma_has_bit_ops(prev, last, t);
    }
}

proof fn lemma_captured_dirs_has(own: u64, opp: u64, mv: u64, e: int, n: int, t: u64)
    requires
        0 <= e < n <= 8,
        t < 64,
        has_bit(
            captured_upto(own, opp, mv, dir_mask(e), dir_amount(e), dir_up(e), longest_line()),
            t,
        ),
    ensures
        has_bit(captured_dirs(own, opp, mv, n), t),
    decreases n,
{
    let last = captured_upto(
        own,
        opp,
        mv,
        dir_mask(n - 1),
        dir_amount(n - 1),
        dir_up(n - 1),
        longest_line(),
    );
    lemma_has_bit_ops(captured_dirs(own, opp, mv, n - 1), last, t);
    if e < n - 1 {
        lemma_captured_dirs_has(own, opp, mv, e, n - 1, t);
    }
}

/// A legal move turns over at least one disk: along a direction in which a line of the
/// opponent's disks runs from the move to a disk of the mover, the first disk of the line.
pub proof fn lemma_legal_move_flips(b: Othello, color: Color, x: int, y: int)
    requires
        on_board(x, y),
        has_bit(b.legal(color), (x + 8 * y) as u64),
    ensures
        ({
            let mv = 1u64 << (x + 8 * y) as u64;
            &&& flips(b.bits(color), b.bits(color.opponent()), mv) != 0
            &&& exists|d: int, k: nat|
                0 <= d < 8 && 1 <= k <= 6 && #[trigger] flanks_line(
                    b.bits(color),
                    b.bits(color.opponent()),
                    d,
                    x,
                    y,
                    k,
                ) && has_bit(
                    flips(b.bits(color), b.bits(color.opponent()), mv),
                    (x - dir_dx(d) + 8 * (y - dir_dy(d))) as u64,
                )
        }),
{
    let own = b.bits(color);
    let opp = b.bits(color.opponent());
    let s = (x + 8 * y) as u64;
    let mv = 1u64 << s;
    let own2 = own | mv;
    lemma_legal_square(b, color, x, y);
    let (d, k) = choose|d: int, k: nat|
        0 <= d < 8 && 1 <= k <= 6 && #[trigger] flanks_line(own, opp, d, x, y, k);
    let e = opposite(d);
    let (m, a, l) = (dir_mask(e), dir_amount(e), dir_up(e));
    assert(dir_dx(e) == -dir_dx(d) && dir_dy(e) == -dir_dy(d));
    // the square j steps from the move along `e`
    assert forall|j: nat| 1 <= j <= k + 1 implies has_bit(
        reach(mv, m, a, l, j),
        (x - j * dir_dx(d) + 8 * (y - j * dir_dy(d))) as u64,
    ) by {
        let tx = x - j * dir_dx(d);
        let ty = y - j * dir_dy(d);
        if j <= k {
            assert(holds_back(opp, d, x, y, j));
        }
        assert(on_board(tx, ty));
        let t = (tx + 8 * ty) as u64;
        assert(t % 8 == tx && t / 8 == ty);
        lemma_reach_square(mv, e, t, j);
        assert(tx - j * dir_dx(e) == x && ty - j * dir_dy(e) == y) by (nonlinear_arith)
            requires
                tx == x - j * dir_dx(d),
                ty == y - j * dir_dy(d),
                dir_dx(e) == -dir_dx(d),
                dir_dy(e) == -dir_dy(d),
        ;
        lemma_square_mask(s, s);
    }
    assert forall|j: nat| 1 <= j <= k implies #[trigger] reach(mv, m, a, l, j) & opp != 0 by {
        let t = (x - j * dir_dx(d) + 8 * (y - j * dir_dy(d))) as u64;
        assert(holds_back(opp, d, x, y, j));
        lemma_has_bit_ops(reach(mv, m, a, l, j), opp, t);
        lemma_has_bit_ops(0, 0, t);
    }
    lemma_opp_run_from(opp, mv, m, a, l, k);
    let tk = (x - (k + 1) * dir_dx(d) + 8 * (y - (k + 1) * dir_dy(d))) as u64;
    assert(has_bit(reach(mv, m, a, l, k + 1), tk));
    lemma_has_bit_ops(own, mv, tk);
    lemma_has_bit_ops(reach(mv, m, a, l, k + 1), own2, tk);
    lemma_has_bit_ops(0, 0, tk);
    let t1 = (x - dir_dx(d) + 8 * (y - dir_dy(d))) as u64;
    assert(has_bit(reach(mv, m, a, l, 1), (x - 1 * dir_dx(d) + 8 * (y - 1 * dir_dy(d))) as u64));
    assert(t1 < 64) by {
        assert(holds_back(opp, d, x, y, 1));
    }
    lemma_ray_has(mv, m, a, l, k, 1, t1);
    lemma_captured_upto_has(own2, opp, mv, m, a, l, k, longest_line(), t1);
    lemma_captured_dirs_has(own2, opp, mv, e, 8, t1);
    lemma_has_bit_ops(0, 0, t1);
    assert(flanks_line(own, opp, d, x, y, k));
}

/// A nonzero mask has a set square.
proof fn lemma_some_bit(x: u64) -> (u: u64)
    requires
        x != 0,
    ensures
        u < 64,
        has_bit(x, u),
{
    vstd::std_specs::bits::axiom_u64_trailing_zeros(x);
    vstd::std_specs::bits::u64_trailing_zeros(x) as u64
}

/// Opposite directions move by opposite amounts.
proof fn lemma_opposite(d: int)
    requires
        0 <= d < 8,
    ensures
        0 <= opposite(d) < 8,
        opposite(opposite(d)) == d,
        dir_dx(opposite(d)) == -dir_dx(d),
        dir_dy(opposite(d)) == -dir_dy(d),
        dir_dx(d) != 0 || dir_dy(d) != 0,
{
}

/// A square set after `j` steps from the one-square mask of column `x`, row `y` along
/// `opposite(d)` is the square `j` steps back from it against `d`.
proof fn lemma_reach_from_square(x: int, y: int, d: int, j: nat, u: u64)
    requires
        on_board(x, y),
        0 <= d < 8,
        u < 64,
        has_bit(
            reach(
                1u64 << (x + 8 * y) as u64,
                dir_mask(opposite(d)),
                dir_amount(opposite(d)),
                dir_up(opposite(d)),
                j,
            ),
            u,
        ),
    ensures
        on_board(x - j * dir_dx(d), y - j * dir_dy(d)),
        u == (x - j * dir_dx(d) + 8 * (y - j * dir_dy(d))) as u64,
{
    let e = opposite(d);
    let sq = (x + 8 * y) as u64;
    lemma_opposite(d);
    lemma_reach_square(1u64 << sq, e, u, j);
    let ux = (u % 8) as int;
    let uy = (u / 8) as int;
    let sx = ux - j * dir_dx(e);
    let sy = uy - j * dir_dy(e);
    lemma_square_mask(sq, (sx + 8 * sy) as u64);
    assert(sx == x && sy == y);
    assert(ux == x - j * dir_dx(d) && uy == y - j * dir_dy(d)) by (nonlinear_arith)
        requires
            sx == ux - j * dir_dx(e),
            sy == uy - j * dir_dy(e),
            sx == x,
            sy == y,
            dir_dx(e) == -dir_dx(d),
            dir_dy(e) == -dir_dy(d),
    ;
}

proof fn lemma_opp_run_each(opp: u64, mv: u64, m: u64, a: u64, l: bool, k: nat, j: nat)
    requires
        opp_run(opp, mv, m, a, l, k),
        1 <= j <= k,
    ensures
        reach(mv, m, a, l, j) & opp != 0,
    decreases k,
{
    if j < k {
        lemma_opp_run_each(opp, mv, m, a, l, (k - 1) as nat, j);
    }
}

proof fn lemma_ray_from(mv: u64, m: u64, a: u64, l: bool, k: nat, t: u64) -> (j: nat)
    requires
        t < 64,
        has_bit(ray(mv, m, a, l, k), t),
    ensures
        1 <= j <= k,
        has_bit(reach(mv, m, a, l, j), t),
    decreases k,
{
    if k == 0 {
        lemma_has_bit_ops(0, 0, t);
        0
    } else {
        lemma_has_bit_ops(ray(mv, m, a, l, (k - 1) as nat), reach(mv, m, a, l, k), t);
        if has_bit(reach(mv, m, a, l, k), t) {
            k
        } else {
            lemma_ray_from(mv, m, a, l, (k - 1) as nat, t)
        }
    }
}

proof fn lemma_captured_upto_from(
    own: u64,
    opp: u64,
    mv: u64,
    m: u64,
    a: u64,
    l: bool,
    n: nat,
    t: u64,
) -> (k: nat)
    requires
        t < 64,
        has_bit(captured_upto(own, opp, mv, m, a, l, n), t),
    ensures
        1 <= k <= n,
        opp_run(opp, mv, m, a, l, k),
        reach(mv, m, a, l, k + 1) & own != 0,
        has_bit(ray(mv, m, a, l, k), t),
    decreases n,
{
    if n == 0 {
        lemma_has_bit_ops(0, 0, t);
        0
    } else {
        let last = if opp_run(opp, mv, m, a, l, n) && reach(mv, m, a, l, n + 1) & own != 0 {
            ray(mv, m, a, l, n)
        } else {
            0
        };
        lemma_has_bit_ops(captured_upto(own, opp, mv, m, a, l, (n - 1) as nat), last, t);
        lemma_has_bit_ops(0, 0, t);
        if has_bit(last, t) {
            n
        } else {
            lemma_captured_upto_from(own, opp, mv, m, a, l, (n - 1) as nat, t)
        }
    }
}

proof fn lemma_captured_dirs_from(own: u64, opp: u64, mv: u64, n: int, t: u64) -> (e: int)
    requires
        0 <= n <= 8,
        t < 64,
        has_bit(captured_dirs(own, opp, mv, n), t),
    ensures
        0 <= e < n,
        has_bit(
            captured_upto(own, opp, mv, dir_mask(e), dir_amount(e), dir_up(e), longest_line()),
            t,
        ),
    decreases n,
{
    if n == 0 {
        lemma_has_bit_ops(0, 0, t);
        0
    } else {
        let last = captured_upto(
            own,
            opp,
            mv,
            dir_mask(n - 1),
            dir_amount(n - 1),
            dir_up(n - 1),
            longest_line(),
        );
        lemma_has_bit_ops(captured_dirs(own, opp, mv, n - 1), last, t);
        if has_bit(last, t) {
            n - 1
        } else {
            lemma_captured_dirs_from(own, opp, mv, n - 1, t)
        }
    }
}

/// The square `j` steps back from column `x`, row `y`, against direction `d`.
pub open spec fn back_square(d: int, x: int, y: int, j: nat) -> u64 {
    (x - j * dir_dx(d) + 8 * (y - j * dir_dy(d))) as u64
}

/// Square by square, the disks that a move on column `x`, row `y` turns over are those of
/// the lines of one to six opponent disks that run from the move, in some direction, to a
/// disk of the mover.
pub proof fn lemma_flips_square(own: u64, opp: u64, x: int, y: int, t: u64)
    requires
        on_board(x, y),
        t < 64,
    ensures
        has_bit(flips(own, opp, 1u64 << (x + 8 * y) as u64), t) <==> exists|d: int, k: nat, j: nat|
            #![trigger flanks_line(own, opp, d, x, y, k), back_square(d, x, y, j)]
            0 <= d < 8 && 1 <= j <= k <= 6 && flanks_line(own, opp, d, x, y, k) && t
                == back_square(d, x, y, j),
{
    let sq = (x + 8 * y) as u64;
    let mv = 1u64 << sq;
    let own2 = own | mv;
    if has_bit(flips(own, opp, mv), t) {
        let e = lemma_captured_dirs_from(own2, opp, mv, 8, t);
        let d = opposite(e);
        lemma_opposite(e);
        let (m, a, l) = (dir_mask(e), dir_amount(e), dir_up(e));
        let k = lemma_captured_upto_from(own2, opp, mv, m, a, l, longest_line(), t);
        let j = lemma_ray_from(mv, m, a, l, k, t);
        lemma_reach_from_square(x, y, d, j, t);
        assert forall|i: nat| 1 <= i <= k implies #[trigger] holds_back(opp, d, x, y, i) by {
            lemma_opp_run_each(opp, mv, m, a, l, k, i);
            let u = lemma_some_bit(reach(mv, m, a, l, i) & opp);
            lemma_has_bit_ops(reach(mv, m, a, l, i), opp, u);
            lemma_reach_from_square(x, y, d, i, u);
        }
        let u = lemma_some_bit(reach(mv, m, a, l, k + 1) & own2);
        lemma_has_bit_ops(reach(mv, m, a, l, k + 1), own2, u);
        lemma_has_bit_ops(own, mv, u);
        lemma_reach_from_square(x, y, d, k + 1, u);
        lemma_square_mask(sq, u);
        lemma_opposite(d);
        if u == sq {
            assert((k + 1) * dir_dx(d) == 0 && (k + 1) * dir_dy(d) == 0);
            assert(dir_dx(d) == 0 && dir_dy(d) == 0) by (nonlinear_arith)
                requires
                    (k + 1) * dir_dx(d) == 0,
                    (k + 1) * dir_dy(d) == 0,
                    k >= 1,
            ;
        }
        assert(holds_back(own, d, x, y, k + 1));
        assert(flanks_line(own, opp, d, x, y, k) && t == back_square(d, x, y, j));
    }
    if exists|d: int, k: nat, j: nat|
        #![trigger flanks_line(own, opp, d, x, y, k), back_square(d, x, y, j)]
        0 <= d < 8 && 1 <= j <= k <= 6 && flanks_line(own, opp, d, x, y, k) && t
            == back_square(d, x, y, j) {
        let (d, k, j) = choose|d: int, k: nat, j: nat|
            #![trigger flanks_line(own, opp, d, x, y, k), back_square(d, x, y, j)]
            0 <= d < 8 && 1 <= j <= k <= 6 && flanks_line(own, opp, d, x, y, k) && t
                == back_square(d, x, y, j);
        let e = opposite(d);
        lemma_opposite(d);
        let (m, a, l) = (dir_mask(e), dir_amount(e), dir_up(e));
        assert forall|i: nat| 1 <= i <= k + 1 implies has_bit(
            reach(mv, m, a, l, i),
            back_square(d, x, y, i),
        ) by {
            let tx = x - i * dir_dx(d);
            let ty = y - i * dir_dy(d);
            if i <= k {
                assert(holds_back(opp, d, x, y, i));
            }
            assert(on_board(tx, ty));
            let u = (tx + 8 * ty) as u64;
            assert(u % 8 == tx && u / 8 == ty);
            lemma_reach_square(mv, e, u, i);
            assert(tx - i * dir_dx(e) == x && ty - i * dir_dy(e) == y) by (nonlinear_arith)
                requires
                    tx == x - i * dir_dx(d),
                    ty == y - i * dir_dy(d),
                    dir_dx(e) == -dir_dx(d),
                    dir_dy(e) == -dir_dy(d),
            ;
            lemma_square_mask(sq, sq);
        }
        assert forall|i: nat| 1 <= i <= k implies #[trigger] reach(mv, m, a, l, i) & opp != 0 by {
            let u = back_square(d, x, y, i);
            assert(holds_back(opp, d, x, y, i));
            assert(has_bit(reach(mv, m, a, l, i), u));
            lemma_has_bit_ops(reach(mv, m, a, l, i), opp, u);
            lemma_has_bit_ops(0, 0, u);
        }
        lemma_opp_run_from(opp, mv, m, a, l, k);
        let tk = back_square(d, x, y, k + 1);
        assert(holds_back(own, d, x, y, k + 1));
        assert(has_bit(reach(mv, m, a, l, k + 1), tk));
        lemma_has_bit_ops(own, mv, tk);
        lemma_has_bit_ops(reach(mv, m, a, l, k + 1), own2, tk);
        lemma_has_bit_ops(0, 0, tk);
        assert(holds_back(opp, d, x, y, j));
        assert(has_bit(reach(mv, m, a, l, j), t));
        lemma_ray_has(mv, m, a, l, k, j, t);
        lemma_captured_upto_has(own2, opp, mv, m, a, l, k, longest_line(), t);
        lemma_captured_dirs_has(own2, opp, mv, e, 8, t);
    }
}

} // verus!
