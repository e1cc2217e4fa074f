use vstd::prelude::*;

verus! {

/// A set of squares: bit `x + 8 * y` stands for the square in column `x` and row `y`.
pub type BitBoard = u64;

/// Whether square `i` belongs to the mask `m`.
pub open spec fn has_bit(m: u64, i: u64) -> bool {
    (m >> i) & 1u64 == 1u64
}

/// The number of set bits of `m`.
pub open spec fn popcount(m: u64) -> nat
    decreases m,
{
    if m == 0 {
        0
    } else {
        (m % 2) as nat + popcount(m / 2)
    }
}

/// The lowest set bit of `m`, as a mask (zero when `m` is zero).
pub open spec fn lowest_bit(m: u64) -> u64 {
    m & ((!m + 1) as u64)
}

/// A mask with exactly one set bit.
pub open spec fn is_single(m: u64) -> bool {
    m != 0 && m & ((m - 1) as u64) == 0
}

/// `&` and `|` commute, a mask is within itself, and zero meets nothing and adds nothing.
pub proof fn lemma_commute(x: u64, y: u64)
    by (bit_vector)
    ensures
        x & y == y & x,
        x | y == y | x,
        x & x == x,
        0u64 & x == 0,
        x | 0u64 == x,
{
}

/// A bit taken out of a mask that lies within `moves` is one of `moves`, and what is left
/// still lies within `moves`.
pub proof fn lemma_take_within(m: u64, old: u64, rem: u64, moves: u64)
    by (bit_vector)
    requires
        m & old == m,
        m != 0,
        old & moves == old,
        rem == old ^ m,
    ensures
        m & moves != 0,
        m & moves == m,
        rem & moves == rem,
{
}

/// Lying within a mask is transitive.
pub proof fn lemma_within_trans(x: u64, y: u64, z: u64)
    by (bit_vector)
    requires
        x & y == x,
        y & z == y,
    ensures
        x & z == x,
{
}

/// A mask counts no bit exactly when it is zero.
pub proof fn lemma_popcount_zero(m: u64)
    ensures
        popcount(m) == 0 <==> m == 0,
    decreases m,
{
    if m != 0 {
        assert(m % 2 == 0 ==> m / 2 != 0);
        lemma_popcount_zero(m / 2);
    }
}

/// A mask with one set bit counts one.
pub proof fn lemma_popcount_single(m: u64)
    requires
        is_single(m),
    ensures
        popcount(m) == 1,
    decreases m,
{
    assert((is_single(m) && m % 2 == 1 ==> m == 1) && (is_single(m) && m % 2 == 0 ==> is_single(
        m / 2,
    ))) by (bit_vector);
    if m % 2 == 1 {
        assert(popcount(0) == 0);
    } else {
        lemma_popcount_single(m / 2);
    }
}

/// The count of two disjoint masks together is the sum of their counts.
pub proof fn lemma_popcount_union(a: u64, b: u64)
    requires
        a & b == 0,
    ensures
        popcount(a | b) == popcount(a) + popcount(b),
    decreases a | b,
{
    let u = a | b;
    assert(a & b == 0 ==> (a | b) / 2 == (a / 2) | (b / 2) && (a / 2) & (b / 2) == 0 && (a | b)
        % 2 == a % 2 + b % 2) by (bit_vector);
    assert(u == 0 ==> a == 0 && b == 0) by (bit_vector)
        requires
            u == a | b,
    ;
    if u != 0 {
        assert(u / 2 < u);
        lemma_popcount_union(a / 2, b / 2);
    }
}

/// A mask within another counts no more, and strictly less when the two differ.
pub proof fn lemma_popcount_subset(a: u64, b: u64)
    requires
        a & b == a,
    ensures
        popcount(a) <= popcount(b),
        a != b ==> popcount(a) < popcount(b),
{
    let c = b & !a;
    assert(a & c == 0 && a | c == b && (c == 0 ==> a == b)) by (bit_vector)
        requires
            a & b == a,
            c == b & !a,
    ;
    lemma_popcount_union(a, c);
    lemma_popcount_zero(c);
}

/// A mask with no bit at or above `k` counts at most `k` bits.
pub proof fn lemma_popcount_bound(m: u64, k: u64)
    requires
        k <= 64,
        m >> k == 0,
    ensures
        popcount(m) <= k,
    decreases k,
{
    if k == 0 {
        assert(m >> 0u64 == 0 ==> m == 0) by (bit_vector);
    } else {
        let h = m / 2;
        let k1 = (k - 1) as u64;
        assert(m >> k == 0 && k >= 1 ==> h >> k1 == 0) by (bit_vector)
            requires
                h == m / 2,
                k1 == k - 1,
        ;
        lemma_popcount_bound(h, k1);
    }
}

/// A mask counts at most 64 bits.
pub proof fn lemma_popcount_max(m: u64)
    ensures
        popcount(m) <= 64,
{
    assert(m >> 64u64 == 0) by (bit_vector);
    lemma_popcount_bound(m, 64);
}

/// Relies on `u64::count_ones`: the number of one bits of the value.
#[verifier::external_body]
fn count_ones(m: u64) -> (r: u32)
    ensures
        r as nat == popcount(m),
        r <= 64,
{
    m.count_ones()
}

/// Bit primitives on a bitboard.
pub trait BitBoardTrait: Sized {
    /// The mask the value stands for.
    spec fn mask(&self) -> u64;

    /// Removes the lowest set bit and returns it.
    fn pop_lsb(&mut self) -> (r: BitBoard)
        requires
            old(self).mask() != 0,
        ensures
            r == lowest_bit(old(self).mask()),
            is_single(r),
            r & old(self).mask() == r,
            final(self).mask() == old(self).mask() ^ r,
            final(self).mask() < old(self).mask(),
    ;

    /// The number of set bits.
    fn pop_cnt(self) -> (r: u8)
        ensures
            r as nat == popcount(self.mask()),
            r <= 64,
    ;

    /// Whether the square in column `x` and row `y` is set.
    fn contains(self, x: u8, y: u8) -> (r: bool)
        requires
            x < 8,
            y < 8,
        ensures
            r == has_bit(self.mask(), (x + 8 * y) as u64),
    ;
}

impl BitBoardTrait for BitBoard {
    open spec fn mask(&self) -> u64 {
        *self
    }

    fn pop_lsb(&mut self) -> (r: BitBoard) {
        let x: u64 = *self;
        proof {
            vstd::std_specs::bits::axiom_u64_trailing_zeros(x);
        }
        let tz: u32 = x.trailing_zeros();
        let lsb: u64 = 1u64 << tz;
        let t: u64 = tz as u64;
        assert(lsb == lowest_bit(x) && is_single(lsb) && lsb & x == lsb && (x ^ lsb) < x)
            by (bit_vector)
            requires
                x != 0,
                t < 64,
                lsb == 1u64 << t,
                (x >> t) & 1u64 == 1u64,
                x << ((64 - t) as u64) == 0,
        ;
        *self = x ^ lsb;
        lsb
    }

    fn pop_cnt(self) -> (r: u8) {
        count_ones(self) as u8
    }

    fn contains(self, x: u8, y: u8) -> (r: bool) {
        let i: u64 = (x + 8 * y) as u64;
        let b: u64 = 1u64 << i;
        let m: u64 = self;
        assert((b & m != 0) == has_bit(m, i)) by (bit_vector)
            requires
                i < 64,
                b == 1u64 << i,
        ;
        b & m != 0
    }
}

/// One of the two players.
#[derive(Clone, Copy, PartialEq, Eq, Structural)]
pub enum Color {
    Black,
    White,
}

impl Color {
    /// The other player.
    pub open spec fn opponent(self) -> Color {
        match self {
            Color::Black => Color::White,
            Color::White => Color::Black,
        }
    }

    /// Returns the other player.
    pub fn invert(self) -> (r: Color)
        ensures
            r == self.opponent(),
            r != self,
    {
        match self {
            Color::Black => Color::White,
            Color::White => Color::Black,
        }
    }
}

/// What occupies one square.
#[derive(Clone, Copy, PartialEq, Eq, Structural)]
pub enum Square {
    Empty,
    Black,
    White,
}

/// The number of disks of each player.
pub struct Score(u8, u8);

impl Score {
    /// Black's count.
    pub closed spec fn black(self) -> u8 {
        self.0
    }

    /// White's count.
    pub closed spec fn white(self) -> u8 {
        self.1
    }

    /// The count of the given player.
    pub open spec fn of(self, color: Color) -> u8 {
        match color {
            Color::Black => self.black(),
            Color::White => self.white(),
        }
    }

    /// Makes a score from the two counts.
    pub fn new(black_score: u8, white_score: u8) -> (r: Score)
        ensures
            r.black() == black_score,
            r.white() == white_score,
    {
        Score(black_score, white_score)
    }

    /// Returns the count of the given player.
    pub fn get(&self, color: Color) -> (r: u8)
        ensures
            r == self.of(color),
    {
        match color {
            Color::Black => self.0,
            Color::White => self.1,
        }
    }
}

/// A way of choosing a move: given a board, the legal moves of `color` on it (at least one)
/// and `color`, it returns one of those moves.
pub trait Player {
    /// Which move of `moves` this player may return on `oth` for `color`; unless a player
    /// says more, any of them.
    open spec fn chooses(&self, oth: crate::othello::Othello, moves: BitBoard, color: Color, r: BitBoard) -> bool {
        true
    }

    fn chose_move(&self, oth: crate::othello::Othello, moves: BitBoard, color: Color) -> (r: BitBoard)
        requires
            oth.wf(),
            moves != 0,
            moves == oth.legal(color),
        ensures
            is_single(r),
            r & moves == r,
            self.chooses(oth, moves, color, r),
    ;
}

} // verus!
