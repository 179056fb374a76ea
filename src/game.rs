use vstd::prelude::*;
use vstd::string::StringSliceAdditionalSpecFns;

verus! {

pub const WIDTH: usize = 7;
pub const HEIGHT: usize = 6;
pub const BOARD_SIZE: usize = WIDTH * HEIGHT;
pub const BITMAP_SIZE: usize = WIDTH * (HEIGHT + 1);
pub const BITMAP_SIZE_BYTES: usize = (BITMAP_SIZE + 8 - 1) / 8;

/// One bit per cell, column by column, with a guard bit above each column.
pub type Bitmap = u64;

/// A score from the point of view of the player to move.
pub type Score = i8;

pub const MAX_SCORE: Score = 43;
pub const MIN_SCORE: Score = -43;

/// The 7-bit slice of a bitmap that holds column `c` (six cells and the guard bit).
pub open spec fn slice(m: u64, c: u64) -> u64 {
    (m >> (7 * c) as u64) & 0x7f
}

/// A column's occupancy is a run of cells from the bottom, at most six high.
pub open spec fn col_ok(s: u64) -> bool {
    s == 0 || s == 1 || s == 3 || s == 7 || s == 15 || s == 31 || s == 63
}

/// Number of stones in a column whose occupancy slice is `s`.
pub open spec fn height(s: u64) -> int {
    if s == 0 { 0 }
    else if s == 1 { 1 }
    else if s == 3 { 2 }
    else if s == 7 { 3 }
    else if s == 15 { 4 }
    else if s == 31 { 5 }
    else { 6 }
}

/// Total number of stones in the first `n` columns of occupancy `m`.
pub open spec fn stones(m: u64, n: nat) -> int
    decreases n,
{
    if n == 0 {
        0
    } else {
        stones(m, (n - 1) as nat) + height(slice(m, (n - 1) as u64))
    }
}

pub open spec fn bottom_bit(x: u64) -> u64 {
    1u64 << (7 * x) as u64
}

pub open spec fn top_bit(x: u64) -> u64 {
    32u64 << (7 * x) as u64
}

pub open spec fn column_bits(x: u64) -> u64 {
    63u64 << (7 * x) as u64
}


proof fn lemma_slice_zero(c: u64)
    ensures
        slice(0u64, c) == 0,
{
    assert(slice(0u64, c) == 0) by (bit_vector);
}

/// Dropping a stone into column `x` extends that column's run by one cell and
/// leaves the other columns alone.
proof fn lemma_drop_slice(m: u64, x: u64, c: u64)
    requires
        x < 7,
        c < 7,
        m >> 49u64 == 0,
        col_ok(slice(m, x)),
        slice(m, x) < 32,
    ensures
        slice(m | (m + bottom_bit(x)) as u64, c) == if c == x {
            (2 * slice(m, x) + 1) as u64
        } else {
            slice(m, c)
        },
        (m | (m + bottom_bit(x)) as u64) >> 49u64 == 0,
        m + bottom_bit(x) < 0x1_0000_0000_0000_0000,
{
    assert(m + bottom_bit(x) < 0x1_0000_0000_0000_0000) by (bit_vector)
        requires
            x < 7,
            m >> 49u64 == 0,
    ;
    assert(slice(m | (m + bottom_bit(x)) as u64, c) == if c == x {
        (2 * slice(m, x) + 1) as u64
    } else {
        slice(m, c)
    }) by (bit_vector)
        requires
            x < 7,
            c < 7,
            m >> 49u64 == 0,
            col_ok(slice(m, x)),
            slice(m, x) < 32,
    ;
    assert((m | (m + bottom_bit(x)) as u64) >> 49u64 == 0) by (bit_vector)
        requires
            x < 7,
            m >> 49u64 == 0,
            col_ok(slice(m, x)),
            slice(m, x) < 32,
    ;
}

proof fn lemma_top_bit(m: u64, x: u64)
    requires
        x < 7,
        col_ok(slice(m, x)),
    ensures
        (m & top_bit(x) == 0) == (height(slice(m, x)) < 6),
        (m & top_bit(x) == 0) == (slice(m, x) < 32),
{
    assert((m & top_bit(x) == 0) == (slice(m, x) & 32 == 0)) by (bit_vector)
        requires
            x < 7,
    ;
    let s = slice(m, x);
    assert(col_ok(s) ==> ((s & 32 == 0) == (s < 32))) by (bit_vector);
}

proof fn lemma_stones_drop(m: u64, m2: u64, x: u64, n: nat)
    requires
        x < 7,
        n <= 7,
        forall|c: u64| c < 7 && c != x ==> slice(m2, c) == slice(m, c),
        height(slice(m2, x)) == height(slice(m, x)) + 1,
    ensures
        stones(m2, n) == stones(m, n) + if x < n { 1int } else { 0 },
    decreases n,
{
    if n > 0 {
        lemma_stones_drop(m, m2, x, (n - 1) as nat);
    }
}

proof fn lemma_stones_bound(m: u64, n: nat)
    requires
        n <= 7,
    ensures
        0 <= stones(m, n) <= 6 * n,
        stones(m, n) == 6 * n ==> forall|c: u64| c < n ==> height(#[trigger] slice(m, c)) == 6,
    decreases n,
{
    if n > 0 {
        lemma_stones_bound(m, (n - 1) as nat);
    }
}


/// Bit `i` of `p` is set.
pub open spec fn bit(p: u64, i: u64) -> bool {
    (p >> i) & 1 == 1
}

/// Four set bits of `p`, starting at bit `i`, each `d` bits after the last.
pub open spec fn four_at(p: u64, i: u64, d: u64) -> bool {
    &&& i + 3 * d < 64
    &&& bit(p, i)
    &&& bit(p, (i + d) as u64)
    &&& bit(p, (i + 2 * d) as u64)
    &&& bit(p, (i + 3 * d) as u64)
}

/// Four in a row along stride `d` somewhere in `p`.
pub open spec fn four_along(p: u64, d: u64) -> bool {
    exists|i: u64| #[trigger] four_at(p, i, d)
}

/// Four in a row: horizontally (stride 7), on either diagonal (6 and 8) or
/// vertically (1).
pub open spec fn has_four(p: u64) -> bool {
    four_along(p, 7) || four_along(p, 6) || four_along(p, 8) || four_along(p, 1)
}

/// The cell where a stone dropped into column `x` of occupancy `m` lands.
pub open spec fn drop_cell(m: u64, x: u64) -> u64 {
    ((slice(m, x) + 1) as u64) << (7 * x) as u64
}

proof fn lemma_some_bit(v: u64, i: u64)
    requires
        i < 64,
        v >> i != 0,
    ensures
        exists|j: u64| j < 64 && bit(v, j),
    decreases 64 - i,
{
    if bit(v, i) {
        assert(i < 64 && bit(v, i));
    } else if i == 63 {
        assert(false) by (bit_vector)
            requires
                i == 63,
                v >> i != 0,
                !bit(v, i),
        ;
    } else {
        assert(v >> ((i + 1) as u64) != 0) by (bit_vector)
            requires
                i < 63,
                v >> i != 0,
                !bit(v, i),
        ;
        lemma_some_bit(v, (i + 1) as u64);
    }
}

/// The shift-and test for stride `d` finds exactly the fours along `d`.
proof fn lemma_shift_test(p: u64, d: u64)
    requires
        1 <= d <= 8,
    ensures
        ({
            let m = p & (p >> d);
            m & (m >> (2 * d) as u64) != 0
        }) == four_along(p, d),
{
    let m = p & (p >> d);
    let v = m & (m >> (2 * d) as u64);
    if v != 0 {
        assert(v >> 0u64 != 0) by (bit_vector)
            requires
                v != 0,
        ;
        lemma_some_bit(v, 0);
        let j = choose|j: u64| j < 64 && bit(v, j);
        assert(four_at(p, j, d)) by (bit_vector)
            requires
                1 <= d <= 8,
                j < 64,
                v == (p & (p >> d)) & ((p & (p >> d)) >> (2 * d) as u64),
                bit(v, j),
        ;
    }
    if four_along(p, d) {
        let i = choose|i: u64| #[trigger] four_at(p, i, d);
        assert(v != 0) by (bit_vector)
            requires
                1 <= d <= 8,
                v == (p & (p >> d)) & ((p & (p >> d)) >> (2 * d) as u64),
                four_at(p, i, d),
        ;
    }
}


proof fn lemma_no_guard(m: u64)
    requires
        m >> 49u64 == 0,
        col_ok(slice(m, 0)),
        col_ok(slice(m, 1)),
        col_ok(slice(m, 2)),
        col_ok(slice(m, 3)),
        col_ok(slice(m, 4)),
        col_ok(slice(m, 5)),
        col_ok(slice(m, 6)),
    ensures
        m & 0x1_0204_0810_2040 == 0,
{
    assert(m & 0x1_0204_0810_2040 == 0) by (bit_vector)
        requires
            m >> 49u64 == 0,
            (m >> 0u64) & 0x7f < 64,
            (m >> 7u64) & 0x7f < 64,
            (m >> 14u64) & 0x7f < 64,
            (m >> 21u64) & 0x7f < 64,
            (m >> 28u64) & 0x7f < 64,
            (m >> 35u64) & 0x7f < 64,
            (m >> 42u64) & 0x7f < 64,
    ;
}

/// A key is the sum of stones and occupancy, computed column by column with
/// no carry from one column into the next.
proof fn lemma_key_slice(b: u64, m: u64, c: u64)
    requires
        c < 7,
        b & !m == 0,
        m >> 49u64 == 0,
        m & 0x1_0204_0810_2040 == 0,
    ensures
        slice((b + m) as u64, c) == slice(b, c) + slice(m, c),
        b + m < 0x1_0000_0000_0000_0000,
{
    assert(b + m < 0x1_0000_0000_0000_0000) by (bit_vector)
        requires
            b & !m == 0,
            m >> 49u64 == 0,
    ;
    assert(slice((b + m) as u64, c) == slice(b, c) + slice(m, c)) by (bit_vector)
        requires
            c < 7,
            b & !m == 0,
            m >> 49u64 == 0,
            m & 0x1_0204_0810_2040 == 0,
    ;
}

proof fn lemma_col_unique(b1: u64, m1: u64, b2: u64, m2: u64)
    requires
        col_ok(m1),
        col_ok(m2),
        b1 & !m1 == 0,
        b2 & !m2 == 0,
        b1 + m1 == b2 + m2,
    ensures
        m1 == m2,
        b1 == b2,
{
    assert(m1 == m2 && b1 == b2) by (bit_vector)
        requires
            col_ok(m1),
            col_ok(m2),
            b1 & !m1 == 0,
            b2 & !m2 == 0,
            b1 + m1 == b2 + m2,
    ;
}

proof fn lemma_slices_equal(x: u64, y: u64)
    requires
        x >> 49u64 == 0,
        y >> 49u64 == 0,
        forall|c: u64| c < 7 ==> slice(x, c) == slice(y, c),
    ensures
        x == y,
{
    assert(slice(x, 0) == slice(y, 0));
    assert(slice(x, 1) == slice(y, 1));
    assert(slice(x, 2) == slice(y, 2));
    assert(slice(x, 3) == slice(y, 3));
    assert(slice(x, 4) == slice(y, 4));
    assert(slice(x, 5) == slice(y, 5));
    assert(slice(x, 6) == slice(y, 6));
    assert(x == y) by (bit_vector)
        requires
            x >> 49u64 == 0,
            y >> 49u64 == 0,
            slice(x, 0) == slice(y, 0),
            slice(x, 1) == slice(y, 1),
            slice(x, 2) == slice(y, 2),
            slice(x, 3) == slice(y, 3),
            slice(x, 4) == slice(y, 4),
            slice(x, 5) == slice(y, 5),
            slice(x, 6) == slice(y, 6),
    ;
}


/// How many of the moves in `s` go to the column written as `ch`.
pub open spec fn col_count(s: Seq<u8>, ch: u8) -> int
    decreases s.len(),
{
    if s.len() == 0 {
        0
    } else {
        col_count(s.drop_last(), ch) + if s.last() == ch { 1int } else { 0 }
    }
}

/// A move string: each byte a column digit `1` to `7`, and no column gets a
/// seventh stone.
pub open spec fn legal_moves(s: Seq<u8>) -> bool {
    forall|i: int|
        0 <= i < s.len() ==> {
            &&& 49 <= #[trigger] s[i] <= 55
            &&& col_count(s.take(i + 1), s[i]) <= 6
        }
}


/// Placing a 7-bit column value above the columns filled so far.
proof fn lemma_place_column(acc: u64, v: u64, c: u64, cc: u64)
    requires
        c < 7,
        cc < 7,
        v < 128,
        acc >> (7 * c) as u64 == 0,
    ensures
        slice(acc | (v << (7 * c) as u64), cc) == if cc == c { v } else { slice(acc, cc) },
        (acc | (v << (7 * c) as u64)) >> (7 * (c + 1)) as u64 == 0,
{
    assert(slice(acc | (v << (7 * c) as u64), cc) == if cc == c { v } else { slice(acc, cc) })
        by (bit_vector)
        requires
            c < 7,
            cc < 7,
            v < 128,
            acc >> (7 * c) as u64 == 0,
    ;
    assert((acc | (v << (7 * c) as u64)) >> (7 * (c + 1)) as u64 == 0) by (bit_vector)
        requires
            c < 7,
            v < 128,
            acc >> (7 * c) as u64 == 0,
    ;
}

/// The occupancy of one column is read off the sum of its stones and occupancy.
proof fn lemma_column_of_sum(b: u64, m: u64)
    requires
        col_ok(m),
        b & !m == 0,
    ensures
        b <= m,
        b + m < 128,
{
    assert(b <= m && b + m < 128) by (bit_vector)
        requires
            col_ok(m),
            b & !m == 0,
    ;
}


/// Number of set bits.
pub open spec fn popcount(x: u64) -> nat
    decreases x,
{
    if x == 0 {
        0
    } else {
        (x % 2) as nat + popcount(x / 2)
    }
}

/// Relies on `u64::count_ones`: the number of one bits.
#[verifier::external_body]
fn count_ones(x: u64) -> (r: u32)
    ensures
        r == popcount(x),
{
    x.count_ones()
}

/// Relies on `String::from_utf8`: ASCII bytes are valid UTF-8, so the
/// result is `Ok` with one character per byte.
#[verifier::external_body]
fn ascii_string(raw: Vec<u8>) -> (r: String)
    requires
        forall|i: int| 0 <= i < raw@.len() ==> raw@[i] < 128,
    ensures
        r@ == raw@.map_values(|b: u8| b as char),
{
    String::from_utf8(raw).unwrap()
}


/// Why a move string cannot be played.
#[derive(Clone, Copy, PartialEq, Eq, Debug, Structural)]
pub enum MoveError {
    /// A byte that is not a column digit `1` to `7`.
    BadChar(u8),
    /// A move into a column (counted from 0) that already holds six stones.
    FullColumn(usize),
}

/// `e` is what goes wrong at move `i` of `s`, the moves before it being playable.
pub open spec fn fails_at(s: Seq<u8>, i: int, e: MoveError) -> bool {
    &&& 0 <= i < s.len()
    &&& legal_moves(s.take(i))
    &&& match e {
        MoveError::BadChar(c) => c == s[i] && !(49 <= s[i] <= 55),
        MoveError::FullColumn(x) => 49 <= s[i] <= 55 && x == s[i] - 49 && col_count(s.take(i), s[i]) == 6,
    }
}

/// A grid: who owns which stone and which cells are occupied.
#[derive(Clone, Copy, PartialEq, Eq, Debug, Structural)]
pub struct Position {
    /// Stones placed so far.
    moves: Score,
    /// The stones of the player to move; toggled with the occupancy on every move.
    board: Bitmap,
    /// Every occupied cell.
    mask: Bitmap,
}

impl Position {
    pub closed spec fn moves_spec(&self) -> int {
        self.moves as int
    }

    pub closed spec fn board_spec(&self) -> u64 {
        self.board
    }

    pub closed spec fn mask_spec(&self) -> u64 {
        self.mask
    }

    /// Height of column `x`.
    pub open spec fn col_height(&self, x: u64) -> int {
        height(slice(self.mask_spec(), x))
    }

    /// Every column is a run from the bottom, nothing lies outside the grid,
    /// the stones of the last mover are occupied cells, and the move counter
    /// is the number of stones.
    pub open spec fn wf(&self) -> bool {
        &&& self.mask_spec() >> 49u64 == 0
        &&& forall|c: u64| c < 7 ==> col_ok(#[trigger] slice(self.mask_spec(), c))
        &&& self.board_spec() & !self.mask_spec() == 0
        &&& self.moves_spec() == stones(self.mask_spec(), 7)
    }

    pub open spec fn key_spec(&self) -> int {
        self.board_spec() + self.mask_spec()
    }

    pub fn new() -> (r: Self)
        ensures
            r.wf(),
            r == Position::empty(),
            r.moves_spec() == 0,
            r.board_spec() == 0,
            r.mask_spec() == 0,
    {
        proof {
            assert forall|c: u64| c < 7 implies col_ok(#[trigger] slice(0u64, c)) by {
                assert(slice(0u64, c) == 0) by (bit_vector);
            }
            assert(0u64 >> 49u64 == 0) by (bit_vector);
            assert(0u64 & !0u64 == 0) by (bit_vector);
            assert(stones(0u64, 7) == 0) by {
                reveal_with_fuel(stones, 8);
                assert(slice(0u64, 0) == 0) by (bit_vector);
                assert(slice(0u64, 1) == 0) by (bit_vector);
                assert(slice(0u64, 2) == 0) by (bit_vector);
                assert(slice(0u64, 3) == 0) by (bit_vector);
                assert(slice(0u64, 4) == 0) by (bit_vector);
                assert(slice(0u64, 5) == 0) by (bit_vector);
                assert(slice(0u64, 6) == 0) by (bit_vector);
            }
        }
        Position { moves: 0, board: 0, mask: 0 }
    }


    /// The empty grid.
    pub closed spec fn empty() -> Position {
        Position { moves: 0, board: 0, mask: 0 }
    }

    /// The position reached by playing the columns written in `s` from the empty grid.
    pub open spec fn replay(s: Seq<u8>) -> Position
        decreases s.len(),
    {
        if s.len() == 0 {
            Position::empty()
        } else {
            Position::replay(s.drop_last()).after((s.last() - 49) as u64)
        }
    }

    /// Plays the columns written in `pos` (`1` to `7`, left to right) from the empty grid.
    pub fn from_moves(pos: &str) -> (r: Self)
        requires
            legal_moves(pos.spec_bytes()),
        ensures
            r.wf(),
            r == Position::replay(pos.spec_bytes()),
            r.moves_spec() == pos.spec_bytes().len(),
    {
        let bytes = pos.as_bytes();
        let ghost s = pos.spec_bytes();
        let mut this = Self::new();
        let mut i: usize = 0;
        assert(s.take(0) =~= Seq::<u8>::empty());
        assert forall|c: u64| c < 7 implies #[trigger] this.col_height(c) == col_count(s.take(0), (c + 49) as u8) by {
            lemma_slice_zero(c);
        }
        while i < bytes.len()
            invariant
                bytes@ == s,
                legal_moves(s),
                i <= s.len(),
                this.wf(),
                this == Position::replay(s.take(i as int)),
                this.moves_spec() == i,
                forall|c: u64| c < 7 ==> #[trigger] this.col_height(c) == col_count(s.take(i as int), (c + 49) as u8),
            decreases s.len() - i,
        {
            let c = bytes[i];
            let n = (c - 49) as usize;
            proof {
                assert(49 <= s[i as int] <= 55);
                assert(s.take(i + 1).drop_last() =~= s.take(i as int));
                assert(this.col_height(n as u64) == col_count(s.take(i as int), c));
            }
            this.play(n);
            proof {
                let s2 = s.take(i + 1);
                assert(s2.drop_last() =~= s.take(i as int));
                assert(s2.last() == c);
                assert forall|cc: u64| cc < 7 implies #[trigger] this.col_height(cc) == col_count(s2, (cc + 49) as u8) by {
                    if cc != n as u64 {
                        assert((cc + 49) as u8 != c);
                    }
                }
            }
            i = i + 1;
        }
        assert(s.take(s.len() as int) =~= s);
        this
    }


    /// Rebuilds the position whose key is `pos`, column by column.
    pub fn from_key(pos: Bitmap) -> (r: Self)
        requires
            exists|p: Position| p.wf() && p.key_spec() == pos,
        ensures
            r.wf(),
            r.key_spec() == pos,
            forall|p: Position| p.wf() && p.key_spec() == pos ==> p == r,
    {
        let ghost p = choose|p: Position| p.wf() && p.key_spec() == pos;
        proof {
            assert(col_ok(slice(p.mask, 0)) && col_ok(slice(p.mask, 1)) && col_ok(slice(p.mask, 2))
                && col_ok(slice(p.mask, 3)) && col_ok(slice(p.mask, 4)) && col_ok(slice(p.mask, 5))
                && col_ok(slice(p.mask, 6)));
            lemma_no_guard(p.mask);
            assert(0u64 >> 0u64 == 0) by (bit_vector);
        }
        let mut mask: u64 = 0;
        let mut board: u64 = 0;
        let mut moves: Score = 0;
        let mut c: usize = 0;
        while c < WIDTH
            invariant
                p.wf(),
                p.key_spec() == pos,
                p.mask & 0x1_0204_0810_2040 == 0,
                c <= 7,
                mask >> (7 * c) as u64 == 0,
                board >> (7 * c) as u64 == 0,
                forall|cc: u64| cc < c ==> #[trigger] slice(mask, cc) == slice(p.mask, cc),
                forall|cc: u64| cc < c ==> #[trigger] slice(board, cc) == slice(p.board, cc),
                moves == stones(p.mask, c as nat),
                0 <= moves <= 6 * c,
            decreases 7 - c,
        {
            let ghost cu = c as u64;
            let s = (pos >> ((c * 7) as u64)) & 0x7f;
            proof {
                lemma_key_slice(p.board, p.mask, cu);
                assert(col_ok(slice(p.mask, cu)));
                let (pb, pm) = (slice(p.board, cu), slice(p.mask, cu));
                let (b0, m0) = (p.board, p.mask);
                assert(pb & !pm == 0) by (bit_vector)
                    requires
                        b0 & !m0 == 0,
                        pb == (b0 >> (7 * cu) as u64) & 0x7f,
                        pm == (m0 >> (7 * cu) as u64) & 0x7f,
                ;
                lemma_column_of_sum(pb, pm);
                assert(s == pb + pm);
            }
            let (m, h): (u64, Score) = if s >= 63 {
                (63, 6)
            } else if s >= 31 {
                (31, 5)
            } else if s >= 15 {
                (15, 4)
            } else if s >= 7 {
                (7, 3)
            } else if s >= 3 {
                (3, 2)
            } else if s >= 1 {
                (1, 1)
            } else {
                (0, 0)
            };
            let b = s - m;
            proof {
                assert(m == slice(p.mask, cu));
                assert(b == slice(p.board, cu));
                assert(h == height(m));
                lemma_place_column(mask, m, cu, 0);
                lemma_place_column(board, b, cu, 0);
                assert forall|cc: u64| cc < c + 1 implies #[trigger] slice(mask | (m << (7 * cu) as u64), cc) == slice(p.mask, cc) by {
                    lemma_place_column(mask, m, cu, cc);
                }
                assert forall|cc: u64| cc < c + 1 implies #[trigger] slice(board | (b << (7 * cu) as u64), cc) == slice(p.board, cc) by {
                    lemma_place_column(board, b, cu, cc);
                }
            }
            mask = mask | (m << ((c * 7) as u64));
            board = board | (b << ((c * 7) as u64));
            moves = moves + h;
            c = c + 1;
        }
        proof {
            lemma_slices_equal(mask, p.mask);
            let (pb, pm) = (p.board, p.mask);
            assert(pb >> 49u64 == 0) by (bit_vector)
                requires
                    pb & !pm == 0,
                    pm >> 49u64 == 0,
            ;
            lemma_slices_equal(board, p.board);
            assert forall|q: Position| q.wf() && q.key_spec() == pos implies q == p by {
                lemma_key_injective(q, p);
            }
        }
        Position { moves, board, mask }
    }


    /// True when an odd number of cells is occupied, that is when the first
    /// player made the last move.
    pub fn get_color(&self) -> (r: bool)
        ensures
            r == (popcount(self.mask_spec()) % 2 == 1),
    {
        count_ones(self.mask) % 2 == 1
    }

    /// The character shown for the cell in `row` (0 at the top) and `col`:
    /// `.` when empty, else `X` for the first player's stones and `O` for the
    /// second's.
    pub open spec fn cell_byte(&self, row: int, col: int) -> u8 {
        let i = ((5 - row) + 7 * col) as u64;
        if !bit(self.mask_spec(), i) {
            46
        } else if bit(self.board_spec(), i) != (popcount(self.mask_spec()) % 2 == 1) {
            88
        } else {
            79
        }
    }

    /// The byte at index `j` of the board's text: six rows of seven cells,
    /// top row first, the rows separated by newlines.
    pub open spec fn text_byte(&self, j: int) -> u8 {
        if j % 8 == 7 {
            10
        } else {
            self.cell_byte(j / 8, j % 8)
        }
    }

    /// The grid as text, top row first.
    pub fn board_to_string(&self) -> (r: String)
        ensures
            r@.len() == 47,
            forall|j: int| 0 <= j < 47 ==> r@[j] == self.text_byte(j) as char,
    {
        let color = self.get_color();
        let mut raw = Vec::<u8>::new();
        let mut row: usize = 0;
        while row < HEIGHT
            invariant
                row <= 6,
                color == (popcount(self.mask_spec()) % 2 == 1),
                raw@.len() == if row == 6 { 47 } else { 8 * row },
                forall|j: int| 0 <= j < raw@.len() ==> raw@[j] == #[trigger] self.text_byte(j),
            decreases 6 - row,
        {
            let mut col: usize = 0;
            while col < WIDTH
                invariant
                    row < 6,
                    col <= 7,
                    color == (popcount(self.mask_spec()) % 2 == 1),
                    raw@.len() == 8 * row + col,
                    forall|j: int| 0 <= j < raw@.len() ==> raw@[j] == #[trigger] self.text_byte(j),
                decreases 7 - col,
            {
                let i = ((HEIGHT - 1 - row) + col * 7) as u64;
                let b = (self.board >> i) & 1 == 1;
                let m = (self.mask >> i) & 1 == 1;
                let ch: u8 = if m {
                    if b != color { 88 } else { 79 }
                } else {
                    46
                };
                proof {
                    let j = 8 * row + col;
                    assert(j / 8 == row && j % 8 == col) by (nonlinear_arith)
                        requires
                            j == 8 * row + col,
                            col < 7,
                    ;
                }
                raw.push(ch);
                col = col + 1;
            }
            if row < HEIGHT - 1 {
                proof {
                    let j = 8 * row + 7;
                    assert(j % 8 == 7) by (nonlinear_arith)
                        requires
                            j == 8 * row + 7,
                    ;
                }
                raw.push(10);
            }
            row = row + 1;
        }
        assert forall|i: int| 0 <= i < raw@.len() implies raw@[i] < 128 by {
            assert(raw@[i] == self.text_byte(i));
        }
        ascii_string(raw)
    }


    /// Plays the columns written in `pos` like `from_moves`, or reports the
    /// first move that cannot be played.
    pub fn try_from_moves(pos: &str) -> (r: Result<Self, MoveError>)
        ensures
            r.is_ok() == legal_moves(pos.spec_bytes()),
            r matches Ok(p) ==> p.wf() && p == Position::replay(pos.spec_bytes()),
            r matches Err(e) ==> exists|i: int| fails_at(pos.spec_bytes(), i, e),
    {
        let bytes = pos.as_bytes();
        let ghost s = pos.spec_bytes();
        let mut this = Self::new();
        let mut i: usize = 0;
        assert(s.take(0) =~= Seq::<u8>::empty());
        assert forall|c: u64| c < 7 implies #[trigger] this.col_height(c) == col_count(s.take(0), (c + 49) as u8) by {
            lemma_slice_zero(c);
        }
        while i < bytes.len()
            invariant
                bytes@ == s,
                s == pos.spec_bytes(),
                i <= s.len(),
                legal_moves(s.take(i as int)),
                this.wf(),
                this == Position::replay(s.take(i as int)),
                this.moves_spec() == i,
                forall|c: u64| c < 7 ==> #[trigger] this.col_height(c) == col_count(s.take(i as int), (c + 49) as u8),
            decreases s.len() - i,
        {
            let c = bytes[i];
            if c < 49 || c > 55 {
                proof {
                    assert(s[i as int] == c);
                    assert(fails_at(s, i as int, MoveError::BadChar(c)));
                    assert(!legal_moves(s));
                }
                return Err(MoveError::BadChar(c));
            }
            let n = (c - 49) as usize;
            let ghost s2 = s.take(i + 1);
            proof {
                assert(s2.drop_last() =~= s.take(i as int));
                assert(this.col_height(n as u64) == col_count(s.take(i as int), c));
            }
            if !this.can_play(n) {
                proof {
                    assert(fails_at(s, i as int, MoveError::FullColumn(n)));
                    assert(s2[i as int] == c);
                    assert(col_count(s2.take(i + 1), s2[i as int]) > 6) by {
                        assert(s2.take(i + 1) =~= s2);
                    }
                }
                return Err(MoveError::FullColumn(n));
            }
            this.play(n);
            proof {
                assert(s2.last() == c);
                assert forall|cc: u64| cc < 7 implies #[trigger] this.col_height(cc) == col_count(s2, (cc + 49) as u8) by {
                    if cc != n as u64 {
                        assert((cc + 49) as u8 != c);
                    }
                }
                assert forall|k: int| 0 <= k < s2.len() implies {
                    &&& 49 <= #[trigger] s2[k] <= 55
                    &&& col_count(s2.take(k + 1), s2[k]) <= 6
                } by {
                    if k < i {
                        assert(s2.take(k + 1) =~= s.take(i as int).take(k + 1));
                        assert(s.take(i as int)[k] == s2[k]);
                    } else {
                        assert(s2.take(k + 1) =~= s2);
                    }
                }
            }
            i = i + 1;
        }
        assert(s.take(s.len() as int) =~= s);
        Ok(this)
    }

    pub fn num_moves(&self) -> (r: Score)
        ensures
            r == self.moves_spec(),
    {
        self.moves
    }

    pub fn get_key(&self) -> (r: Bitmap)
        requires
            self.wf(),
        ensures
            r == self.key_spec(),
            r < 0x4_0000_0000_0000,
    {
        proof {
            let b = self.board;
            let m = self.mask;
            assert(b + m < 0x4_0000_0000_0000) by (bit_vector)
                requires
                    m >> 49u64 == 0,
                    b & !m == 0,
            ;
        }
        self.board + self.mask
    }


    /// Whether dropping a stone of the player to move into column `x` makes
    /// four in a row for that player.
    pub fn is_winning_move(&self, x: usize) -> (r: bool)
        requires
            self.wf(),
            x < WIDTH,
            self.col_height(x as u64) < 6,
        ensures
            r == has_four(self.board_spec() | drop_cell(self.mask_spec(), x as u64)),
    {
        let ghost m = self.mask;
        let ghost xx = x as u64;
        proof {
            assert(col_ok(slice(m, xx)));
            lemma_top_bit(m, xx);
            lemma_drop_slice(m, xx, 0);
        }
        let mut pos = self.board;
        pos = pos | ((self.mask + Self::bottom_mask(x)) & Self::column_mask(x));
        proof {
            assert((m + bottom_bit(xx)) as u64 & column_bits(xx) == drop_cell(m, xx)) by (bit_vector)
                requires
                    xx < 7,
                    m >> 49u64 == 0,
                    col_ok(slice(m, xx)),
                    slice(m, xx) < 32,
            ;
        }
        Self::alignment(pos)
    }

    fn alignment(pos: Bitmap) -> (r: bool)
        ensures
            r == has_four(pos),
    {
        proof {
            lemma_shift_test(pos, 7);
            lemma_shift_test(pos, 6);
            lemma_shift_test(pos, 8);
            lemma_shift_test(pos, 1);
        }
        // horizontal
        let m = pos & (pos >> 7u64);
        if m & (m >> 14u64) > 0 {
            return true;
        }
        // first diagonal
        let m = pos & (pos >> 6u64);
        if m & (m >> 12u64) > 0 {
            return true;
        }
        // second diagonal
        let m = pos & (pos >> 8u64);
        if m & (m >> 16u64) > 0 {
            return true;
        }
        // vertical
        let m = pos & (pos >> 1u64);
        if m & (m >> 2u64) > 0 {
            return true;
        }
        false
    }

    fn top_mask(x: usize) -> (r: Bitmap)
        requires
            x < 7,
        ensures
            r == top_bit(x as u64),
    {
        32u64 << ((x * 7) as u64)
    }

    fn bottom_mask(x: usize) -> (r: Bitmap)
        requires
            x < 7,
        ensures
            r == bottom_bit(x as u64),
    {
        1u64 << ((x * 7) as u64)
    }

    fn column_mask(x: usize) -> (r: Bitmap)
        requires
            x < 7,
        ensures
            r == column_bits(x as u64),
    {
        63u64 << ((x * 7) as u64)
    }

    /// Whether column `x` has room for another stone.
    pub fn can_play(&self, x: usize) -> (r: bool)
        requires
            self.wf(),
            x < WIDTH,
        ensures
            r == (self.col_height(x as u64) < 6),
    {
        proof {
            assert(col_ok(slice(self.mask, x as u64)));
            lemma_top_bit(self.mask, x as u64);
        }
        self.mask & Self::top_mask(x) == 0
    }

    /// Drops a stone of the player to move into column `x`.
    pub fn play(&mut self, x: usize)
        requires
            old(self).wf(),
            x < WIDTH,
            old(self).col_height(x as u64) < 6,
        ensures
            *final(self) == old(self).after(x as u64),
            final(self).wf(),
            final(self).moves_spec() == old(self).moves_spec() + 1,
            final(self).col_height(x as u64) == old(self).col_height(x as u64) + 1,
            forall|c: u64| c < 7 && c != x ==> #[trigger] final(self).col_height(c) == old(self).col_height(c),
            final(self).board_spec() == old(self).board_spec() ^ old(self).mask_spec(),
    {
        proof {
            lemma_after(*self, x as u64);
        }
        let bm = Self::bottom_mask(x);
        self.board = self.board ^ self.mask;
        self.mask = self.mask | (self.mask + bm);
        self.moves = self.moves + 1;
    }

    /// The position after a stone drops into column `x`: the stones of the
    /// player to move become those of the player who just moved, and the
    /// column's run grows by one cell.
    pub closed spec fn after(&self, x: u64) -> Position {
        Position {
            moves: (self.moves + 1) as i8,
            board: self.board ^ self.mask,
            mask: self.mask | (self.mask + bottom_bit(x)) as u64,
        }
    }

    /// Dropping a stone into column `x` makes four in a row for the player to move.
    pub open spec fn win_now(&self, x: u64) -> bool {
        self.col_height(x) < 6 && has_four(self.board_spec() | drop_cell(self.mask_spec(), x))
    }

    /// The player to move can win with the next stone.
    pub open spec fn has_win_now(&self) -> bool {
        exists|x: u64| x < 7 && #[trigger] self.win_now(x)
    }
}

/// What a move does to a well-formed position.
pub proof fn lemma_after(p: Position, x: u64)
    requires
        p.wf(),
        x < 7,
        p.col_height(x) < 6,
    ensures
        p.after(x).wf(),
        p.after(x).moves_spec() == p.moves_spec() + 1,
        p.after(x).col_height(x) == p.col_height(x) + 1,
        forall|c: u64| c < 7 && c != x ==> #[trigger] p.after(x).col_height(c) == p.col_height(c),
        p.after(x).board_spec() == p.board_spec() ^ p.mask_spec(),
        p.mask_spec() + bottom_bit(x) < 0x1_0000_0000_0000_0000,
        p.moves_spec() < 42,
{
    let m = p.mask;
    let b = p.board;
    assert(col_ok(slice(m, x)));
    lemma_top_bit(m, x);
    lemma_drop_slice(m, x, 0);
    lemma_stones_bound(m, 7);
    let m2 = p.after(x).mask;
    assert forall|c: u64| c < 7 implies col_ok(#[trigger] slice(m2, c)) && (c != x ==> slice(m2, c) == slice(m, c)) by {
        lemma_drop_slice(m, x, c);
        assert(col_ok(slice(m, c)));
    }
    lemma_drop_slice(m, x, x);
    lemma_stones_drop(m, m2, x, 7);
    assert((b ^ m) & !m2 == 0) by (bit_vector)
        requires
            b & !m == 0,
            m2 == m | (m + bottom_bit(x)) as u64,
    ;
}

proof fn lemma_stones_full(m: u64, n: nat)
    requires
        n <= 7,
        forall|c: u64| c < n ==> height(#[trigger] slice(m, c)) == 6,
    ensures
        stones(m, n) == 6 * n,
    decreases n,
{
    if n > 0 {
        lemma_stones_full(m, (n - 1) as nat);
        assert(height(slice(m, (n - 1) as u64)) == 6);
    }
}

/// A well-formed position is at most full, and one that is not full has a
/// column with room.
pub proof fn lemma_room(p: Position)
    requires
        p.wf(),
    ensures
        0 <= p.moves_spec() <= 42,
        p.moves_spec() < 42 ==> exists|x: u64| x < 7 && #[trigger] p.col_height(x) < 6,
{
    lemma_stones_bound(p.mask_spec(), 7);
    if p.moves_spec() < 42 {
        if forall|x: u64| x < 7 ==> #[trigger] p.col_height(x) >= 6 {
            assert forall|c: u64| c < 7 implies height(#[trigger] slice(p.mask, c)) == 6 by {
                assert(p.col_height(c) >= 6);
            }
            lemma_stones_full(p.mask, 7);
        }
    }
}

/// Two well-formed positions with the same key are the same position.
pub proof fn lemma_key_injective(p: Position, q: Position)
    requires
        p.wf(),
        q.wf(),
        p.key_spec() == q.key_spec(),
    ensures
        p == q,
{
    let (b1, m1, b2, m2) = (p.board, p.mask, q.board, q.mask);
    assert(col_ok(slice(m1, 0)) && col_ok(slice(m1, 1)) && col_ok(slice(m1, 2)) && col_ok(slice(m1, 3))
        && col_ok(slice(m1, 4)) && col_ok(slice(m1, 5)) && col_ok(slice(m1, 6)));
    assert(col_ok(slice(m2, 0)) && col_ok(slice(m2, 1)) && col_ok(slice(m2, 2)) && col_ok(slice(m2, 3))
        && col_ok(slice(m2, 4)) && col_ok(slice(m2, 5)) && col_ok(slice(m2, 6)));
    lemma_no_guard(m1);
    lemma_no_guard(m2);
    assert forall|c: u64| c < 7 implies slice(m1, c) == slice(m2, c) && slice(b1, c) == slice(b2, c) by {
        lemma_key_slice(b1, m1, c);
        lemma_key_slice(b2, m2, c);
        let (x1, y1, x2, y2) = (slice(b1, c), slice(m1, c), slice(b2, c), slice(m2, c));
        assert(x1 & !y1 == 0) by (bit_vector)
            requires
                b1 & !m1 == 0,
                x1 == (b1 >> (7 * c) as u64) & 0x7f,
                y1 == (m1 >> (7 * c) as u64) & 0x7f,
        ;
        assert(x2 & !y2 == 0) by (bit_vector)
            requires
                b2 & !m2 == 0,
                x2 == (b2 >> (7 * c) as u64) & 0x7f,
                y2 == (m2 >> (7 * c) as u64) & 0x7f,
        ;
        assert(col_ok(y1) && col_ok(y2));
        lemma_col_unique(x1, y1, x2, y2);
    }
    lemma_slices_equal(m1, m2);
    assert(b1 >> 49u64 == 0 && b2 >> 49u64 == 0) by (bit_vector)
        requires
            b1 & !m1 == 0,
            m1 >> 49u64 == 0,
            b2 & !m2 == 0,
            m2 >> 49u64 == 0,
    ;
    lemma_slices_equal(b1, b2);
}

/// The four bits along stride `d` that start at bit `i`.
pub open spec fn line_bits(i: u64, d: u64) -> u64 {
    (1u64 << i) | (1u64 << (i + d) as u64) | (1u64 << (i + 2 * d) as u64) | (1u64 << (i + 3 * d) as u64)
}

proof fn lemma_three_bits_no_four(i: u64, d: u64, k: u64, j: u64, e: u64)
    requires
        d == 1 || d == 6 || d == 7 || d == 8,
        e == 1 || e == 6 || e == 7 || e == 8,
        i + 3 * d < 64,
        k < 4,
    ensures
        !four_at(line_bits(i, d) & !(1u64 << (i + k * d) as u64), j, e),
{
    let q = line_bits(i, d) & !(1u64 << (i + k * d) as u64);
    assert(!four_at(q, j, e)) by (bit_vector)
        requires
            d == 1 || d == 6 || d == 7 || d == 8,
            e == 1 || e == 6 || e == 7 || e == 8,
            i + 3 * d < 64,
            k < 4,
            q == ((1u64 << i) | (1u64 << (i + d) as u64) | (1u64 << (i + 2 * d) as u64) | (1u64 << (i + 3 * d) as u64))
                & !(1u64 << (i + k * d) as u64),
    ;
}

/// Four stones in a line, in any of the four directions, make four in a
/// row, and with any one of them taken away the other three do not.
pub proof fn lemma_line_detection(i: u64, d: u64, k: u64)
    requires
        d == 1 || d == 6 || d == 7 || d == 8,
        i + 3 * d < 64,
        k < 4,
    ensures
        has_four(line_bits(i, d)),
        !has_four(line_bits(i, d) & !(1u64 << (i + k * d) as u64)),
{
    let p = line_bits(i, d);
    assert(four_at(p, i, d)) by (bit_vector)
        requires
            d <= 8,
            i + 3 * d < 64,
            p == (1u64 << i) | (1u64 << (i + d) as u64) | (1u64 << (i + 2 * d) as u64) | (1u64 << (i + 3 * d) as u64),
    ;
    assert(four_along(p, d));
    let q = p & !(1u64 << (i + k * d) as u64);
    assert forall|j: u64, e: u64| e == 1 || e == 6 || e == 7 || e == 8 implies !#[trigger] four_at(q, j, e) by {
        lemma_three_bits_no_four(i, d, k, j, e);
    }
}

} // verus!
