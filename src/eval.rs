use vstd::prelude::*;
use crate::game::{lemma_after, lemma_key_injective, lemma_room, Position, Score, BOARD_SIZE, MAX_SCORE, MIN_SCORE, WIDTH};
use crate::transpositions::{lemma_empty_word, lemma_pack, lookup, slot_of, word_eval, word_key, TTable, TTABLE_SIZE};

verus! {

/// Stands for "no legal move"; below every real score.
pub open spec fn no_move() -> int {
    -1000
}

/// The column searched `i`-th: center first, then alternating outward.
pub open spec fn order_col(i: int) -> u64 {
    if i == 0 { 3 }
    else if i == 1 { 2 }
    else if i == 2 { 4 }
    else if i == 3 { 1 }
    else if i == 4 { 5 }
    else if i == 5 { 0 }
    else { 6 }
}

/// The exact game value of `p` for the player to move, with `d` plies left
/// on the board: 0 for a full board, `(d + 1) / 2` for a win with the next
/// stone, else the best of the negated values of the moves.
pub open spec fn value_at(p: Position, d: nat) -> int
    decreases d, 8int,
{
    if d == 0 {
        0
    } else if p.has_win_now() {
        (d + 1) as int / 2
    } else {
        best_child(p, 7, d)
    }
}

/// The best negated child value over the first `n` columns in search order
/// that have room.
pub open spec fn best_child(p: Position, n: int, d: nat) -> int
    decreases d, n,
{
    if n <= 0 || d == 0 {
        no_move()
    } else {
        let rest = best_child(p, n - 1, d);
        let x = order_col(n - 1);
        if p.col_height(x) < 6 {
            let v = -value_at(p.after(x), (d - 1) as nat);
            if v > rest { v } else { rest }
        } else {
            rest
        }
    }
}

/// The value of `p` under perfect play by both sides: positive when the
/// player to move wins, negative when they lose, 0 for a draw; the magnitude
/// is half of one more than the plies left when the game ends.
pub open spec fn game_value(p: Position) -> int {
    value_at(p, (42 - p.moves_spec()) as nat)
}

/// A fail-soft search result `r` for window `(alpha, beta)` against the true value `v`:
/// at most alpha it is an upper bound, at least beta a lower bound, in between exact.
pub open spec fn fail_soft(v: int, alpha: int, beta: int, r: int) -> bool {
    &&& r <= alpha ==> v <= r
    &&& r >= beta ==> v >= r
    &&& alpha < r < beta ==> v == r
}

/// `v` limited to `[lo, hi]`.
pub open spec fn clamp(v: int, lo: int, hi: int) -> int {
    if v < lo { lo } else if v > hi { hi } else { v }
}

/// A stored word is empty, or holds a biased score whose unbiased value is
/// an upper bound on the value of the position with that key.
pub open spec fn entry_sound(w: u64) -> bool {
    w != 0 ==> {
        &&& 1 <= word_eval(w) <= 87
        &&& forall|p: Position| p.wf() && p.key_spec() == word_key(w) ==> #[trigger] game_value(p) <= word_eval(w) - 44
    }
}

/// Every slot of the table is empty or holds a true upper bound.
pub open spec fn table_sound(t: &TTable) -> bool {
    &&& t.slots().len() == TTABLE_SIZE
    &&& forall|i: int| 0 <= i < TTABLE_SIZE ==> entry_sound(#[trigger] t.slots()[i])
}

proof fn lemma_best_mono(p: Position, i: int, n: int, d: nat)
    requires
        0 <= i <= n,
    ensures
        best_child(p, i, d) <= best_child(p, n, d),
    decreases n - i,
{
    if i < n {
        lemma_best_mono(p, i, n - 1, d);
    }
}

proof fn lemma_value_bound(p: Position, d: nat)
    requires
        p.wf(),
        d == 42 - p.moves_spec(),
    ensures
        -((d + 1) / 2) <= value_at(p, d) <= (d + 1) / 2,
    decreases d, 8int,
{
    lemma_room(p);
    if d > 0 && !p.has_win_now() {
        let x = choose|x: u64| x < 7 && #[trigger] p.col_height(x) < 6;
        let i: int = if x == 3 { 0 } else if x == 2 { 1 } else if x == 4 { 2 } else if x == 1 { 3 } else if x == 5 { 4 } else if x == 0 { 5 } else { 6 };
        lemma_best_bound(p, 7, d, i);
    }
}

proof fn lemma_best_bound(p: Position, n: int, d: nat, i: int)
    requires
        p.wf(),
        d == 42 - p.moves_spec(),
        d > 0,
        0 <= n <= 7,
        0 <= i < 7,
        p.col_height(order_col(i)) < 6,
    ensures
        best_child(p, n, d) <= d / 2,
        i < n ==> best_child(p, n, d) >= -(d / 2),
    decreases d, n,
{
    if n > 0 {
        lemma_best_bound(p, n - 1, d, i);
        let x = order_col(n - 1);
        if p.col_height(x) < 6 {
            lemma_after(p, x);
            lemma_value_bound(p.after(x), (d - 1) as nat);
        }
    }
}

/// The value of a well-formed position lies within the score range.
pub proof fn lemma_value_range(p: Position)
    requires
        p.wf(),
    ensures
        -((43 - p.moves_spec()) / 2) <= game_value(p) <= (43 - p.moves_spec()) / 2,
        MIN_SCORE < game_value(p) < MAX_SCORE,
{
    lemma_room(p);
    lemma_value_bound(p, (42 - p.moves_spec()) as nat);
}

/// With the full score window a solve is exact, and with the window
/// `[-1, 1]` it gives the sign of the value.
pub proof fn lemma_windows(p: Position)
    requires
        p.wf(),
    ensures
        clamp(game_value(p), MIN_SCORE as int, MAX_SCORE as int) == game_value(p),
        clamp(game_value(p), -1, 1) == if game_value(p) > 0 { 1int } else if game_value(p) < 0 { -1 } else { 0 },
{
    lemma_value_range(p);
}

fn column_order(i: usize) -> (x: usize)
    requires
        i < 7,
    ensures
        x == order_col(i as int),
        x < 7,
{
    if i == 0 { 3 }
    else if i == 1 { 2 }
    else if i == 2 { 4 }
    else if i == 3 { 1 }
    else if i == 4 { 5 }
    else if i == 5 { 0 }
    else { 6 }
}

/// Negamax search with alpha-beta pruning and the transposition table,
/// fail-soft with respect to the window `(alpha, beta)`.
pub fn negamax_trans(g: &Position, alpha0: Score, beta0: Score, t: &mut TTable) -> (r: Score)
    requires
        g.wf(),
        table_sound(old(t)),
        MIN_SCORE <= alpha0 < beta0 <= MAX_SCORE,
    ensures
        table_sound(final(t)),
        MIN_SCORE <= r <= MAX_SCORE,
        fail_soft(game_value(*g), alpha0 as int, beta0 as int, r as int),
    decreases 42 - g.moves_spec(),
{
    let ghost d: nat = (42 - g.moves_spec()) as nat;
    let ghost v = game_value(*g);
    proof {
        lemma_room(*g);
    }
    if g.num_moves() >= BOARD_SIZE as Score {
        return 0;
    }
    let mut x: usize = 0;
    while x < WIDTH
        invariant
            g.wf(),
            table_sound(t),
            0 <= g.moves_spec() < 42,
            x <= 7,
            forall|c: u64| c < x ==> !#[trigger] g.win_now(c),
        decreases 7 - x,
    {
        if g.can_play(x) && g.is_winning_move(x) {
            assert(g.win_now(x as u64));
            return (MAX_SCORE - g.num_moves()) / 2;
        }
        x = x + 1;
    }
    assert(!g.has_win_now());
    assert(v == best_child(*g, 7, d));
    let mut beta = beta0;
    let mut alpha = alpha0;
    let key = g.get_key();
    let cached_eval = t.get(key);
    let best_score = if cached_eval == 0 {
        proof {
            lemma_value_range(*g);
        }
        (MAX_SCORE - g.num_moves()) / 2
    } else {
        proof {
            let w = t.slots()[slot_of(key)];
            lemma_empty_word();
            assert(w != 0);
            assert(entry_sound(w));
            assert(word_key(w) == key);
            assert(game_value(*g) <= word_eval(w) - 44);
        }
        cached_eval + MIN_SCORE - 1
    };
    assert(v <= best_score);
    if beta > best_score {
        beta = best_score;
        if alpha >= beta {
            return beta;
        }
    }
    let mut i: usize = 0;
    while i < WIDTH
        invariant
            g.wf(),
            d == 42 - g.moves_spec(),
            d > 0,
            v == best_child(*g, 7, d),
            v == game_value(*g),
            table_sound(t),
            i <= 7,
            alpha0 <= alpha < beta <= beta0,
            MIN_SCORE <= alpha0,
            beta0 <= MAX_SCORE,
            beta < beta0 ==> v <= beta,
            best_child(*g, i as int, d) <= alpha,
            alpha > alpha0 ==> best_child(*g, i as int, d) == alpha,
        decreases 7 - i,
    {
        let x = column_order(i);
        if g.can_play(x) {
            let mut g2 = *g;
            g2.play(x);
            proof {
                lemma_after(*g, x as u64);
            }
            let rc = negamax_trans(&g2, -beta, -alpha, t);
            let score = -rc;
            let ghost vc = game_value(g2);
            assert(fail_soft(vc, -beta as int, -alpha as int, rc as int));
            assert(best_child(*g, i + 1, d) == if -vc > best_child(*g, i as int, d) {
                -vc
            } else {
                best_child(*g, i as int, d)
            });
            if score >= beta {
                proof {
                    lemma_best_mono(*g, i + 1, 7, d);
                    assert(vc <= rc);
                    assert(v >= score);
                    if score < beta0 {
                        assert(v <= beta);
                    }
                    assert(fail_soft(v, alpha0 as int, beta0 as int, score as int));
                }
                return score;
            }
            if score > alpha {
                alpha = score;
            }
        }
        i = i + 1;
    }
    let ghost before = t.slots();
    proof {
        lemma_pack(key, (alpha - MIN_SCORE + 1) as i8);
        let w = crate::transpositions::pack(key, (alpha - MIN_SCORE + 1) as i8);
        assert forall|p: Position| p.wf() && p.key_spec() == word_key(w) implies #[trigger] game_value(p) <= word_eval(w) - 44 by {
            lemma_key_injective(p, *g);
        }
    }
    t.put(key, alpha - MIN_SCORE + 1);
    proof {
        assert forall|j: int| 0 <= j < TTABLE_SIZE implies entry_sound(#[trigger] t.slots()[j]) by {
            if j != slot_of(key) {
                assert(t.slots()[j] == before[j]);
            }
        }
    }
    alpha
}

/// Division by two, truncating toward zero.
pub open spec fn half(x: int) -> int {
    if x >= 0 { x / 2 } else { -((-x) / 2) }
}

fn halve(x: Score) -> (r: Score)
    ensures
        r == half(x as int),
{
    if x >= 0 {
        x / 2
    } else if x == -128 {
        -64
    } else {
        -((-x) / 2)
    }
}

/// Narrows the window `[min, max]` by null-window searches down to one
/// score: the game value limited to the window.
pub fn solve(g: &Position, min: Score, max: Score, t: &mut TTable) -> (r: Score)
    requires
        g.wf(),
        table_sound(old(t)),
        MIN_SCORE <= min <= MAX_SCORE,
        MIN_SCORE <= max <= MAX_SCORE,
    ensures
        table_sound(final(t)),
        r == if min <= max { clamp(game_value(*g), min as int, max as int) } else { min as int },
{
    let ghost v = game_value(*g);
    let mut lo = min;
    let mut hi = max;
    while lo < hi
        invariant
            g.wf(),
            v == game_value(*g),
            table_sound(t),
            MIN_SCORE <= lo <= MAX_SCORE,
            MIN_SCORE <= hi <= MAX_SCORE,
            min < max ==> min <= lo <= hi <= max,
            min >= max ==> lo == min && hi == max,
            lo > min ==> v >= lo,
            hi < max ==> v <= hi,
        decreases hi - lo,
    {
        let mut med = lo + (hi - lo) / 2;
        assert(lo <= med < hi);
        if med <= 0 && halve(lo) < med {
            med = halve(lo);
        } else if med >= 0 && halve(hi) > med {
            med = halve(hi);
        }
        let r = negamax_trans(g, med, med + 1, t);
        if r <= med {
            hi = if r < lo { lo } else { r };
        } else {
            lo = if r > hi { hi } else { r };
        }
    }
    lo
}

/// How much a solve determines: the exact score, or only its sign.
#[derive(Debug, PartialEq, Eq, Copy, Clone, Structural)]
pub enum Strength {
    Strong,
    Weak,
}

/// What an evaluation with `strength` returns for `p`: the game value, or
/// in weak mode only whether the player to move wins, loses or draws.
pub open spec fn eval_result(strength: Strength, p: Position) -> int {
    match strength {
        Strength::Strong => game_value(p),
        Strength::Weak => clamp(game_value(p), -1, 1),
    }
}

/// Solves positions with one transposition table, within the score window
/// that its strength selects.
pub struct Evaluator {
    t: TTable,
    strength: Strength,
    gmin: Score,
    gmax: Score,
}

impl Evaluator {
    pub closed spec fn strength_spec(&self) -> Strength {
        self.strength
    }

    /// The table holds only true bounds and the window matches the strength.
    pub closed spec fn wf(&self) -> bool {
        &&& table_sound(&self.t)
        &&& self.strength == Strength::Strong ==> self.gmin == MIN_SCORE && self.gmax == MAX_SCORE
        &&& self.strength == Strength::Weak ==> self.gmin == -1 && self.gmax == 1
    }

    /// Every slot of the table is empty.
    pub closed spec fn table_empty(&self) -> bool {
        self.t.is_empty()
    }

    pub fn new(strength: Strength) -> (r: Self)
        ensures
            r.wf(),
            r.strength_spec() == strength,
            r.table_empty(),
    {
        let t = TTable::new();
        let (gmin, gmax) = match strength {
            Strength::Strong => (MIN_SCORE, MAX_SCORE),
            Strength::Weak => (-1, 1),
        };
        Self { t, strength, gmin, gmax }
    }

    /// Clears the table between independent problems.
    pub fn reset(&mut self)
        requires
            old(self).wf(),
        ensures
            final(self).wf(),
            final(self).table_empty(),
            final(self).strength_spec() == old(self).strength_spec(),
    {
        self.t.reset();
    }

    /// Solves `g` within the configured window. The result depends on the
    /// strength and the position alone, whatever the table held.
    pub fn eval(&mut self, g: &Position) -> (r: Score)
        requires
            old(self).wf(),
            g.wf(),
        ensures
            final(self).wf(),
            final(self).strength_spec() == old(self).strength_spec(),
            r == eval_result(old(self).strength_spec(), *g),
    {
        proof {
            lemma_value_range(*g);
        }
        solve(g, self.gmin, self.gmax, &mut self.t)
    }
}

} // verus!
