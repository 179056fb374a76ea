use connect4::eval::{negamax_trans, solve, Evaluator, Strength};
use connect4::game::{MoveError, Position, Score, MAX_SCORE, MIN_SCORE, WIDTH};
use connect4::transpositions::{Entry, TTable, TTABLE_SIZE};

const DRAW_GAME: &str = "656173566152215676422337377473141445425321";

fn winning_columns(p: &Position) -> Vec<usize> {
    (0..WIDTH).filter(|&x| p.can_play(x) && p.is_winning_move(x)).collect()
}

/// Plain negamax without pruning or table.
fn reference_value(p: &Position) -> i32 {
    let moves = p.num_moves() as i32;
    if moves >= 42 {
        return 0;
    }
    for x in 0..WIDTH {
        if p.can_play(x) && p.is_winning_move(x) {
            return (43 - moves) / 2;
        }
    }
    let mut best = -1000;
    for x in 0..WIDTH {
        if p.can_play(x) {
            let mut c = *p;
            c.play(x);
            best = best.max(-reference_value(&c));
        }
    }
    best
}

#[test]
fn horizontal_win_detected() {
    let p = Position::from_moves("112233");
    assert_eq!(winning_columns(&p), vec![3]);
}

#[test]
fn horizontal_three_is_not_a_win() {
    let p = Position::from_moves("1122");
    assert_eq!(winning_columns(&p), Vec::<usize>::new());
}

#[test]
fn vertical_win_detected() {
    let p = Position::from_moves("121212");
    assert_eq!(winning_columns(&p), vec![0]);
}

#[test]
fn vertical_three_is_not_a_win() {
    let p = Position::from_moves("12121");
    assert!(!p.is_winning_move(0));
    let q = Position::from_moves("1212");
    assert!(!q.is_winning_move(0));
}

#[test]
fn rising_diagonal_win_detected() {
    let p = Position::from_moves("431324742641");
    assert_eq!(winning_columns(&p), vec![2]);
}

#[test]
fn falling_diagonal_win_detected() {
    let p = Position::from_moves("3564533432");
    assert_eq!(winning_columns(&p), vec![3]);
}

#[test]
fn key_round_trip_along_a_game() {
    for n in 0..=DRAW_GAME.len() {
        let p = Position::from_moves(&DRAW_GAME[..n]);
        let q = Position::from_key(p.get_key());
        assert_eq!(q.get_key(), p.get_key());
        assert!(q == p);
        assert_eq!(q.num_moves(), n as Score);
    }
}

#[test]
fn moves_counted() {
    let p = Position::from_moves("112233");
    assert_eq!(p.num_moves(), 6);
    assert!(!p.get_color());
    let q = Position::from_moves("1122334");
    assert!(q.get_color());
}

#[test]
fn full_column_cannot_be_played() {
    let p = Position::from_moves("121212");
    assert!(p.can_play(0));
    let q = Position::from_moves("111111");
    assert!(!q.can_play(0));
    assert!(q.can_play(1));
}

#[test]
fn board_text() {
    let p = Position::from_moves("112");
    let expected = ".......\n.......\n.......\n.......\nO......\nXX.....";
    assert_eq!(p.board_to_string(), expected);
}

#[test]
fn entry_packing() {
    let e = Entry::from_pos(0x1234_5678_9abc, 17);
    assert_eq!(e.get_key(), 0x1234_5678_9abc);
    assert_eq!(e.get_eval(), 17);
}

#[test]
fn table_collision_overwrites() {
    let mut t = TTable::new();
    let k1: u64 = 12345;
    let k2: u64 = k1 + TTABLE_SIZE as u64;
    t.put(k1, 30);
    t.put(k2, 40);
    assert_eq!(t.get(k1), 0);
    assert_eq!(t.get(k2), 40);
}

#[test]
fn table_reset_forgets() {
    let mut t = TTable::new();
    let keys: [u64; 3] = [1, 99999, 0x3_0000_0000];
    for (i, k) in keys.iter().enumerate() {
        t.put(*k, 10 + i as Score);
    }
    assert_eq!(t.get(99999), 11);
    t.reset();
    for k in keys.iter() {
        assert_eq!(t.get(*k), 0);
    }
}

#[test]
fn solve_agrees_with_plain_negamax() {
    let mut t = TTable::new();
    for n in 32..=DRAW_GAME.len() {
        let p = Position::from_moves(&DRAW_GAME[..n]);
        t.reset();
        let s = solve(&p, MIN_SCORE, MAX_SCORE, &mut t);
        assert_eq!(s as i32, reference_value(&p), "prefix of length {}", n);
    }
}

#[test]
fn negamax_full_window_is_exact() {
    let mut t = TTable::new();
    for n in 34..=DRAW_GAME.len() {
        let p = Position::from_moves(&DRAW_GAME[..n]);
        t.reset();
        let s = negamax_trans(&p, MIN_SCORE, MAX_SCORE, &mut t);
        assert_eq!(s as i32, reference_value(&p));
    }
}

#[test]
fn full_board_draw_is_zero() {
    let p = Position::from_moves(DRAW_GAME);
    assert_eq!(p.num_moves(), 42);
    let mut e = Evaluator::new(Strength::Strong);
    e.reset();
    assert_eq!(e.eval(&p), 0);
}

#[test]
fn immediate_win_strong_and_weak() {
    let p = Position::from_moves("112233");
    let mut strong = Evaluator::new(Strength::Strong);
    strong.reset();
    assert_eq!(strong.eval(&p), (43 - 6) / 2);
    assert_eq!(strong.eval(&p), 18);
    let mut weak = Evaluator::new(Strength::Weak);
    weak.reset();
    assert_eq!(weak.eval(&p), 1);
}

#[test]
fn weak_mode_gives_the_sign() {
    let mut strong = Evaluator::new(Strength::Strong);
    let mut weak = Evaluator::new(Strength::Weak);
    for n in 30..=DRAW_GAME.len() {
        let p = Position::from_moves(&DRAW_GAME[..n]);
        strong.reset();
        weak.reset();
        let s = strong.eval(&p);
        assert_eq!(weak.eval(&p), s.signum());
    }
    let lost = Position::from_moves(&DRAW_GAME[..31]);
    let mut w = Evaluator::new(Strength::Weak);
    w.reset();
    assert_eq!(w.eval(&lost), -1);
    strong.reset();
    assert_eq!(strong.eval(&lost), -5);
}

#[test]
fn eval_twice_with_reset() {
    let p = Position::from_moves(&DRAW_GAME[..30]);
    let mut e = Evaluator::new(Strength::Strong);
    e.reset();
    let a = e.eval(&p);
    e.reset();
    let b = e.eval(&p);
    assert_eq!(a, b);
    let c = e.eval(&p);
    assert_eq!(a, c);
}

#[test]
fn move_string_errors() {
    assert_eq!(Position::try_from_moves("1238"), Err(MoveError::BadChar(b'8')));
    assert_eq!(Position::try_from_moves("12a"), Err(MoveError::BadChar(b'a')));
    assert_eq!(Position::try_from_moves("4444444"), Err(MoveError::FullColumn(3)));
    let p = Position::try_from_moves("112233").unwrap();
    assert!(p == Position::from_moves("112233"));
    assert!(Position::try_from_moves("").unwrap() == Position::new());
}

#[test]
fn entry_bit_string() {
    let e = Entry::from_pos(5, 3);
    let s = e.bit_string();
    assert_eq!(s.len(), 64);
    assert!(s.ends_with("101"));
    assert!(s[..61].chars().all(|c| c == '0'));
}

#[test]
fn full_column_key_round_trip() {
    let p = Position::from_moves("444444");
    let q = Position::from_key(p.get_key());
    assert!(q == p);
    assert_eq!(q.board_to_string(), p.board_to_string());
}
