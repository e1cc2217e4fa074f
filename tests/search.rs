use othello::{
    alphabeta, evaluate, evaluate_end, move_value, no_screen_play, parse_square, pick_best,
    side_to_move, winner, AlphaBetaPlayer, BitBoard, Score,
    BitBoardTrait, Color, Othello, Player, TerminalPlayer,
};

/// Looks for a board, within `depth` plies, on which `pred` holds; returns it with the
/// board and move that led to it.
fn find(
    oth: Othello,
    color: Color,
    depth: usize,
    pred: &dyn Fn(&Othello) -> bool,
) -> Option<(Othello, Color, BitBoard, Othello)> {
    if depth == 0 {
        return None;
    }
    let mut moves: BitBoard = oth.gen_moves(color);
    while moves != 0 {
        let mv = moves.pop_lsb();
        let next = oth.make_move(color, mv);
        if pred(&next) {
            return Some((oth, color, mv, next));
        }
        if let Some(found) = find(next, color.invert(), depth - 1, pred) {
            return Some(found);
        }
    }
    None
}

fn over(b: &Othello) -> bool {
    b.gen_moves(Color::Black) == 0 && b.gen_moves(Color::White) == 0
}

#[test]
fn leaf_evaluation_of_an_opening_move() {
    let oth = Othello::new();
    // inner ring: Black 4, White 1; mobility 3 against 3
    assert_eq!(move_value(oth, Color::Black, 1u64 << 19, 0), -3);
}

#[test]
fn search_picks_a_legal_move() {
    let oth = Othello::new();
    for depth in 0..4u8 {
        let player = AlphaBetaPlayer::new(depth);
        for color in [Color::Black, Color::White] {
            let moves = oth.gen_moves(color);
            let mv = player.chose_move(oth, moves, color);
            assert_eq!(mv.count_ones(), 1);
            assert_ne!(mv & moves, 0);
        }
    }
}

#[test]
fn search_is_deterministic_and_first_best() {
    let oth = Othello::new().make_move(Color::Black, 1u64 << 19);
    let moves = oth.gen_moves(Color::White);
    let player = AlphaBetaPlayer::new(3);
    let a = player.search(oth, moves, Color::White);
    let b = player.search(oth, moves, Color::White);
    assert_eq!(a, b);
    let mut rem = moves;
    let mut best = 0u64;
    let mut val = i32::MAX;
    while rem != 0 {
        let m = rem.pop_lsb();
        let v = move_value(oth, Color::White, m, 3);
        assert_eq!(v, move_value(oth, Color::White, m, 3));
        if best == 0 || v < val {
            best = m;
            val = v;
        }
    }
    assert_eq!(a, best);
}

#[test]
fn pass_keeps_board_and_gives_turn_away() {
    let found = find(Othello::new(), Color::Black, 9, &|b: &Othello| {
        (b.gen_moves(Color::Black) == 0) != (b.gen_moves(Color::White) == 0)
    });
    let (_, _, _, b) = found.expect("a position with a pass");
    let stuck = if b.gen_moves(Color::Black) == 0 { Color::Black } else { Color::White };
    let before = (b.get_bitboard(Color::Black), b.get_bitboard(Color::White));
    assert!(side_to_move(&b, stuck) == Some(stuck.invert()));
    assert!(side_to_move(&b, stuck.invert()) == Some(stuck.invert()));
    assert_eq!((b.get_bitboard(Color::Black), b.get_bitboard(Color::White)), before);
}

#[test]
fn finished_game_takes_the_sentinel_values() {
    let found = find(Othello::new(), Color::Black, 9, &over);
    let (parent, color, mv, end) = found.expect("a game over within nine plies");
    assert!(side_to_move(&end, Color::Black).is_none());
    assert!(side_to_move(&end, Color::White).is_none());
    let s = end.score();
    let expected = if s.get(Color::Black) > s.get(Color::White) {
        i32::MAX
    } else if s.get(Color::Black) < s.get(Color::White) {
        i32::MIN
    } else {
        0
    };
    assert_ne!(expected, 0);
    assert_eq!(move_value(parent, color, mv, 2), expected);
    assert_eq!(move_value(parent, color, mv, 5), expected);
}

#[test]
fn start_side_to_move() {
    let oth = Othello::new();
    assert!(side_to_move(&oth, Color::Black) == Some(Color::Black));
    assert!(side_to_move(&oth, Color::White) == Some(Color::White));
}

#[test]
fn whole_game_between_searchers() {
    let s = no_screen_play(&AlphaBetaPlayer::new(1), &AlphaBetaPlayer::new(2));
    let total = s.get(Color::Black) as u32 + s.get(Color::White) as u32;
    assert!(total >= 4 && total <= 64);
    let again = no_screen_play(&AlphaBetaPlayer::new(1), &AlphaBetaPlayer::new(2));
    assert_eq!(again.get(Color::Black), s.get(Color::Black));
    assert_eq!(again.get(Color::White), s.get(Color::White));
}

#[test]
fn square_designators() {
    assert_eq!(parse_square(b"a1"), Some(1));
    assert_eq!(parse_square(b"h8"), Some(1u64 << 63));
    assert_eq!(parse_square(b"e3"), Some(1u64 << 20));
    assert_eq!(parse_square(b"i1"), None);
    assert_eq!(parse_square(b"a9"), None);
    assert_eq!(parse_square(b"a0"), None);
    assert_eq!(parse_square(b"A1"), None);
    assert_eq!(parse_square(b"e3\n"), None);
    assert_eq!(parse_square(b""), None);
}

#[test]
fn terminal_player_checks_legality() {
    let oth = Othello::new();
    let moves = oth.gen_moves(Color::Black);
    let p = TerminalPlayer;
    assert_eq!(p.pick(b"d3", moves), Some(1u64 << 19));
    assert_eq!(p.pick(b"e6", moves), Some(1u64 << 44));
    assert_eq!(p.pick(b"e3", moves), None);
    assert_eq!(p.pick(b"a1", moves), None);
    assert_eq!(p.pick(b"zz", moves), None);
}

#[test]
fn reduction_prefers_first_best() {
    let results: Vec<(BitBoard, i32)> = vec![(1, 5), (2, 7), (4, 7), (8, -3), (16, -3)];
    assert_eq!(pick_best(&results, Color::Black), 2);
    assert_eq!(pick_best(&results, Color::White), 8);
    let one: Vec<(BitBoard, i32)> = vec![(32, i32::MIN)];
    assert_eq!(pick_best(&one, Color::Black), 32);
    assert_eq!(pick_best(&one, Color::White), 32);
}

#[test]
fn search_leaves_and_stalls() {
    let oth = Othello::new().make_move(Color::Black, 1u64 << 19);
    // at depth 0 the static value comes back whatever the window
    assert_eq!(evaluate(oth), -3);
    assert_eq!(alphabeta(oth, 10, 20, Color::White, 0), -3);
    assert_eq!(alphabeta(oth, -100, -50, Color::Black, 0), -3);
    // a full window gives the value of each move
    let a = alphabeta(oth, i32::MIN, i32::MAX, Color::White, 3);
    assert_eq!(a, alphabeta(oth, i32::MIN, i32::MAX, Color::White, 3));

    let found = find(Othello::new(), Color::Black, 9, &over);
    let (_, _, _, end) = found.expect("a game over within nine plies");
    let s = end.score();
    let sentinel = if s.get(Color::Black) > s.get(Color::White) { i32::MAX } else { i32::MIN };
    assert_eq!(evaluate_end(end), sentinel);
    assert_eq!(alphabeta(end, -5, 5, Color::Black, 2), sentinel);
    assert_eq!(alphabeta(end, -5, 5, Color::White, 1), evaluate(end));
    assert_eq!(alphabeta(end, -5, 5, Color::White, 0), evaluate(end));
}

#[test]
fn pass_searches_the_opponent_one_ply_shallower() {
    let found = find(Othello::new(), Color::Black, 9, &|b: &Othello| {
        (b.gen_moves(Color::Black) == 0) != (b.gen_moves(Color::White) == 0)
    });
    let (_, _, _, b) = found.expect("a position with a pass");
    let stuck = if b.gen_moves(Color::Black) == 0 { Color::Black } else { Color::White };
    for depth in 1..4u8 {
        assert_eq!(
            alphabeta(b, -1000, 1000, stuck, depth),
            alphabeta(b, -1000, 1000, stuck.invert(), depth - 1)
        );
    }
}

#[test]
fn winner_by_score() {
    assert!(winner(&Score::new(40, 24)) == Some(Color::Black));
    assert!(winner(&Score::new(13, 51)) == Some(Color::White));
    assert!(winner(&Score::new(32, 32)).is_none());
}
