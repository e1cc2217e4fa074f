use othello::{BitBoard, BitBoardTrait, Color, Othello, Score, Square};

fn count(m: u64) -> u32 {
    m.count_ones()
}

/// Every board reachable in `depth` plies from `oth`, with the side to move.
fn walk(oth: Othello, color: Color, depth: usize, out: &mut Vec<(Othello, Color)>) {
    out.push((oth, color));
    if depth == 0 {
        return;
    }
    let mut moves: BitBoard = oth.gen_moves(color);
    while moves != 0 {
        let mv = moves.pop_lsb();
        walk(oth.make_move(color, mv), color.invert(), depth - 1, out);
    }
}

#[test]
fn start_position() {
    let oth = Othello::new();
    assert_eq!(oth.get_bitboard(Color::Black), 0x0000_0008_1000_0000);
    assert_eq!(oth.get_bitboard(Color::White), 0x0000_0010_0800_0000);
    assert!(matches!(oth.get_square(4, 3), Square::Black));
    assert!(matches!(oth.get_square(3, 4), Square::Black));
    assert!(matches!(oth.get_square(3, 3), Square::White));
    assert!(matches!(oth.get_square(4, 4), Square::White));
    assert!(matches!(oth.get_square(0, 0), Square::Empty));
    let s = oth.score();
    assert_eq!(s.get(Color::Black), 2);
    assert_eq!(s.get(Color::White), 2);
}

#[test]
fn black_has_four_opening_moves() {
    let oth = Othello::new();
    let moves = oth.gen_moves(Color::Black);
    assert_eq!(moves.pop_cnt(), 4);
    assert_eq!(moves, (1u64 << 19) | (1u64 << 26) | (1u64 << 37) | (1u64 << 44));
    assert_eq!(oth.gen_moves(Color::White).pop_cnt(), 4);
}

#[test]
fn opening_move_flips_one_disk() {
    let oth = Othello::new();
    let next = oth.make_move(Color::Black, 1u64 << 19);
    assert_eq!(
        next.get_bitboard(Color::Black),
        (1u64 << 19) | (1u64 << 27) | (1u64 << 28) | (1u64 << 35)
    );
    assert_eq!(next.get_bitboard(Color::White), 1u64 << 36);
    let s = next.score();
    assert_eq!(s.get(Color::Black), 4);
    assert_eq!(s.get(Color::White), 1);
    // the board played on is left as it was
    assert_eq!(oth.get_bitboard(Color::Black), 0x0000_0008_1000_0000);
    // White then has c3, e3 and c5
    assert_eq!(next.gen_moves(Color::White), (1u64 << 18) | (1u64 << 20) | (1u64 << 34));
}

#[test]
fn masks_stay_disjoint() {
    let mut all = Vec::new();
    walk(Othello::new(), Color::Black, 5, &mut all);
    for (oth, _) in all.iter() {
        assert_eq!(oth.get_bitboard(Color::Black) & oth.get_bitboard(Color::White), 0);
    }
}

#[test]
fn moves_land_on_empty_squares() {
    let mut all = Vec::new();
    walk(Othello::new(), Color::Black, 5, &mut all);
    for (oth, color) in all.iter() {
        let occupied = oth.get_bitboard(Color::Black) | oth.get_bitboard(Color::White);
        assert_eq!(oth.gen_moves(*color) & occupied, 0);
        assert_eq!(oth.gen_moves(color.invert()) & occupied, 0);
    }
}

#[test]
fn moves_grow_the_mover_and_add_one_disk() {
    let mut all = Vec::new();
    walk(Othello::new(), Color::Black, 4, &mut all);
    for (oth, color) in all.iter() {
        let mut moves = oth.gen_moves(*color);
        while moves != 0 {
            let mv = moves.pop_lsb();
            let next = oth.make_move(*color, mv);
            assert!(count(next.get_bitboard(*color)) > count(oth.get_bitboard(*color)));
            let before = count(oth.get_bitboard(Color::Black)) + count(oth.get_bitboard(Color::White));
            let after = count(next.get_bitboard(Color::Black)) + count(next.get_bitboard(Color::White));
            assert_eq!(after, before + 1);
            assert!(next.get_bitboard(*color) & mv != 0);
        }
    }
}

#[test]
fn bit_primitives() {
    let mut m: BitBoard = 0b1011_0100;
    assert_eq!(m.pop_lsb(), 0b100);
    assert_eq!(m, 0b1011_0000);
    assert_eq!(m.pop_lsb(), 0b1_0000);
    assert_eq!(m.pop_cnt(), 2);
    assert_eq!(0u64.pop_cnt(), 0);
    assert_eq!(u64::MAX.pop_cnt(), 64);
    let mut top: BitBoard = 1u64 << 63;
    assert_eq!(top.pop_lsb(), 1u64 << 63);
    assert_eq!(top, 0);
    assert!((1u64 << 19).contains(3, 2));
    assert!(!(1u64 << 19).contains(2, 3));
    assert!((1u64 << 63).contains(7, 7));
    assert!(!0u64.contains(0, 0));
}

#[test]
fn colors_and_scores() {
    assert!(Color::Black.invert() == Color::White);
    assert!(Color::White.invert() == Color::Black);
    let s = Score::new(40, 24);
    assert_eq!(s.get(Color::Black), 40);
    assert_eq!(s.get(Color::White), 24);
}

#[test]
fn checked_moves() {
    let oth = Othello::new();
    let played = oth.try_make_move(Color::Black, 1u64 << 19).expect("d3 is legal");
    let direct = oth.make_move(Color::Black, 1u64 << 19);
    assert_eq!(played.get_bitboard(Color::Black), direct.get_bitboard(Color::Black));
    assert_eq!(played.get_bitboard(Color::White), direct.get_bitboard(Color::White));
    assert!(oth.try_make_move(Color::Black, 0).is_none());
    assert!(oth.try_make_move(Color::Black, 1u64 << 20).is_none());
    assert!(oth.try_make_move(Color::Black, 1u64 << 28).is_none());
    assert!(oth.try_make_move(Color::Black, (1u64 << 19) | (1u64 << 26)).is_none());
    assert!(oth.try_make_move(Color::White, 1u64 << 19).is_none());
}
