use othello::{BitBoard, BitBoardTrait, Color, Othello};

const DEPTH: usize = 10;

fn perft(oth: Othello, color: Color, depth: usize) -> u64 {
    if depth == 0 {
        return 1;
    }

    let mut res: u64 = 0;
    let mut moves: BitBoard = oth.gen_moves(color);

    if moves == 0 {
        moves = oth.gen_moves(color.invert());
        if moves == 0 {
            return 1;
        }
        return perft(oth, color.invert(), depth - 1);
    }

    while moves != 0 {
        res += perft(oth.make_move(color, moves.pop_lsb()), color.invert(), depth - 1)
    }

    res
}

#[test]
fn correctnes() {
    let perft_table: Vec<u64> = vec![
        1, 4, 12, 56, 244, 1396, 8200, 55092, 390216, 3005288, 24571284, 212258800, 1939886636,
        18429641748, 184042084512,
    ];

    assert!(DEPTH < perft_table.len(), "Depth must be at most {}", perft_table.len() - 1);

    let res: u64 = perft(Othello::new(), Color::Black, DEPTH);

    assert_eq!(res, perft_table[DEPTH], "Got an invalid perft value for a depth of {}", DEPTH);
}

#[test]
fn perft_shallow_depths() {
    let expected: Vec<u64> = vec![1, 4, 12, 56, 244, 1396, 8200];
    for (depth, want) in expected.iter().enumerate() {
        assert_eq!(perft(Othello::new(), Color::Black, depth), *want);
    }
}
