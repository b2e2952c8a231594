use othello::Board;
use othello::Color;

#[test]
fn initial_state() {
    let b = Board::new();
    assert_eq!(b.black_bits(), 0x0000000810000000u64);
    assert_eq!(b.white_bits(), 0x0000001008000000u64);
    assert_eq!(b.count_stones(), (2, 2));
}

#[test]
fn initial_masks_are_disjoint() {
    let b = Board::new();
    assert_eq!(b.black_bits() & b.white_bits(), 0);
}

#[test]
fn legal_opening_move() {
    let mut b = Board::new();
    let moves = b.legal_moves(Color::Black);
    assert!(moves.contains(&(2, 3)));
    assert!(b.make_move(2, 3, Color::Black));
    assert_eq!(b.count_stones(), (4, 1));
}

#[test]
fn occupied_cell_is_rejected() {
    let mut b = Board::new();
    let black = b.black_bits();
    let white = b.white_bits();
    assert!(!b.make_move(3, 3, Color::Black));
    assert_eq!(b.black_bits(), black);
    assert_eq!(b.white_bits(), white);
}

#[test]
fn out_of_range_is_rejected() {
    let mut b = Board::new();
    let black = b.black_bits();
    let white = b.white_bits();
    assert!(!b.make_move(8, 0, Color::White));
    assert!(!b.make_move(-1, 0, Color::White));
    assert!(!b.make_move(0, 8, Color::White));
    assert!(!b.make_move(0, -1, Color::White));
    assert_eq!(b.black_bits(), black);
    assert_eq!(b.white_bits(), white);
}

#[test]
fn captureless_placement_is_rejected() {
    let mut b = Board::new();
    let black = b.black_bits();
    let white = b.white_bits();
    assert!(!b.make_move(0, 0, Color::Black));
    assert_eq!(b.black_bits(), black);
    assert_eq!(b.white_bits(), white);
}

#[test]
fn initial_legal_moves_exact() {
    let b = Board::new();
    // Black can open on (3,2), (2,3), (5,4) and (4,5): bits 19, 26, 37, 44.
    let expected: u64 = (1u64 << 19) | (1u64 << 26) | (1u64 << 37) | (1u64 << 44);
    assert_eq!(b.legal_moves_bitmask(Color::Black), expected);
    // Ascending bit-index order.
    assert_eq!(b.legal_moves(Color::Black), vec![(3, 2), (2, 3), (5, 4), (4, 5)]);
    // White's opening moves mirror black's: bits 20, 29, 34, 43.
    let expected_w: u64 = (1u64 << 20) | (1u64 << 29) | (1u64 << 34) | (1u64 << 43);
    assert_eq!(b.legal_moves_bitmask(Color::White), expected_w);
}

#[test]
fn legal_moves_bitmask_is_deterministic() {
    let b = Board::new();
    assert_eq!(b.legal_moves_bitmask(Color::Black), b.legal_moves_bitmask(Color::Black));
    assert_eq!(b.legal_moves_bitmask(Color::White), b.legal_moves_bitmask(Color::White));
    let mut c = b.copy();
    c.make_move(2, 3, Color::Black);
    assert_eq!(c.legal_moves_bitmask(Color::White), c.legal_moves_bitmask(Color::White));
}

#[test]
fn legal_moves_agree_with_make_move() {
    let mut boards = vec![Board::new()];
    let mut second = Board::new();
    second.make_move(2, 3, Color::Black);
    boards.push(second);
    for b in &boards {
        for color in [Color::Black, Color::White] {
            let moves = b.legal_moves(color);
            for y in 0..8i32 {
                for x in 0..8i32 {
                    let mut probe = b.copy();
                    let ok = probe.make_move(x, y, color);
                    assert_eq!(ok, moves.contains(&(x as u8, y as u8)));
                }
            }
        }
    }
}

#[test]
fn copy_is_independent() {
    let b1 = Board::new();
    let black = b1.black_bits();
    let white = b1.white_bits();
    let mut b2 = b1.copy();
    assert!(b2.make_move(2, 3, Color::Black));
    assert_eq!(b1.black_bits(), black);
    assert_eq!(b1.white_bits(), white);
    assert_ne!(b2.black_bits(), black);
}

#[test]
fn masks_stay_disjoint_over_a_game() {
    let mut b = Board::new();
    let mut color = Color::Black;
    for _ in 0..20 {
        let moves = b.legal_moves(color);
        if let Some(&(x, y)) = moves.first() {
            assert!(b.make_move(x as i32, y as i32, color));
        }
        assert_eq!(b.black_bits() & b.white_bits(), 0);
        color = color.other();
    }
}

#[test]
fn count_stones_is_popcount() {
    let mut b = Board::new();
    b.make_move(2, 3, Color::Black);
    b.make_move(2, 2, Color::White);
    let (blacks, whites) = b.count_stones();
    assert_eq!(blacks, b.black_bits().count_ones());
    assert_eq!(whites, b.white_bits().count_ones());
    assert_eq!(blacks + whites, 6);
}

#[test]
fn stone_totals_grow_by_one_per_move() {
    let mut b = Board::new();
    let mut color = Color::Black;
    let mut total = 4u32;
    for _ in 0..10 {
        let moves = b.legal_moves(color);
        if let Some(&(x, y)) = moves.first() {
            assert!(b.make_move(x as i32, y as i32, color));
            total += 1;
        }
        let (blacks, whites) = b.count_stones();
        assert_eq!(blacks + whites, total);
        color = color.other();
    }
}

#[test]
fn opening_move_flips_the_sandwiched_stone() {
    let mut b = Board::new();
    assert!(b.make_move(2, 3, Color::Black));
    // (2,3), (3,3), (4,3) and (3,4) are black; (4,4) stays white.
    let expected_black: u64 = (1u64 << 26) | (1u64 << 27) | (1u64 << 28) | (1u64 << 35);
    let expected_white: u64 = 1u64 << 36;
    assert_eq!(b.black_bits(), expected_black);
    assert_eq!(b.white_bits(), expected_white);
}

#[test]
fn other_swaps_the_colors() {
    assert_eq!(Color::Black.other(), Color::White);
    assert_eq!(Color::White.other(), Color::Black);
    assert_eq!(Color::Black.other().other(), Color::Black);
}
