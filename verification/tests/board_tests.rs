use clockgo::board::{Board, Colour, Intersection, Vertex};

fn at(b: &Board, x: usize, y: usize) -> Intersection {
    b.get_board()[(x - 1) * 25 + (y - 1)]
}

fn is_empty(b: &Board, x: usize, y: usize) -> bool {
    at(b, x, y) == Intersection::Empty
}

fn colour_at(b: &Board, x: usize, y: usize) -> Option<Colour> {
    match at(b, x, y) {
        Intersection::Stone(c, _) => Some(c),
        Intersection::Empty => None,
    }
}

#[test]
fn new_board_is_empty_and_size_19() {
    let b = Board::new();
    assert_eq!(b.get_size(), 19);
    assert_eq!(b.get_deads(), (0, 0));
    assert_eq!(b.get_current_ko(), None);
    assert_eq!(b.get_history().len(), 0);
    assert_eq!(b.get_groups().len(), 0);
    for i in 0..625 {
        assert_eq!(b.get_board()[i], Intersection::Empty);
    }
}

#[test]
fn resize_guard() {
    let mut b = Board::new();
    assert!(b.play(Colour::Black, 3, 3));
    assert!(!b.resize(0));
    assert_eq!(b.get_size(), 19);
    assert!(!is_empty(&b, 3, 3));
    assert!(!b.resize(26));
    assert_eq!(b.get_size(), 19);
    assert!(!is_empty(&b, 3, 3));
    assert!(b.resize(9));
    assert_eq!(b.get_size(), 9);
    assert!(is_empty(&b, 3, 3));
    assert_eq!(b.get_history().len(), 0);
    assert_eq!(b.get_deads(), (0, 0));
}

#[test]
fn clear_keeps_size() {
    let mut b = Board::new();
    assert!(b.resize(13));
    assert!(b.play(Colour::White, 1, 1));
    b.clear();
    assert_eq!(b.get_size(), 13);
    assert!(is_empty(&b, 1, 1));
    assert_eq!(b.get_history().len(), 0);
}

#[test]
fn play_on_occupied_point_fails() {
    let mut b = Board::new();
    assert!(b.play(Colour::Black, 4, 4));
    assert!(!b.play(Colour::White, 4, 4));
    assert!(!b.play(Colour::Black, 4, 4));
    assert_eq!(b.get_history().len(), 1);
}

#[test]
fn suicide_on_single_point_board_fails() {
    let mut b = Board::new();
    assert!(b.resize(1));
    assert!(!b.play(Colour::Black, 1, 1));
    assert!(is_empty(&b, 1, 1));
    assert_eq!(b.get_history().len(), 0);
    assert_eq!(b.get_deads(), (0, 0));
}

#[test]
fn suicide_in_surrounded_eye_fails() {
    let mut b = Board::new();
    assert!(b.resize(5));
    // black surrounds the point (1, 1)
    assert!(b.play(Colour::Black, 2, 1));
    assert!(b.play(Colour::Black, 1, 2));
    // white cannot play inside the eye
    assert!(!b.play(Colour::White, 1, 1));
    assert!(is_empty(&b, 1, 1));
    assert_eq!(b.get_history().len(), 2);
}

#[test]
fn capture_scenario_five_by_five() {
    // the concrete scenario: White (2,2) is captured by four Black stones
    let mut b = Board::new();
    assert!(b.resize(5));
    assert!(b.play(Colour::White, 2, 2));
    assert!(b.play(Colour::Black, 2, 1));
    assert!(b.play(Colour::Black, 1, 2));
    assert!(b.play(Colour::Black, 3, 2));
    assert_eq!(colour_at(&b, 2, 2), Some(Colour::White));
    assert!(b.play(Colour::Black, 2, 3));
    assert!(is_empty(&b, 2, 2));
    assert_eq!(b.get_deads(), (0, 1));
    // undo restores the captured stone and removes the capturing one
    assert!(b.undo());
    assert_eq!(colour_at(&b, 2, 2), Some(Colour::White));
    assert!(is_empty(&b, 2, 3));
    assert_eq!(b.get_deads(), (0, 0));
}

#[test]
fn capture_gives_liberties_to_neighbours() {
    let mut b = Board::new();
    assert!(b.resize(5));
    // a two-stone white group in the corner
    assert!(b.play(Colour::White, 1, 1));
    assert!(b.play(Colour::White, 2, 1));
    assert!(b.play(Colour::Black, 1, 2));
    assert!(b.play(Colour::Black, 2, 2));
    assert!(b.play(Colour::Black, 3, 1));
    // both white stones are gone and count as white losses
    assert!(is_empty(&b, 1, 1));
    assert!(is_empty(&b, 2, 1));
    assert_eq!(b.get_deads(), (0, 2));
    // the vacated points are liberties of the neighbouring black group
    let gid = match at(&b, 1, 2) {
        Intersection::Stone(c, g) => {
            assert_eq!(c, Colour::Black);
            g
        },
        Intersection::Empty => panic!("stone expected"),
    };
    let grp = b.get_groups()[gid].as_ref().expect("live group");
    assert!(grp.get_liberties().contains(&(1, 1)));
    assert!(grp.get_liberties().contains(&(2, 1)));
}

#[test]
fn merge_is_by_size_and_joins_chains() {
    let mut b = Board::new();
    assert!(b.resize(5));
    assert!(b.play(Colour::Black, 1, 1));
    assert!(b.play(Colour::Black, 3, 1));
    assert!(b.play(Colour::Black, 4, 1));
    // joining move: all three stones become one chain
    assert!(b.play(Colour::Black, 2, 1));
    let gid = match at(&b, 1, 1) {
        Intersection::Stone(_, g) => g,
        Intersection::Empty => panic!("stone expected"),
    };
    for &(x, y) in &[(1, 1), (2, 1), (3, 1), (4, 1)] {
        assert_eq!(at(&b, x, y), Intersection::Stone(Colour::Black, gid));
    }
    let grp = b.get_groups()[gid].as_ref().expect("live group");
    assert_eq!(grp.get_stones().len(), 4);
}

#[test]
fn simple_ko_blocks_immediate_recapture() {
    let mut b = Board::new();
    assert!(b.resize(5));
    assert!(b.play(Colour::Black, 2, 1));
    assert!(b.play(Colour::Black, 1, 2));
    assert!(b.play(Colour::Black, 2, 3));
    assert!(b.play(Colour::White, 4, 2));
    assert!(b.play(Colour::White, 3, 1));
    assert!(b.play(Colour::White, 3, 3));
    assert!(b.play(Colour::White, 2, 2));
    // black captures the single white stone; the capturer keeps one liberty
    assert!(b.play(Colour::Black, 3, 2));
    assert!(is_empty(&b, 2, 2));
    assert_eq!(b.get_deads(), (0, 1));
    assert_eq!(b.get_current_ko(), Some((2, 2)));
    // white may not recapture at once
    assert!(!b.play(Colour::White, 2, 2));
    // after a pass the restriction is lifted
    b.pass(Colour::White);
    assert_eq!(b.get_current_ko(), None);
    assert!(b.play(Colour::White, 2, 2));
    assert_eq!(b.get_deads(), (1, 1));
}

#[test]
fn pass_then_undo_restores_ko() {
    let mut b = Board::new();
    assert!(b.resize(5));
    assert!(b.play(Colour::Black, 2, 1));
    assert!(b.play(Colour::Black, 1, 2));
    assert!(b.play(Colour::Black, 2, 3));
    assert!(b.play(Colour::White, 4, 2));
    assert!(b.play(Colour::White, 3, 1));
    assert!(b.play(Colour::White, 3, 3));
    assert!(b.play(Colour::White, 2, 2));
    assert!(b.play(Colour::Black, 3, 2));
    assert_eq!(b.get_current_ko(), Some((2, 2)));
    b.pass(Colour::White);
    assert_eq!(b.get_current_ko(), None);
    assert!(b.undo());
    assert_eq!(b.get_current_ko(), Some((2, 2)));
    assert_eq!(b.get_deads(), (0, 1));
}

#[test]
fn play_undo_restores_position() {
    let mut b = Board::new();
    assert!(b.resize(5));
    assert!(b.play(Colour::Black, 2, 2));
    assert!(b.play(Colour::White, 3, 3));
    let before: Vec<Intersection> = b.get_board().clone();
    let deads = b.get_deads();
    let hist_len = b.get_history().len();
    assert!(b.play(Colour::Black, 3, 2));
    assert!(b.undo());
    // occupancy and colour of every point come back (the chain
    // identifiers may be assigned differently)
    for i in 0..625 {
        match (before[i], b.get_board()[i]) {
            (Intersection::Empty, Intersection::Empty) => {},
            (Intersection::Stone(c1, _), Intersection::Stone(c2, _)) => assert_eq!(c1, c2),
            _ => panic!("occupancy changed at {}", i),
        }
    }
    assert_eq!(b.get_deads(), deads);
    assert_eq!(b.get_history().len(), hist_len);
}

#[test]
fn undo_splits_chain_into_components() {
    let mut b = Board::new();
    assert!(b.resize(5));
    // two separate stones joined by a bridge
    assert!(b.play(Colour::Black, 1, 1));
    assert!(b.play(Colour::Black, 3, 1));
    assert!(b.play(Colour::Black, 2, 1));
    let gid_joined = match at(&b, 1, 1) {
        Intersection::Stone(_, g) => g,
        Intersection::Empty => panic!("stone expected"),
    };
    assert_eq!(at(&b, 3, 1), Intersection::Stone(Colour::Black, gid_joined));
    // undoing the bridge splits them again
    assert!(b.undo());
    assert!(is_empty(&b, 2, 1));
    let g1 = match at(&b, 1, 1) {
        Intersection::Stone(_, g) => g,
        Intersection::Empty => panic!("stone expected"),
    };
    let g3 = match at(&b, 3, 1) {
        Intersection::Stone(_, g) => g,
        Intersection::Empty => panic!("stone expected"),
    };
    assert_ne!(g1, g3);
}

#[test]
fn undo_of_pass_and_empty_history() {
    let mut b = Board::new();
    assert!(!b.undo());
    b.pass(Colour::Black);
    assert_eq!(b.get_history().len(), 1);
    match b.get_history()[0].action {
        Vertex::Pass => {},
        Vertex::Put(_, _) => panic!("a pass was recorded"),
    }
    assert!(b.undo());
    assert_eq!(b.get_history().len(), 0);
    assert!(!b.undo());
}

#[test]
fn group_identifiers_are_reused() {
    let mut b = Board::new();
    assert!(b.resize(5));
    assert!(b.play(Colour::Black, 1, 1));
    let gid0 = match at(&b, 1, 1) {
        Intersection::Stone(_, g) => g,
        Intersection::Empty => panic!("stone expected"),
    };
    assert_eq!(gid0, 0);
    assert!(b.play(Colour::White, 2, 1));
    // the capture frees the captured group's identifier; the capturing
    // stone keeps its own, and the next play reuses the freed one
    assert!(b.play(Colour::White, 1, 2));
    assert!(is_empty(&b, 1, 1));
    assert_eq!(at(&b, 1, 2), Intersection::Stone(Colour::White, 2));
    assert!(b.play(Colour::Black, 5, 5));
    assert_eq!(at(&b, 5, 5), Intersection::Stone(Colour::Black, 0));
}

#[test]
fn clone_without_history_copies_position() {
    let mut b = Board::new();
    assert!(b.resize(7));
    assert!(b.play(Colour::Black, 2, 2));
    assert!(b.play(Colour::White, 3, 3));
    let c = b.clone_without_history();
    assert_eq!(c.get_size(), 7);
    assert_eq!(c.get_history().len(), 0);
    assert_eq!(c.get_deads(), b.get_deads());
    assert_eq!(c.get_current_ko(), b.get_current_ko());
    for i in 0..625 {
        assert_eq!(c.get_board()[i], b.get_board()[i]);
    }
}

#[test]
fn counters_attribute_losses_to_each_colour() {
    let mut b = Board::new();
    assert!(b.resize(3));
    // white captures one black stone in the corner
    assert!(b.play(Colour::Black, 1, 1));
    assert!(b.play(Colour::White, 2, 1));
    assert!(b.play(Colour::White, 1, 2));
    assert_eq!(b.get_deads(), (1, 0));
    assert!(is_empty(&b, 1, 1));
}

#[test]
fn no_group_in_the_table_lacks_liberties() {
    let mut b = Board::new();
    assert!(b.resize(5));
    let moves = [
        (Colour::Black, 2, 2),
        (Colour::White, 3, 3),
        (Colour::Black, 3, 2),
        (Colour::White, 2, 3),
        (Colour::Black, 4, 3),
        (Colour::White, 1, 2),
        (Colour::Black, 3, 4),
    ];
    for &(c, x, y) in moves.iter() {
        assert!(b.play(c, x, y));
        for slot in b.get_groups() {
            if let Some(g) = slot {
                assert!(g.liberty_count() >= 1);
            }
        }
    }
}

#[test]
fn one_move_captures_two_groups_and_undo_restores_both() {
    let mut b = Board::new();
    assert!(b.resize(5));
    // two separate white stones that share their last liberty at (1,1)
    assert!(b.play(Colour::White, 2, 1));
    assert!(b.play(Colour::White, 1, 2));
    assert!(b.play(Colour::Black, 3, 1));
    assert!(b.play(Colour::Black, 2, 2));
    assert!(b.play(Colour::Black, 1, 3));
    assert!(b.play(Colour::Black, 1, 1));
    assert!(is_empty(&b, 2, 1));
    assert!(is_empty(&b, 1, 2));
    assert_eq!(b.get_deads(), (0, 2));
    assert_eq!(colour_at(&b, 1, 1), Some(Colour::Black));
    // no ko: more than one stone was captured
    assert_eq!(b.get_current_ko(), None);
    assert!(b.undo());
    assert_eq!(colour_at(&b, 2, 1), Some(Colour::White));
    assert_eq!(colour_at(&b, 1, 2), Some(Colour::White));
    assert!(is_empty(&b, 1, 1));
    assert_eq!(b.get_deads(), (0, 0));
}
