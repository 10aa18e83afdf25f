use clockgo::board::{Board, Colour, Intersection, Vertex};
use clockgo::randomplay::genmove;

#[test]
fn genmove_plays_a_legal_stone_on_an_open_board() {
    let mut b = Board::new();
    assert!(b.resize(2));
    match genmove(&mut b, Colour::Black) {
        Vertex::Put(x, y) => {
            assert!(1 <= x && x <= 2 && 1 <= y && y <= 2);
            match b.get_board()[(x - 1) * 25 + (y - 1)] {
                Intersection::Stone(c, _) => assert_eq!(c, Colour::Black),
                Intersection::Empty => panic!("the generated move was not played"),
            }
            assert_eq!(b.get_history().len(), 1);
        },
        Vertex::Pass => panic!("an open board has a legal move"),
    }
}

#[test]
fn genmove_passes_when_nothing_is_playable() {
    let mut b = Board::new();
    assert!(b.resize(1));
    // the single point is suicide for either colour
    match genmove(&mut b, Colour::White) {
        Vertex::Pass => {},
        Vertex::Put(_, _) => panic!("no legal move exists"),
    }
    assert_eq!(b.get_history().len(), 0);
}
