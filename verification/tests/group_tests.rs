use clockgo::group::Group;

#[test]
fn new_group_is_dead_and_empty() {
    let g = Group::new();
    assert!(g.is_dead());
    assert_eq!(g.stone_count(), 0);
    assert_eq!(g.liberty_count(), 0);
}

#[test]
fn add_stone_removes_the_point_from_liberties() {
    let mut g = Group::new();
    g.add_liberty(2, 3);
    g.add_liberty(4, 5);
    assert_eq!(g.liberty_count(), 2);
    g.add_stone(2, 3);
    assert_eq!(g.stone_count(), 1);
    assert_eq!(g.liberty_count(), 1);
    assert!(g.get_stones().contains(&(2, 3)));
    assert!(!g.get_liberties().contains(&(2, 3)));
}

#[test]
fn liberties_are_kept_without_duplicates() {
    let mut g = Group::new();
    g.add_liberty(1, 1);
    g.add_liberty(1, 1);
    assert_eq!(g.liberty_count(), 1);
    g.remove_liberty(1, 1);
    assert!(g.is_dead());
}

#[test]
fn absorb_unions_and_strips_owned_stones() {
    let mut a = Group::new();
    a.add_stone(1, 1);
    a.add_liberty(1, 2);
    a.add_liberty(2, 1);
    let mut b = Group::new();
    b.add_stone(1, 2);
    b.add_liberty(1, 1);
    b.add_liberty(1, 3);
    a.absorb(b);
    assert_eq!(a.stone_count(), 2);
    // the shared border points are stones now, not liberties
    assert!(!a.get_liberties().contains(&(1, 1)));
    assert!(!a.get_liberties().contains(&(1, 2)));
    assert!(a.get_liberties().contains(&(2, 1)));
    assert!(a.get_liberties().contains(&(1, 3)));
    assert_eq!(a.liberty_count(), 2);
}

#[test]
fn dismantle_hands_back_the_stones() {
    let mut g = Group::new();
    g.add_stone(3, 3);
    g.add_stone(3, 4);
    g.add_liberty(3, 5);
    let stones = g.dismantle();
    assert_eq!(stones.len(), 2);
    assert!(stones.contains(&(3, 3)));
    assert!(stones.contains(&(3, 4)));
}
