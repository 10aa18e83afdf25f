//! The board: grid of intersections, table of groups, move history,
//! dead-stone counters and the simple-ko point.
//!
//! The board maintains, between calls, the invariant `wf`: every stone
//! belongs to exactly one live group whose recorded colour matches the
//! grid, and every live group's liberty set is exactly the set of empty
//! in-extent points orthogonally adjacent to one of its stones, and is
//! never empty.

use vstd::prelude::*;
use vstd::pervasive::VecAdditionalExecFns;
use vstd::pervasive::unreached;

use crate::geometry::MAX_SIZE;
use crate::geometry::adjacent;
use crate::geometry::idx;
use crate::geometry::in_extent;
use crate::geometry::lemma_idx_bounds;
use crate::geometry::coords_contains;
use crate::geometry::coords_copy;
use crate::geometry::coords_insert;
use crate::geometry::coords_remove;
use crate::geometry::lemma_idx_injective;
use crate::geometry::neighbours;
use crate::group::Group;

verus! {

broadcast use {vstd::seq_lib::group_seq_properties, vstd::prelude::Seq::lemma_push_to_set_commute};

/// The two players.
#[derive(Clone, Copy, PartialEq, Eq, Structural, Debug)]
pub enum Colour {
    Black,
    White,
}

/// The opponent of a colour.
pub open spec fn opp(c: Colour) -> Colour {
    match c {
        Colour::Black => Colour::White,
        Colour::White => Colour::Black,
    }
}

/// Executable opponent of a colour.
pub fn opponent(c: Colour) -> (r: Colour)
    ensures
        r == opp(c),
{
    match c {
        Colour::Black => Colour::White,
        Colour::White => Colour::Black,
    }
}

/// What one grid point holds: a stone of a colour, owned by the group
/// with the given identifier, or nothing.
#[derive(Clone, Copy, PartialEq, Eq, Structural, Debug)]
pub enum Intersection {
    Stone(Colour, usize),
    Empty,
}

/// A move target: a point, or a pass.
#[derive(Clone, Copy, PartialEq, Eq, Structural, Debug)]
pub enum Vertex {
    Put(usize, usize),
    Pass,
}

/// One entry of the history: who moved, where, and full copies of every
/// group this move removed from the board (used verbatim by undo).
pub struct Move {
    pub player: Colour,
    pub action: Vertex,
    pub removed: Vec<Group>,
}

/// The board itself. It stores information about groups to remove dead
/// stones automatically, to allow undoing, and to detect simple kos.
pub struct Board {
    stones: Vec<Intersection>,
    history: Vec<Move>,
    groups: Vec<Option<Group>>,
    size: usize,
    white_dead: usize,
    black_dead: usize,
    current_ko: (usize, usize),
}

/// The grid entry at coordinate `c` of a flattened grid.
pub open spec fn cell(grid: Seq<Intersection>, c: (usize, usize)) -> Intersection {
    grid[idx(c)]
}

/// A group identifier currently in use.
pub open spec fn live(groups: Seq<Option<Group>>, gid: int) -> bool {
    0 <= gid < groups.len() && groups[gid] is Some
}

/// The group stored under a live identifier.
pub open spec fn grp(groups: Seq<Option<Group>>, gid: int) -> Group {
    groups[gid]->0
}

/// The set of empty in-extent points orthogonally adjacent to a stone
/// of `stones_of`: exactly the liberties the group ought to record.
pub open spec fn exact_libs(
    stones_of: Set<(usize, usize)>,
    grid: Seq<Intersection>,
    size: usize,
) -> Set<(usize, usize)> {
    Set::new(
        |c: (usize, usize)|
            in_extent(c, size) && cell(grid, c) == Intersection::Empty && exists|s: (usize, usize)|
                stones_of.contains(s) && #[trigger] adjacent(s, c),
    )
}

/// The colour of a group: the colour the grid shows for its first stone.
pub open spec fn gcol(grid: Seq<Intersection>, g: Group) -> Colour {
    match cell(grid, g.stones_seq()[0]) {
        Intersection::Stone(col, _) => col,
        Intersection::Empty => Colour::Black,
    }
}

/// A live group is consistent with the grid: it has at least one stone,
/// all its stones are in extent, carry the group's colour and point back
/// at the group, its liberty set is exactly `exact_libs`, and it is not
/// dead.
pub open spec fn group_ok(grid: Seq<Intersection>, size: usize, gid: usize, g: Group) -> bool {
    &&& g.wf()
    &&& g.stones_seq().len() >= 1
    &&& stones_on_grid(grid, size, gid, g)
    &&& g.liberty_set() == exact_libs(g.stone_set(), grid, size)
    &&& g.libs_seq().len() >= 1
}

/// Grid and group table are mutually consistent.
pub open spec fn geo_wf(grid: Seq<Intersection>, groups: Seq<Option<Group>>, size: usize) -> bool {
    &&& grid.len() == 625
    &&& 1 <= size <= MAX_SIZE
    &&& forall|c: (usize, usize)|
        in_extent(c, MAX_SIZE) && !in_extent(c, size) ==> #[trigger] cell(grid, c)
            == Intersection::Empty
    &&& forall|c: (usize, usize)|
        in_extent(c, size) ==> match #[trigger] cell(grid, c) {
            Intersection::Stone(col, gid) => live(groups, gid as int) && grp(
                groups,
                gid as int,
            ).stone_set().contains(c),
            Intersection::Empty => true,
        }
    &&& forall|gid: int| #[trigger]
        live(groups, gid) ==> group_ok(grid, size, gid as usize, grp(groups, gid))
}

/// The group identifier a grid entry carries (0 for an empty point).
pub open spec fn cell_gid(i: Intersection) -> usize {
    match i {
        Intersection::Stone(_, g) => g,
        Intersection::Empty => 0,
    }
}

/// The intersection holds a stone of the group `gid` (any colour).
pub open spec fn is_stone_of(i: Intersection, gid: usize) -> bool {
    match i {
        Intersection::Stone(_, g) => g == gid,
        Intersection::Empty => false,
    }
}

/// Some in-extent point adjacent to `v` holds a stone of group `gid`.
pub open spec fn touches(grid: Seq<Intersection>, size: usize, gid: usize, v: (usize, usize)) -> bool {
    exists|cb: (usize, usize)|
        adjacent(cb, v) && in_extent(cb, size) && #[trigger] is_stone_of(cell(grid, cb), gid)
}

/// The stones recorded by a group all sit on the grid, in extent, under
/// the group's identifier and with one colour.
pub open spec fn stones_on_grid(grid: Seq<Intersection>, size: usize, gid: usize, g: Group) -> bool {
    forall|c: (usize, usize)| #[trigger]
        g.stone_set().contains(c) ==> in_extent(c, size) && cell(grid, c)
            == Intersection::Stone(gcol(grid, g), gid)
}

/// The colour a grid entry shows (black for an empty point).
pub open spec fn cell_col(i: Intersection) -> Colour {
    match i {
        Intersection::Stone(c, _) => c,
        Intersection::Empty => Colour::Black,
    }
}

/// What merging the groups owning the stones at `c1` and `c2` does: if
/// they already share one identifier nothing changes; otherwise the
/// group with more stones keeps its identifier and absorbs the other,
/// whose cells are relabelled on the grid and whose identifier is freed.
/// The merged liberty set is the union of the two, stripped of every
/// owned stone.
pub open spec fn fuse_post(pre: Board, post: Board, c1: (usize, usize), c2: (usize, usize)) -> bool {
    let ga = cell_gid(cell(pre.grid(), c1)) as int;
    let gb = cell_gid(cell(pre.grid(), c2)) as int;
    let keep = if grp(pre.garena(), ga).stones_seq().len() > grp(
        pre.garena(),
        gb,
    ).stones_seq().len() {
        ga
    } else {
        gb
    };
    let del = if keep == ga {
        gb
    } else {
        ga
    };
    let su = grp(pre.garena(), ga).stone_set() + grp(pre.garena(), gb).stone_set();
    if ga == gb {
        post == pre
    } else {
        &&& post.garena().len() == pre.garena().len()
        &&& forall|i: int| live(post.garena(), i) <==> (live(pre.garena(), i) && i != del)
        &&& grp(post.garena(), keep).wf()
        &&& grp(post.garena(), keep).stone_set() == su
        &&& grp(post.garena(), keep).stones_seq().len() >= 1
        &&& grp(post.garena(), keep).liberty_set() == (grp(pre.garena(), ga).liberty_set() + grp(
            pre.garena(),
            gb,
        ).liberty_set()).difference(su)
        &&& forall|i: int|
            live(pre.garena(), i) && i != del && i != keep ==> grp(post.garena(), i) == grp(
                pre.garena(),
                i,
            )
        &&& post.grid().len() == 625
        &&& forall|c: (usize, usize)|
            in_extent(c, MAX_SIZE) ==> #[trigger] cell(post.grid(), c) == (if grp(
                pre.garena(),
                del,
            ).stone_set().contains(c) {
                Intersection::Stone(cell_col(cell(pre.grid(), c)), keep as usize)
            } else {
                cell(pre.grid(), c)
            })
        &&& post.hist() == pre.hist()
        &&& post.spec_size() == pre.spec_size()
        &&& post.wd() == pre.wd()
        &&& post.bd() == pre.bd()
        &&& post.ko() == pre.ko()
    }
}

/// Group `gid` holds an opposing stone next to `(x, y)`.
pub open spec fn opposing_nbr(pre: Board, player: Colour, x: usize, y: usize, gid: int) -> bool {
    exists|cb: (usize, usize)|
        adjacent(cb, (x, y)) && in_extent(cb, pre.spec_size()) && #[trigger] cell(pre.grid(), cb)
            == Intersection::Stone(opp(player), gid as usize)
}

/// Group `gid` holds a stone of the player's own colour next to `(x, y)`.
pub open spec fn own_nbr(pre: Board, player: Colour, x: usize, y: usize, gid: int) -> bool {
    exists|cb: (usize, usize)|
        adjacent(cb, (x, y)) && in_extent(cb, pre.spec_size()) && #[trigger] cell(pre.grid(), cb)
            == Intersection::Stone(player, gid as usize)
}

/// Playing `player` at `(x, y)` captures the group `gid`: it is a live
/// opposing group next to the point whose single remaining liberty is
/// the point itself.
pub open spec fn kill_gid(pre: Board, player: Colour, x: usize, y: usize, gid: int) -> bool {
    &&& live(pre.garena(), gid)
    &&& opposing_nbr(pre, player, x, y, gid)
    &&& forall|l: (usize, usize)| #[trigger]
        grp(pre.garena(), gid).liberty_set().contains(l) ==> l == (x, y)
}

/// Some opposing neighbouring group would be captured.
pub open spec fn has_kill(pre: Board, player: Colour, x: usize, y: usize) -> bool {
    exists|gid: int| kill_gid(pre, player, x, y, gid)
}

/// All points vacated by the captures this play makes.
pub open spec fn vacated(pre: Board, player: Colour, x: usize, y: usize) -> Set<(usize, usize)> {
    Set::new(
        |c: (usize, usize)|
            exists|gid: int| #[trigger] kill_gid(pre, player, x, y, gid) && grp(
                pre.garena(),
                gid,
            ).stone_set().contains(c),
    )
}

/// The placed stone is alive without capturing: an adjacent point is
/// empty, or an adjacent own group keeps a liberty besides `(x, y)`.
pub open spec fn placement_alive(pre: Board, player: Colour, x: usize, y: usize) -> bool {
    ||| exists|cb: (usize, usize)|
        adjacent(cb, (x, y)) && in_extent(cb, pre.spec_size()) && #[trigger] cell(pre.grid(), cb)
            == Intersection::Empty
    ||| exists|gid: int|
        #[trigger] own_nbr(pre, player, x, y, gid) && live(pre.garena(), gid) && grp(
            pre.garena(),
            gid,
        ).libs_seq().len() > 1
}

/// When a play is accepted: the point is empty, it is not the ko point,
/// and the stone either captures something or has a liberty left.
pub open spec fn play_allowed(pre: Board, player: Colour, x: usize, y: usize) -> bool {
    &&& cell(pre.grid(), (x, y)) == Intersection::Empty
    &&& (x, y) != pre.ko()
    &&& (has_kill(pre, player, x, y) || placement_alive(pre, player, x, y))
}

/// The union of the stone sets of a list of groups.
pub open spec fn groups_union(gs: Seq<Group>) -> Set<(usize, usize)>
    decreases gs.len(),
{
    if gs.len() == 0 {
        Set::empty()
    } else {
        groups_union(gs.drop_last()) + gs.last().stone_set()
    }
}

/// The total number of stones over a list of groups.
pub open spec fn groups_total(gs: Seq<Group>) -> int
    decreases gs.len(),
{
    if gs.len() == 0 {
        0
    } else {
        groups_total(gs.drop_last()) + gs.last().stones_seq().len()
    }
}

/// Unsigned addition that stops at the largest representable value.
pub open spec fn sat_add(a: int, b: int) -> usize {
    if a + b <= usize::MAX {
        (a + b) as usize
    } else {
        usize::MAX
    }
}

/// Unsigned subtraction that stops at zero.
pub open spec fn sat_sub(a: int, b: int) -> usize {
    if a - b >= 0 {
        (a - b) as usize
    } else {
        0
    }
}

pub proof fn lemma_groups_union_contains(gs: Seq<Group>, c: (usize, usize))
    ensures
        groups_union(gs).contains(c) <==> exists|i: int|
            0 <= i < gs.len() && (#[trigger] gs[i]).stone_set().contains(c),
    decreases gs.len(),
{
    if gs.len() > 0 {
        lemma_groups_union_contains(gs.drop_last(), c);
        if groups_union(gs).contains(c) {
            if gs.last().stone_set().contains(c) {
                assert(gs[gs.len() - 1].stone_set().contains(c));
            } else {
                let i = choose|i: int|
                    0 <= i < gs.drop_last().len() && (#[trigger] gs.drop_last()[i]).stone_set().contains(c);
                assert(gs[i].stone_set().contains(c));
            }
        }
        if exists|i: int| 0 <= i < gs.len() && (#[trigger] gs[i]).stone_set().contains(c) {
            let i = choose|i: int| 0 <= i < gs.len() && (#[trigger] gs[i]).stone_set().contains(c);
            if i < gs.len() - 1 {
                assert(gs.drop_last()[i].stone_set().contains(c));
            }
        }
    }
}

pub proof fn lemma_groups_total_nonneg(gs: Seq<Group>)
    ensures
        groups_total(gs) >= 0,
    decreases gs.len(),
{
    if gs.len() > 0 {
        lemma_groups_total_nonneg(gs.drop_last());
    }
}

/// The full effect of an accepted play by `player` at `(x, y)`.
pub open spec fn play_post(pre: Board, post: Board, player: Colour, x: usize, y: usize) -> bool {
    let vac = vacated(pre, player, x, y);
    let m = post.hist().last();
    let t = groups_total(m.removed@);
    &&& post.wf()
    &&& post.spec_size() == pre.spec_size()
    &&& post.hist().len() == pre.hist().len() + 1
    &&& post.hist().drop_last() == pre.hist()
    &&& m.player == player
    &&& m.action == Vertex::Put(x, y)
    &&& groups_union(m.removed@) == vac
    &&& forall|i: int|
        0 <= i < m.removed@.len() ==> ((#[trigger] m.removed@[i]).wf()
            && m.removed@[i].stones_seq().len() >= 1 && m.removed@[i].liberty_set()
            == Set::<(usize, usize)>::empty() && exists|gid: int|
            kill_gid(pre, player, x, y, gid) && m.removed@[i].stone_set() == grp(
                pre.garena(),
                gid,
            ).stone_set())
    &&& forall|i: int, j: int|
        0 <= i < j < m.removed@.len() ==> (#[trigger] m.removed@[i]).stone_set().disjoint(
            (#[trigger] m.removed@[j]).stone_set(),
        )
    &&& (cell(post.grid(), (x, y)) matches Intersection::Stone(pc, gnew) && pc == player && {
        let own_set = grp(post.garena(), gnew as int).stone_set();
        // the placed stone's group is the point together with every
        // neighbouring own-coloured chain, which it absorbs; a group
        // survives untouched exactly when it is neither captured nor
        // absorbed
        &&& live(post.garena(), gnew as int)
        &&& own_set == Set::new(
            |c: (usize, usize)|
                c == (x, y) || exists|g: int|
                    #[trigger] live(pre.garena(), g) && own_nbr(pre, player, x, y, g) && grp(
                        pre.garena(),
                        g,
                    ).stone_set().contains(c),
        )
        &&& forall|g: int| #![trigger live(post.garena(), g)]
            live(post.garena(), g) <==> (g == gnew as int || (live(pre.garena(), g) && !kill_gid(
                pre,
                player,
                x,
                y,
                g,
            ) && !own_nbr(pre, player, x, y, g)))
        &&& forall|g: int| #![trigger live(pre.garena(), g)]
            live(pre.garena(), g) && !kill_gid(pre, player, x, y, g) && !own_nbr(
                pre,
                player,
                x,
                y,
                g,
            ) ==> live(post.garena(), g) && grp(post.garena(), g).stones_seq() == grp(
                pre.garena(),
                g,
            ).stones_seq()
    })
    &&& forall|c: (usize, usize)|
        in_extent(c, MAX_SIZE) && vac.contains(c) ==> #[trigger] cell(post.grid(), c)
            == Intersection::Empty
    &&& forall|c: (usize, usize)|
        in_extent(c, MAX_SIZE) && c != (x, y) && !vac.contains(c) ==> (((#[trigger] cell(
            post.grid(),
            c,
        )) is Stone <==> cell(pre.grid(), c) is Stone) && (cell(post.grid(), c) is Stone
            ==> cell_col(cell(post.grid(), c)) == cell_col(cell(pre.grid(), c))))
    &&& (player is Black ==> post.wd() == sat_add(pre.wd() as int, t) && post.bd() == pre.bd())
    &&& (player is White ==> post.bd() == sat_add(pre.bd() as int, t) && post.wd() == pre.wd())
    &&& forall|g: int| kill_gid(pre, player, x, y, g) ==> !live(#[trigger] post.garena(), g)
    &&& post.ko_coherent()
}

/// What the liberty set of a surviving group is once the placed stone
/// stops being a liberty of the opposing neighbour groups.
spec fn c2_libs(pre: Board, player: Colour, x: usize, y: usize, gid: int) -> Set<(usize, usize)> {
    if opposing_nbr(pre, player, x, y, gid) {
        grp(pre.garena(), gid).liberty_set().remove((x, y))
    } else {
        grp(pre.garena(), gid).liberty_set()
    }
}

/// What the liberty set of a surviving group is once the captured cells
/// `cs` have additionally been handed out as liberties.
spec fn c3_libs(
    pre: Board,
    player: Colour,
    x: usize,
    y: usize,
    cs: Seq<(usize, usize)>,
    gid: int,
) -> Set<(usize, usize)> {
    c2_libs(pre, player, x, y, gid) + Set::new(
        |c: (usize, usize)|
            cs.contains(c) && touches(pre.grid(), pre.spec_size(), gid as usize, c),
    )
}

/// The stones of the growing group of the placed stone: the point itself
/// and the stones of every absorbed neighbour group.
spec fn own_stones(pre: Board, x: usize, y: usize, m: Set<int>) -> Set<(usize, usize)> {
    Set::new(
        |c: (usize, usize)|
            c == (x, y) || exists|g: int| #[trigger] m.contains(g) && grp(
                pre.garena(),
                g,
            ).stone_set().contains(c),
    )
}

/// Every `Put` recorded in the history lies in the current extent.
pub open spec fn put_move_ok(m: Move, size: usize) -> bool {
    match m.action {
        Vertex::Put(v, w) => in_extent((v, w), size),
        Vertex::Pass => true,
    }
}

pub open spec fn puts_in_extent(h: Seq<Move>, size: usize) -> bool {
    forall|i: int| 0 <= i < h.len() ==> put_move_ok(#[trigger] h[i], size)
}

/// The simple-ko point determined by the last move and the current
/// position: the point of the single captured stone, when the last move
/// put a stone whose group now has exactly one stone and one liberty and
/// captured exactly that one stone. `(0, 0)` means no ko.
pub open spec fn ko_point(
    h: Seq<Move>,
    grid: Seq<Intersection>,
    groups: Seq<Option<Group>>,
    size: usize,
) -> (usize, usize) {
    if h.len() == 0 {
        (0, 0)
    } else {
        let m = h.last();
        match m.action {
            Vertex::Pass => (0, 0),
            Vertex::Put(v, w) => {
                if m.removed@.len() == 1 && m.removed@[0].stones_seq().len() == 1 {
                    match cell(grid, (v, w)) {
                        Intersection::Stone(col, gid) => {
                            if live(groups, gid as int) && grp(
                                groups,
                                gid as int,
                            ).stones_seq().len() == 1 && grp(groups, gid as int).libs_seq().len()
                                == 1 && in_extent(m.removed@[0].stones_seq()[0], size) && cell(
                                grid,
                                m.removed@[0].stones_seq()[0],
                            ) == Intersection::Empty {
                                m.removed@[0].stones_seq()[0]
                            } else {
                                (0, 0)
                            }
                        },
                        Intersection::Empty => (0, 0),
                    }
                } else {
                    (0, 0)
                }
            },
        }
    }
}

/// The in-extent points orthogonally adjacent to some point of `s`.
pub open spec fn adj_zone(s: Set<(usize, usize)>, size: usize) -> Set<(usize, usize)> {
    Set::new(
        |c: (usize, usize)|
            in_extent(c, size) && exists|st: (usize, usize)|
                s.contains(st) && #[trigger] adjacent(st, c),
    )
}

/// The exact liberties of a union of stone sets are the union of the
/// exact liberties.
pub proof fn lemma_exact_union(
    s1: Set<(usize, usize)>,
    s2: Set<(usize, usize)>,
    grid: Seq<Intersection>,
    size: usize,
)
    ensures
        exact_libs(s1 + s2, grid, size) == exact_libs(s1, grid, size) + exact_libs(s2, grid, size),
{
    assert forall|c: (usize, usize)|
        exact_libs(s1 + s2, grid, size).contains(c) implies (exact_libs(s1, grid, size) + exact_libs(
        s2,
        grid,
        size,
    )).contains(c) by {
        let st = choose|st: (usize, usize)| (s1 + s2).contains(st) && #[trigger] adjacent(st, c);
        if s1.contains(st) {
            assert(exact_libs(s1, grid, size).contains(c));
        } else {
            assert(s2.contains(st));
            assert(exact_libs(s2, grid, size).contains(c));
        }
    }
    assert forall|c: (usize, usize)|
        (exact_libs(s1, grid, size) + exact_libs(s2, grid, size)).contains(c) implies exact_libs(
        s1 + s2,
        grid,
        size,
    ).contains(c) by {
        if exact_libs(s1, grid, size).contains(c) {
            let st = choose|st: (usize, usize)| s1.contains(st) && #[trigger] adjacent(st, c);
            assert((s1 + s2).contains(st) && adjacent(st, c));
        } else {
            let st = choose|st: (usize, usize)| s2.contains(st) && #[trigger] adjacent(st, c);
            assert((s1 + s2).contains(st) && adjacent(st, c));
        }
    }
    assert(exact_libs(s1 + s2, grid, size) =~= exact_libs(s1, grid, size) + exact_libs(
        s2,
        grid,
        size,
    ));
}

/// How the exact liberties of a fixed stone set shift when the grid
/// changes: the points of `v` have become empty, the point `xy` has
/// become occupied, and every other point kept its status.
pub proof fn lemma_exact_shift(
    grid_pre: Seq<Intersection>,
    grid_new: Seq<Intersection>,
    size: usize,
    s: Set<(usize, usize)>,
    v: Set<(usize, usize)>,
    xy: (usize, usize),
)
    requires
        1 <= size <= MAX_SIZE,
        !v.contains(xy),
        forall|c: (usize, usize)|
            in_extent(c, MAX_SIZE) ==> ((#[trigger] cell(grid_new, c) == Intersection::Empty)
                <==> ((v.contains(c) || cell(grid_pre, c) == Intersection::Empty) && c != xy)),
    ensures
        exact_libs(s, grid_new, size) == exact_libs(s, grid_pre, size).remove(xy) + v.intersect(
            adj_zone(s, size),
        ),
{
    assert forall|c: (usize, usize)|
        exact_libs(s, grid_new, size).contains(c) implies (exact_libs(s, grid_pre, size).remove(xy)
        + v.intersect(adj_zone(s, size))).contains(c) by {
        let st = choose|st: (usize, usize)| s.contains(st) && #[trigger] adjacent(st, c);
        assert(in_extent(c, MAX_SIZE));
        if v.contains(c) {
            assert(adj_zone(s, size).contains(c));
        } else {
            assert(cell(grid_pre, c) == Intersection::Empty);
            assert(exact_libs(s, grid_pre, size).contains(c));
        }
    }
    assert forall|c: (usize, usize)|
        (exact_libs(s, grid_pre, size).remove(xy) + v.intersect(adj_zone(s, size))).contains(
            c,
        ) implies exact_libs(s, grid_new, size).contains(c) by {
        if exact_libs(s, grid_pre, size).remove(xy).contains(c) {
            assert(in_extent(c, MAX_SIZE));
            assert(cell(grid_new, c) == Intersection::Empty);
            assert(exact_libs(s, grid_new, size).contains(c));
        } else {
            assert(v.contains(c) && adj_zone(s, size).contains(c));
            let st = choose|st: (usize, usize)| s.contains(st) && #[trigger] adjacent(st, c);
            assert(in_extent(c, MAX_SIZE));
            assert(c != xy);
            assert(cell(grid_new, c) == Intersection::Empty);
            assert(exact_libs(s, grid_new, size).contains(c));
        }
    }
    assert(exact_libs(s, grid_new, size) =~= exact_libs(s, grid_pre, size).remove(xy) + v.intersect(
        adj_zone(s, size),
    ));
}

/// How the exact liberties of a fixed stone set shift when the grid
/// changes: the points of `v` have become empty, the points of `w` have
/// become occupied, and every other point kept its status.
pub proof fn lemma_exact_reshape(
    grid_pre: Seq<Intersection>,
    grid_new: Seq<Intersection>,
    size: usize,
    s: Set<(usize, usize)>,
    v: Set<(usize, usize)>,
    w: Set<(usize, usize)>,
)
    requires
        1 <= size <= MAX_SIZE,
        v.disjoint(w),
        forall|c: (usize, usize)|
            in_extent(c, MAX_SIZE) ==> ((#[trigger] cell(grid_new, c) == Intersection::Empty)
                <==> ((v.contains(c) || cell(grid_pre, c) == Intersection::Empty)
                && !w.contains(c))),
    ensures
        exact_libs(s, grid_new, size) == exact_libs(s, grid_pre, size).difference(w) + v.intersect(
            adj_zone(s, size),
        ),
{
    assert forall|c: (usize, usize)|
        exact_libs(s, grid_new, size).contains(c) implies (exact_libs(
        s,
        grid_pre,
        size,
    ).difference(w) + v.intersect(adj_zone(s, size))).contains(c) by {
        let st = choose|st: (usize, usize)| s.contains(st) && #[trigger] adjacent(st, c);
        assert(in_extent(c, MAX_SIZE));
        if v.contains(c) {
            assert(adj_zone(s, size).contains(c));
        } else {
            assert(cell(grid_pre, c) == Intersection::Empty);
            assert(exact_libs(s, grid_pre, size).contains(c));
        }
    }
    assert forall|c: (usize, usize)|
        (exact_libs(s, grid_pre, size).difference(w) + v.intersect(adj_zone(s, size))).contains(
            c,
        ) implies exact_libs(s, grid_new, size).contains(c) by {
        if exact_libs(s, grid_pre, size).difference(w).contains(c) {
            assert(in_extent(c, MAX_SIZE));
            assert(cell(grid_new, c) == Intersection::Empty);
            assert(exact_libs(s, grid_new, size).contains(c));
        } else {
            assert(v.contains(c) && adj_zone(s, size).contains(c));
            let st = choose|st: (usize, usize)| s.contains(st) && #[trigger] adjacent(st, c);
            assert(in_extent(c, MAX_SIZE));
            assert(!w.contains(c));
            assert(cell(grid_new, c) == Intersection::Empty);
            assert(exact_libs(s, grid_new, size).contains(c));
        }
    }
    assert(exact_libs(s, grid_new, size) =~= exact_libs(s, grid_pre, size).difference(w)
        + v.intersect(adj_zone(s, size)));
}

/// A walk through a set of points: at least one entry, every entry in
/// the set, consecutive entries orthogonally adjacent.
pub open spec fn path_in(s: Set<(usize, usize)>, p: Seq<(usize, usize)>) -> bool {
    &&& p.len() >= 1
    &&& forall|i: int| 0 <= i < p.len() ==> s.contains(#[trigger] p[i])
    &&& forall|i: int| 0 <= i < p.len() - 1 ==> adjacent(#[trigger] p[i], p[i + 1])
}

/// Two points hang together through the set: a walk inside it leads
/// from one to the other.
pub open spec fn connected_in(
    s: Set<(usize, usize)>,
    a: (usize, usize),
    b: (usize, usize),
) -> bool {
    exists|p: Seq<(usize, usize)>| path_in(s, p) && p.first() == a && p.last() == b
}

pub proof fn lemma_connected_refl(s: Set<(usize, usize)>, a: (usize, usize))
    requires
        s.contains(a),
    ensures
        connected_in(s, a, a),
{
    let p = seq![a];
    assert(path_in(s, p) && p.first() == a && p.last() == a);
}

pub proof fn lemma_connected_step(
    s: Set<(usize, usize)>,
    a: (usize, usize),
    b: (usize, usize),
    c: (usize, usize),
)
    requires
        connected_in(s, a, b),
        s.contains(c),
        adjacent(b, c),
    ensures
        connected_in(s, a, c),
{
    let p = choose|p: Seq<(usize, usize)>| path_in(s, p) && p.first() == a && p.last() == b;
    let q = p.push(c);
    assert(path_in(s, q)) by {
        assert(forall|i: int| 0 <= i < p.len() ==> q[i] == p[i]);
        assert(q[q.len() - 1] == c);
    }
    assert(q.first() == a && q.last() == c);
}

pub proof fn lemma_connected_mono(
    s: Set<(usize, usize)>,
    s2: Set<(usize, usize)>,
    a: (usize, usize),
    b: (usize, usize),
)
    requires
        connected_in(s, a, b),
        s.subset_of(s2),
    ensures
        connected_in(s2, a, b),
{
    let p = choose|p: Seq<(usize, usize)>| path_in(s, p) && p.first() == a && p.last() == b;
    assert(path_in(s2, p));
}

pub proof fn lemma_connected_sym(
    s: Set<(usize, usize)>,
    a: (usize, usize),
    b: (usize, usize),
)
    requires
        connected_in(s, a, b),
    ensures
        connected_in(s, b, a),
{
    let p = choose|p: Seq<(usize, usize)>| path_in(s, p) && p.first() == a && p.last() == b;
    let n = p.len() as int;
    let q = Seq::new(p.len(), |i: int| p[n - 1 - i]);
    assert(path_in(s, q)) by {
        assert(forall|i: int| 0 <= i < q.len() ==> q[i] == p[n - 1 - i]);
        assert forall|i: int| 0 <= i < q.len() - 1 implies adjacent(#[trigger] q[i], q[i + 1]) by {
            assert(adjacent(p[n - 2 - i], p[n - 1 - i]));
            assert(q[i] == p[n - 1 - i] && q[i + 1] == p[n - 2 - i]);
        }
    }
    assert(q.first() == b && q.last() == a);
}

pub proof fn lemma_connected_trans(
    s: Set<(usize, usize)>,
    a: (usize, usize),
    b: (usize, usize),
    c: (usize, usize),
)
    requires
        connected_in(s, a, b),
        connected_in(s, b, c),
    ensures
        connected_in(s, a, c),
{
    let p = choose|p: Seq<(usize, usize)>| path_in(s, p) && p.first() == a && p.last() == b;
    let q = choose|q: Seq<(usize, usize)>| path_in(s, q) && q.first() == b && q.last() == c;
    if q.len() == 1 {
        assert(b == c);
    } else {
        let r = p + q.subrange(1, q.len() as int);
        assert(path_in(s, r)) by {
            assert(forall|i: int| 0 <= i < p.len() ==> r[i] == p[i]);
            assert(forall|i: int|
                p.len() <= i < r.len() ==> r[i] == q[i - p.len() + 1]);
            assert forall|i: int| 0 <= i < r.len() - 1 implies adjacent(
                #[trigger] r[i],
                r[i + 1],
            ) by {
                if i < p.len() - 1 {
                    assert(adjacent(p[i], p[i + 1]));
                } else if i == p.len() - 1 {
                    assert(r[i] == p.last() && r[i + 1] == q[1]);
                    assert(adjacent(q[0], q[1]));
                } else {
                    assert(adjacent(q[i - p.len()], q[i - p.len() + 1]));
                }
            }
            assert forall|i: int| 0 <= i < r.len() implies s.contains(#[trigger] r[i]) by {
                if i >= p.len() {
                    assert(s.contains(q[i - p.len() + 1]));
                }
            }
        }
        assert(r.first() == a && r.last() == c);
    }
}

/// Whatever hangs together with a point of a closed part of `s` lies in
/// that part: a walk cannot leave a set that keeps all its neighbours.
pub proof fn lemma_connected_into_closed(
    s: Set<(usize, usize)>,
    t: Set<(usize, usize)>,
    a: (usize, usize),
    b: (usize, usize),
)
    requires
        connected_in(s, a, b),
        t.contains(a),
        forall|u: (usize, usize), v: (usize, usize)|
            t.contains(u) && s.contains(v) && adjacent(u, v) ==> #[trigger] t.contains(
                v,
            ) || !#[trigger] adjacent(u, v),
    ensures
        t.contains(b),
{
    let p = choose|p: Seq<(usize, usize)>| path_in(s, p) && p.first() == a && p.last() == b;
    lemma_path_into_closed(s, t, p, p.len() - 1);
}

proof fn lemma_path_into_closed(
    s: Set<(usize, usize)>,
    t: Set<(usize, usize)>,
    p: Seq<(usize, usize)>,
    i: int,
)
    requires
        path_in(s, p),
        0 <= i < p.len(),
        t.contains(p.first()),
        forall|u: (usize, usize), v: (usize, usize)|
            t.contains(u) && s.contains(v) && adjacent(u, v) ==> #[trigger] t.contains(
                v,
            ) || !#[trigger] adjacent(u, v),
    ensures
        t.contains(p[i]),
    decreases i,
{
    if i > 0 {
        lemma_path_into_closed(s, t, p, i - 1);
        assert(adjacent(p[i - 1], p[i]));
        assert(s.contains(p[i]));
    }
}

/// The point is empty on the board that undoing the last move leaves:
/// the played point opens up, the recorded captured cells fill up, and
/// every other point keeps its status.
pub open spec fn undone_empty(pre: Board, c: (usize, usize)) -> bool {
    let m = pre.hist().last();
    &&& ((m.action matches Vertex::Put(x, y) && c == (x, y)) || cell(pre.grid(), c)
        == Intersection::Empty)
    &&& !groups_union(m.removed@).contains(c)
}

/// The stone at `b` would touch an empty point once the last move is
/// undone.
pub open spec fn stone_touches_undone(pre: Board, b: (usize, usize)) -> bool {
    exists|c: (usize, usize)|
        in_extent(c, pre.spec_size()) && #[trigger] undone_empty(pre, c) && adjacent(b, c)
}

/// Some stone of the set would hold a liberty once the last move is
/// undone.
pub open spec fn has_undone_liberty(pre: Board, s: Set<(usize, usize)>) -> bool {
    exists|b: (usize, usize)| #[trigger] s.contains(b) && stone_touches_undone(pre, b)
}

/// The top history record fits the position, so undoing it succeeds:
/// a pass always fits; a stone move fits when its point holds a stone,
/// the recorded captured groups are non-empty, duplicate-free, in
/// extent, on empty points and pairwise disjoint, and no group of the
/// undone position is left without a liberty — each captured group and
/// each surviving group touches an undone-empty point, and every
/// remaining stone of the played stone's group hangs together with one
/// that does. Every position reached by `play` and `pass` alone
/// satisfies this for its own history.
pub open spec fn undo_fits(pre: Board) -> bool {
    let m = pre.hist().last();
    match m.action {
        Vertex::Pass => true,
        Vertex::Put(x, y) => {
            let rem = m.removed@;
            match cell(pre.grid(), (x, y)) {
                Intersection::Empty => false,
                Intersection::Stone(_, oldgid) => {
                    let s = grp(pre.garena(), oldgid as int).stone_set().remove((x, y));
                    &&& forall|k: int|
                        0 <= k < rem.len() ==> (#[trigger] rem[k]).stones_seq().len() >= 1
                            && rem[k].stones_seq().no_duplicates()
                    &&& forall|k: int, c: (usize, usize)|
                        0 <= k < rem.len() && (#[trigger] rem[k].stone_set().contains(c))
                            ==> in_extent(c, pre.spec_size()) && cell(pre.grid(), c)
                            == Intersection::Empty
                    &&& forall|k1: int, k2: int|
                        0 <= k1 < k2 < rem.len() ==> (#[trigger] rem[k1]).stone_set().disjoint(
                            (#[trigger] rem[k2]).stone_set(),
                        )
                    &&& forall|k: int|
                        0 <= k < rem.len() ==> has_undone_liberty(
                            pre,
                            (#[trigger] rem[k]).stone_set(),
                        )
                    &&& forall|g: int|
                        #[trigger] live(pre.garena(), g) && g != oldgid as int
                            ==> has_undone_liberty(pre, grp(pre.garena(), g).stone_set())
                    &&& forall|a: (usize, usize)| #[trigger]
                        s.contains(a) ==> exists|b: (usize, usize)|
                            #[trigger] connected_in(s, a, b) && stone_touches_undone(pre, b)
                },
            }
        },
    }
}

/// When some rebuilt or surviving group of the undone position is left
/// without a liberty, the history record did not fit the position.
#[verifier::rlimit(100)]
#[verifier::spinoff_prover]
proof fn lemma_undo_unfits(
    pre: Board,
    wb: Board,
    player: Colour,
    x: usize,
    y: usize,
    oldgid: usize,
    col0: Colour,
    rem: Seq<Group>,
    rr: Set<(usize, usize)>,
    sclean: Set<(usize, usize)>,
    rset: Set<int>,
    sset: Set<int>,
    rgids: Seq<usize>,
    gw: int,
)
    requires
        pre.wf(),
        in_extent((x, y), pre.spec_size()),
        pre.hist().len() > 0,
        pre.hist().last().action == Vertex::Put(x, y),
        rem == pre.hist().last().removed@,
        cell(pre.grid(), (x, y)) == Intersection::Stone(col0, oldgid),
        live(pre.garena(), oldgid as int),
        col0 == gcol(pre.grid(), grp(pre.garena(), oldgid as int)),
        sclean == grp(pre.garena(), oldgid as int).stone_set().remove((x, y)),
        rr == groups_union(rem),
        !rr.contains((x, y)),
        forall|c: (usize, usize)| #[trigger]
            rr.contains(c) ==> in_extent(c, pre.spec_size()) && cell(pre.grid(), c)
                == Intersection::Empty,
        pre.garena().len() <= usize::MAX,
        wb.garena().len() <= usize::MAX,
        wb.grid().len() == 625,
        wb.spec_size() == pre.spec_size(),
        forall|c: (usize, usize)|
            in_extent(c, MAX_SIZE) ==> ((#[trigger] cell(wb.grid(), c) == Intersection::Empty)
                <==> undone_empty(pre, c)),
        forall|g: int| #![trigger live(wb.garena(), g)]
            live(wb.garena(), g) <==> ((live(pre.garena(), g) && g != oldgid as int)
                || rset.contains(g) || sset.contains(g)),
        forall|g: int| #[trigger] rset.contains(g) ==> !live(pre.garena(), g),
        forall|g: int| #[trigger] sset.contains(g) ==> !live(pre.garena(), g),
        forall|c: (usize, usize)|
            in_extent(c, MAX_SIZE) ==> (if c == (x, y) {
                #[trigger] cell(wb.grid(), c) == Intersection::Empty
            } else if rr.contains(c) {
                cell(wb.grid(), c) matches Intersection::Stone(col, g) && col == opp(player)
                    && rset.contains(g as int) && live(wb.garena(), g as int) && grp(
                    wb.garena(),
                    g as int,
                ).stone_set().contains(c)
            } else if grp(pre.garena(), oldgid as int).stone_set().contains(c) {
                cell(wb.grid(), c) matches Intersection::Stone(col, g) && col == col0
                    && sset.contains(g as int) && live(wb.garena(), g as int) && grp(
                    wb.garena(),
                    g as int,
                ).stone_set().contains(c)
            } else {
                cell(wb.grid(), c) == cell(pre.grid(), c)
            }),
        forall|g: int| #![trigger live(wb.garena(), g)]
            (rset.contains(g) || sset.contains(g)) && live(wb.garena(), g) ==> {
                let ng = grp(wb.garena(), g);
                &&& ng.wf()
                &&& ng.stones_seq().len() >= 1
                &&& ng.liberty_set() == exact_libs(ng.stone_set(), wb.grid(), pre.spec_size())
            },
        forall|g: int| #![trigger live(pre.garena(), g)]
            live(pre.garena(), g) && g != oldgid as int ==> {
                let ng = grp(wb.garena(), g);
                let og = grp(pre.garena(), g);
                &&& ng.stones_seq() == og.stones_seq()
                &&& ng.wf()
                &&& ng.liberty_set() == (og.liberty_set() + (if touches(
                    wb.grid(),
                    pre.spec_size(),
                    g as usize,
                    (x, y),
                ) {
                    Set::<(usize, usize)>::empty().insert((x, y))
                } else {
                    Set::<(usize, usize)>::empty()
                })).difference(
                    Set::new(
                        |c: (usize, usize)|
                            rr.contains(c) && touches(wb.grid(), pre.spec_size(), g as usize, c),
                    ),
                )
            },
        rgids.len() == rem.len(),
        forall|j: int|
            0 <= j < rgids.len() ==> rset.contains(#[trigger] rgids[j] as int) && grp(
                wb.garena(),
                rgids[j] as int,
            ).stone_set() == rem[j].stone_set(),
        forall|g: int|
            rset.contains(g) ==> exists|j: int| 0 <= j < rgids.len() && rgids[j] as int == g,
        forall|g: int, c: (usize, usize)|
            #![trigger sset.contains(g), grp(wb.garena(), g).stone_set().contains(c)]
            sset.contains(g) && live(wb.garena(), g) && grp(wb.garena(), g).stone_set().contains(
                c,
            ) ==> sclean.contains(c),
        forall|g: int, u: (usize, usize), v: (usize, usize)|
            #![trigger sset.contains(g), grp(wb.garena(), g).stone_set().contains(u), grp(wb.garena(), g).stone_set().contains(v)]
            sset.contains(g) && live(wb.garena(), g) && grp(wb.garena(), g).stone_set().contains(
                u,
            ) && grp(wb.garena(), g).stone_set().contains(v) ==> connected_in(
                grp(wb.garena(), g).stone_set(),
                u,
                v,
            ),
        forall|g1: int, g2: int, u: (usize, usize), v: (usize, usize)|
            #![trigger sset.contains(g1), sset.contains(g2), grp(wb.garena(), g1).stone_set().contains(u), grp(wb.garena(), g2).stone_set().contains(v)]
            sset.contains(g1) && sset.contains(g2) && g1 != g2 && live(wb.garena(), g1) && live(
                wb.garena(),
                g2,
            ) && grp(wb.garena(), g1).stone_set().contains(u) && grp(
                wb.garena(),
                g2,
            ).stone_set().contains(v) ==> !adjacent(u, v),
        live(wb.garena(), gw),
        grp(wb.garena(), gw).libs_seq().len() == 0,
    ensures
        !undo_fits(pre),
{
    let size = pre.spec_size();
    let gl = wb.grid();
    assert(grp(wb.garena(), gw).liberty_set() =~= Set::<(usize, usize)>::empty());
    if undo_fits(pre) {
        if rset.contains(gw) {
            let j = choose|j: int| 0 <= j < rgids.len() && rgids[j] as int == gw;
            assert(grp(wb.garena(), gw).stone_set() == rem[j].stone_set());
            assert(has_undone_liberty(pre, rem[j].stone_set()));
            let b = choose|b: (usize, usize)| #[trigger] rem[j].stone_set().contains(b)
                && stone_touches_undone(pre, b);
            let cl = choose|cl: (usize, usize)|
                in_extent(cl, pre.spec_size()) && #[trigger] undone_empty(pre, cl) && adjacent(
                    b,
                    cl,
                );
            assert(cell(gl, cl) == Intersection::Empty);
            assert(grp(wb.garena(), gw).stone_set().contains(b));
            assert(exact_libs(grp(wb.garena(), gw).stone_set(), gl, size).contains(cl));
            assert(grp(wb.garena(), gw).liberty_set().contains(cl));
            assert(false);
        } else if sset.contains(gw) {
            let sw = grp(wb.garena(), gw).stone_set();
            assert(grp(wb.garena(), gw).stones_seq().len() >= 1);
            let a = grp(wb.garena(), gw).stones_seq()[0];
            assert(grp(wb.garena(), gw).stones_seq().contains(a));
            assert(sw.contains(a));
            assert(sclean.contains(a));
            let b = choose|b: (usize, usize)| #[trigger] connected_in(sclean, a, b)
                && stone_touches_undone(pre, b);
            assert forall|u: (usize, usize), v: (usize, usize)|
                sw.contains(u) && sclean.contains(v) && adjacent(u, v) implies sw.contains(v)
                || !adjacent(u, v) by {
                assert(grp(pre.garena(), oldgid as int).stone_set().contains(v));
                assert(group_ok(pre.grid(), size, oldgid, grp(pre.garena(), oldgid as int)));
                assert(in_extent(v, size) && in_extent(v, MAX_SIZE));
                assert(!rr.contains(v)) by {
                    if rr.contains(v) {
                        assert(cell(pre.grid(), v) == Intersection::Empty);
                        assert(cell(pre.grid(), v) == Intersection::Stone(col0, oldgid));
                    }
                }
                assert(cell(gl, v) matches Intersection::Stone(colv, gv) && colv == col0
                    && sset.contains(gv as int) && live(wb.garena(), gv as int) && grp(
                    wb.garena(),
                    gv as int,
                ).stone_set().contains(v));
                let gv = cell_gid(cell(gl, v)) as int;
                if gv != gw {
                    assert(!adjacent(u, v));
                } else {
                    assert(sw.contains(v));
                }
            }
            lemma_connected_into_closed(sclean, sw, a, b);
            assert(sw.contains(b));
            let cl = choose|cl: (usize, usize)|
                in_extent(cl, pre.spec_size()) && #[trigger] undone_empty(pre, cl) && adjacent(
                    b,
                    cl,
                );
            assert(cell(gl, cl) == Intersection::Empty);
            assert(exact_libs(sw, gl, size).contains(cl));
            assert(grp(wb.garena(), gw).liberty_set().contains(cl));
            assert(false);
        } else {
            assert(live(pre.garena(), gw) && gw != oldgid as int);
            assert(has_undone_liberty(pre, grp(pre.garena(), gw).stone_set()));
            let b = choose|b: (usize, usize)| #[trigger] grp(
                pre.garena(),
                gw,
            ).stone_set().contains(b) && stone_touches_undone(pre, b);
            let cl = choose|cl: (usize, usize)|
                in_extent(cl, pre.spec_size()) && #[trigger] undone_empty(pre, cl) && adjacent(
                    b,
                    cl,
                );
            assert(0 <= gw < pre.garena().len());
            assert(group_ok(pre.grid(), size, gw as usize, grp(pre.garena(), gw)));
            assert(cell(pre.grid(), b) == Intersection::Stone(
                gcol(pre.grid(), grp(pre.garena(), gw)),
                gw as usize,
            ));
            assert(!rr.contains(b)) by {
                if rr.contains(b) {
                    assert(cell(pre.grid(), b) == Intersection::Empty);
                }
            }
            assert(!grp(pre.garena(), oldgid as int).stone_set().contains(b)) by {
                if grp(pre.garena(), oldgid as int).stone_set().contains(b) {
                    lemma_distinct_groups_disjoint(
                        pre.grid(),
                        pre.garena(),
                        size,
                        gw,
                        oldgid as int,
                    );
                }
            }
            assert(b != (x, y));
            assert(cell(gl, b) == cell(pre.grid(), b));
            assert(is_stone_of(cell(gl, b), gw as usize));
            if cl == (x, y) {
                assert(adjacent(b, (x, y)) && in_extent(b, size));
                assert(touches(gl, size, gw as usize, (x, y)));
                assert(!Set::new(
                    |c2: (usize, usize)|
                        rr.contains(c2) && touches(gl, size, gw as usize, c2),
                ).contains((x, y)));
                assert(grp(wb.garena(), gw).liberty_set().contains((x, y)));
            } else {
                assert(cell(pre.grid(), cl) == Intersection::Empty);
                assert(exact_libs(grp(pre.garena(), gw).stone_set(), pre.grid(), size).contains(
                    cl,
                ));
                assert(grp(pre.garena(), gw).liberty_set().contains(cl));
                assert(!Set::new(
                    |c2: (usize, usize)|
                        rr.contains(c2) && touches(gl, size, gw as usize, c2),
                ).contains(cl));
                assert(grp(wb.garena(), gw).liberty_set().contains(cl));
            }
            assert(false);
        }
    }
}

/// When every group of the undone position keeps a liberty, the history
/// record fits the position (the placement checks are given as
/// hypotheses by the caller).
#[verifier::rlimit(100)]
#[verifier::spinoff_prover]
proof fn lemma_undo_fits_holds(
    pre: Board,
    wb: Board,
    player: Colour,
    x: usize,
    y: usize,
    oldgid: usize,
    col0: Colour,
    rem: Seq<Group>,
    rr: Set<(usize, usize)>,
    sclean: Set<(usize, usize)>,
    rset: Set<int>,
    sset: Set<int>,
    rgids: Seq<usize>,
)
    requires
        pre.wf(),
        in_extent((x, y), pre.spec_size()),
        pre.hist().len() > 0,
        pre.hist().last().action == Vertex::Put(x, y),
        rem == pre.hist().last().removed@,
        cell(pre.grid(), (x, y)) == Intersection::Stone(col0, oldgid),
        live(pre.garena(), oldgid as int),
        col0 == gcol(pre.grid(), grp(pre.garena(), oldgid as int)),
        sclean == grp(pre.garena(), oldgid as int).stone_set().remove((x, y)),
        rr == groups_union(rem),
        !rr.contains((x, y)),
        forall|c: (usize, usize)| #[trigger]
            rr.contains(c) ==> in_extent(c, pre.spec_size()) && cell(pre.grid(), c)
                == Intersection::Empty,
        pre.garena().len() <= usize::MAX,
        wb.garena().len() <= usize::MAX,
        wb.grid().len() == 625,
        wb.spec_size() == pre.spec_size(),
        forall|c: (usize, usize)|
            in_extent(c, MAX_SIZE) ==> ((#[trigger] cell(wb.grid(), c) == Intersection::Empty)
                <==> undone_empty(pre, c)),
        forall|g: int| #![trigger live(wb.garena(), g)]
            live(wb.garena(), g) <==> ((live(pre.garena(), g) && g != oldgid as int)
                || rset.contains(g) || sset.contains(g)),
        forall|g: int| #[trigger] rset.contains(g) ==> !live(pre.garena(), g),
        forall|g: int| #[trigger] sset.contains(g) ==> !live(pre.garena(), g),
        forall|c: (usize, usize)|
            in_extent(c, MAX_SIZE) ==> (if c == (x, y) {
                #[trigger] cell(wb.grid(), c) == Intersection::Empty
            } else if rr.contains(c) {
                cell(wb.grid(), c) matches Intersection::Stone(col, g) && col == opp(player)
                    && rset.contains(g as int) && live(wb.garena(), g as int) && grp(
                    wb.garena(),
                    g as int,
                ).stone_set().contains(c)
            } else if grp(pre.garena(), oldgid as int).stone_set().contains(c) {
                cell(wb.grid(), c) matches Intersection::Stone(col, g) && col == col0
                    && sset.contains(g as int) && live(wb.garena(), g as int) && grp(
                    wb.garena(),
                    g as int,
                ).stone_set().contains(c)
            } else {
                cell(wb.grid(), c) == cell(pre.grid(), c)
            }),
        forall|g: int| #![trigger live(wb.garena(), g)]
            (rset.contains(g) || sset.contains(g)) && live(wb.garena(), g) ==> {
                let ng = grp(wb.garena(), g);
                &&& ng.wf()
                &&& ng.stones_seq().len() >= 1
                &&& ng.liberty_set() == exact_libs(ng.stone_set(), wb.grid(), pre.spec_size())
            },
        forall|g: int| #![trigger live(pre.garena(), g)]
            live(pre.garena(), g) && g != oldgid as int ==> {
                let ng = grp(wb.garena(), g);
                let og = grp(pre.garena(), g);
                &&& ng.stones_seq() == og.stones_seq()
                &&& ng.wf()
                &&& ng.liberty_set() == (og.liberty_set() + (if touches(
                    wb.grid(),
                    pre.spec_size(),
                    g as usize,
                    (x, y),
                ) {
                    Set::<(usize, usize)>::empty().insert((x, y))
                } else {
                    Set::<(usize, usize)>::empty()
                })).difference(
                    Set::new(
                        |c: (usize, usize)|
                            rr.contains(c) && touches(wb.grid(), pre.spec_size(), g as usize, c),
                    ),
                )
            },
        rgids.len() == rem.len(),
        forall|j: int|
            0 <= j < rgids.len() ==> rset.contains(#[trigger] rgids[j] as int) && grp(
                wb.garena(),
                rgids[j] as int,
            ).stone_set() == rem[j].stone_set(),
        forall|g: int|
            rset.contains(g) ==> exists|j: int| 0 <= j < rgids.len() && rgids[j] as int == g,
        forall|g: int, c: (usize, usize)|
            #![trigger sset.contains(g), grp(wb.garena(), g).stone_set().contains(c)]
            sset.contains(g) && live(wb.garena(), g) && grp(wb.garena(), g).stone_set().contains(
                c,
            ) ==> sclean.contains(c),
        forall|g: int, u: (usize, usize), v: (usize, usize)|
            #![trigger sset.contains(g), grp(wb.garena(), g).stone_set().contains(u), grp(wb.garena(), g).stone_set().contains(v)]
            sset.contains(g) && live(wb.garena(), g) && grp(wb.garena(), g).stone_set().contains(
                u,
            ) && grp(wb.garena(), g).stone_set().contains(v) ==> connected_in(
                grp(wb.garena(), g).stone_set(),
                u,
                v,
            ),
        forall|g1: int, g2: int, u: (usize, usize), v: (usize, usize)|
            #![trigger sset.contains(g1), sset.contains(g2), grp(wb.garena(), g1).stone_set().contains(u), grp(wb.garena(), g2).stone_set().contains(v)]
            sset.contains(g1) && sset.contains(g2) && g1 != g2 && live(wb.garena(), g1) && live(
                wb.garena(),
                g2,
            ) && grp(wb.garena(), g1).stone_set().contains(u) && grp(
                wb.garena(),
                g2,
            ).stone_set().contains(v) ==> !adjacent(u, v),
        forall|g: int|
            live(wb.garena(), g) ==> grp(#[trigger] wb.garena(), g).libs_seq().len() >= 1,
        forall|k: int|
            0 <= k < rem.len() ==> (#[trigger] rem[k]).stones_seq().len() >= 1
                && rem[k].stones_seq().no_duplicates(),
        forall|k: int, c: (usize, usize)|
            0 <= k < rem.len() && (#[trigger] rem[k].stone_set().contains(c)) ==> in_extent(
                c,
                pre.spec_size(),
            ) && cell(pre.grid(), c) == Intersection::Empty,
        forall|k1: int, k2: int|
            0 <= k1 < k2 < rem.len() ==> (#[trigger] rem[k1]).stone_set().disjoint(
                (#[trigger] rem[k2]).stone_set(),
            ),
    ensures
        undo_fits(pre),
{
    let size = pre.spec_size();
    let gl = wb.grid();
    assert forall|k2: int| 0 <= k2 < rem.len() implies has_undone_liberty(
        pre,
        (#[trigger] rem[k2]).stone_set(),
    ) by {
        let gw = rgids[k2] as int;
        assert(rset.contains(gw));
        assert(live(wb.garena(), gw));
        assert(grp(wb.garena(), gw).stone_set() == rem[k2].stone_set());
        assert(grp(wb.garena(), gw).libs_seq().len() >= 1);
        let cl = grp(wb.garena(), gw).libs_seq()[0];
        assert(grp(wb.garena(), gw).libs_seq().contains(cl));
        assert(grp(wb.garena(), gw).liberty_set().contains(cl));
        assert(exact_libs(grp(wb.garena(), gw).stone_set(), gl, size).contains(cl));
        let b = choose|b: (usize, usize)|
            grp(wb.garena(), gw).stone_set().contains(b) && #[trigger] adjacent(b, cl);
        assert(undone_empty(pre, cl));
        assert(stone_touches_undone(pre, b));
        assert(rem[k2].stone_set().contains(b));
    }
    assert forall|g: int| #[trigger]
        live(pre.garena(), g) && g != oldgid as int implies has_undone_liberty(
        pre,
        grp(pre.garena(), g).stone_set(),
    ) by {
        assert(live(wb.garena(), g));
        assert(grp(wb.garena(), g).libs_seq().len() >= 1);
        let cl = grp(wb.garena(), g).libs_seq()[0];
        assert(grp(wb.garena(), g).libs_seq().contains(cl));
        assert(grp(wb.garena(), g).liberty_set().contains(cl));
        let og = grp(pre.garena(), g);
        assert(0 <= g < pre.garena().len());
        assert(group_ok(pre.grid(), size, g as usize, og));
        if cl == (x, y) {
            assert(undone_empty(pre, cl));
            assert(touches(gl, size, g as usize, (x, y)));
            let cb = choose|cb: (usize, usize)|
                adjacent(cb, (x, y)) && in_extent(cb, size) && #[trigger] is_stone_of(
                    cell(gl, cb),
                    g as usize,
                );
            assert(cb != (x, y));
            assert(!rr.contains(cb)) by {
                if rr.contains(cb) {
                    assert(rset.contains(cell_gid(cell(gl, cb)) as int));
                    assert(!live(pre.garena(), cell_gid(cell(gl, cb)) as int));
                }
            }
            assert(!grp(pre.garena(), oldgid as int).stone_set().contains(cb)) by {
                if grp(pre.garena(), oldgid as int).stone_set().contains(cb) {
                    assert(sset.contains(cell_gid(cell(gl, cb)) as int));
                    assert(!live(pre.garena(), cell_gid(cell(gl, cb)) as int));
                }
            }
            assert(cell(pre.grid(), cb) == cell(gl, cb));
            assert(og.stone_set().contains(cb));
            assert(adjacent(cb, cl));
            assert(stone_touches_undone(pre, cb));
        } else {
            assert(og.liberty_set().contains(cl)) by {
                assert(!Set::<(usize, usize)>::empty().insert((x, y)).contains(cl));
            }
            assert(exact_libs(og.stone_set(), pre.grid(), size).contains(cl));
            let b = choose|b: (usize, usize)|
                og.stone_set().contains(b) && #[trigger] adjacent(b, cl);
            assert(!rr.contains(cl)) by {
                if rr.contains(cl) {
                    assert(cell(pre.grid(), b) == Intersection::Stone(
                        gcol(pre.grid(), og),
                        g as usize,
                    ));
                    assert(!rr.contains(b));
                    assert(!grp(pre.garena(), oldgid as int).stone_set().contains(b)) by {
                        if grp(pre.garena(), oldgid as int).stone_set().contains(b) {
                            lemma_distinct_groups_disjoint(
                                pre.grid(),
                                pre.garena(),
                                size,
                                g,
                                oldgid as int,
                            );
                        }
                    }
                    assert(b != (x, y));
                    assert(cell(gl, b) == cell(pre.grid(), b));
                    assert(is_stone_of(cell(gl, b), g as usize));
                    assert(touches(gl, size, g as usize, cl));
                    assert(Set::new(
                        |c2: (usize, usize)|
                            rr.contains(c2) && touches(gl, size, g as usize, c2),
                    ).contains(cl));
                    assert(!grp(wb.garena(), g).liberty_set().contains(cl));
                    assert(false);
                }
            }
            assert(undone_empty(pre, cl));
            assert(stone_touches_undone(pre, b));
        }
    }
    assert forall|a: (usize, usize)| #[trigger] sclean.contains(a) implies exists|b: (usize, usize)|
        #[trigger] connected_in(sclean, a, b) && stone_touches_undone(pre, b) by {
        assert(grp(pre.garena(), oldgid as int).stone_set().contains(a));
        assert(group_ok(pre.grid(), size, oldgid, grp(pre.garena(), oldgid as int)));
        assert(in_extent(a, size) && in_extent(a, MAX_SIZE));
        assert(!rr.contains(a)) by {
            if rr.contains(a) {
                assert(cell(pre.grid(), a) == Intersection::Empty);
                assert(cell(pre.grid(), a) == Intersection::Stone(col0, oldgid));
            }
        }
        assert(cell(gl, a) matches Intersection::Stone(cola, ga) && cola == col0 && sset.contains(
            ga as int,
        ) && live(wb.garena(), ga as int) && grp(wb.garena(), ga as int).stone_set().contains(a));
        let ga = cell_gid(cell(gl, a)) as int;
        assert(live(wb.garena(), ga));
        assert(grp(wb.garena(), ga).libs_seq().len() >= 1);
        let cl = grp(wb.garena(), ga).libs_seq()[0];
        assert(grp(wb.garena(), ga).libs_seq().contains(cl));
        assert(grp(wb.garena(), ga).liberty_set().contains(cl));
        assert(exact_libs(grp(wb.garena(), ga).stone_set(), gl, size).contains(cl));
        let b = choose|b: (usize, usize)|
            grp(wb.garena(), ga).stone_set().contains(b) && #[trigger] adjacent(b, cl);
        assert(undone_empty(pre, cl));
        assert(stone_touches_undone(pre, b));
        assert(grp(wb.garena(), ga).stone_set().contains(a));
        assert(connected_in(grp(wb.garena(), ga).stone_set(), a, b));
        assert forall|c2: (usize, usize)| grp(wb.garena(), ga).stone_set().contains(c2) implies
            sclean.contains(c2) by {
            assert(sset.contains(ga));
        }
        lemma_connected_mono(grp(wb.garena(), ga).stone_set(), sclean, a, b);
    }
}

/// What undoing the last move does. A pass is simply popped (only the
/// ko point is re-evaluated). Undoing a stone empties its point, splits
/// what is left of its group, re-places every captured group with the
/// opposing colour, gives the captured stones back to the loser's
/// counter, and re-evaluates the simple ko from the move before.
pub open spec fn undo_post(pre: Board, post: Board) -> bool {
    let m = pre.hist().last();
    &&& pre.hist().len() > 0
    &&& post.hist() == pre.hist().drop_last()
    &&& post.spec_size() == pre.spec_size()
    &&& post.ko_coherent()
    &&& post.wf()
    &&& match m.action {
        Vertex::Pass => {
            &&& post.grid() == pre.grid()
            &&& post.garena() == pre.garena()
            &&& post.wd() == pre.wd()
            &&& post.bd() == pre.bd()
        },
        Vertex::Put(x, y) => {
            let rem = groups_union(m.removed@);
            let t = groups_total(m.removed@);
            &&& cell(post.grid(), (x, y)) == Intersection::Empty
            &&& forall|c: (usize, usize)|
                in_extent(c, MAX_SIZE) && rem.contains(c) ==> (#[trigger] cell(
                    post.grid(),
                    c,
                )) is Stone && cell_col(cell(post.grid(), c)) == opp(m.player)
            &&& forall|c: (usize, usize)|
                in_extent(c, MAX_SIZE) && c != (x, y) && !rem.contains(c) ==> (((#[trigger] cell(
                    post.grid(),
                    c,
                )) is Stone <==> cell(pre.grid(), c) is Stone) && (cell(post.grid(), c) is Stone
                    ==> cell_col(cell(post.grid(), c)) == cell_col(cell(pre.grid(), c))))
            &&& (m.player is Black ==> post.wd() == sat_sub(pre.wd() as int, t) && post.bd()
                == pre.bd())
            &&& (m.player is White ==> post.bd() == sat_sub(pre.bd() as int, t) && post.wd()
                == pre.wd())
            &&& (cell(pre.grid(), (x, y)) matches Intersection::Stone(oc, og) && {
                let s = grp(pre.garena(), og as int).stone_set().remove((x, y));
                // the undone stone's group identifier is freed; the
                // surviving groups keep their stones; every fresh
                // group is a recorded captured group or a maximal
                // connected chain of the played stone's former group
                &&& !live(post.garena(), og as int)
                &&& forall|g: int| #![trigger live(pre.garena(), g)]
                    live(pre.garena(), g) && g != og as int ==> live(post.garena(), g) && grp(
                        post.garena(),
                        g,
                    ).stones_seq() == grp(pre.garena(), g).stones_seq()
                &&& forall|g: int| #![trigger live(post.garena(), g)]
                    live(post.garena(), g) && !live(pre.garena(), g) ==> ((exists|k: int|
                        0 <= k < m.removed@.len() && grp(post.garena(), g).stone_set() == (
                        #[trigger] m.removed@[k]).stone_set()) || {
                        let sg = grp(post.garena(), g).stone_set();
                        &&& forall|c: (usize, usize)| #[trigger] sg.contains(c) ==> s.contains(c)
                        &&& forall|u: (usize, usize), v: (usize, usize)|
                            #[trigger] sg.contains(u) && #[trigger] sg.contains(v)
                                ==> connected_in(sg, u, v)
                        &&& forall|u: (usize, usize), v: (usize, usize)|
                            #[trigger] sg.contains(u) && #[trigger] s.contains(v) && adjacent(u, v)
                                ==> sg.contains(v)
                    })
            })
        },
    }
}

/// True when the vector `v` holds the group identifier `g`.
fn gids_contains(v: &Vec<usize>, g: usize) -> (r: bool)
    ensures
        r == v@.contains(g),
{
    let mut i: usize = 0;
    while i < v.len()
        invariant
            i <= v@.len(),
            forall|j: int| 0 <= j < i ==> v@[j] != g,
        decreases v@.len() - i,
    {
        if v[i] == g {
            assert(v@[i as int] == g);
            return true;
        }
        i = i + 1;
    }
    false
}

/// Appends all coordinates of `src` to `dst`.
fn append_coords(dst: &mut Vec<(usize, usize)>, src: &Vec<(usize, usize)>)
    ensures
        final(dst)@ == old(dst)@ + src@,
{
    let mut i: usize = 0;
    while i < src.len()
        invariant
            i <= src@.len(),
            dst@ == old(dst)@ + src@.take(i as int),
        decreases src@.len() - i,
    {
        dst.push(src[i]);
        proof {
            assert(src@.take(i + 1) == src@.take(i as int).push(src@[i as int]));
            assert(dst@ =~= old(dst)@ + src@.take(i + 1));
        }
        i = i + 1;
    }
    proof {
        assert(src@.take(src@.len() as int) =~= src@);
    }
}

/// Distinct live groups never share a stone.
proof fn lemma_distinct_groups_disjoint(
    grid: Seq<Intersection>,
    groups: Seq<Option<Group>>,
    size: usize,
    g1: int,
    g2: int,
)
    requires
        geo_wf(grid, groups, size),
        live(groups, g1),
        live(groups, g2),
        g1 != g2,
        g1 <= usize::MAX,
        g2 <= usize::MAX,
    ensures
        grp(groups, g1).stone_set().disjoint(grp(groups, g2).stone_set()),
{
    assert forall|c: (usize, usize)|
        grp(groups, g1).stone_set().contains(c) implies !grp(groups, g2).stone_set().contains(
        c,
    ) by {
        assert(group_ok(grid, size, g1 as usize, grp(groups, g1)));
        assert(group_ok(grid, size, g2 as usize, grp(groups, g2)));
    }
}

/// After the merges of a play, the position is consistent again and
/// the grid changes are confined to the played point and the captured
/// cells. `own` is the merged group of the placed stone, `mown` the
/// neighbour groups it absorbed, `kp` the captured groups, and `vcs`
/// their cells; `grid_c4` is the grid as it stood right after placing
/// the stone.
#[verifier::rlimit(100)]
#[verifier::spinoff_prover]
proof fn lemma_play_assemble(
    pre: Board,
    cur: Board,
    player: Colour,
    x: usize,
    y: usize,
    kp: Set<int>,
    vset: Set<(usize, usize)>,
    vcs: Seq<(usize, usize)>,
    mown: Set<int>,
    own: int,
    gid_new: usize,
    glen: int,
    grid_c4: Seq<Intersection>,
    arena_c3: Seq<Option<Group>>,
)
    requires
        pre.wf(),
        in_extent((x, y), pre.spec_size()),
        cell(pre.grid(), (x, y)) == Intersection::Empty,
        play_allowed(pre, player, x, y),
        glen == pre.garena().len(),
        glen <= usize::MAX,
        forall|g: int| kp.contains(g) <==> kill_gid(pre, player, x, y, g),
        vset == vacated(pre, player, x, y),
        vset == vcs.to_set(),
        forall|c: (usize, usize)| #[trigger]
            vcs.contains(c) ==> in_extent(c, pre.spec_size()) && cell(pre.grid(), c) is Stone,
        forall|c: (usize, usize)| in_extent(c, MAX_SIZE) ==> ((#[trigger] cell(grid_c4, c)
            == Intersection::Empty) <==> ((vset.contains(c) || cell(pre.grid(), c)
            == Intersection::Empty) && c != (x, y))),
        !live(pre.garena(), gid_new as int) || kp.contains(gid_new as int),
        cur.grid().len() == 625,
        cur.spec_size() == pre.spec_size(),
        0 <= own <= glen,
        live(cur.garena(), own),
        own == gid_new as int || mown.contains(own),
        grp(cur.garena(), own).wf(),
        grp(cur.garena(), own).stone_set() == own_stones(pre, x, y, mown),
        grp(cur.garena(), own).stones_seq().len() >= 1,
        grp(cur.garena(), own).liberty_set() == exact_libs(
            own_stones(pre, x, y, mown),
            grid_c4,
            pre.spec_size(),
        ),
        forall|g: int| #[trigger]
            mown.contains(g) ==> live(pre.garena(), g) && own_nbr(pre, player, x, y, g)
                && !kp.contains(g) && 0 <= g <= glen,
        forall|g: int| #![trigger live(cur.garena(), g)]
            live(cur.garena(), g) <==> (g == own || (live(pre.garena(), g) && !kp.contains(g)
                && !mown.contains(g))),
        forall|g: int|
            live(cur.garena(), g) && g != own ==> grp(cur.garena(), g) == grp(arena_c3, g)
                && live(arena_c3, g),
        forall|g: int| #[trigger]
            live(arena_c3, g) ==> live(pre.garena(), g) && !kp.contains(g) && grp(
                arena_c3,
                g,
            ).stones_seq() == grp(pre.garena(), g).stones_seq() && grp(arena_c3, g).wf() && grp(
                arena_c3,
                g,
            ).liberty_set() == c3_libs(pre, player, x, y, vcs, g),
        forall|c: (usize, usize)| in_extent(c, MAX_SIZE) ==> #[trigger] cell(cur.grid(), c) == (
        if own_stones(pre, x, y, mown).contains(c) {
            Intersection::Stone(player, own as usize)
        } else if vset.contains(c) {
            Intersection::Empty
        } else {
            cell(pre.grid(), c)
        }),
        forall|cb: (usize, usize)|
            adjacent(cb, (x, y)) && in_extent(cb, pre.spec_size()) && (#[trigger] cell(
                cur.grid(),
                cb,
            )) is Stone && cell_col(cell(cur.grid(), cb)) == player ==> cell_gid(
                cell(cur.grid(), cb),
            ) as int == own,
    ensures
        geo_wf(cur.grid(), cur.garena(), pre.spec_size()),
        cell(cur.grid(), (x, y)) == Intersection::Stone(player, own as usize),
        forall|c: (usize, usize)|
            in_extent(c, MAX_SIZE) && vset.contains(c) ==> #[trigger] cell(cur.grid(), c)
                == Intersection::Empty,
        forall|c: (usize, usize)|
            in_extent(c, MAX_SIZE) && c != (x, y) && !vset.contains(c) ==> (((#[trigger] cell(
                cur.grid(),
                c,
            )) is Stone <==> cell(pre.grid(), c) is Stone) && (cell(cur.grid(), c) is Stone
                ==> cell_col(cell(cur.grid(), c)) == cell_col(cell(pre.grid(), c)))),
{
    let size = pre.spec_size();
    let grid_f = cur.grid();
    let sown = own_stones(pre, x, y, mown);
            // final statuses, compared with the position before the move
            assert forall|c: (usize, usize)| in_extent(c, MAX_SIZE) implies ((#[trigger] cell(
                grid_f,
                c,
            ) == Intersection::Empty) <==> ((vset.contains(c) || cell(pre.grid(), c)
                == Intersection::Empty) && c != (x, y))) by {
                if sown.contains(c) {
                    if c != (x, y) {
                        let g = choose|g: int|
                            #[trigger] mown.contains(g) && grp(pre.garena(), g).stone_set().contains(
                                c,
                            );
                        assert(cell(pre.grid(), c) == Intersection::Stone(
                            gcol(pre.grid(), grp(pre.garena(), g)),
                            g as usize,
                        ));
                        if vset.contains(c) {
                            let gk = choose|gk: int|
                                #[trigger] kill_gid(pre, player, x, y, gk) && grp(
                                    pre.garena(),
                                    gk,
                                ).stone_set().contains(c);
                            if gk != g {
                                lemma_distinct_groups_disjoint(
                                    pre.grid(),
                                    pre.garena(),
                                    size,
                                    gk,
                                    g,
                                );
                            }
                            assert(false);
                        }
                    }
                }
            }
            // the merged group's liberties read the same on the final grid
            assert(exact_libs(sown, grid_c4, size) =~= exact_libs(sown, grid_f, size)) by {
                assert forall|c: (usize, usize)|
                    exact_libs(sown, grid_c4, size).contains(c) == exact_libs(
                    sown,
                    grid_f,
                    size,
                ).contains(c) by {
                    assert(in_extent(c, size) ==> in_extent(c, MAX_SIZE));
                    if in_extent(c, MAX_SIZE) {
                        assert((cell(grid_c4, c) == Intersection::Empty) == (cell(grid_f, c)
                            == Intersection::Empty));
                    }
                }
            }
            // the merged group is alive
            assert(grp(cur.garena(), own).liberty_set().len() >= 1 && grp(
                cur.garena(),
                own,
            ).libs_seq().len() >= 1) by {
                let lset = grp(cur.garena(), own).liberty_set();
                if has_kill(pre, player, x, y) {
                    let gk = choose|gk: int| kill_gid(pre, player, x, y, gk);
                    let cb = choose|cb: (usize, usize)|
                        adjacent(cb, (x, y)) && in_extent(cb, pre.spec_size()) && #[trigger] cell(
                            pre.grid(),
                            cb,
                        ) == Intersection::Stone(opp(player), gk as usize);
                    assert(grp(pre.garena(), gk).stone_set().contains(cb));
                    assert(vacated(pre, player, x, y).contains(cb));
                    assert(cell(grid_f, cb) == Intersection::Empty);
                    assert(sown.contains((x, y)) && adjacent((x, y), cb));
                    assert(exact_libs(sown, grid_f, size).contains(cb));
                    assert(lset.contains(cb));
                } else {
                    assert(placement_alive(pre, player, x, y));
                    if exists|cb: (usize, usize)|
                        adjacent(cb, (x, y)) && in_extent(cb, pre.spec_size()) && #[trigger] cell(
                            pre.grid(),
                            cb,
                        ) == Intersection::Empty {
                        let cb = choose|cb: (usize, usize)|
                            adjacent(cb, (x, y)) && in_extent(cb, pre.spec_size())
                                && #[trigger] cell(pre.grid(), cb) == Intersection::Empty;
                        assert(cb != (x, y));
                        assert(cell(grid_f, cb) == Intersection::Empty);
                        assert(sown.contains((x, y)) && adjacent((x, y), cb));
                        assert(exact_libs(sown, grid_f, size).contains(cb));
                        assert(lset.contains(cb));
                    } else {
                        let g = choose|g: int|
                            #[trigger] own_nbr(pre, player, x, y, g) && live(pre.garena(), g)
                                && grp(pre.garena(), g).libs_seq().len() > 1;
                        let cb = choose|cb: (usize, usize)|
                            adjacent(cb, (x, y)) && in_extent(cb, pre.spec_size())
                                && #[trigger] cell(pre.grid(), cb) == Intersection::Stone(
                                player,
                                g as usize,
                            );
                        assert(grp(pre.garena(), g).stone_set().contains(cb));
                        assert(gcol(pre.grid(), grp(pre.garena(), g)) == player);
                        // that neighbouring group was absorbed
                        assert(mown.contains(g)) by {
                            if kp.contains(g) {
                                let cb2 = choose|cb2: (usize, usize)|
                                    adjacent(cb2, (x, y)) && in_extent(cb2, pre.spec_size())
                                        && #[trigger] cell(pre.grid(), cb2) == Intersection::Stone(
                                        opp(player),
                                        g as usize,
                                    );
                                assert(grp(pre.garena(), g).stone_set().contains(cb2));
                                assert(false);
                            }
                            if !mown.contains(g) {
                                if sown.contains(cb) {
                                    let g3 = choose|g3: int|
                                        #[trigger] mown.contains(g3) && grp(
                                            pre.garena(),
                                            g3,
                                        ).stone_set().contains(cb);
                                    if g3 != g {
                                        lemma_distinct_groups_disjoint(
                                            pre.grid(),
                                            pre.garena(),
                                            size,
                                            g3,
                                            g,
                                        );
                                    }
                                    assert(false);
                                } else {
                                    assert(!vset.contains(cb)) by {
                                        if vset.contains(cb) {
                                            let gk2 = choose|gk2: int|
                                                #[trigger] kill_gid(pre, player, x, y, gk2) && grp(
                                                    pre.garena(),
                                                    gk2,
                                                ).stone_set().contains(cb);
                                            if gk2 != g {
                                                lemma_distinct_groups_disjoint(
                                                    pre.grid(),
                                                    pre.garena(),
                                                    size,
                                                    gk2,
                                                    g,
                                                );
                                            }
                                            assert(false);
                                        }
                                    }
                                    assert(cell(grid_f, cb) == Intersection::Stone(
                                        player,
                                        g as usize,
                                    ));
                                    assert(cell(grid_f, cb) is Stone
                                        && cell_col(cell(grid_f, cb)) == player);
                                    assert(g == own);
                                    assert(live(pre.garena(), gid_new as int) && !kp.contains(
                                        gid_new as int,
                                    ) ==> false);
                                    assert(own != gid_new as int);
                                    assert(mown.contains(own));
                                    assert(false);
                                }
                            }
                        }
                        // it kept a liberty besides the point played
                        let gl = grp(pre.garena(), g).libs_seq();
                        assert(group_ok(pre.grid(), size, g as usize, grp(pre.garena(), g)));
                        let l: (usize, usize) = if gl[0] != (x, y) {
                            gl[0]
                        } else {
                            gl[1]
                        };
                        assert(gl.contains(gl[0]) && gl.contains(gl[1]));
                        assert(l != (x, y));
                        assert(grp(pre.garena(), g).liberty_set().contains(l));
                        assert(exact_libs(
                            grp(pre.garena(), g).stone_set(),
                            pre.grid(),
                            size,
                        ).contains(l));
                        let st = choose|st: (usize, usize)|
                            grp(pre.garena(), g).stone_set().contains(st) && #[trigger] adjacent(
                                st,
                                l,
                            );
                        assert(cell(grid_f, l) == Intersection::Empty);
                        assert(sown.contains(st));
                        assert(exact_libs(sown, grid_f, size).contains(l));
                        assert(lset.contains(l));
                    }
                }
                let lw = choose|lw: (usize, usize)| lset.contains(lw);
                assert(grp(cur.garena(), own).libs_seq().contains(lw));
            }
            // every live group is exact and alive on the final position
            assert forall|g: int| #[trigger] live(cur.garena(), g) implies group_ok(
                grid_f,
                size,
                g as usize,
                grp(cur.garena(), g),
            ) by {
                if g == own {
                    assert(stones_on_grid(grid_f, size, own as usize, grp(cur.garena(), own)))
                        by {
                        assert forall|c: (usize, usize)| #[trigger] grp(
                            cur.garena(),
                            own,
                        ).stone_set().contains(c) implies in_extent(c, size) && cell(grid_f, c)
                            == Intersection::Stone(
                            gcol(grid_f, grp(cur.garena(), own)),
                            own as usize,
                        ) by {
                            assert(sown.contains(c));
                            if c != (x, y) {
                                let g2 = choose|g2: int|
                                    #[trigger] mown.contains(g2) && grp(
                                        pre.garena(),
                                        g2,
                                    ).stone_set().contains(c);
                                assert(group_ok(
                                    pre.grid(),
                                    size,
                                    g2 as usize,
                                    grp(pre.garena(), g2),
                                ));
                            }
                            assert(cell(grid_f, c) == Intersection::Stone(player, own as usize));
                            let c0 = grp(cur.garena(), own).stones_seq()[0];
                            assert(grp(cur.garena(), own).stones_seq().contains(c0));
                            assert(grp(cur.garena(), own).stone_set().contains(c0));
                            assert(sown.contains(c0));
                            assert(cell(grid_f, c0) == Intersection::Stone(player, own as usize));
                            assert(gcol(grid_f, grp(cur.garena(), own)) == player);
                        }
                    }
                    assert(grp(cur.garena(), own).liberty_set() == exact_libs(
                        grp(cur.garena(), own).stone_set(),
                        grid_f,
                        size,
                    ));
                } else {
                    let sg = grp(cur.garena(), g).stone_set();
                    assert(grp(cur.garena(), g) == grp(arena_c3, g));
                    assert(live(pre.garena(), g) && !kp.contains(g) && !mown.contains(g));
                    assert(group_ok(pre.grid(), size, g as usize, grp(pre.garena(), g)));
                    assert(sg =~= grp(pre.garena(), g).stone_set());
                    assert(0 <= g < glen);
                    // its cells are untouched
                    assert forall|c: (usize, usize)| #[trigger] sg.contains(c) implies in_extent(
                        c,
                        size,
                    ) && cell(grid_f, c) == cell(pre.grid(), c) by {
                        assert(grp(pre.garena(), g).stone_set().contains(c));
                        if sown.contains(c) {
                            if c == (x, y) {
                                assert(false);
                            } else {
                                let g2 = choose|g2: int|
                                    #[trigger] mown.contains(g2) && grp(
                                        pre.garena(),
                                        g2,
                                    ).stone_set().contains(c);
                                if g2 != g {
                                    lemma_distinct_groups_disjoint(
                                        pre.grid(),
                                        pre.garena(),
                                        size,
                                        g2,
                                        g,
                                    );
                                }
                                assert(false);
                            }
                        }
                        if vset.contains(c) {
                            let gk = choose|gk: int|
                                #[trigger] kill_gid(pre, player, x, y, gk) && grp(
                                    pre.garena(),
                                    gk,
                                ).stone_set().contains(c);
                            if gk != g {
                                lemma_distinct_groups_disjoint(
                                    pre.grid(),
                                    pre.garena(),
                                    size,
                                    gk,
                                    g,
                                );
                            }
                            assert(false);
                        }
                    }
                    assert(stones_on_grid(grid_f, size, g as usize, grp(cur.garena(), g))) by {
                        let c0 = grp(cur.garena(), g).stones_seq()[0];
                        assert(grp(cur.garena(), g).stones_seq().contains(c0));
                        assert(sg.contains(c0));
                        assert(cell(grid_f, c0) == cell(pre.grid(), c0));
                        assert(gcol(grid_f, grp(cur.garena(), g)) == gcol(
                            pre.grid(),
                            grp(pre.garena(), g),
                        ));
                        assert forall|c: (usize, usize)| #[trigger] grp(
                            cur.garena(),
                            g,
                        ).stone_set().contains(c) implies in_extent(c, size) && cell(grid_f, c)
                            == Intersection::Stone(
                            gcol(grid_f, grp(cur.garena(), g)),
                            g as usize,
                        ) by {
                            assert(grp(pre.garena(), g).stone_set().contains(c));
                        }
                    }
                    // either the point stopped being a liberty of an
                    // opposing neighbour, or it never was one
                    assert(c2_libs(pre, player, x, y, g) =~= exact_libs(
                        grp(pre.garena(), g).stone_set(),
                        pre.grid(),
                        size,
                    ).remove((x, y))) by {
                        if !opposing_nbr(pre, player, x, y, g) {
                            assert(!exact_libs(
                                grp(pre.garena(), g).stone_set(),
                                pre.grid(),
                                size,
                            ).contains((x, y))) by {
                                if exact_libs(
                                    grp(pre.garena(), g).stone_set(),
                                    pre.grid(),
                                    size,
                                ).contains((x, y)) {
                                    let st = choose|st: (usize, usize)|
                                        grp(pre.garena(), g).stone_set().contains(st)
                                            && #[trigger] adjacent(st, (x, y));
                                    assert(cell(pre.grid(), st) == Intersection::Stone(
                                        gcol(pre.grid(), grp(pre.garena(), g)),
                                        g as usize,
                                    ));
                                    assert(live(pre.garena(), g) && 0 <= g < glen);
                                    if gcol(pre.grid(), grp(pre.garena(), g)) == opp(player) {
                                        assert(in_extent(st, size));
                                        assert(adjacent(st, (x, y)) && in_extent(
                                            st,
                                            pre.spec_size(),
                                        ) && cell(pre.grid(), st) == Intersection::Stone(
                                            opp(player),
                                            g as usize,
                                        ));
                                        assert(opposing_nbr(pre, player, x, y, g));
                                        assert(false);
                                    } else {
                                        assert(gcol(pre.grid(), grp(pre.garena(), g)) == player);
                                        assert(adjacent(st, (x, y)) && in_extent(
                                            st,
                                            pre.spec_size(),
                                        ) && cell(pre.grid(), st) == Intersection::Stone(
                                            player,
                                            g as usize,
                                        ));
                                        assert(own_nbr(pre, player, x, y, g));
                                        assert(sg.contains(st));
                                        assert(cell(grid_f, st) == cell(pre.grid(), st));
                                        assert(cell(grid_f, st) is Stone
                                            && cell_col(cell(grid_f, st)) == player);
                                        assert(g == own);
                                        assert(false);
                                    }
                                }
                            }
                        }
                    }
                    lemma_exact_shift(pre.grid(), grid_f, size, sg, vset, (x, y));
                    assert(grp(cur.garena(), g).liberty_set() =~= exact_libs(
                        sg,
                        grid_f,
                        size,
                    )) by {
                        assert(grp(cur.garena(), g).liberty_set() == c3_libs(
                            pre,
                            player,
                            x,
                            y,
                            vcs,
                            g,
                        ));
                        assert(exact_libs(sg, grid_f, size) =~= exact_libs(
                            grp(pre.garena(), g).stone_set(),
                            grid_f,
                            size,
                        ));
                        assert(exact_libs(grp(pre.garena(), g).stone_set(), grid_f, size)
                            == exact_libs(
                            grp(pre.garena(), g).stone_set(),
                            pre.grid(),
                            size,
                        ).remove((x, y)) + vset.intersect(adj_zone(
                            grp(pre.garena(), g).stone_set(),
                            size,
                        ))) by {
                            assert(exact_libs(sg, grid_f, size) == exact_libs(
                                sg,
                                pre.grid(),
                                size,
                            ).remove((x, y)) + vset.intersect(adj_zone(sg, size)));
                            assert(exact_libs(sg, grid_f, size) =~= exact_libs(
                                grp(pre.garena(), g).stone_set(),
                                grid_f,
                                size,
                            ));
                            assert(exact_libs(sg, pre.grid(), size) =~= exact_libs(
                                grp(pre.garena(), g).stone_set(),
                                pre.grid(),
                                size,
                            ));
                            assert(adj_zone(sg, size) =~= adj_zone(
                                grp(pre.garena(), g).stone_set(),
                                size,
                            ));
                        }
                        assert(c2_libs(pre, player, x, y, g) =~= exact_libs(
                            grp(pre.garena(), g).stone_set(),
                            pre.grid(),
                            size,
                        ).remove((x, y)));
                        assert(Set::new(
                            |c: (usize, usize)|
                                vcs.contains(c) && touches(pre.grid(), size, g as usize, c),
                        ) =~= vset.intersect(adj_zone(grp(pre.garena(), g).stone_set(), size)))
                            by {
                            assert forall|c: (usize, usize)|
                                vcs.contains(c) && touches(pre.grid(), size, g as usize, c)
                                implies vset.contains(c) && adj_zone(
                                grp(pre.garena(), g).stone_set(),
                                size,
                            ).contains(c) by {
                                let cb = choose|cb: (usize, usize)|
                                    adjacent(cb, c) && in_extent(cb, size)
                                        && #[trigger] is_stone_of(
                                        cell(pre.grid(), cb),
                                        g as usize,
                                    );
                                assert(cell(pre.grid(), cb) is Stone);
                                assert(cell_gid(cell(pre.grid(), cb)) == g as usize);
                                assert(grp(pre.garena(), g).stone_set().contains(cb));
                                assert(in_extent(c, size));
                            }
                            assert forall|c: (usize, usize)|
                                vset.contains(c) && adj_zone(
                                grp(pre.garena(), g).stone_set(),
                                size,
                            ).contains(c) implies vcs.contains(c) && touches(
                                pre.grid(),
                                size,
                                g as usize,
                                c,
                            ) by {
                                let st = choose|st: (usize, usize)|
                                    grp(pre.garena(), g).stone_set().contains(st)
                                        && #[trigger] adjacent(st, c);
                                assert(cell(pre.grid(), st) == Intersection::Stone(
                                    gcol(pre.grid(), grp(pre.garena(), g)),
                                    g as usize,
                                ));
                                assert(in_extent(st, size));
                                assert(is_stone_of(cell(pre.grid(), st), g as usize));
                            }
                        }
                    }
                    // it keeps a liberty
                    assert(grp(cur.garena(), g).liberty_set().len() >= 1 && grp(
                        cur.garena(),
                        g,
                    ).libs_seq().len() >= 1) by {
                        let gl = grp(pre.garena(), g).libs_seq();
                        let l: (usize, usize) = if opposing_nbr(pre, player, x, y, g) {
                            if gl.len() >= 2 {
                                if gl[0] != (x, y) {
                                    gl[0]
                                } else {
                                    gl[1]
                                }
                            } else {
                                gl[0]
                            }
                        } else {
                            gl[0]
                        };
                        assert(gl.contains(gl[0]));
                        assert(grp(pre.garena(), g).liberty_set().contains(gl[0]));
                        if opposing_nbr(pre, player, x, y, g) {
                            assert(!kill_gid(pre, player, x, y, g));
                            let l2 = choose|l2: (usize, usize)|
                                #[trigger] grp(pre.garena(), g).liberty_set().contains(l2) && l2
                                    != (x, y);
                            assert(grp(cur.garena(), g).liberty_set().contains(l2)) by {
                                assert(c2_libs(pre, player, x, y, g).contains(l2));
                            }
                        } else {
                            assert(grp(pre.garena(), g).liberty_set().contains(gl[0]));
                            assert(gl[0] != (x, y)) by {
                                assert(exact_libs(
                                    grp(pre.garena(), g).stone_set(),
                                    pre.grid(),
                                    size,
                                ).contains(gl[0]));
                            }
                            assert(grp(cur.garena(), g).liberty_set().contains(gl[0])) by {
                                assert(c2_libs(pre, player, x, y, g).contains(gl[0]));
                            }
                        }
                        let lw = choose|lw: (usize, usize)|
                            grp(cur.garena(), g).liberty_set().contains(lw);
                        assert(grp(cur.garena(), g).libs_seq().contains(lw));
                    }
                }
            }
            // the grid points back at live groups
            assert(geo_wf(grid_f, cur.garena(), size)) by {
                assert forall|c: (usize, usize)| in_extent(c, size) implies match #[trigger] cell(
                    grid_f,
                    c,
                ) {
                    Intersection::Stone(col, gid) => live(cur.garena(), gid as int) && grp(
                        cur.garena(),
                        gid as int,
                    ).stone_set().contains(c),
                    Intersection::Empty => true,
                } by {
                    if sown.contains(c) {
                        assert(cell(grid_f, c) == Intersection::Stone(player, own as usize));
                        assert(grp(cur.garena(), own).stone_set().contains(c));
                        assert(own as usize as int == own);
                    } else if !vset.contains(c) {
                        match cell(pre.grid(), c) {
                            Intersection::Stone(col, gid) => {
                                assert(live(pre.garena(), gid as int));
                                assert(grp(pre.garena(), gid as int).stone_set().contains(c));
                                if kp.contains(gid as int) {
                                    assert(vacated(pre, player, x, y).contains(c));
                                    assert(false);
                                }
                                if mown.contains(gid as int) {
                                    assert(sown.contains(c));
                                    assert(false);
                                }
                                assert(live(cur.garena(), gid as int));
                                assert(grp(cur.garena(), gid as int) == grp(
                                    arena_c3,
                                    gid as int,
                                ));
                                assert(grp(cur.garena(), gid as int).stone_set().contains(c));
                            },
                            Intersection::Empty => {},
                        }
                    }
                }
                assert forall|c: (usize, usize)|
                    in_extent(c, MAX_SIZE) && !in_extent(c, size) implies #[trigger] cell(
                    grid_f,
                    c,
                ) == Intersection::Empty by {
                    if sown.contains(c) {
                        if c != (x, y) {
                            let g2 = choose|g2: int|
                                #[trigger] mown.contains(g2) && grp(
                                    pre.garena(),
                                    g2,
                                ).stone_set().contains(c);
                            assert(in_extent(c, size));
                        }
                        assert(false);
                    }
                    if vset.contains(c) {
                        assert(vcs.contains(c));
                        assert(false);
                    }
                }
            }

    // the played point
    assert(own_stones(pre, x, y, mown).contains((x, y)));
    // captured cells are empty now
    assert forall|c: (usize, usize)|
        in_extent(c, MAX_SIZE) && vset.contains(c) implies #[trigger] cell(cur.grid(), c)
        == Intersection::Empty by {
        if own_stones(pre, x, y, mown).contains(c) {
            assert((cell(grid_f, c) == Intersection::Empty) == ((vset.contains(c) || cell(
                pre.grid(),
                c,
            ) == Intersection::Empty) && c != (x, y)));
            assert(cell(grid_f, c) == Intersection::Stone(player, own as usize));
            assert(c == (x, y));
            assert(vcs.contains(c));
            assert(false);
        }
    }
    // every other point keeps its occupancy and colour
    assert forall|c: (usize, usize)|
        in_extent(c, MAX_SIZE) && c != (x, y) && !vset.contains(c) implies (((#[trigger] cell(
        cur.grid(),
        c,
    )) is Stone <==> cell(pre.grid(), c) is Stone) && (cell(cur.grid(), c) is Stone ==> cell_col(
        cell(cur.grid(), c),
    ) == cell_col(cell(pre.grid(), c)))) by {
        if own_stones(pre, x, y, mown).contains(c) {
            let g2 = choose|g2: int|
                #[trigger] mown.contains(g2) && grp(pre.garena(), g2).stone_set().contains(c);
            assert(cell(pre.grid(), c) == Intersection::Stone(
                gcol(pre.grid(), grp(pre.garena(), g2)),
                g2 as usize,
            ));
            assert(gcol(pre.grid(), grp(pre.garena(), g2)) == player) by {
                let cb = choose|cb: (usize, usize)|
                    adjacent(cb, (x, y)) && in_extent(cb, pre.spec_size()) && #[trigger] cell(
                        pre.grid(),
                        cb,
                    ) == Intersection::Stone(player, g2 as usize);
                assert(grp(pre.garena(), g2).stone_set().contains(cb));
            }
        }
    }
}

/// No transient zero-liberty survivor: every group present in the table
/// of a consistent board holds at least one liberty, and `play`, `pass`,
/// `undo`, `clear` and `resize` all leave the board consistent.
pub proof fn lemma_no_dead_group_survives(b: Board, gid: int)
    requires
        b.wf(),
        live(b.garena(), gid),
    ensures
        grp(b.garena(), gid).libs_seq().len() >= 1,
        grp(b.garena(), gid).liberty_set() != Set::<(usize, usize)>::empty(),
{
    assert(group_ok(b.grid(), b.spec_size(), gid as usize, grp(b.garena(), gid)));
    let g = grp(b.garena(), gid);
    assert(g.libs_seq().contains(g.libs_seq()[0]));
    assert(g.liberty_set().contains(g.libs_seq()[0]));
}

/// Capture correctness at the liberty level: on a consistent board (such
/// as the one any completed play leaves) the recorded liberties of every
/// live group are exactly the empty in-extent points beside its stones —
/// so every point vacated by a capture is a liberty of each group that
/// touches it.
pub proof fn lemma_liberties_exact(b: Board, gid: int)
    requires
        b.wf(),
        live(b.garena(), gid),
    ensures
        grp(b.garena(), gid).liberty_set() == exact_libs(
            grp(b.garena(), gid).stone_set(),
            b.grid(),
            b.spec_size(),
        ),
{
    assert(group_ok(b.grid(), b.spec_size(), gid as usize, grp(b.garena(), gid)));
}

/// Simple ko, first half: a play at the active ko point is rejected.
pub proof fn lemma_ko_blocks_replay(b: Board, player: Colour, x: usize, y: usize)
    requires
        b.ko() == (x, y),
    ensures
        !play_allowed(b, player, x, y),
{
}

/// Simple ko, second half: a pass clears the ko point, so no in-extent
/// point is barred afterwards (the cleared marker is outside the board).
pub proof fn lemma_pass_lifts_ko(mid: Board, x: usize, y: usize)
    requires
        mid.ko() == (0usize, 0usize),
        in_extent((x, y), mid.spec_size()),
    ensures
        (x, y) != mid.ko(),
{
}

/// Simple ko, third part: a successful play anywhere else moves the
/// restriction off the old point. The board keeps the ko point as an
/// empty cell, only stones are captured, and a fresh ko can only sit on
/// a point this very move captured — so it is never the old point.
pub proof fn lemma_play_lifts_ko(
    pre: Board,
    mid: Board,
    player: Colour,
    p: usize,
    q: usize,
)
    requires
        pre.wf(),
        pre.ko() != (0usize, 0usize),
        in_extent((p, q), pre.spec_size()),
        play_allowed(pre, player, p, q),
        play_post(pre, mid, player, p, q),
        pre.garena().len() <= usize::MAX,
    ensures
        mid.ko() != pre.ko(),
{
    let k = pre.ko();
    assert(cell(pre.grid(), k) == Intersection::Empty);
    if mid.ko() == k {
        assert(mid.ko() == ko_point(mid.hist(), mid.grid(), mid.garena(), mid.spec_size()));
        let m = mid.hist().last();
        assert(m.action == Vertex::Put(p, q));
        // a non-clear ko is the single stone this move captured
        assert(m.removed@.len() == 1 && m.removed@[0].stones_seq().len() == 1);
        assert(k == m.removed@[0].stones_seq()[0]);
        assert(m.removed@[0].stones_seq().contains(k));
        assert(m.removed@[0].stone_set().contains(k));
        let gid = choose|gid: int|
            kill_gid(pre, player, p, q, gid) && (#[trigger] m.removed@[0].stone_set()) == grp(
                pre.garena(),
                gid,
            ).stone_set();
        assert(grp(pre.garena(), gid).stone_set().contains(k));
        assert(live(pre.garena(), gid));
        assert(0 <= gid < pre.garena().len());
        assert(group_ok(pre.grid(), pre.spec_size(), gid as usize, grp(pre.garena(), gid)));
        assert(cell(pre.grid(), k) == Intersection::Stone(
            gcol(pre.grid(), grp(pre.garena(), gid)),
            gid as usize,
        ));
        assert(false);
    }
}

/// Invertibility for a pass: a pass followed by an undo restores the
/// exact prior board — grid, groups, history, size, dead counters, and
/// the ko point whenever the prior ko agreed with the history (it does
/// after any play, pass, undo, clear or resize; a board copied without
/// its history may disagree right after a capture).
pub proof fn lemma_pass_undo_restores(pre: Board, mid: Board, post: Board, player: Colour)
    requires
        pre.wf(),
        pre.ko() == ko_point(pre.hist(), pre.grid(), pre.garena(), pre.spec_size()),
        mid.hist().len() == pre.hist().len() + 1,
        mid.hist().drop_last() == pre.hist(),
        mid.hist().last().action == Vertex::Pass,
        mid.grid() == pre.grid(),
        mid.garena() == pre.garena(),
        mid.spec_size() == pre.spec_size(),
        mid.wd() == pre.wd(),
        mid.bd() == pre.bd(),
        undo_post(mid, post),
    ensures
        post.grid() == pre.grid(),
        post.garena() == pre.garena(),
        post.hist() == pre.hist(),
        post.spec_size() == pre.spec_size(),
        post.wd() == pre.wd(),
        post.bd() == pre.bd(),
        post.ko() == pre.ko(),
{
    assert(post.hist() == pre.hist());
    assert(post.ko() == ko_point(post.hist(), post.grid(), post.garena(), post.spec_size()));
}

/// Invertibility for a play: a completed play followed by a completed
/// undo restores the prior position at the observable level — the
/// occupancy and colour of every point, the history, the size, and both
/// dead counters (the counters exactly whenever the play did not
/// saturate them, which no physical game reaches). The group
/// identifiers may come out differently, since the undo rebuilds the
/// chains with fresh identifiers.
pub proof fn lemma_play_undo_restores(
    pre: Board,
    mid: Board,
    post: Board,
    player: Colour,
    x: usize,
    y: usize,
)
    requires
        pre.wf(),
        in_extent((x, y), pre.spec_size()),
        play_allowed(pre, player, x, y),
        play_post(pre, mid, player, x, y),
        undo_post(mid, post),
        pre.garena().len() <= usize::MAX,
        pre.wd() + groups_total(mid.hist().last().removed@) <= usize::MAX,
        pre.bd() + groups_total(mid.hist().last().removed@) <= usize::MAX,
    ensures
        post.hist() == pre.hist(),
        post.spec_size() == pre.spec_size(),
        post.wd() == pre.wd(),
        post.bd() == pre.bd(),
        forall|c: (usize, usize)|
            in_extent(c, MAX_SIZE) ==> (((#[trigger] cell(post.grid(), c)) is Stone <==> cell(
                pre.grid(),
                c,
            ) is Stone) && (cell(post.grid(), c) is Stone ==> cell_col(cell(post.grid(), c))
                == cell_col(cell(pre.grid(), c)))),
{
    let m = mid.hist().last();
    let t = groups_total(m.removed@);
    lemma_groups_total_nonneg(m.removed@);
    assert(post.hist() =~= pre.hist());
    let vac = vacated(pre, player, x, y);
    assert(groups_union(m.removed@) == vac);
    // counters go up by the captured stones and come back down
    assert(mid.wd() == if player is Black {
        sat_add(pre.wd() as int, t)
    } else {
        pre.wd()
    });
    assert(post.wd() == pre.wd());
    assert(post.bd() == pre.bd());
    // the grid comes back at the level of occupancy and colour
    assert forall|c: (usize, usize)| in_extent(c, MAX_SIZE) implies (((#[trigger] cell(
        post.grid(),
        c,
    )) is Stone <==> cell(pre.grid(), c) is Stone) && (cell(post.grid(), c) is Stone ==> cell_col(
        cell(post.grid(), c),
    ) == cell_col(cell(pre.grid(), c)))) by {
        if c == (x, y) {
            assert(cell(post.grid(), c) == Intersection::Empty);
            assert(cell(pre.grid(), c) == Intersection::Empty);
        } else if vac.contains(c) {
            // a captured stone comes back with the captured colour
            assert(cell(post.grid(), c) is Stone && cell_col(cell(post.grid(), c)) == opp(
                m.player,
            ));
            let gk = choose|gk: int|
                #[trigger] kill_gid(pre, player, x, y, gk) && grp(
                    pre.garena(),
                    gk,
                ).stone_set().contains(c);
            assert(group_ok(pre.grid(), pre.spec_size(), gk as usize, grp(pre.garena(), gk)));
            assert(cell(pre.grid(), c) == Intersection::Stone(
                gcol(pre.grid(), grp(pre.garena(), gk)),
                gk as usize,
            ));
            assert(gcol(pre.grid(), grp(pre.garena(), gk)) == opp(player)) by {
                let cb = choose|cb: (usize, usize)|
                    adjacent(cb, (x, y)) && in_extent(cb, pre.spec_size()) && #[trigger] cell(
                        pre.grid(),
                        cb,
                    ) == Intersection::Stone(opp(player), gk as usize);
                assert(grp(pre.garena(), gk).stone_set().contains(cb));
                assert(cell(pre.grid(), cb) == Intersection::Stone(
                    gcol(pre.grid(), grp(pre.garena(), gk)),
                    gk as usize,
                ));
            }
        } else {
            assert((cell(mid.grid(), c) is Stone <==> cell(pre.grid(), c) is Stone) && (cell(
                mid.grid(),
                c,
            ) is Stone ==> cell_col(cell(mid.grid(), c)) == cell_col(cell(pre.grid(), c))));
            assert((cell(post.grid(), c) is Stone <==> cell(mid.grid(), c) is Stone) && (cell(
                post.grid(),
                c,
            ) is Stone ==> cell_col(cell(post.grid(), c)) == cell_col(cell(mid.grid(), c))));
        }
    }
}

/// Invertibility for a play, at the level of the group partition: after
/// a completed play and a completed undo, the groups that were neither
/// captured nor absorbed keep their stones, every captured group is back
/// with its exact stones, every absorbed neighbour chain is back as a
/// group of its own, and every group of the restored board is one of
/// these — identifiers aside. The two extra hypotheses — each absorbed
/// chain hangs together and two of them never touch — hold of every
/// board built by play alone, where groups are maximal chains.
pub proof fn lemma_play_undo_restores_groups(
    pre: Board,
    mid: Board,
    post: Board,
    player: Colour,
    x: usize,
    y: usize,
)
    requires
        pre.wf(),
        mid.wf(),
        in_extent((x, y), pre.spec_size()),
        play_allowed(pre, player, x, y),
        play_post(pre, mid, player, x, y),
        undo_post(mid, post),
        pre.garena().len() <= usize::MAX,
        mid.garena().len() <= usize::MAX,
        forall|g: int, u: (usize, usize), v: (usize, usize)|
            #![trigger live(pre.garena(), g), grp(pre.garena(), g).stone_set().contains(u), grp(pre.garena(), g).stone_set().contains(v)]
            live(pre.garena(), g) && own_nbr(pre, player, x, y, g) && grp(
                pre.garena(),
                g,
            ).stone_set().contains(u) && grp(pre.garena(), g).stone_set().contains(v)
                ==> connected_in(grp(pre.garena(), g).stone_set(), u, v),
        forall|g1: int, g2: int, u: (usize, usize), v: (usize, usize)|
            #![trigger live(pre.garena(), g1), live(pre.garena(), g2), grp(pre.garena(), g1).stone_set().contains(u), grp(pre.garena(), g2).stone_set().contains(v)]
            live(pre.garena(), g1) && live(pre.garena(), g2) && g1 != g2 && own_nbr(
                pre,
                player,
                x,
                y,
                g1,
            ) && own_nbr(pre, player, x, y, g2) && grp(pre.garena(), g1).stone_set().contains(u)
                && grp(pre.garena(), g2).stone_set().contains(v) ==> !adjacent(u, v),
    ensures
        forall|g: int| #![trigger live(pre.garena(), g)]
            live(pre.garena(), g) && !kill_gid(pre, player, x, y, g) && !own_nbr(
                pre,
                player,
                x,
                y,
                g,
            ) ==> live(post.garena(), g) && grp(post.garena(), g).stones_seq() == grp(
                pre.garena(),
                g,
            ).stones_seq(),
        forall|g: int|
            kill_gid(pre, player, x, y, g) ==> exists|g2: int|
                live(#[trigger] post.garena(), g2) && grp(post.garena(), g2).stone_set() == grp(
                    pre.garena(),
                    g,
                ).stone_set(),
        forall|g: int| #![trigger own_nbr(pre, player, x, y, g)]
            live(pre.garena(), g) && own_nbr(pre, player, x, y, g) ==> exists|g2: int|
                live(post.garena(), g2) && grp(post.garena(), g2).stone_set() == grp(
                    pre.garena(),
                    g,
                ).stone_set(),
        forall|g2: int| #![trigger live(post.garena(), g2)]
            live(post.garena(), g2) ==> exists|g: int|
                live(pre.garena(), g) && grp(post.garena(), g2).stone_set() == grp(
                    pre.garena(),
                    g,
                ).stone_set(),
{
    let size = pre.spec_size();
    let m = mid.hist().last();
    let gnew = cell_gid(cell(mid.grid(), (x, y)));
    assert(cell(mid.grid(), (x, y)) == Intersection::Stone(player, gnew));
    let s = grp(mid.garena(), gnew as int).stone_set().remove((x, y));
    let vac = vacated(pre, player, x, y);
    assert(groups_union(m.removed@) == vac);
    assert(live(mid.garena(), gnew as int));
    assert(0 <= gnew < mid.garena().len());
    // the merged group is the point plus the absorbed chains
    assert(grp(mid.garena(), gnew as int).stone_set() == Set::new(
        |c: (usize, usize)|
            c == (x, y) || exists|g: int|
                #[trigger] live(pre.garena(), g) && own_nbr(pre, player, x, y, g) && grp(
                    pre.garena(),
                    g,
                ).stone_set().contains(c),
    ));
    // an absorbed chain is no captured group, and the point itself was
    // empty before the move
    assert forall|g: int|
        live(pre.garena(), g) && own_nbr(pre, player, x, y, g) implies !kill_gid(
        pre,
        player,
        x,
        y,
        g,
    ) && !grp(pre.garena(), g).stone_set().contains((x, y)) && (forall|c: (usize, usize)|
        #[trigger] grp(pre.garena(), g).stone_set().contains(c) ==> s.contains(c)) by {
        assert(0 <= g < pre.garena().len());
        assert(group_ok(pre.grid(), size, g as usize, grp(pre.garena(), g)));
        let cb = choose|cb: (usize, usize)|
            adjacent(cb, (x, y)) && in_extent(cb, size) && #[trigger] cell(pre.grid(), cb)
                == Intersection::Stone(player, g as usize);
        assert(grp(pre.garena(), g).stone_set().contains(cb));
        assert(gcol(pre.grid(), grp(pre.garena(), g)) == player);
        if kill_gid(pre, player, x, y, g) {
            let cb2 = choose|cb2: (usize, usize)|
                adjacent(cb2, (x, y)) && in_extent(cb2, size) && #[trigger] cell(pre.grid(), cb2)
                    == Intersection::Stone(opp(player), g as usize);
            assert(grp(pre.garena(), g).stone_set().contains(cb2));
            assert(false);
        }
        if grp(pre.garena(), g).stone_set().contains((x, y)) {
            assert(cell(pre.grid(), (x, y)) == Intersection::Empty);
            assert(false);
        }
        assert forall|c: (usize, usize)| #[trigger] grp(pre.garena(), g).stone_set().contains(
            c,
        ) implies s.contains(c) by {
            assert(grp(mid.garena(), gnew as int).stone_set().contains(c));
            assert(c != (x, y));
        }
    }
    // each chain of the remainder is closed toward it
    assert forall|g: int, u: (usize, usize), v: (usize, usize)|
        #![trigger live(pre.garena(), g), grp(pre.garena(), g).stone_set().contains(u), s.contains(v)]
        live(pre.garena(), g) && own_nbr(pre, player, x, y, g) && grp(
            pre.garena(),
            g,
        ).stone_set().contains(u) && s.contains(v) && adjacent(u, v) implies grp(
        pre.garena(),
        g,
    ).stone_set().contains(v) by {
        assert(grp(mid.garena(), gnew as int).stone_set().contains(v));
        let g2 = choose|g2: int|
            #[trigger] live(pre.garena(), g2) && own_nbr(pre, player, x, y, g2) && grp(
                pre.garena(),
                g2,
            ).stone_set().contains(v);
        if g2 != g {
            assert(!adjacent(u, v));
        }
    }
    // the captured stones were stones, the remainder cells stay apart
    assert forall|c: (usize, usize)| vac.contains(c) implies cell(pre.grid(), c) is Stone
        && !s.contains(c) by {
        let gk = choose|gk: int|
            #[trigger] kill_gid(pre, player, x, y, gk) && grp(pre.garena(), gk).stone_set().contains(
                c,
            );
        assert(0 <= gk < pre.garena().len());
        assert(group_ok(pre.grid(), size, gk as usize, grp(pre.garena(), gk)));
        assert(cell(pre.grid(), c) == Intersection::Stone(
            gcol(pre.grid(), grp(pre.garena(), gk)),
            gk as usize,
        ));
        if s.contains(c) {
            let g = choose|g: int|
                #[trigger] live(pre.garena(), g) && own_nbr(pre, player, x, y, g) && grp(
                    pre.garena(),
                    g,
                ).stone_set().contains(c);
            if g != gk {
                lemma_distinct_groups_disjoint(pre.grid(), pre.garena(), size, g, gk);
            } else {
                assert(!kill_gid(pre, player, x, y, g));
            }
            assert(false);
        }
    }
    // a post-group containing a remainder stone is one of the fresh chains
    assert forall|c: (usize, usize)| #[trigger] s.contains(c) implies exists|gc: int|
        live(post.garena(), gc) && !live(mid.garena(), gc) && grp(
            post.garena(),
            gc,
        ).stone_set().contains(c) && (forall|c2: (usize, usize)| #[trigger] grp(
            post.garena(),
            gc,
        ).stone_set().contains(c2) ==> s.contains(c2)) && (forall|u: (usize, usize), v: (
            usize,
            usize,
        )|
            #[trigger] grp(post.garena(), gc).stone_set().contains(u) && #[trigger] grp(
                post.garena(),
                gc,
            ).stone_set().contains(v) ==> connected_in(grp(post.garena(), gc).stone_set(), u, v))
        && (forall|u: (usize, usize), v: (usize, usize)|
            #[trigger] grp(post.garena(), gc).stone_set().contains(u) && #[trigger] s.contains(v)
                && adjacent(u, v) ==> grp(post.garena(), gc).stone_set().contains(v)) by {
        // the cell still holds a stone after the undo
        assert(grp(mid.garena(), gnew as int).stone_set().contains(c));
        assert(group_ok(mid.grid(), size, gnew, grp(mid.garena(), gnew as int)));
        assert(in_extent(c, size) && cell(mid.grid(), c) == Intersection::Stone(player, gnew));
        assert(c != (x, y));
        assert(!vac.contains(c));
        assert(cell(post.grid(), c) is Stone);
        assert(live(post.garena(), cell_gid(cell(post.grid(), c)) as int) && grp(
            post.garena(),
            cell_gid(cell(post.grid(), c)) as int,
        ).stone_set().contains(c));
        let gc = cell_gid(cell(post.grid(), c)) as int;
        assert(gc != gnew as int) by {
            assert(!live(post.garena(), gnew as int));
        }
        assert(!live(mid.garena(), gc)) by {
            if live(mid.garena(), gc) && gc != gnew as int {
                assert(grp(post.garena(), gc).stones_seq() == grp(mid.garena(), gc).stones_seq());
                assert(grp(mid.garena(), gc).stone_set().contains(c));
                assert(group_ok(mid.grid(), size, gc as usize, grp(mid.garena(), gc)));
                assert(cell(mid.grid(), c) == Intersection::Stone(
                    gcol(mid.grid(), grp(mid.garena(), gc)),
                    gc as usize,
                ));
                assert(false);
            }
        }
        // not a re-placed captured group: those sit on captured cells
        if exists|k: int|
            0 <= k < m.removed@.len() && grp(post.garena(), gc).stone_set() == (
            #[trigger] m.removed@[k]).stone_set() {
            let k = choose|k: int|
                0 <= k < m.removed@.len() && grp(post.garena(), gc).stone_set() == (
                #[trigger] m.removed@[k]).stone_set();
            assert(m.removed@[k].stone_set().contains(c));
            lemma_groups_union_contains(m.removed@, c);
            assert(vac.contains(c));
            assert(false);
        }
    }
    // an absorbed chain comes back as exactly one fresh group
    assert forall|g: int| #![trigger own_nbr(pre, player, x, y, g)]
        live(pre.garena(), g) && own_nbr(pre, player, x, y, g) implies exists|g2: int|
        live(post.garena(), g2) && grp(post.garena(), g2).stone_set() == grp(
            pre.garena(),
            g,
        ).stone_set() by {
        assert(grp(pre.garena(), g).stones_seq().len() >= 1) by {
            assert(group_ok(pre.grid(), size, g as usize, grp(pre.garena(), g)));
        }
        let a = grp(pre.garena(), g).stones_seq()[0];
        assert(grp(pre.garena(), g).stones_seq().contains(a));
        assert(grp(pre.garena(), g).stone_set().contains(a));
        assert(s.contains(a));
        let gc = choose|gc: int|
            live(post.garena(), gc) && !live(mid.garena(), gc) && grp(
                post.garena(),
                gc,
            ).stone_set().contains(a) && (forall|c2: (usize, usize)| #[trigger] grp(
                post.garena(),
                gc,
            ).stone_set().contains(c2) ==> s.contains(c2)) && (forall|u: (usize, usize), v: (
                usize,
                usize,
            )|
                #[trigger] grp(post.garena(), gc).stone_set().contains(u) && #[trigger] grp(
                    post.garena(),
                    gc,
                ).stone_set().contains(v) ==> connected_in(
                    grp(post.garena(), gc).stone_set(),
                    u,
                    v,
                )) && (forall|u: (usize, usize), v: (usize, usize)|
                #[trigger] grp(post.garena(), gc).stone_set().contains(u) && #[trigger] s.contains(
                    v,
                ) && adjacent(u, v) ==> grp(post.garena(), gc).stone_set().contains(v));
        let sg = grp(post.garena(), gc).stone_set();
        let sp = grp(pre.garena(), g).stone_set();
        assert(sg =~= sp) by {
            assert forall|c: (usize, usize)| sg.contains(c) implies sp.contains(c) by {
                assert(connected_in(sg, a, c));
                assert forall|u: (usize, usize), v: (usize, usize)|
                    sp.contains(u) && sg.contains(v) && adjacent(u, v) implies sp.contains(v)
                    || !adjacent(u, v) by {
                    assert(s.contains(v));
                }
                lemma_connected_mono(sg, s, a, c);
                lemma_connected_into_closed(s, sp, a, c);
            }
            assert forall|c: (usize, usize)| sp.contains(c) implies sg.contains(c) by {
                assert(connected_in(sp, a, c));
                assert forall|u: (usize, usize), v: (usize, usize)|
                    sg.contains(u) && sp.contains(v) && adjacent(u, v) implies sg.contains(v)
                    || !adjacent(u, v) by {
                    assert(s.contains(v));
                }
                lemma_connected_mono(sp, s, a, c);
                lemma_connected_into_closed(s, sg, a, c);
            }
        }
    }
    // every captured group comes back with its exact stones
    assert forall|g: int| kill_gid(pre, player, x, y, g) implies exists|g2: int|
        live(#[trigger] post.garena(), g2) && grp(post.garena(), g2).stone_set() == grp(
            pre.garena(),
            g,
        ).stone_set() by {
        assert(0 <= g < pre.garena().len());
        assert(group_ok(pre.grid(), size, g as usize, grp(pre.garena(), g)));
        let a = grp(pre.garena(), g).stones_seq()[0];
        assert(grp(pre.garena(), g).stones_seq().contains(a));
        assert(grp(pre.garena(), g).stone_set().contains(a));
        assert(vac.contains(a));
        lemma_groups_union_contains(m.removed@, a);
        let k = choose|k: int|
            0 <= k < m.removed@.len() && (#[trigger] m.removed@[k]).stone_set().contains(a);
        // the recorded group with this stone is this group
        let gk = choose|gk: int|
            kill_gid(pre, player, x, y, gk) && (#[trigger] m.removed@[k].stone_set()) == grp(
                pre.garena(),
                gk,
            ).stone_set();
        assert(gk == g) by {
            if gk != g {
                assert(grp(pre.garena(), gk).stone_set().contains(a));
                lemma_distinct_groups_disjoint(pre.grid(), pre.garena(), size, gk, g);
            }
        }
        // and the undo rebuilt a group with exactly those stones
        assert(cell(mid.grid(), a) == Intersection::Empty) by {
            assert(vac.contains(a) && in_extent(a, MAX_SIZE));
        }
        assert(cell(post.grid(), a) is Stone) by {
            assert(groups_union(m.removed@).contains(a));
        }
        assert(live(post.garena(), cell_gid(cell(post.grid(), a)) as int) && grp(
            post.garena(),
            cell_gid(cell(post.grid(), a)) as int,
        ).stone_set().contains(a));
        let gc = cell_gid(cell(post.grid(), a)) as int;
        assert(!live(mid.garena(), gc)) by {
            if live(mid.garena(), gc) {
                if gc == gnew as int {
                    assert(grp(mid.garena(), gc).stone_set().contains(a));
                    assert(group_ok(mid.grid(), size, gnew, grp(mid.garena(), gnew as int)));
                    assert(cell(mid.grid(), a) is Stone);
                } else {
                    assert(grp(post.garena(), gc).stones_seq() == grp(
                        mid.garena(),
                        gc,
                    ).stones_seq());
                    assert(grp(mid.garena(), gc).stone_set().contains(a));
                    assert(group_ok(mid.grid(), size, gc as usize, grp(mid.garena(), gc)));
                    assert(cell(mid.grid(), a) is Stone);
                }
                assert(false);
            }
        }
        if exists|k2: int|
            0 <= k2 < m.removed@.len() && grp(post.garena(), gc).stone_set() == (
            #[trigger] m.removed@[k2]).stone_set() {
            let k2 = choose|k2: int|
                0 <= k2 < m.removed@.len() && grp(post.garena(), gc).stone_set() == (
                #[trigger] m.removed@[k2]).stone_set();
            assert(m.removed@[k2].stone_set().contains(a));
            assert(k2 == k) by {
                if k2 != k {
                    if k2 < k {
                        assert(m.removed@[k2].stone_set().disjoint(m.removed@[k].stone_set()));
                    } else {
                        assert(m.removed@[k].stone_set().disjoint(m.removed@[k2].stone_set()));
                    }
                    assert(false);
                }
            }
            assert(grp(post.garena(), gc).stone_set() == grp(pre.garena(), g).stone_set());
        } else {
            // a chain lies inside the remainder, which misses `a`
            assert(grp(post.garena(), gc).stone_set().contains(a));
            assert(s.contains(a)) by {
                assert(forall|c2: (usize, usize)| #[trigger] grp(
                    post.garena(),
                    gc,
                ).stone_set().contains(c2) ==> s.contains(c2));
            }
            assert(false);
        }
    }
    // and nothing else is live afterwards
    assert forall|g2: int| #[trigger] live(post.garena(), g2) implies exists|g: int|
        live(pre.garena(), g) && grp(post.garena(), g2).stone_set() == grp(
            pre.garena(),
            g,
        ).stone_set() by {
        if live(mid.garena(), g2) && g2 != gnew as int {
            // a group untouched by both moves
            assert(grp(post.garena(), g2).stones_seq() == grp(mid.garena(), g2).stones_seq());
            assert(g2 == gnew as int || (live(pre.garena(), g2) && !kill_gid(
                pre,
                player,
                x,
                y,
                g2,
            ) && !own_nbr(pre, player, x, y, g2)));
            assert(grp(mid.garena(), g2).stones_seq() == grp(pre.garena(), g2).stones_seq());
            assert(grp(post.garena(), g2).stone_set() =~= grp(pre.garena(), g2).stone_set());
        } else if !live(mid.garena(), g2) {
            if exists|k: int|
                0 <= k < m.removed@.len() && grp(post.garena(), g2).stone_set() == (
                #[trigger] m.removed@[k]).stone_set() {
                let k = choose|k: int|
                    0 <= k < m.removed@.len() && grp(post.garena(), g2).stone_set() == (
                    #[trigger] m.removed@[k]).stone_set();
                let gk = choose|gk: int|
                    kill_gid(pre, player, x, y, gk) && (#[trigger] m.removed@[k].stone_set())
                        == grp(pre.garena(), gk).stone_set();
                assert(live(pre.garena(), gk));
            } else {
                // a fresh chain: it meets the remainder and equals the
                // absorbed chain it meets
                let sg = grp(post.garena(), g2).stone_set();
                assert(grp(post.garena(), g2).stones_seq().len() >= 1) by {
                    assert(group_ok(post.grid(), size, g2 as usize, grp(post.garena(), g2)));
                }
                let a = grp(post.garena(), g2).stones_seq()[0];
                assert(grp(post.garena(), g2).stones_seq().contains(a));
                assert(sg.contains(a));
                assert(s.contains(a));
                assert(grp(mid.garena(), gnew as int).stone_set().contains(a));
                let g = choose|g: int|
                    #[trigger] live(pre.garena(), g) && own_nbr(pre, player, x, y, g) && grp(
                        pre.garena(),
                        g,
                    ).stone_set().contains(a);
                let sp = grp(pre.garena(), g).stone_set();
                assert(sg =~= sp) by {
                    assert forall|c: (usize, usize)| sg.contains(c) implies sp.contains(c) by {
                        assert(connected_in(sg, a, c));
                        assert forall|u: (usize, usize), v: (usize, usize)|
                            sp.contains(u) && sg.contains(v) && adjacent(u, v) implies sp.contains(
                            v,
                        ) || !adjacent(u, v) by {
                            assert(s.contains(v));
                        }
                        lemma_connected_mono(sg, s, a, c);
                        lemma_connected_into_closed(s, sp, a, c);
                    }
                    assert forall|c: (usize, usize)| sp.contains(c) implies sg.contains(c) by {
                        assert(connected_in(sp, a, c));
                        assert forall|u: (usize, usize), v: (usize, usize)|
                            sg.contains(u) && sp.contains(v) && adjacent(u, v) implies sg.contains(
                            v,
                        ) || !adjacent(u, v) by {
                            assert(s.contains(v));
                        }
                        lemma_connected_mono(sp, s, a, c);
                        lemma_connected_into_closed(s, sg, a, c);
                    }
                }
            }
        } else {
            assert(g2 == gnew as int);
            assert(!live(post.garena(), gnew as int));
            assert(false);
        }
    }
}

/// On consistent boards whose points agree on emptiness, two live
/// groups with the same stones hold the same liberties — so the
/// stone-set correspondence of the invertibility laws extends to the
/// full (colour, stones, liberties) view of each group.
pub proof fn lemma_groups_equal_liberties(b1: Board, b2: Board, g1: int, g2: int)
    requires
        b1.wf(),
        b2.wf(),
        b1.spec_size() == b2.spec_size(),
        live(b1.garena(), g1),
        live(b2.garena(), g2),
        grp(b1.garena(), g1).stone_set() == grp(b2.garena(), g2).stone_set(),
        forall|c: (usize, usize)|
            in_extent(c, MAX_SIZE) ==> ((#[trigger] cell(b1.grid(), c)) is Stone <==> cell(
                b2.grid(),
                c,
            ) is Stone),
    ensures
        grp(b1.garena(), g1).liberty_set() == grp(b2.garena(), g2).liberty_set(),
{
    assert(group_ok(b1.grid(), b1.spec_size(), g1 as usize, grp(b1.garena(), g1)));
    assert(group_ok(b2.grid(), b2.spec_size(), g2 as usize, grp(b2.garena(), g2)));
    let st = grp(b1.garena(), g1).stone_set();
    assert(exact_libs(st, b1.grid(), b1.spec_size()) =~= exact_libs(
        st,
        b2.grid(),
        b2.spec_size(),
    )) by {
        assert forall|c: (usize, usize)|
            exact_libs(st, b1.grid(), b1.spec_size()).contains(c) == exact_libs(
            st,
            b2.grid(),
            b2.spec_size(),
        ).contains(c) by {
            if in_extent(c, b1.spec_size()) {
                assert((cell(b1.grid(), c) == Intersection::Empty) == (cell(b2.grid(), c)
                    == Intersection::Empty)) by {
                    assert(in_extent(c, MAX_SIZE));
                    match cell(b1.grid(), c) {
                        Intersection::Stone(_, _) => {},
                        Intersection::Empty => {},
                    }
                    match cell(b2.grid(), c) {
                        Intersection::Stone(_, _) => {},
                        Intersection::Empty => {},
                    }
                }
            }
        }
    }
}

/// Invertibility for a play, ko half: when the prior ko agreed with the
/// history, the restored board shows the same ko point again — the
/// history, the occupancy and the group shapes all come back, and the
/// ko is determined by exactly those. Takes the same chain hypotheses
/// as the partition law, true of every board built by play alone.
pub proof fn lemma_play_undo_restores_ko(
    pre: Board,
    mid: Board,
    post: Board,
    player: Colour,
    x: usize,
    y: usize,
)
    requires
        pre.wf(),
        mid.wf(),
        in_extent((x, y), pre.spec_size()),
        play_allowed(pre, player, x, y),
        play_post(pre, mid, player, x, y),
        undo_post(mid, post),
        pre.ko() == ko_point(pre.hist(), pre.grid(), pre.garena(), pre.spec_size()),
        pre.garena().len() <= usize::MAX,
        mid.garena().len() <= usize::MAX,
        post.garena().len() <= usize::MAX,
        pre.wd() + groups_total(mid.hist().last().removed@) <= usize::MAX,
        pre.bd() + groups_total(mid.hist().last().removed@) <= usize::MAX,
        forall|g: int, u: (usize, usize), v: (usize, usize)|
            #![trigger live(pre.garena(), g), grp(pre.garena(), g).stone_set().contains(u), grp(pre.garena(), g).stone_set().contains(v)]
            live(pre.garena(), g) && own_nbr(pre, player, x, y, g) && grp(
                pre.garena(),
                g,
            ).stone_set().contains(u) && grp(pre.garena(), g).stone_set().contains(v)
                ==> connected_in(grp(pre.garena(), g).stone_set(), u, v),
        forall|g1: int, g2: int, u: (usize, usize), v: (usize, usize)|
            #![trigger live(pre.garena(), g1), live(pre.garena(), g2), grp(pre.garena(), g1).stone_set().contains(u), grp(pre.garena(), g2).stone_set().contains(v)]
            live(pre.garena(), g1) && live(pre.garena(), g2) && g1 != g2 && own_nbr(
                pre,
                player,
                x,
                y,
                g1,
            ) && own_nbr(pre, player, x, y, g2) && grp(pre.garena(), g1).stone_set().contains(u)
                && grp(pre.garena(), g2).stone_set().contains(v) ==> !adjacent(u, v),
    ensures
        post.ko() == pre.ko(),
{
    lemma_play_undo_restores(pre, mid, post, player, x, y);
    lemma_play_undo_restores_groups(pre, mid, post, player, x, y);
    assert(post.hist() == pre.hist());
    assert(post.spec_size() == pre.spec_size());
    assert(post.ko() == ko_point(post.hist(), post.grid(), post.garena(), post.spec_size()));
    let h = pre.hist();
    if h.len() == 0 {
    } else {
        let mt = h.last();
        match mt.action {
            Vertex::Pass => {},
            Vertex::Put(v, w) => {
                assert(put_move_ok(h[h.len() - 1], pre.spec_size()));
                assert(in_extent((v, w), pre.spec_size()) && in_extent((v, w), MAX_SIZE));
                assert((cell(post.grid(), (v, w)) is Stone) == (cell(pre.grid(), (v, w))
                    is Stone));
                match cell(pre.grid(), (v, w)) {
                    Intersection::Empty => {},
                    Intersection::Stone(_, gid1) => {
                        assert(live(pre.garena(), gid1 as int) && grp(
                            pre.garena(),
                            gid1 as int,
                        ).stone_set().contains((v, w)));
                        let gid2 = cell_gid(cell(post.grid(), (v, w)));
                        assert(cell(post.grid(), (v, w)) is Stone);
                        assert(post.wf());
                        assert(live(post.garena(), gid2 as int) && grp(
                            post.garena(),
                            gid2 as int,
                        ).stone_set().contains((v, w)));
                        // the group at the point has come back in shape
                        let gp = choose|gp: int|
                            live(pre.garena(), gp) && grp(post.garena(), gid2 as int).stone_set()
                                == grp(pre.garena(), gp).stone_set();
                        assert(gp == gid1 as int) by {
                            assert(grp(pre.garena(), gp).stone_set().contains((v, w)));
                            assert(0 <= gp < pre.garena().len());
                            assert(group_ok(
                                pre.grid(),
                                pre.spec_size(),
                                gp as usize,
                                grp(pre.garena(), gp),
                            ));
                            assert(cell(pre.grid(), (v, w)) == Intersection::Stone(
                                gcol(pre.grid(), grp(pre.garena(), gp)),
                                gp as usize,
                            ));
                        }
                        assert(grp(post.garena(), gid2 as int).stones_seq().len() == grp(
                            pre.garena(),
                            gid1 as int,
                        ).stones_seq().len()) by {
                            assert(group_ok(
                                pre.grid(),
                                pre.spec_size(),
                                gid1,
                                grp(pre.garena(), gid1 as int),
                            ));
                            assert(group_ok(
                                post.grid(),
                                post.spec_size(),
                                gid2,
                                grp(post.garena(), gid2 as int),
                            ));
                            grp(pre.garena(), gid1 as int).stones_seq().unique_seq_to_set();
                            grp(post.garena(), gid2 as int).stones_seq().unique_seq_to_set();
                        }
                        assert(grp(post.garena(), gid2 as int).libs_seq().len() == grp(
                            pre.garena(),
                            gid1 as int,
                        ).libs_seq().len()) by {
                            lemma_groups_equal_liberties(
                                post,
                                pre,
                                gid2 as int,
                                gid1 as int,
                            );
                            assert(group_ok(
                                pre.grid(),
                                pre.spec_size(),
                                gid1,
                                grp(pre.garena(), gid1 as int),
                            ));
                            assert(group_ok(
                                post.grid(),
                                post.spec_size(),
                                gid2,
                                grp(post.garena(), gid2 as int),
                            ));
                            grp(pre.garena(), gid1 as int).libs_seq().unique_seq_to_set();
                            grp(post.garena(), gid2 as int).libs_seq().unique_seq_to_set();
                        }
                        // the candidate point reads the same on both boards
                        if mt.removed@.len() == 1 && mt.removed@[0].stones_seq().len() == 1 {
                            let cand = mt.removed@[0].stones_seq()[0];
                            if in_extent(cand, pre.spec_size()) {
                                assert(in_extent(cand, MAX_SIZE));
                                assert((cell(post.grid(), cand) is Stone) == (cell(
                                    pre.grid(),
                                    cand,
                                ) is Stone));
                                assert((cell(post.grid(), cand) == Intersection::Empty) == (cell(
                                    pre.grid(),
                                    cand,
                                ) == Intersection::Empty)) by {
                                    match cell(pre.grid(), cand) {
                                        Intersection::Stone(_, _) => {},
                                        Intersection::Empty => {},
                                    }
                                    match cell(post.grid(), cand) {
                                        Intersection::Stone(_, _) => {},
                                        Intersection::Empty => {},
                                    }
                                }
                            }
                        }
                        assert(ko_point(post.hist(), post.grid(), post.garena(), post.spec_size())
                            == ko_point(pre.hist(), pre.grid(), pre.garena(), pre.spec_size()));
                    },
                }
            },
        }
    }
}

/// A fresh copy of a grid vector.
/// A fresh copy of a grid vector.
/// A fresh copy of a grid vector.
/// A fresh copy of a grid vector.
fn grid_copy(v: &Vec<Intersection>) -> (r: Vec<Intersection>)
    ensures
        r@ == v@,
{
    let mut r: Vec<Intersection> = Vec::new();
    let mut i: usize = 0;
    while i < v.len()
        invariant
            i <= v@.len(),
            r@ == v@.take(i as int),
        decreases v@.len() - i,
    {
        proof {
            assert(v@.take(i + 1) == v@.take(i as int).push(v@[i as int]));
        }
        r.push(v[i]);
        i = i + 1;
    }
    proof {
        assert(v@.take(v@.len() as int) =~= v@);
    }
    r
}

/// After an undo has re-placed the captured groups (their cells `rr`,
/// identifiers `rset`, colour opposite to the mover's), split the rest
/// of the mover's old group (cells `oldcells` minus the played point,
/// fresh identifiers `sset`, colour `col0`), recomputed the liberties of
/// every fresh group exactly, handed the played point out as a liberty
/// and retracted the re-placed cells, the position is consistent again.
#[verifier::rlimit(100)]
#[verifier::spinoff_prover]
proof fn lemma_undo_assemble(
    pre: Board,
    wb: Board,
    player: Colour,
    x: usize,
    y: usize,
    oldgid: usize,
    rset: Set<int>,
    sset: Set<int>,
    rr: Set<(usize, usize)>,
    oldcells: Set<(usize, usize)>,
    col0: Colour,
)
    requires
        pre.wf(),
        in_extent((x, y), pre.spec_size()),
        live(pre.garena(), oldgid as int),
        oldcells == grp(pre.garena(), oldgid as int).stone_set(),
        col0 == gcol(pre.grid(), grp(pre.garena(), oldgid as int)),
        cell(pre.grid(), (x, y)) == Intersection::Stone(col0, oldgid),
        forall|c: (usize, usize)| #[trigger]
            rr.contains(c) ==> in_extent(c, pre.spec_size()) && cell(pre.grid(), c)
                == Intersection::Empty,
        wb.grid().len() == 625,
        wb.spec_size() == pre.spec_size(),
        forall|g: int| #[trigger] rset.contains(g) ==> !live(pre.garena(), g),
        forall|g: int| #[trigger]
            sset.contains(g) ==> (!live(pre.garena(), g) || g == oldgid as int),
        forall|g: int| #![trigger live(wb.garena(), g)]
            live(wb.garena(), g) <==> ((live(pre.garena(), g) && g != oldgid as int)
                || rset.contains(g) || sset.contains(g)),
        forall|c: (usize, usize)|
            in_extent(c, MAX_SIZE) ==> (if c == (x, y) {
                #[trigger] cell(wb.grid(), c) == Intersection::Empty
            } else if rr.contains(c) {
                cell(wb.grid(), c) matches Intersection::Stone(col, g) && col == opp(player)
                    && rset.contains(g as int) && live(wb.garena(), g as int) && grp(
                    wb.garena(),
                    g as int,
                ).stone_set().contains(c)
            } else if oldcells.contains(c) {
                cell(wb.grid(), c) matches Intersection::Stone(col, g) && col == col0
                    && sset.contains(g as int) && live(wb.garena(), g as int) && grp(
                    wb.garena(),
                    g as int,
                ).stone_set().contains(c)
            } else {
                cell(wb.grid(), c) == cell(pre.grid(), c)
            }),
        forall|g: int| #![trigger live(wb.garena(), g)]
            (rset.contains(g) || sset.contains(g)) && live(wb.garena(), g) ==> {
                let ng = grp(wb.garena(), g);
                &&& ng.wf()
                &&& ng.stones_seq().len() >= 1
                &&& ng.libs_seq().len() >= 1
                &&& ng.liberty_set() == exact_libs(ng.stone_set(), wb.grid(), pre.spec_size())
                &&& forall|c: (usize, usize)| #[trigger]
                    ng.stone_set().contains(c) ==> in_extent(c, pre.spec_size()) && cell(
                        wb.grid(),
                        c,
                    ) == Intersection::Stone(
                        if rset.contains(g) {
                            opp(player)
                        } else {
                            col0
                        },
                        g as usize,
                    )
            },
        forall|g: int| #![trigger live(pre.garena(), g)]
            live(pre.garena(), g) && g != oldgid as int ==> {
                let ng = grp(wb.garena(), g);
                let og = grp(pre.garena(), g);
                &&& ng.stones_seq() == og.stones_seq()
                &&& ng.wf()
                &&& ng.libs_seq().len() >= 1
                &&& ng.liberty_set() == (og.liberty_set() + (if touches(
                    wb.grid(),
                    pre.spec_size(),
                    g as usize,
                    (x, y),
                ) {
                    Set::<(usize, usize)>::empty().insert((x, y))
                } else {
                    Set::<(usize, usize)>::empty()
                })).difference(
                    Set::new(
                        |c: (usize, usize)|
                            rr.contains(c) && touches(wb.grid(), pre.spec_size(), g as usize, c),
                    ),
                )
            },
        pre.garena().len() <= usize::MAX,
        wb.garena().len() <= usize::MAX,
    ensures
        geo_wf(wb.grid(), wb.garena(), pre.spec_size()),
        forall|c: (usize, usize)|
            in_extent(c, MAX_SIZE) && rr.contains(c) ==> (#[trigger] cell(wb.grid(), c)) is Stone
                && cell_col(cell(wb.grid(), c)) == opp(player),
        forall|c: (usize, usize)|
            in_extent(c, MAX_SIZE) && c != (x, y) && !rr.contains(c) ==> (((#[trigger] cell(
                wb.grid(),
                c,
            )) is Stone <==> cell(pre.grid(), c) is Stone) && (cell(wb.grid(), c) is Stone
                ==> cell_col(cell(wb.grid(), c)) == cell_col(cell(pre.grid(), c)))),
{
    let size = pre.spec_size();
    assert(!rr.contains((x, y)));
    assert(oldcells.contains((x, y)));
    // the old group's cells all carry its colour on the old grid
    assert(group_ok(pre.grid(), size, oldgid, grp(pre.garena(), oldgid as int)));
    // statuses: the point became empty, the re-placed cells became stones
    assert forall|c: (usize, usize)| in_extent(c, MAX_SIZE) implies ((#[trigger] cell(
        wb.grid(),
        c,
    ) == Intersection::Empty) <==> (((c == (x, y)) || cell(pre.grid(), c) == Intersection::Empty)
        && !rr.contains(c))) by {
        if c != (x, y) && !rr.contains(c) && oldcells.contains(c) {
            assert(grp(pre.garena(), oldgid as int).stone_set().contains(c));
            assert(cell(pre.grid(), c) == Intersection::Stone(col0, oldgid));
        }
    }
    // every live group is consistent and alive
    assert forall|g: int| #[trigger] live(wb.garena(), g) implies group_ok(
        wb.grid(),
        size,
        g as usize,
        grp(wb.garena(), g),
    ) by {
        if rset.contains(g) || sset.contains(g) {
            let ng = grp(wb.garena(), g);
            let colg = if rset.contains(g) {
                opp(player)
            } else {
                col0
            };
            assert(stones_on_grid(wb.grid(), size, g as usize, ng)) by {
                let c0 = ng.stones_seq()[0];
                assert(ng.stones_seq().contains(c0));
                assert(ng.stone_set().contains(c0));
                assert(cell(wb.grid(), c0) == Intersection::Stone(colg, g as usize));
                assert(gcol(wb.grid(), ng) == colg);
            }
        } else {
            // a surviving group
            assert(live(pre.garena(), g) && g != oldgid as int);
            let ng = grp(wb.garena(), g);
            let og = grp(pre.garena(), g);
            let sg = ng.stone_set();
            assert(group_ok(pre.grid(), size, g as usize, og));
            assert(0 <= g < pre.garena().len());
            assert(sg =~= og.stone_set());
            // its cells are untouched
            assert forall|c: (usize, usize)| #[trigger] sg.contains(c) implies in_extent(c, size)
                && cell(wb.grid(), c) == cell(pre.grid(), c) && cell(pre.grid(), c)
                == Intersection::Stone(gcol(pre.grid(), og), g as usize) by {
                assert(og.stone_set().contains(c));
                if c == (x, y) {
                    assert(false);
                }
                if rr.contains(c) {
                    assert(cell(pre.grid(), c) == Intersection::Empty);
                    assert(false);
                }
                if oldcells.contains(c) {
                    lemma_distinct_groups_disjoint(
                        pre.grid(),
                        pre.garena(),
                        size,
                        g,
                        oldgid as int,
                    );
                    assert(false);
                }
            }
            assert(stones_on_grid(wb.grid(), size, g as usize, ng)) by {
                let c0 = ng.stones_seq()[0];
                assert(ng.stones_seq().contains(c0));
                assert(sg.contains(c0));
                assert(gcol(wb.grid(), ng) == gcol(pre.grid(), og));
            }
            // its liberties are exact on the new grid
            lemma_exact_reshape(
                pre.grid(),
                wb.grid(),
                size,
                sg,
                Set::<(usize, usize)>::empty().insert((x, y)),
                rr,
            );
            assert(ng.liberty_set() =~= exact_libs(sg, wb.grid(), size)) by {
                assert(og.liberty_set() == exact_libs(og.stone_set(), pre.grid(), size));
                assert(exact_libs(sg, pre.grid(), size) =~= exact_libs(
                    og.stone_set(),
                    pre.grid(),
                    size,
                ));
                assert(exact_libs(sg, wb.grid(), size) == exact_libs(
                    sg,
                    pre.grid(),
                    size,
                ).difference(rr) + Set::<(usize, usize)>::empty().insert((x, y)).intersect(
                    adj_zone(sg, size),
                ));
                // the point joins exactly when a stone of the group is beside it
                assert(touches(wb.grid(), size, g as usize, (x, y)) <==> adj_zone(
                    sg,
                    size,
                ).contains((x, y))) by {
                    if touches(wb.grid(), size, g as usize, (x, y)) {
                        let cb = choose|cb: (usize, usize)|
                            adjacent(cb, (x, y)) && in_extent(cb, size) && #[trigger] is_stone_of(
                                cell(wb.grid(), cb),
                                g as usize,
                            );
                        assert(cb != (x, y));
                        if rr.contains(cb) {
                            assert(rset.contains(cell_gid(cell(wb.grid(), cb)) as int));
                            assert(!live(pre.garena(), cell_gid(cell(wb.grid(), cb)) as int));
                            assert(false);
                        }
                        if oldcells.contains(cb) {
                            assert(sset.contains(cell_gid(cell(wb.grid(), cb)) as int));
                            assert(false);
                        }
                        assert(cell(pre.grid(), cb) == cell(wb.grid(), cb));
                        assert(og.stone_set().contains(cb));
                        assert(sg.contains(cb) && adjacent(cb, (x, y)));
                    }
                    if adj_zone(sg, size).contains((x, y)) {
                        let st = choose|st: (usize, usize)|
                            sg.contains(st) && #[trigger] adjacent(st, (x, y));
                        assert(cell(wb.grid(), st) == Intersection::Stone(
                            gcol(pre.grid(), og),
                            g as usize,
                        ));
                        assert(is_stone_of(cell(wb.grid(), st), g as usize));
                    }
                }
                // the retracted cells are the re-placed ones beside it
                assert(Set::new(
                    |c: (usize, usize)|
                        rr.contains(c) && touches(wb.grid(), size, g as usize, c),
                ) =~= rr.intersect(adj_zone(sg, size))) by {
                    assert forall|c: (usize, usize)|
                        rr.contains(c) && touches(wb.grid(), size, g as usize, c) implies
                        rr.intersect(adj_zone(sg, size)).contains(c) by {
                        let cb = choose|cb: (usize, usize)|
                            adjacent(cb, c) && in_extent(cb, size) && #[trigger] is_stone_of(
                                cell(wb.grid(), cb),
                                g as usize,
                            );
                        if cb == (x, y) {
                            assert(cell(wb.grid(), cb) == Intersection::Empty);
                            assert(false);
                        }
                        if rr.contains(cb) {
                            assert(rset.contains(cell_gid(cell(wb.grid(), cb)) as int));
                            assert(false);
                        }
                        if oldcells.contains(cb) {
                            assert(sset.contains(cell_gid(cell(wb.grid(), cb)) as int));
                            assert(false);
                        }
                        assert(cell(pre.grid(), cb) == cell(wb.grid(), cb));
                        assert(og.stone_set().contains(cb));
                        assert(sg.contains(cb) && adjacent(cb, c));
                        assert(in_extent(c, size));
                    }
                    assert forall|c: (usize, usize)|
                        rr.intersect(adj_zone(sg, size)).contains(c) implies rr.contains(c)
                        && touches(wb.grid(), size, g as usize, c) by {
                        let st = choose|st: (usize, usize)|
                            sg.contains(st) && #[trigger] adjacent(st, c);
                        assert(cell(wb.grid(), st) == Intersection::Stone(
                            gcol(pre.grid(), og),
                            g as usize,
                        ));
                        assert(in_extent(st, size));
                        assert(is_stone_of(cell(wb.grid(), st), g as usize));
                    }
                }
                // the difference only matters beside the group
                assert forall|c: (usize, usize)|
                    exact_libs(sg, pre.grid(), size).difference(rr).contains(c) == exact_libs(
                    sg,
                    pre.grid(),
                    size,
                ).difference(rr.intersect(adj_zone(sg, size))).contains(c) by {
                    if exact_libs(sg, pre.grid(), size).contains(c) && rr.contains(c) {
                        assert(adj_zone(sg, size).contains(c));
                    }
                }
            }
            assert(ng.liberty_set() == exact_libs(ng.stone_set(), wb.grid(), size));
        }
    }
    // the grid points back at live groups
    assert forall|c: (usize, usize)| in_extent(c, size) implies match #[trigger] cell(
        wb.grid(),
        c,
    ) {
        Intersection::Stone(col, gid) => live(wb.garena(), gid as int) && grp(
            wb.garena(),
            gid as int,
        ).stone_set().contains(c),
        Intersection::Empty => true,
    } by {
        if c != (x, y) && !rr.contains(c) && !oldcells.contains(c) {
            match cell(pre.grid(), c) {
                Intersection::Stone(col, gid) => {
                    assert(live(pre.garena(), gid as int));
                    assert(grp(pre.garena(), gid as int).stone_set().contains(c));
                    assert(gid as int != oldgid as int) by {
                        if gid == oldgid {
                            assert(oldcells.contains(c));
                        }
                    }
                    assert(live(wb.garena(), gid as int));
                    assert(grp(wb.garena(), gid as int).stones_seq() == grp(
                        pre.garena(),
                        gid as int,
                    ).stones_seq());
                    assert(grp(wb.garena(), gid as int).stone_set().contains(c));
                },
                Intersection::Empty => {},
            }
        }
    }
    assert forall|c: (usize, usize)|
        in_extent(c, MAX_SIZE) && !in_extent(c, size) implies #[trigger] cell(wb.grid(), c)
        == Intersection::Empty by {
        assert(c != (x, y));
        if rr.contains(c) {
            assert(in_extent(c, size));
        }
        if oldcells.contains(c) {
            assert(in_extent(c, size));
        }
        assert(cell(wb.grid(), c) == cell(pre.grid(), c));
    }
    assert(geo_wf(wb.grid(), wb.garena(), size));
    assert forall|c: (usize, usize)|
        in_extent(c, MAX_SIZE) && c != (x, y) && !rr.contains(c) implies (((#[trigger] cell(
        wb.grid(),
        c,
    )) is Stone <==> cell(pre.grid(), c) is Stone) && (cell(wb.grid(), c) is Stone ==> cell_col(
        cell(wb.grid(), c),
    ) == cell_col(cell(pre.grid(), c)))) by {
        if oldcells.contains(c) {
            assert(cell(pre.grid(), c) == Intersection::Stone(col0, oldgid));
        }
    }
}

/// The all-empty flattened grid.
pub open spec fn empty_grid() -> Seq<Intersection> {
    Seq::new(625, |i: int| Intersection::Empty)
}

/// A fresh all-empty grid vector.
fn empty_grid_vec() -> (r: Vec<Intersection>)
    ensures
        r@ == empty_grid(),
{
    let mut r: Vec<Intersection> = Vec::new();
    let mut i: usize = 0;
    while i < 625
        invariant
            i <= 625,
            r@ == Seq::new(i as nat, |j: int| Intersection::Empty),
        decreases 625 - i,
    {
        r.push(Intersection::Empty);
        proof {
            assert(r@ =~= Seq::new((i + 1) as nat, |j: int| Intersection::Empty));
        }
        i = i + 1;
    }
    proof {
        assert(r@ =~= empty_grid());
    }
    r
}

impl Board {
    /// The flattened grid, row major: point `(x, y)` sits at
    /// `(x - 1) * 25 + (y - 1)`.
    pub closed spec fn grid(&self) -> Seq<Intersection> {
        self.stones@
    }

    /// The move history, oldest first.
    pub closed spec fn hist(&self) -> Seq<Move> {
        self.history@
    }

    /// The group table: a slot per identifier, `None` where the
    /// identifier is free for reuse.
    pub closed spec fn garena(&self) -> Seq<Option<Group>> {
        self.groups@
    }

    /// The current board size.
    pub closed spec fn spec_size(&self) -> usize {
        self.size
    }

    /// White stones captured so far.
    pub closed spec fn wd(&self) -> usize {
        self.white_dead
    }

    /// Black stones captured so far.
    pub closed spec fn bd(&self) -> usize {
        self.black_dead
    }

    /// The stored ko point, `(0, 0)` for none.
    pub closed spec fn ko(&self) -> (usize, usize) {
        self.current_ko
    }

    /// The board invariant that every public operation preserves.
    pub open spec fn wf(&self) -> bool {
        &&& geo_wf(self.grid(), self.garena(), self.spec_size())
        &&& puts_in_extent(self.hist(), self.spec_size())
        &&& (self.ko() == (0usize, 0usize) || (in_extent(self.ko(), self.spec_size()) && cell(
            self.grid(),
            self.ko(),
        ) == Intersection::Empty))
    }

    /// The stored ko point agrees with the history and the position.
    pub open spec fn ko_coherent(&self) -> bool {
        self.ko() == ko_point(self.hist(), self.grid(), self.garena(), self.spec_size())
    }

    /// Creates a new board: size 19, empty, no history.
    pub fn new() -> (b: Board)
        ensures
            b.wf(),
            b.grid() == empty_grid(),
            b.hist().len() == 0,
            b.garena().len() == 0,
            b.spec_size() == 19,
            b.wd() == 0,
            b.bd() == 0,
            b.ko() == (0usize, 0usize),
            b.ko_coherent(),
    {
        Board {
            stones: empty_grid_vec(),
            history: Vec::new(),
            groups: Vec::new(),
            size: 19,
            white_dead: 0,
            black_dead: 0,
            current_ko: (0, 0),
        }
    }

    /// Read-only access to the flattened grid.
    pub fn get_board(&self) -> (r: &Vec<Intersection>)
        ensures
            r@ == self.grid(),
    {
        &self.stones
    }

    /// Read-only access to the history.
    pub fn get_history(&self) -> (r: &Vec<Move>)
        ensures
            r@ == self.hist(),
    {
        &self.history
    }

    /// Read-only access to the group table.
    pub fn get_groups(&self) -> (r: &Vec<Option<Group>>)
        ensures
            r@ == self.garena(),
    {
        &self.groups
    }

    /// The current board size.
    pub fn get_size(&self) -> (r: usize)
        ensures
            r == self.spec_size(),
    {
        self.size
    }

    /// Dead stones so far, as `(black, white)`.
    pub fn get_deads(&self) -> (r: (usize, usize))
        ensures
            r == (self.bd(), self.wd()),
    {
        (self.black_dead, self.white_dead)
    }

    /// The point the next move may not occupy, if a simple ko is active.
    pub fn get_current_ko(&self) -> (r: Option<(usize, usize)>)
        ensures
            self.ko() == (0usize, 0usize) ==> r == None::<(usize, usize)>,
            self.ko() != (0usize, 0usize) ==> r == Some(self.ko()),
    {
        if self.current_ko.0 == 0 && self.current_ko.1 == 0 {
            None
        } else {
            Some(self.current_ko)
        }
    }

    /// The grid entry at `(x, y)`.
    fn at(&self, x: usize, y: usize) -> (r: Intersection)
        requires
            self.grid().len() == 625,
            in_extent((x, y), MAX_SIZE),
        ensures
            r == cell(self.grid(), (x, y)),
    {
        proof {
            lemma_idx_bounds((x, y));
        }
        self.stones[(x - 1) * 25 + (y - 1)]
    }

    /// Writes the grid entry at `(x, y)`.
    fn set_at(&mut self, x: usize, y: usize, v: Intersection)
        requires
            old(self).grid().len() == 625,
            in_extent((x, y), MAX_SIZE),
        ensures
            final(self).grid() == old(self).grid().update(idx((x, y)), v),
            final(self).grid().len() == 625,
            cell(final(self).grid(), (x, y)) == v,
            forall|c: (usize, usize)|
                in_extent(c, MAX_SIZE) && c != (x, y) ==> #[trigger] cell(final(self).grid(), c)
                    == cell(old(self).grid(), c),
            final(self).hist() == old(self).hist(),
            final(self).garena() == old(self).garena(),
            final(self).spec_size() == old(self).spec_size(),
            final(self).wd() == old(self).wd(),
            final(self).bd() == old(self).bd(),
            final(self).ko() == old(self).ko(),
    {
        proof {
            lemma_idx_bounds((x, y));
        }
        self.stones.set((x - 1) * 25 + (y - 1), v);
        proof {
            assert forall|c: (usize, usize)|
                in_extent(c, MAX_SIZE) && c != (x, y) implies #[trigger] cell(self.grid(), c)
                == cell(old(self).grid(), c) by {
                lemma_idx_bounds(c);
                if idx(c) == idx((x, y)) {
                    lemma_idx_injective(c, (x, y));
                }
            }
        }
    }

    /// The smallest identifier not currently in use.
    fn next_gid(&self) -> (g: usize)
        ensures
            g <= self.garena().len(),
            g < self.garena().len() ==> self.garena()[g as int] is None,
            forall|i: int| 0 <= i < g ==> self.garena()[i] is Some,
            !live(self.garena(), g as int),
    {
        let mut key: usize = 0;
        while key < self.groups.len()
            invariant
                key <= self.garena().len(),
                forall|i: int| 0 <= i < key ==> self.garena()[i] is Some,
            decreases self.garena().len() - key,
        {
            match &self.groups[key] {
                Option::None => {
                    return key;
                },
                Option::Some(_) => {},
            }
            key = key + 1;
        }
        key
    }

    /// Reads the live group under `gid`.
    fn group_ref(&self, gid: usize) -> (g: &Group)
        requires
            live(self.garena(), gid as int),
        ensures
            *g == grp(self.garena(), gid as int),
    {
        match &self.groups[gid] {
            Option::Some(g) => g,
            Option::None => unreached(),
        }
    }

    /// Stores a group under an identifier that is free (or one past the
    /// end of the table).
    fn insert_group(&mut self, gid: usize, g: Group)
        requires
            gid <= old(self).garena().len(),
            gid < old(self).garena().len() ==> old(self).garena()[gid as int] is None,
        ensures
            final(self).garena().len() == if gid < old(self).garena().len() {
                old(self).garena().len()
            } else {
                old(self).garena().len() + 1
            },
            final(self).garena()[gid as int] == Some(g),
            forall|i: int|
                0 <= i < old(self).garena().len() && i != gid ==> final(self).garena()[i] == old(
                    self,
                ).garena()[i],
            forall|i: int|
                live(final(self).garena(), i) <==> (live(old(self).garena(), i) || i == gid),
            grp(final(self).garena(), gid as int) == g,
            forall|i: int|
                live(old(self).garena(), i) && i != gid ==> grp(final(self).garena(), i) == grp(
                    old(self).garena(),
                    i,
                ),
            final(self).grid() == old(self).grid(),
            final(self).hist() == old(self).hist(),
            final(self).spec_size() == old(self).spec_size(),
            final(self).wd() == old(self).wd(),
            final(self).bd() == old(self).bd(),
            final(self).ko() == old(self).ko(),
    {
        if gid < self.groups.len() {
            self.groups.set(gid, Some(g));
        } else {
            self.groups.push(Some(g));
        }
    }

    /// Removes the group under a live identifier, freeing the identifier,
    /// and hands back a copy of it.
    fn take_group(&mut self, gid: usize) -> (g: Group)
        requires
            live(old(self).garena(), gid as int),
        ensures
            g.stones_seq() == grp(old(self).garena(), gid as int).stones_seq(),
            g.libs_seq() == grp(old(self).garena(), gid as int).libs_seq(),
            final(self).garena() == old(self).garena().update(gid as int, None::<Group>),
            forall|i: int|
                live(final(self).garena(), i) <==> (live(old(self).garena(), i) && i != gid),
            forall|i: int|
                live(old(self).garena(), i) && i != gid ==> grp(final(self).garena(), i) == grp(
                    old(self).garena(),
                    i,
                ),
            final(self).grid() == old(self).grid(),
            final(self).hist() == old(self).hist(),
            final(self).spec_size() == old(self).spec_size(),
            final(self).wd() == old(self).wd(),
            final(self).bd() == old(self).bd(),
            final(self).ko() == old(self).ko(),
    {
        let g = self.group_ref(gid).duplicate();
        self.groups.set(gid, None);
        g
    }

    /// Replaces the group stored under a live identifier.
    fn update_group(&mut self, gid: usize, g: Group)
        requires
            live(old(self).garena(), gid as int),
        ensures
            final(self).garena() == old(self).garena().update(gid as int, Some(g)),
            forall|i: int| live(final(self).garena(), i) <==> (live(old(self).garena(), i) || i == gid),
            grp(final(self).garena(), gid as int) == g,
            forall|i: int|
                live(old(self).garena(), i) && i != gid ==> grp(final(self).garena(), i) == grp(
                    old(self).garena(),
                    i,
                ),
            final(self).grid() == old(self).grid(),
            final(self).hist() == old(self).hist(),
            final(self).spec_size() == old(self).spec_size(),
            final(self).wd() == old(self).wd(),
            final(self).bd() == old(self).bd(),
            final(self).ko() == old(self).ko(),
    {
        self.groups.set(gid, Some(g));
    }

    /// Resets stones, groups, history, counters and ko; keeps the size.
    pub fn clear(&mut self)
        requires
            1 <= old(self).spec_size() <= MAX_SIZE,
        ensures
            final(self).wf(),
            final(self).grid() == empty_grid(),
            final(self).hist().len() == 0,
            final(self).garena().len() == 0,
            final(self).spec_size() == old(self).spec_size(),
            final(self).wd() == 0,
            final(self).bd() == 0,
            final(self).ko() == (0usize, 0usize),
            final(self).ko_coherent(),
    {
        self.history = Vec::new();
        self.groups = Vec::new();
        self.stones = empty_grid_vec();
        self.white_dead = 0;
        self.black_dead = 0;
        self.current_ko = (0, 0);
    }

    /// Changes the board size; accepts only sizes in `[1, MAX_SIZE]` and
    /// clears the whole board on success. On rejection nothing changes.
    pub fn resize(&mut self, newsize: usize) -> (r: bool)
        requires
            1 <= old(self).spec_size() <= MAX_SIZE,
        ensures
            r == (1 <= newsize <= MAX_SIZE),
            !r ==> *final(self) == *old(self),
            r ==> final(self).wf(),
            r ==> final(self).grid() == empty_grid(),
            r ==> final(self).hist().len() == 0,
            r ==> final(self).garena().len() == 0,
            r ==> final(self).spec_size() == newsize,
            r ==> final(self).wd() == 0 && final(self).bd() == 0,
            r ==> final(self).ko() == (0usize, 0usize),
            r ==> final(self).ko_coherent(),
    {
        if newsize > 0 && newsize <= MAX_SIZE {
            self.clear();
            self.size = newsize;
            true
        } else {
            false
        }
    }

    /// The chosen player passes: the pass is recorded in the history and
    /// any active ko restriction is lifted; nothing else changes.
    pub fn pass(&mut self, player: Colour)
        requires
            old(self).wf(),
        ensures
            final(self).wf(),
            final(self).hist().len() == old(self).hist().len() + 1,
            final(self).hist().drop_last() == old(self).hist(),
            final(self).hist().last().player == player,
            final(self).hist().last().action == Vertex::Pass,
            final(self).hist().last().removed@.len() == 0,
            final(self).grid() == old(self).grid(),
            final(self).garena() == old(self).garena(),
            final(self).spec_size() == old(self).spec_size(),
            final(self).wd() == old(self).wd(),
            final(self).bd() == old(self).bd(),
            final(self).ko() == (0usize, 0usize),
            final(self).ko_coherent(),
    {
        self.history.push(Move { player, action: Vertex::Pass, removed: Vec::new() });
        self.current_ko = (0, 0);
        proof {
            assert(final(self).hist().drop_last() =~= old(self).hist());
        }
    }

    /// Returns a copy of the board without history; it can be used to
    /// think, experiment and prepare the next move.
    pub fn clone_without_history(&self) -> (b: Board)
        requires
            self.wf(),
        ensures
            b.wf(),
            b.grid() == self.grid(),
            b.hist().len() == 0,
            b.garena().len() == self.garena().len(),
            forall|i: int| live(b.garena(), i) <==> live(self.garena(), i),
            forall|i: int| #[trigger]
                live(self.garena(), i) ==> grp(b.garena(), i).stones_seq() == grp(
                    self.garena(),
                    i,
                ).stones_seq() && grp(b.garena(), i).libs_seq() == grp(self.garena(), i).libs_seq(),
            b.spec_size() == self.spec_size(),
            b.wd() == self.wd(),
            b.bd() == self.bd(),
            b.ko() == self.ko(),
    {
        let mut groups: Vec<Option<Group>> = Vec::new();
        let mut i: usize = 0;
        while i < self.groups.len()
            invariant
                i <= self.garena().len(),
                groups@.len() == i,
                forall|j: int| 0 <= j < i ==> (live(groups@, j) <==> live(self.garena(), j)),
                forall|j: int|
                    0 <= j < i && live(self.garena(), j) ==> grp(groups@, j).stones_seq() == grp(
                        self.garena(),
                        j,
                    ).stones_seq() && grp(groups@, j).libs_seq() == grp(
                        self.garena(),
                        j,
                    ).libs_seq(),
            decreases self.garena().len() - i,
        {
            match &self.groups[i] {
                Option::Some(g) => {
                    groups.push(Some(g.duplicate()));
                },
                Option::None => {
                    groups.push(None);
                },
            }
            i = i + 1;
        }
        let b = Board {
            stones: grid_copy(&self.stones),
            history: Vec::new(),
            groups,
            size: self.size,
            white_dead: self.white_dead,
            black_dead: self.black_dead,
            current_ko: self.current_ko,
        };
        proof {
            assert(b.wf()) by {
                assert(b.ko() == self.ko() && b.grid() == self.grid() && b.spec_size()
                    == self.spec_size());
                assert forall|gid: int| #[trigger] live(b.garena(), gid) implies group_ok(
                    b.grid(),
                    b.spec_size(),
                    gid as usize,
                    grp(b.garena(), gid),
                ) by {
                    assert(live(self.garena(), gid));
                    assert(group_ok(
                        self.grid(),
                        self.spec_size(),
                        gid as usize,
                        grp(self.garena(), gid),
                    ));
                    assert(grp(b.garena(), gid).stone_set() =~= grp(
                        self.garena(),
                        gid,
                    ).stone_set());
                    assert(grp(b.garena(), gid).liberty_set() =~= grp(
                        self.garena(),
                        gid,
                    ).liberty_set());
                }
                assert forall|c: (usize, usize)| in_extent(c, b.spec_size()) implies match
                    #[trigger] cell(b.grid(), c) {
                    Intersection::Stone(col, gid) => live(b.garena(), gid as int) && grp(
                        b.garena(),
                        gid as int,
                    ).stone_set().contains(c),
                    Intersection::Empty => true,
                } by {
                    match cell(self.grid(), c) {
                        Intersection::Stone(col, gid) => {
                            assert(live(self.garena(), gid as int));
                            assert(grp(b.garena(), gid as int).stone_set() =~= grp(
                                self.garena(),
                                gid as int,
                            ).stone_set());
                        },
                        Intersection::Empty => {},
                    }
                }
            }
        }
        b
    }

    /// The group identifier of the stone at `(x, y)`; only to be called
    /// where a stone is known to sit.
    fn gid_of_stone(&self, x: usize, y: usize) -> (g: usize)
        requires
            self.grid().len() == 625,
            in_extent((x, y), MAX_SIZE),
            cell(self.grid(), (x, y)) is Stone,
        ensures
            cell(self.grid(), (x, y)) matches Intersection::Stone(_, gid) && gid == g,
    {
        match self.at(x, y) {
            Intersection::Stone(_, gid) => gid,
            Intersection::Empty => unreached(),
        }
    }

    /// Empties the point `(v, w)` and hands it out as a new liberty to
    /// every live group with a stone next to it.
    fn vacate_cell(&mut self, v: usize, w: usize)
        requires
            old(self).grid().len() == 625,
            1 <= old(self).spec_size() <= MAX_SIZE,
            in_extent((v, w), old(self).spec_size()),
            forall|gid: int| live(old(self).garena(), gid) ==> grp(old(self).garena(), gid).wf(),
        ensures
            final(self).grid() == old(self).grid().update(idx((v, w)), Intersection::Empty),
            final(self).garena().len() == old(self).garena().len(),
            forall|i: int| live(final(self).garena(), i) <==> live(old(self).garena(), i),
            forall|gid: int| #[trigger]
                live(old(self).garena(), gid) ==> {
                    let og = grp(old(self).garena(), gid);
                    let ng = grp(final(self).garena(), gid);
                    &&& ng.stones_seq() == og.stones_seq()
                    &&& ng.wf()
                    &&& ng.liberty_set() == if touches(
                        old(self).grid(),
                        old(self).spec_size(),
                        gid as usize,
                        (v, w),
                    ) {
                        og.liberty_set().insert((v, w))
                    } else {
                        og.liberty_set()
                    }
                },
            final(self).hist() == old(self).hist(),
            final(self).spec_size() == old(self).spec_size(),
            final(self).wd() == old(self).wd(),
            final(self).bd() == old(self).bd(),
            final(self).ko() == old(self).ko(),
    {
        let size = self.size;
        let glen = self.groups.len();
        self.set_at(v, w, Intersection::Empty);
        let nbrs = neighbours(v, w, size);
        let ghost grid0 = old(self).grid();
        let ghost arena0 = old(self).garena();
        let mut i: usize = 0;
        let ghost mut procd: Set<int> = Set::empty();
        while i < nbrs.len()
            invariant
                grid0.len() == 625,
                self.grid() == grid0.update(idx((v, w)), Intersection::Empty),
                self.grid().len() == 625,
                1 <= self.spec_size() <= MAX_SIZE,
                self.spec_size() == old(self).spec_size(),
                size == self.spec_size(),
                in_extent((v, w), size),
                nbrs@.no_duplicates(),
                forall|c: (usize, usize)| #![trigger nbrs@.contains(c)]
                    nbrs@.contains(c) <==> in_extent(c, size) && adjacent(c, (v, w)),
                i <= nbrs@.len(),
                self.garena().len() == arena0.len(),
                arena0.len() == glen,
                forall|k: int| live(self.garena(), k) <==> live(arena0, k),
                forall|gid: int|
                    procd.contains(gid) ==> live(arena0, gid) && touches(
                        grid0,
                        size,
                        gid as usize,
                        (v, w),
                    ),
                forall|j: int|
                    0 <= j < i ==> {
                        let ce = cell(self.grid(), #[trigger] nbrs@[j]);
                        ce is Stone && live(self.garena(), cell_gid(ce) as int)
                            ==> procd.contains(cell_gid(ce) as int)
                    },
                forall|gid: int| #[trigger]
                    live(arena0, gid) ==> {
                        let og = grp(arena0, gid);
                        let ng = grp(self.garena(), gid);
                        &&& ng.stones_seq() == og.stones_seq()
                        &&& ng.wf()
                        &&& ng.liberty_set() == if procd.contains(gid) {
                            og.liberty_set().insert((v, w))
                        } else {
                            og.liberty_set()
                        }
                    },
                self.hist() == old(self).hist(),
                self.wd() == old(self).wd(),
                self.bd() == old(self).bd(),
                self.ko() == old(self).ko(),
            decreases nbrs@.len() - i,
        {
            let (a, b) = nbrs[i];
            proof {
                assert((a, b) == nbrs@[i as int]);
                assert(nbrs@.contains((a, b)));
                assert(in_extent((a, b), size) && adjacent((a, b), (v, w)));
                lemma_idx_bounds((a, b));
                lemma_idx_bounds((v, w));
                assert((a, b) != (v, w));
                if idx((a, b)) == idx((v, w)) {
                    lemma_idx_injective((a, b), (v, w));
                    assert(false);
                }
                assert(grid0.len() == 625);
                assert(self.grid()[idx((a, b))] == grid0[idx((a, b))]);
                assert(cell(self.grid(), (a, b)) == cell(grid0, (a, b)));
            }
            match self.at(a, b) {
                Intersection::Stone(_, g3) => {
                    let is_live = g3 < self.groups.len() && self.groups[g3].is_some();
                    if is_live {
                        proof {
                            assert(live(self.garena(), g3 as int));
                            assert(live(arena0, g3 as int));
                            assert(grp(self.garena(), g3 as int).wf());
                        }
                        let mut g = self.group_ref(g3).duplicate();
                        g.add_liberty(v, w);
                        self.update_group(g3, g);
                        proof {
                            assert(is_stone_of(cell(self.grid(), (a, b)), g3));
                            assert(touches(grid0, size, g3, (v, w))) by {
                                assert(cell(grid0, (a, b)) == cell(self.grid(), (a, b)));
                                assert(is_stone_of(cell(grid0, (a, b)), g3));
                            }
                            if procd.contains(g3 as int) {
                                assert(grp(self.garena(), g3 as int).liberty_set() =~= grp(
                                    arena0,
                                    g3 as int,
                                ).liberty_set().insert((v, w)));
                            }
                            procd = procd.insert(g3 as int);
                        }
                    }
                },
                Intersection::Empty => {},
            }
            i = i + 1;
        }
        proof {
            assert forall|gid: int| #[trigger] live(arena0, gid) implies {
                let og = grp(arena0, gid);
                let ng = grp(self.garena(), gid);
                &&& ng.stones_seq() == og.stones_seq()
                &&& ng.wf()
                &&& ng.liberty_set() == if touches(grid0, size, gid as usize, (v, w)) {
                    og.liberty_set().insert((v, w))
                } else {
                    og.liberty_set()
                }
            } by {
                if touches(grid0, size, gid as usize, (v, w)) && !procd.contains(gid) {
                    let cb = choose|cb: (usize, usize)|
                        adjacent(cb, (v, w)) && in_extent(cb, size) && #[trigger] is_stone_of(
                            cell(grid0, cb),
                            gid as usize,
                        );
                    assert(nbrs@.contains(cb));
                    let j = choose|j: int| 0 <= j < nbrs@.len() && nbrs@[j] == cb;
                    assert(cb != (v, w));
                    assert(cell(self.grid(), cb) == cell(grid0, cb)) by {
                        lemma_idx_bounds(cb);
                        lemma_idx_bounds((v, w));
                        if idx(cb) == idx((v, w)) {
                            lemma_idx_injective(cb, (v, w));
                        }
                    }
                    assert(0 <= gid < arena0.len());
                    assert(gid <= usize::MAX);
                    assert(cell(self.grid(), nbrs@[j]) is Stone);
                    assert(cell_gid(cell(self.grid(), nbrs@[j])) == gid);
                    assert(live(self.garena(), gid));
                    assert(false);
                }
            }
        }
    }

    /// Empties every point in `cs` and hands each out as a new liberty
    /// to the live groups with a stone next to it. The points must hold
    /// stones of groups that are no longer live (just-captured cells).
    fn vacate_cells(&mut self, cs: &Vec<(usize, usize)>)
        requires
            old(self).grid().len() == 625,
            1 <= old(self).spec_size() <= MAX_SIZE,
            cs@.no_duplicates(),
            forall|j: int|
                0 <= j < cs@.len() ==> in_extent(#[trigger] cs@[j], old(self).spec_size()),
            forall|j: int|
                0 <= j < cs@.len() ==> cell(old(self).grid(), #[trigger] cs@[j]) is Stone && !live(
                    old(self).garena(),
                    cell_gid(cell(old(self).grid(), cs@[j])) as int,
                ),
            forall|gid: int| live(old(self).garena(), gid) ==> grp(old(self).garena(), gid).wf(),
        ensures
            final(self).grid().len() == 625,
            forall|c: (usize, usize)|
                in_extent(c, MAX_SIZE) ==> #[trigger] cell(final(self).grid(), c) == (if cs@.contains(
                    c,
                ) {
                    Intersection::Empty
                } else {
                    cell(old(self).grid(), c)
                }),
            final(self).garena().len() == old(self).garena().len(),
            forall|i: int| live(final(self).garena(), i) <==> live(old(self).garena(), i),
            forall|gid: int| #[trigger]
                live(old(self).garena(), gid) ==> {
                    let og = grp(old(self).garena(), gid);
                    let ng = grp(final(self).garena(), gid);
                    &&& ng.stones_seq() == og.stones_seq()
                    &&& ng.wf()
                    &&& ng.liberty_set() == og.liberty_set() + Set::new(
                        |c: (usize, usize)|
                            cs@.contains(c) && touches(
                                old(self).grid(),
                                old(self).spec_size(),
                                gid as usize,
                                c,
                            ),
                    )
                },
            final(self).hist() == old(self).hist(),
            final(self).spec_size() == old(self).spec_size(),
            final(self).wd() == old(self).wd(),
            final(self).bd() == old(self).bd(),
            final(self).ko() == old(self).ko(),
    {
        let ghost size = old(self).spec_size();
        let ghost grid0 = old(self).grid();
        let ghost arena0 = old(self).garena();
        let glen = self.groups.len();
        let mut i: usize = 0;
        while i < cs.len()
            invariant
                arena0.len() == glen,
                cs@.no_duplicates(),
                forall|j: int| 0 <= j < cs@.len() ==> in_extent(#[trigger] cs@[j], size),
                forall|j: int|
                    0 <= j < cs@.len() ==> cell(grid0, #[trigger] cs@[j]) is Stone && !live(
                        arena0,
                        cell_gid(cell(grid0, cs@[j])) as int,
                    ),
                i <= cs@.len(),
                grid0.len() == 625,
                self.grid().len() == 625,
                1 <= size <= MAX_SIZE,
                self.spec_size() == size,
                forall|c: (usize, usize)|
                    in_extent(c, MAX_SIZE) ==> #[trigger] cell(self.grid(), c) == (if cs@.take(
                        i as int,
                    ).contains(c) {
                        Intersection::Empty
                    } else {
                        cell(grid0, c)
                    }),
                self.garena().len() == arena0.len(),
                forall|k: int| live(self.garena(), k) <==> live(arena0, k),
                forall|gid: int| #[trigger]
                    live(arena0, gid) ==> {
                        let og = grp(arena0, gid);
                        let ng = grp(self.garena(), gid);
                        &&& ng.stones_seq() == og.stones_seq()
                        &&& ng.wf()
                        &&& ng.liberty_set() == og.liberty_set() + Set::new(
                            |c: (usize, usize)|
                                cs@.take(i as int).contains(c) && touches(
                                    grid0,
                                    size,
                                    gid as usize,
                                    c,
                                ),
                        )
                    },
                self.hist() == old(self).hist(),
                self.wd() == old(self).wd(),
                self.bd() == old(self).bd(),
                self.ko() == old(self).ko(),
            decreases cs@.len() - i,
        {
            let (v, w) = cs[i];
            proof {
                assert((v, w) == cs@[i as int]);
                assert(in_extent((v, w), size));
                assert(cs@.take(i + 1) == cs@.take(i as int).push(cs@[i as int]));
                if cs@.take(i as int).contains((v, w)) {
                    let j = choose|j: int| 0 <= j < i && cs@[j] == (v, w);
                    assert(cs@[j] == cs@[i as int]);
                    assert(false);
                }
            }
            let ghost grid_b = self.grid();
            let ghost arena_b = self.garena();
            proof {
                assert forall|gid: int| live(self.garena(), gid) implies grp(
                    self.garena(),
                    gid,
                ).wf() by {
                    assert(live(arena0, gid));
                }
            }
            self.vacate_cell(v, w);
            proof {
                // the grid after this step
                assert forall|c: (usize, usize)| in_extent(c, MAX_SIZE) implies #[trigger] cell(
                    self.grid(),
                    c,
                ) == (if cs@.take(i + 1).contains(c) {
                    Intersection::Empty
                } else {
                    cell(grid0, c)
                }) by {
                    lemma_idx_bounds(c);
                    lemma_idx_bounds((v, w));
                    if c != (v, w) {
                        if idx(c) == idx((v, w)) {
                            lemma_idx_injective(c, (v, w));
                        }
                        assert(cell(self.grid(), c) == cell(grid_b, c));
                        assert(cell(grid_b, c) == (if cs@.take(i as int).contains(c) {
                            Intersection::Empty
                        } else {
                            cell(grid0, c)
                        }));
                    } else {
                        assert(cell(self.grid(), c) == Intersection::Empty);
                        assert(cs@.take(i + 1).contains(c));
                    }
                }
                // liberties gained so far, over the grid before the captures
                assert forall|gid: int| #[trigger] live(arena0, gid) implies {
                    let og = grp(arena0, gid);
                    let ng = grp(self.garena(), gid);
                    &&& ng.stones_seq() == og.stones_seq()
                    &&& ng.wf()
                    &&& ng.liberty_set() == og.liberty_set() + Set::new(
                        |c: (usize, usize)|
                            cs@.take(i + 1).contains(c) && touches(grid0, size, gid as usize, c),
                    )
                } by {
                    assert(live(arena_b, gid));
                    // `touches` agrees between the grid before the captures and now
                    // for live groups: vacated cells held dead identifiers.
                    assert(touches(grid_b, size, gid as usize, (v, w)) == touches(
                        grid0,
                        size,
                        gid as usize,
                        (v, w),
                    )) by {
                        if touches(grid_b, size, gid as usize, (v, w)) {
                            let cb = choose|cb: (usize, usize)|
                                adjacent(cb, (v, w)) && in_extent(cb, size)
                                    && #[trigger] is_stone_of(cell(grid_b, cb), gid as usize);
                            if cs@.take(i as int).contains(cb) {
                                assert(cell(grid_b, cb) == Intersection::Empty);
                                assert(false);
                            }
                            assert(cell(grid0, cb) == cell(grid_b, cb));
                            assert(is_stone_of(cell(grid0, cb), gid as usize));
                        }
                        if touches(grid0, size, gid as usize, (v, w)) {
                            let cb = choose|cb: (usize, usize)|
                                adjacent(cb, (v, w)) && in_extent(cb, size)
                                    && #[trigger] is_stone_of(cell(grid0, cb), gid as usize);
                            if cs@.take(i as int).contains(cb) {
                                let j = choose|j: int| 0 <= j < i && cs@[j] == cb;
                                assert(cell(grid0, cs@[j]) is Stone && !live(
                                    arena0,
                                    cell_gid(cell(grid0, cs@[j])) as int,
                                ));
                                assert(0 <= gid < glen);
                                assert(cell_gid(cell(grid0, cb)) == gid as usize);
                                assert(false);
                            }
                            assert(cell(grid_b, cb) == cell(grid0, cb));
                            assert(is_stone_of(cell(grid_b, cb), gid as usize));
                        }
                    }
                    assert(grp(self.garena(), gid).liberty_set() =~= grp(
                        arena0,
                        gid,
                    ).liberty_set() + Set::new(
                        |c: (usize, usize)|
                            cs@.take(i + 1).contains(c) && touches(grid0, size, gid as usize, c),
                    ));
                }
            }
            i = i + 1;
        }
        proof {
            assert(cs@.take(cs@.len() as int) =~= cs@);
            assert forall|gid: int| #[trigger] live(arena0, gid) implies grp(
                self.garena(),
                gid,
            ).liberty_set() == grp(arena0, gid).liberty_set() + Set::new(
                |c: (usize, usize)|
                    cs@.contains(c) && touches(grid0, size, gid as usize, c),
            ) by {
                assert(grp(self.garena(), gid).liberty_set() =~= grp(
                    arena0,
                    gid,
                ).liberty_set() + Set::new(
                    |c: (usize, usize)|
                        cs@.contains(c) && touches(grid0, size, gid as usize, c),
                ));
            }
        }
    }

    /// The exact liberties of a set of stones on the current grid: every
    /// empty in-extent point beside one of them.
    fn exact_liberties_of(&self, stones: &Vec<(usize, usize)>) -> (r: Vec<(usize, usize)>)
        requires
            self.grid().len() == 625,
            1 <= self.spec_size() <= MAX_SIZE,
            forall|j: int|
                0 <= j < stones@.len() ==> in_extent(#[trigger] stones@[j], self.spec_size()),
        ensures
            r@.no_duplicates(),
            r@.to_set() == exact_libs(stones@.to_set(), self.grid(), self.spec_size()),
    {
        let size = self.size;
        let mut r: Vec<(usize, usize)> = Vec::new();
        let mut i: usize = 0;
        while i < stones.len()
            invariant
                self.grid().len() == 625,
                1 <= size <= MAX_SIZE,
                size == self.spec_size(),
                forall|j: int| 0 <= j < stones@.len() ==> in_extent(#[trigger] stones@[j], size),
                i <= stones@.len(),
                r@.no_duplicates(),
                r@.to_set() == exact_libs(stones@.take(i as int).to_set(), self.grid(), size),
            decreases stones@.len() - i,
        {
            let (sx, sy) = stones[i];
            proof {
                assert((sx, sy) == stones@[i as int]);
                assert(in_extent((sx, sy), size));
            }
            let nbrsi = neighbours(sx, sy, size);
            let ghost r0 = r@.to_set();
            let mut j: usize = 0;
            while j < nbrsi.len()
                invariant
                    self.grid().len() == 625,
                    1 <= size <= MAX_SIZE,
                    size == self.spec_size(),
                    in_extent((sx, sy), size),
                    j <= nbrsi@.len(),
                    forall|c: (usize, usize)| #![trigger nbrsi@.contains(c)]
                        nbrsi@.contains(c) <==> in_extent(c, size) && adjacent(c, (sx, sy)),
                    r@.no_duplicates(),
                    forall|c: (usize, usize)| #[trigger]
                        r@.contains(c) ==> r0.contains(c) || (in_extent(c, size) && adjacent(
                            c,
                            (sx, sy),
                        ) && cell(self.grid(), c) == Intersection::Empty),
                    forall|c: (usize, usize)| r0.contains(c) ==> #[trigger] r@.contains(c),
                    forall|k: int|
                        0 <= k < j && cell(self.grid(), #[trigger] nbrsi@[k])
                            == Intersection::Empty ==> r@.contains(nbrsi@[k]),
                decreases nbrsi@.len() - j,
            {
                let (a, b) = nbrsi[j];
                proof {
                    assert((a, b) == nbrsi@[j as int]);
                    assert(nbrsi@.contains((a, b)));
                    assert(in_extent((a, b), size));
                }
                match self.at(a, b) {
                    Intersection::Empty => {
                        coords_insert(&mut r, (a, b));
                    },
                    Intersection::Stone(_, _) => {},
                }
                j = j + 1;
            }
            proof {
                assert(stones@.take(i + 1) == stones@.take(i as int).push(stones@[i as int]));
                assert(stones@.take(i + 1).to_set() == stones@.take(i as int).to_set().insert(
                    (sx, sy),
                ));
                assert(r@.to_set() =~= exact_libs(
                    stones@.take(i + 1).to_set(),
                    self.grid(),
                    size,
                )) by {
                    assert forall|c: (usize, usize)| r@.to_set().contains(c) implies exact_libs(
                        stones@.take(i + 1).to_set(),
                        self.grid(),
                        size,
                    ).contains(c) by {
                        if r0.contains(c) {
                            let st = choose|st: (usize, usize)|
                                stones@.take(i as int).to_set().contains(st)
                                    && #[trigger] adjacent(st, c);
                            assert(stones@.take(i + 1).to_set().contains(st));
                        } else {
                            assert(adjacent((sx, sy), c));
                            assert(stones@.take(i + 1).to_set().contains((sx, sy)));
                        }
                    }
                    assert forall|c: (usize, usize)|
                        exact_libs(stones@.take(i + 1).to_set(), self.grid(), size).contains(
                        c,
                    ) implies r@.to_set().contains(c) by {
                        let st = choose|st: (usize, usize)|
                            stones@.take(i + 1).to_set().contains(st) && #[trigger] adjacent(
                                st,
                                c,
                            );
                        if st == (sx, sy) {
                            assert(adjacent(c, (sx, sy)));
                            assert(nbrsi@.contains(c));
                            let k = choose|k: int| 0 <= k < nbrsi@.len() && nbrsi@[k] == c;
                            assert(cell(self.grid(), nbrsi@[k]) == Intersection::Empty);
                            assert(r@.contains(c));
                        } else {
                            assert(stones@.take(i as int).to_set().contains(st));
                            assert(exact_libs(
                                stones@.take(i as int).to_set(),
                                self.grid(),
                                size,
                            ).contains(c));
                            assert(r0.contains(c));
                        }
                    }
                }
            }
            i = i + 1;
        }
        proof {
            assert(stones@.take(stones@.len() as int) =~= stones@);
        }
        r
    }

    /// The point `(v, w)` has just been occupied: it stops being a
    /// liberty of every live group with a stone next to it.
    fn retract_liberty(&mut self, v: usize, w: usize)
        requires
            old(self).grid().len() == 625,
            1 <= old(self).spec_size() <= MAX_SIZE,
            in_extent((v, w), old(self).spec_size()),
            forall|gid: int| live(old(self).garena(), gid) ==> grp(old(self).garena(), gid).wf(),
        ensures
            final(self).grid() == old(self).grid(),
            final(self).garena().len() == old(self).garena().len(),
            forall|i: int| live(final(self).garena(), i) <==> live(old(self).garena(), i),
            forall|gid: int| #[trigger]
                live(old(self).garena(), gid) ==> {
                    let og = grp(old(self).garena(), gid);
                    let ng = grp(final(self).garena(), gid);
                    &&& ng.stones_seq() == og.stones_seq()
                    &&& ng.wf()
                    &&& ng.liberty_set() == if touches(
                        old(self).grid(),
                        old(self).spec_size(),
                        gid as usize,
                        (v, w),
                    ) {
                        og.liberty_set().remove((v, w))
                    } else {
                        og.liberty_set()
                    }
                },
            final(self).hist() == old(self).hist(),
            final(self).spec_size() == old(self).spec_size(),
            final(self).wd() == old(self).wd(),
            final(self).bd() == old(self).bd(),
            final(self).ko() == old(self).ko(),
    {
        let size = self.size;
        let glen = self.groups.len();
        let nbrs = neighbours(v, w, size);
        let ghost grid0 = old(self).grid();
        let ghost arena0 = old(self).garena();
        let mut i: usize = 0;
        let ghost mut procd: Set<int> = Set::empty();
        while i < nbrs.len()
            invariant
                grid0.len() == 625,
                self.grid() == grid0,
                1 <= size <= MAX_SIZE,
                self.spec_size() == old(self).spec_size(),
                size == self.spec_size(),
                in_extent((v, w), size),
                nbrs@.no_duplicates(),
                forall|c: (usize, usize)| #![trigger nbrs@.contains(c)]
                    nbrs@.contains(c) <==> in_extent(c, size) && adjacent(c, (v, w)),
                i <= nbrs@.len(),
                self.garena().len() == arena0.len(),
                arena0.len() == glen,
                forall|k: int| live(self.garena(), k) <==> live(arena0, k),
                forall|gid: int|
                    procd.contains(gid) ==> live(arena0, gid) && touches(
                        grid0,
                        size,
                        gid as usize,
                        (v, w),
                    ),
                forall|j: int|
                    0 <= j < i ==> {
                        let ce = cell(self.grid(), #[trigger] nbrs@[j]);
                        ce is Stone && live(self.garena(), cell_gid(ce) as int)
                            ==> procd.contains(cell_gid(ce) as int)
                    },
                forall|gid: int| #[trigger]
                    live(arena0, gid) ==> {
                        let og = grp(arena0, gid);
                        let ng = grp(self.garena(), gid);
                        &&& ng.stones_seq() == og.stones_seq()
                        &&& ng.wf()
                        &&& ng.liberty_set() == if procd.contains(gid) {
                            og.liberty_set().remove((v, w))
                        } else {
                            og.liberty_set()
                        }
                    },
                self.hist() == old(self).hist(),
                self.wd() == old(self).wd(),
                self.bd() == old(self).bd(),
                self.ko() == old(self).ko(),
            decreases nbrs@.len() - i,
        {
            let (a, b) = nbrs[i];
            proof {
                assert((a, b) == nbrs@[i as int]);
                assert(nbrs@.contains((a, b)));
                assert(in_extent((a, b), size));
            }
            match self.at(a, b) {
                Intersection::Stone(_, g3) => {
                    let is_live = g3 < self.groups.len() && self.groups[g3].is_some();
                    if is_live {
                        proof {
                            assert(live(self.garena(), g3 as int));
                            assert(live(arena0, g3 as int));
                            assert(grp(self.garena(), g3 as int).wf());
                        }
                        let mut g = self.group_ref(g3).duplicate();
                        g.remove_liberty(v, w);
                        self.update_group(g3, g);
                        proof {
                            assert(is_stone_of(cell(self.grid(), (a, b)), g3));
                            assert(touches(grid0, size, g3, (v, w)));
                            if procd.contains(g3 as int) {
                                assert(grp(self.garena(), g3 as int).liberty_set() =~= grp(
                                    arena0,
                                    g3 as int,
                                ).liberty_set().remove((v, w)));
                            }
                            procd = procd.insert(g3 as int);
                        }
                    }
                },
                Intersection::Empty => {},
            }
            i = i + 1;
        }
        proof {
            assert forall|gid: int| #[trigger] live(arena0, gid) implies {
                let og = grp(arena0, gid);
                let ng = grp(self.garena(), gid);
                &&& ng.stones_seq() == og.stones_seq()
                &&& ng.wf()
                &&& ng.liberty_set() == if touches(grid0, size, gid as usize, (v, w)) {
                    og.liberty_set().remove((v, w))
                } else {
                    og.liberty_set()
                }
            } by {
                if touches(grid0, size, gid as usize, (v, w)) && !procd.contains(gid) {
                    let cb = choose|cb: (usize, usize)|
                        adjacent(cb, (v, w)) && in_extent(cb, size) && #[trigger] is_stone_of(
                            cell(grid0, cb),
                            gid as usize,
                        );
                    assert(nbrs@.contains(cb));
                    let j = choose|j: int| 0 <= j < nbrs@.len() && nbrs@[j] == cb;
                    assert(0 <= gid < arena0.len());
                    assert(gid <= usize::MAX);
                    assert(cell(self.grid(), nbrs@[j]) is Stone);
                    assert(cell_gid(cell(self.grid(), nbrs@[j])) == gid);
                    assert(live(self.garena(), gid));
                    assert(false);
                }
            }
        }
    }

    /// Every point in `cs` has just been occupied: each stops being a
    /// liberty of the live groups beside it.
    fn retract_liberties(&mut self, cs: &Vec<(usize, usize)>)
        requires
            old(self).grid().len() == 625,
            1 <= old(self).spec_size() <= MAX_SIZE,
            forall|j: int|
                0 <= j < cs@.len() ==> in_extent(#[trigger] cs@[j], old(self).spec_size()),
            forall|gid: int| live(old(self).garena(), gid) ==> grp(old(self).garena(), gid).wf(),
        ensures
            final(self).grid() == old(self).grid(),
            final(self).garena().len() == old(self).garena().len(),
            forall|i: int| live(final(self).garena(), i) <==> live(old(self).garena(), i),
            forall|gid: int| #[trigger]
                live(old(self).garena(), gid) ==> {
                    let og = grp(old(self).garena(), gid);
                    let ng = grp(final(self).garena(), gid);
                    &&& ng.stones_seq() == og.stones_seq()
                    &&& ng.wf()
                    &&& ng.liberty_set() == og.liberty_set().difference(
                        Set::new(
                            |c: (usize, usize)|
                                cs@.contains(c) && touches(
                                    old(self).grid(),
                                    old(self).spec_size(),
                                    gid as usize,
                                    c,
                                ),
                        ),
                    )
                },
            final(self).hist() == old(self).hist(),
            final(self).spec_size() == old(self).spec_size(),
            final(self).wd() == old(self).wd(),
            final(self).bd() == old(self).bd(),
            final(self).ko() == old(self).ko(),
    {
        let ghost size = old(self).spec_size();
        let ghost grid0 = old(self).grid();
        let ghost arena0 = old(self).garena();
        let mut i: usize = 0;
        while i < cs.len()
            invariant
                forall|j: int| 0 <= j < cs@.len() ==> in_extent(#[trigger] cs@[j], size),
                i <= cs@.len(),
                grid0.len() == 625,
                self.grid() == grid0,
                1 <= size <= MAX_SIZE,
                self.spec_size() == size,
                self.garena().len() == arena0.len(),
                forall|k: int| live(self.garena(), k) <==> live(arena0, k),
                forall|gid: int| #[trigger]
                    live(arena0, gid) ==> {
                        let og = grp(arena0, gid);
                        let ng = grp(self.garena(), gid);
                        &&& ng.stones_seq() == og.stones_seq()
                        &&& ng.wf()
                        &&& ng.liberty_set() == og.liberty_set().difference(
                            Set::new(
                                |c: (usize, usize)|
                                    cs@.take(i as int).contains(c) && touches(
                                        grid0,
                                        size,
                                        gid as usize,
                                        c,
                                    ),
                            ),
                        )
                    },
                self.hist() == old(self).hist(),
                self.wd() == old(self).wd(),
                self.bd() == old(self).bd(),
                self.ko() == old(self).ko(),
            decreases cs@.len() - i,
        {
            let (v, w) = cs[i];
            proof {
                assert((v, w) == cs@[i as int]);
                assert(in_extent((v, w), size));
                assert(cs@.take(i + 1) == cs@.take(i as int).push(cs@[i as int]));
            }
            let ghost arena_b = self.garena();
            proof {
                assert forall|gid: int| live(self.garena(), gid) implies grp(
                    self.garena(),
                    gid,
                ).wf() by {
                    assert(live(arena0, gid));
                }
            }
            self.retract_liberty(v, w);
            proof {
                assert forall|gid: int| #[trigger] live(arena0, gid) implies {
                    let og = grp(arena0, gid);
                    let ng = grp(self.garena(), gid);
                    &&& ng.stones_seq() == og.stones_seq()
                    &&& ng.wf()
                    &&& ng.liberty_set() == og.liberty_set().difference(
                        Set::new(
                            |c: (usize, usize)|
                                cs@.take(i + 1).contains(c) && touches(
                                    grid0,
                                    size,
                                    gid as usize,
                                    c,
                                ),
                        ),
                    )
                } by {
                    assert(live(arena_b, gid));
                    assert(grp(self.garena(), gid).liberty_set() =~= grp(
                        arena0,
                        gid,
                    ).liberty_set().difference(
                        Set::new(
                            |c: (usize, usize)|
                                cs@.take(i + 1).contains(c) && touches(
                                    grid0,
                                    size,
                                    gid as usize,
                                    c,
                                ),
                        ),
                    ));
                }
            }
            i = i + 1;
        }
        proof {
            assert(cs@.take(cs@.len() as int) =~= cs@);
            assert forall|gid: int| #[trigger] live(arena0, gid) implies grp(
                self.garena(),
                gid,
            ).liberty_set() == grp(arena0, gid).liberty_set().difference(
                Set::new(
                    |c: (usize, usize)|
                        cs@.contains(c) && touches(grid0, size, gid as usize, c),
                ),
            ) by {
                assert(grp(self.garena(), gid).liberty_set() =~= grp(
                    arena0,
                    gid,
                ).liberty_set().difference(
                    Set::new(
                        |c: (usize, usize)|
                            cs@.contains(c) && touches(grid0, size, gid as usize, c),
                    ),
                ));
            }
        }
    }

    /// Merges the groups owning the stones at `(x1, y1)` and `(x2, y2)`,
    /// which must carry the same colour. The group with more stones
    /// absorbs the smaller one (union by size); absorbing strips every
    /// liberty that is now an owned stone. No effect when both stones
    /// already belong to one group.
    fn fuse_groups(&mut self, x1: usize, y1: usize, x2: usize, y2: usize)
        requires
            old(self).grid().len() == 625,
            1 <= old(self).spec_size() <= MAX_SIZE,
            in_extent((x1, y1), old(self).spec_size()),
            in_extent((x2, y2), old(self).spec_size()),
            cell(old(self).grid(), (x1, y1)) is Stone,
            cell(old(self).grid(), (x2, y2)) is Stone,
            live(old(self).garena(), cell_gid(cell(old(self).grid(), (x1, y1))) as int),
            live(old(self).garena(), cell_gid(cell(old(self).grid(), (x2, y2))) as int),
            grp(old(self).garena(), cell_gid(cell(old(self).grid(), (x1, y1))) as int).wf(),
            grp(old(self).garena(), cell_gid(cell(old(self).grid(), (x2, y2))) as int).wf(),
            grp(
                old(self).garena(),
                cell_gid(cell(old(self).grid(), (x1, y1))) as int,
            ).stones_seq().len() >= 1,
            grp(
                old(self).garena(),
                cell_gid(cell(old(self).grid(), (x2, y2))) as int,
            ).stones_seq().len() >= 1,
            stones_on_grid(
                old(self).grid(),
                old(self).spec_size(),
                cell_gid(cell(old(self).grid(), (x1, y1))),
                grp(old(self).garena(), cell_gid(cell(old(self).grid(), (x1, y1))) as int),
            ),
            stones_on_grid(
                old(self).grid(),
                old(self).spec_size(),
                cell_gid(cell(old(self).grid(), (x2, y2))),
                grp(old(self).garena(), cell_gid(cell(old(self).grid(), (x2, y2))) as int),
            ),
        ensures
            fuse_post(*old(self), *final(self), (x1, y1), (x2, y2)),
    {
        let ga = self.gid_of_stone(x1, y1);
        let gb = self.gid_of_stone(x2, y2);
        if ga == gb {
            return ;
        }
        let na = self.group_ref(ga).get_stones().len();
        let nb = self.group_ref(gb).get_stones().len();
        let keep: usize = if na > nb {
            ga
        } else {
            gb
        };
        let del: usize = if na > nb {
            gb
        } else {
            ga
        };
        let ghost pre = *old(self);
        let ghost size = old(self).spec_size();
        let dead = self.take_group(del);
        let ds = dead.get_stones();
        let mut i: usize = 0;
        while i < ds.len()
            invariant
                self.grid().len() == 625,
                pre.grid().len() == 625,
                1 <= size <= MAX_SIZE,
                i <= ds@.len(),
                ds@ == dead.stones_seq(),
                ds@.no_duplicates(),
                dead.stones_seq() == grp(pre.garena(), del as int).stones_seq(),
                stones_on_grid(pre.grid(), size, del, grp(pre.garena(), del as int)),
                forall|c: (usize, usize)|
                    in_extent(c, MAX_SIZE) ==> #[trigger] cell(self.grid(), c) == (if ds@.take(
                        i as int,
                    ).contains(c) {
                        Intersection::Stone(cell_col(cell(pre.grid(), c)), keep)
                    } else {
                        cell(pre.grid(), c)
                    }),
                self.garena() == pre.garena().update(del as int, None::<Group>),
                self.hist() == pre.hist(),
                self.spec_size() == size,
                self.wd() == pre.wd(),
                self.bd() == pre.bd(),
                self.ko() == pre.ko(),
            decreases ds@.len() - i,
        {
            let (v, w) = ds[i];
            proof {
                assert((v, w) == ds@[i as int]);
                assert(dead.stone_set().contains((v, w)));
                assert(grp(pre.garena(), del as int).stone_set().contains((v, w))) by {
                    assert(dead.stone_set() =~= grp(pre.garena(), del as int).stone_set());
                }
                assert(in_extent((v, w), size));
                assert(cell(pre.grid(), (v, w)) == Intersection::Stone(
                    gcol(pre.grid(), grp(pre.garena(), del as int)),
                    del,
                ));
                assert(ds@.take(i + 1) == ds@.take(i as int).push(ds@[i as int]));
                if ds@.take(i as int).contains((v, w)) {
                    let j = choose|j: int| 0 <= j < i && ds@[j] == (v, w);
                    assert(ds@[j] == ds@[i as int]);
                    assert(false);
                }
            }
            match self.at(v, w) {
                Intersection::Stone(c2, _) => {
                    self.set_at(v, w, Intersection::Stone(c2, keep));
                },
                Intersection::Empty => {},
            }
            proof {
                assert forall|c: (usize, usize)| in_extent(c, MAX_SIZE) implies #[trigger] cell(
                    self.grid(),
                    c,
                ) == (if ds@.take(i + 1).contains(c) {
                    Intersection::Stone(cell_col(cell(pre.grid(), c)), keep)
                } else {
                    cell(pre.grid(), c)
                }) by {
                    lemma_idx_bounds(c);
                    lemma_idx_bounds((v, w));
                    if idx(c) == idx((v, w)) {
                        lemma_idx_injective(c, (v, w));
                    }
                }
            }
            i = i + 1;
        }
        proof {
            assert(ds@.take(ds@.len() as int) =~= ds@);
        }
        proof {
            assert(live(self.garena(), keep as int));
        }
        let mut gk = self.group_ref(keep).duplicate();
        gk.absorb(dead);
        self.update_group(keep, gk);
        proof {
            assert(grp(final(self).garena(), keep as int).stone_set() =~= grp(
                pre.garena(),
                ga as int,
            ).stone_set() + grp(pre.garena(), gb as int).stone_set());
            assert(grp(final(self).garena(), keep as int).liberty_set() =~= (grp(
                pre.garena(),
                ga as int,
            ).liberty_set() + grp(pre.garena(), gb as int).liberty_set()).difference(
                grp(pre.garena(), ga as int).stone_set() + grp(pre.garena(), gb as int).stone_set(),
            ));
            assert(grp(final(self).garena(), keep as int).stones_seq().len() >= 1) by {
                let e0 = grp(pre.garena(), keep as int).stones_seq()[0];
                assert(grp(pre.garena(), keep as int).stones_seq().contains(e0));
                assert(grp(pre.garena(), keep as int).stone_set().contains(e0));
                assert(grp(final(self).garena(), keep as int).stone_set().contains(e0));
                assert(grp(final(self).garena(), keep as int).stones_seq().contains(e0));
            }
            assert(forall|i2: int|
                live(final(self).garena(), i2) <==> (live(pre.garena(), i2) && i2 != del));
        }
    }

    /// Rereads the top of the history and stores the simple-ko point it
    /// determines.
    fn recompute_ko(&mut self)
        requires
            old(self).wf(),
        ensures
            final(self).ko() == ko_point(
                old(self).hist(),
                old(self).grid(),
                old(self).garena(),
                old(self).spec_size(),
            ),
            final(self).ko_coherent(),
            final(self).wf(),
            final(self).grid() == old(self).grid(),
            final(self).hist() == old(self).hist(),
            final(self).garena() == old(self).garena(),
            final(self).spec_size() == old(self).spec_size(),
            final(self).wd() == old(self).wd(),
            final(self).bd() == old(self).bd(),
    {
        let hlen = self.history.len();
        if hlen == 0 {
            self.current_ko = (0, 0);
            return ;
        }
        let act = self.history[hlen - 1].action;
        proof {
            assert(put_move_ok(self.hist()[hlen - 1], self.spec_size()));
        }
        match act {
            Vertex::Pass => {
                self.current_ko = (0, 0);
            },
            Vertex::Put(v, w) => {
                let mut ko: (usize, usize) = (0, 0);
                if self.history[hlen - 1].removed.len() == 1 {
                    if self.history[hlen - 1].removed[0].get_stones().len() == 1 {
                        let cand = self.history[hlen - 1].removed[0].get_stones()[0];
                        match self.at(v, w) {
                            Intersection::Stone(_, gid) => {
                                proof {
                                    assert(live(self.garena(), gid as int));
                                }
                                let g = self.group_ref(gid);
                                if g.get_stones().len() == 1 && g.get_liberties().len() == 1
                                    && cand.0 >= 1 && cand.0 <= self.size && cand.1 >= 1
                                    && cand.1 <= self.size {
                                    match self.at(cand.0, cand.1) {
                                        Intersection::Empty => {
                                            ko = cand;
                                        },
                                        Intersection::Stone(_, _) => {},
                                    }
                                }
                            },
                            Intersection::Empty => {},
                        }
                    }
                }
                self.current_ko = ko;
            },
        }
    }

    /// Undoes the last move. Returns false when the history is empty.
    /// Undoing a pass only pops it (and re-evaluates the ko point).
    /// Undoing a stone empties its point, splits the remainder of its
    /// group into connected chains, re-places every captured group under
    /// fresh identifiers, restores the dead-stone counter, and
    /// re-evaluates the ko point from the move before. A history record
    /// that does not match the position (which no sequence of legal
    /// calls produces) is refused: the board stays unchanged.
    #[verifier::rlimit(100)]
    #[verifier::spinoff_prover]
    pub fn undo(&mut self) -> (r: bool)
        requires
            old(self).wf(),
        ensures
            final(self).wf(),
            r == (old(self).hist().len() > 0 && undo_fits(*old(self))),
            !r ==> *final(self) == *old(self),
            r ==> undo_post(*old(self), *final(self)),
    {
        let ghost pre = *old(self);
        let hlen = self.history.len();
        if hlen == 0 {
            return false;
        }
        let act = self.history[hlen - 1].action;
        let player = self.history[hlen - 1].player;
        proof {
            assert(put_move_ok(pre.hist()[hlen - 1], pre.spec_size()));
            assert(pre.hist()[hlen - 1] == pre.hist().last());
        }
        match act {
            Vertex::Pass => {
                self.history.pop();
                proof {
                    assert(self.hist() =~= pre.hist().drop_last());
                    assert(puts_in_extent(self.hist(), self.spec_size())) by {
                        assert forall|j: int| 0 <= j < self.hist().len() implies put_move_ok(
                            #[trigger] self.hist()[j],
                            self.spec_size(),
                        ) by {
                            assert(self.hist()[j] == pre.hist()[j]);
                            assert(put_move_ok(pre.hist()[j], self.spec_size()));
                        }
                    }
                    assert(self.wf());
                }
                self.recompute_ko();
                proof {
                    assert(undo_post(pre, *final(self)));
                }
                true
            },
            Vertex::Put(x, y) => {
                let size = self.size;
                let opponent_col = opponent(player);
                match self.at(x, y) {
                    Intersection::Empty => {
                        proof {
                            assert(!undo_fits(pre));
                        }
                        return false;
                    },
                    Intersection::Stone(_, oldgid) => {
                        let pglen = self.groups.len();
                        proof {
                            assert(pre.garena().len() == pglen);
                            assert(live(pre.garena(), oldgid as int));
                            assert(group_ok(
                                pre.grid(),
                                size,
                                oldgid,
                                grp(pre.garena(), oldgid as int),
                            ));
                        }
                        let mut work = self.clone_without_history();
                        let ghost rem = pre.hist().last().removed@;
                        let nrem = self.history[hlen - 1].removed.len();

                        // re-place every captured group under a fresh
                        // identifier; reject records that do not fit the
                        // position
                        let mut restored_gids: Vec<usize> = Vec::new();
                        let mut restored_cells: Vec<(usize, usize)> = Vec::new();
                        let ghost mut rset: Set<int> = Set::empty();
                        let mut k: usize = 0;
                        while k < nrem
                            invariant
                                *self == pre,
                                pre == *old(self),
                                pre.wf(),
                                1 <= size <= MAX_SIZE,
                                size == pre.spec_size(),
                                hlen == pre.hist().len(),
                                1 <= hlen,
                                rem == pre.hist().last().removed@,
                                nrem == rem.len(),
                                pre.hist().last().action == Vertex::Put(x, y),
                                in_extent((x, y), size),
                                cell(pre.grid(), (x, y)) is Stone,
                                opponent_col == opp(player),
                                k <= nrem,
                                work.spec_size() == size,
                                work.grid().len() == 625,
                                work.hist().len() == 0,
                                forall|g: int| #![trigger live(work.garena(), g)]
                                    live(work.garena(), g) <==> (live(pre.garena(), g)
                                        || rset.contains(g)),
                                forall|g: int| #[trigger]
                                    rset.contains(g) ==> !live(pre.garena(), g) && 0 <= g
                                        < work.garena().len(),
                                restored_gids@.len() == k,
                                forall|j: int|
                                    0 <= j < k ==> rset.contains(#[trigger] restored_gids@[j] as int),
                                forall|g: int|
                                    rset.contains(g) ==> exists|j: int|
                                        0 <= j < k && restored_gids@[j] as int == g,
                                restored_cells@.no_duplicates(),
                                restored_cells@.to_set() == groups_union(rem.take(k as int)),
                                forall|j: int|
                                    0 <= j < restored_cells@.len() ==> in_extent(
                                        #[trigger] restored_cells@[j],
                                        size,
                                    ) && cell(pre.grid(), restored_cells@[j])
                                        == Intersection::Empty,
                                forall|c: (usize, usize)| #[trigger]
                                    restored_cells@.to_set().contains(c) ==> (cell(
                                        work.grid(),
                                        c,
                                    ) is Stone && cell_col(cell(work.grid(), c)) == opp(player)
                                        && rset.contains(cell_gid(cell(work.grid(), c)) as int)
                                        && grp(
                                        work.garena(),
                                        cell_gid(cell(work.grid(), c)) as int,
                                    ).stone_set().contains(c)),
                                forall|c: (usize, usize)|
                                    in_extent(c, MAX_SIZE) && !restored_cells@.to_set().contains(
                                        c,
                                    ) ==> #[trigger] cell(work.grid(), c) == cell(pre.grid(), c),
                                forall|g: int| #[trigger]
                                    rset.contains(g) ==> {
                                        let ng = grp(work.garena(), g);
                                        &&& ng.wf()
                                        &&& ng.stones_seq().len() >= 1
                                        &&& ng.liberty_set() == Set::<(usize, usize)>::empty()
                                        &&& forall|c: (usize, usize)| #[trigger]
                                            ng.stone_set().contains(c) ==> in_extent(c, size)
                                                && restored_cells@.to_set().contains(c) && cell(
                                                work.grid(),
                                                c,
                                            ) == Intersection::Stone(opp(player), g as usize)
                                    },
                                forall|j: int|
                                    0 <= j < k ==> grp(
                                        work.garena(),
                                        #[trigger] restored_gids@[j] as int,
                                    ).stone_set() == rem[j].stone_set(),
                                forall|j: int|
                                    0 <= j < k ==> (#[trigger] rem[j]).stones_seq().len() >= 1
                                        && rem[j].stones_seq().no_duplicates(),
                                forall|j1: int, j2: int|
                                    0 <= j1 < j2 < k ==> (#[trigger] rem[j1]).stone_set().disjoint(
                                        (#[trigger] rem[j2]).stone_set(),
                                    ),
                                forall|g: int| #[trigger]
                                    live(pre.garena(), g) ==> live(work.garena(), g) && grp(
                                        work.garena(),
                                        g,
                                    ).stones_seq() == grp(pre.garena(), g).stones_seq() && grp(
                                        work.garena(),
                                        g,
                                    ).libs_seq() == grp(pre.garena(), g).libs_seq(),
                            decreases nrem - k,
                        {
                            let rg_stones = coords_copy(
                                self.history[hlen - 1].removed[k].get_stones(),
                            );
                            proof {
                                assert(rg_stones@ == rem[k as int].stones_seq());
                            }
                            if rg_stones.len() == 0 {
                                proof {
                                    assert(!undo_fits(pre)) by {
                                        if undo_fits(pre) {
                                            assert(rem[k as int].stones_seq().len() >= 1);
                                        }
                                    }
                                }
                                return false;
                            }
                            let gidk = work.next_gid();
                            let mut gk = Group::new();
                            let ghost work_b = work;
                            let mut si: usize = 0;
                            while si < rg_stones.len()
                                invariant
                                    *self == pre,
                                    pre == *old(self),
                                    pre.wf(),
                                    1 <= size <= MAX_SIZE,
                                    size == pre.spec_size(),
                                    in_extent((x, y), size),
                                    pre.hist().len() > 0,
                                    pre.hist().last().action == Vertex::Put(x, y),
                                    cell(pre.grid(), (x, y)) is Stone,
                                    rem == pre.hist().last().removed@,
                                    nrem == rem.len(),
                                    k < nrem,
                                    rg_stones@ == rem[k as int].stones_seq(),
                                    restored_cells@.to_set() == groups_union(rem.take(k as int)),
                                    forall|c: (usize, usize)|
                                        in_extent(c, MAX_SIZE)
                                            && !restored_cells@.to_set().contains(c)
                                            ==> #[trigger] cell(work_b.grid(), c) == cell(
                                            pre.grid(),
                                            c,
                                        ),
                                    forall|c: (usize, usize)| #[trigger]
                                        restored_cells@.to_set().contains(c) ==> cell(
                                            work_b.grid(),
                                            c,
                                        ) is Stone,
                                    opponent_col == opp(player),
                                    si <= rg_stones@.len(),
                                    work.spec_size() == size,
                                    work.grid().len() == 625,
                                    work.hist().len() == 0,
                                    work.garena() == work_b.garena(),
                                    !live(work.garena(), gidk as int),
                                    gidk <= work.garena().len(),
                                    gk.wf(),
                                    gk.liberty_set() == Set::<(usize, usize)>::empty(),
                                    gk.stones_seq().len() == si,
                                    gk.stone_set() == rg_stones@.take(si as int).to_set(),
                                    forall|c: (usize, usize)| #[trigger]
                                        gk.stone_set().contains(c) ==> in_extent(c, size) && cell(
                                            work.grid(),
                                            c,
                                        ) == Intersection::Stone(opp(player), gidk),
                                    forall|c: (usize, usize)|
                                        in_extent(c, MAX_SIZE) && !gk.stone_set().contains(c)
                                            ==> #[trigger] cell(work.grid(), c) == cell(
                                            work_b.grid(),
                                            c,
                                        ),
                                    forall|j2: int|
                                        0 <= j2 < si ==> in_extent(
                                            #[trigger] rg_stones@[j2],
                                            size,
                                        ) && cell(work_b.grid(), rg_stones@[j2])
                                            == Intersection::Empty,
                                decreases rg_stones@.len() - si,
                            {
                                let (v, w) = rg_stones[si];
                                proof {
                                    assert((v, w) == rg_stones@[si as int]);
                                }
                                if !(v >= 1 && v <= size && w >= 1 && w <= size) {
                                    proof {
                                        assert(rem[k as int].stone_set().contains((v, w)));
                                        assert(!undo_fits(pre)) by {
                                            if undo_fits(pre) {
                                                assert(in_extent((v, w), size));
                                            }
                                        }
                                    }
                                    return false;
                                }
                                proof {
                                    assert(in_extent((v, w), size));
                                }
                                match work.at(v, w) {
                                    Intersection::Stone(_, _) => {
                                        proof {
                                            assert(rem[k as int].stone_set().contains((v, w)));
                                            assert(!undo_fits(pre)) by {
                                                if undo_fits(pre) {
                                                    if gk.stone_set().contains((v, w)) {
                                                        let j = choose|j: int|
                                                            0 <= j < si && rg_stones@[j] == (v, w);
                                                        assert(rem[
                                                            k as int
                                                        ].stones_seq().no_duplicates());
                                                        assert(rg_stones@[j] == rg_stones@[
                                                            si as int
                                                        ]);
                                                        assert(false);
                                                    } else {
                                                        assert(cell(work.grid(), (v, w)) == cell(
                                                            work_b.grid(),
                                                            (v, w),
                                                        ));
                                                        if restored_cells@.to_set().contains(
                                                            (v, w),
                                                        ) {
                                                            lemma_groups_union_contains(
                                                                rem.take(k as int),
                                                                (v, w),
                                                            );
                                                            let k1 = choose|k1: int|
                                                                0 <= k1 < k && (#[trigger] rem.take(
                                                                    k as int,
                                                                )[k1]).stone_set().contains(
                                                                    (v, w),
                                                                );
                                                            assert(rem[k1].stone_set().contains(
                                                                (v, w),
                                                            ));
                                                            assert(rem[k1].stone_set().disjoint(
                                                                rem[k as int].stone_set(),
                                                            ));
                                                            assert(false);
                                                        } else {
                                                            assert(cell(pre.grid(), (v, w))
                                                                == Intersection::Empty);
                                                            assert(false);
                                                        }
                                                    }
                                                }
                                            }
                                        }
                                        return false;
                                    },
                                    Intersection::Empty => {},
                                }
                                proof {
                                    assert(!gk.stone_set().contains((v, w))) by {
                                        if gk.stone_set().contains((v, w)) {
                                            assert(cell(work.grid(), (v, w))
                                                == Intersection::Stone(opp(player), gidk));
                                        }
                                    }
                                    assert(cell(work.grid(), (v, w)) == cell(
                                        work_b.grid(),
                                        (v, w),
                                    ));
                                    assert(cell(work_b.grid(), (v, w)) == Intersection::Empty);
                                }
                                let ghost gk_b = gk;
                                work.set_at(v, w, Intersection::Stone(opponent_col, gidk));
                                gk.add_stone(v, w);
                                proof {
                                    assert(rg_stones@.take(si + 1) == rg_stones@.take(
                                        si as int,
                                    ).push(rg_stones@[si as int]));
                                    assert(!gk_b.stone_set().contains((v, w)));
                                    assert(!gk_b.stones_seq().contains((v, w)));
                                    assert(gk.stone_set() =~= rg_stones@.take(si + 1).to_set());
                                    assert forall|c: (usize, usize)| #[trigger] gk.stone_set().contains(
                                        c,
                                    ) implies in_extent(c, size) && cell(work.grid(), c)
                                        == Intersection::Stone(opp(player), gidk) by {
                                        lemma_idx_bounds(c);
                                        lemma_idx_bounds((v, w));
                                        if c != (v, w) {
                                            if idx(c) == idx((v, w)) {
                                                lemma_idx_injective(c, (v, w));
                                            }
                                        }
                                    }
                                    assert forall|c: (usize, usize)|
                                        in_extent(c, MAX_SIZE) && !gk.stone_set().contains(c)
                                        implies #[trigger] cell(work.grid(), c) == cell(
                                        work_b.grid(),
                                        c,
                                    ) by {
                                        lemma_idx_bounds(c);
                                        lemma_idx_bounds((v, w));
                                        if idx(c) == idx((v, w)) {
                                            lemma_idx_injective(c, (v, w));
                                        }
                                    }
                                }
                                si = si + 1;
                            }
                            proof {
                                assert(rg_stones@.take(rg_stones@.len() as int) =~= rg_stones@);
                                assert(gk.stone_set() =~= rem[k as int].stone_set());
                            }
                            work.insert_group(gidk, gk);
                            let ghost rg0 = restored_gids@;
                            restored_gids.push(gidk);
                            let ghost rcb = restored_cells@;
                            append_coords(&mut restored_cells, &rg_stones);
                            proof {
                                assert forall|j1: int, j2: int|
                                    0 <= j1 < j2 < k + 1 implies (#[trigger] rem[j1]).stone_set().disjoint(
                                    (#[trigger] rem[j2]).stone_set(),
                                ) by {
                                    if j2 == k {
                                        assert forall|c: (usize, usize)|
                                            rem[j1].stone_set().contains(c) implies !rem[
                                            k as int
                                        ].stone_set().contains(c) by {
                                            if rem[k as int].stone_set().contains(c) {
                                                assert(rem.take(k as int)[j1] == rem[j1]);
                                                assert(rem.take(k as int)[j1].stone_set().contains(
                                                    c,
                                                ));
                                                lemma_groups_union_contains(rem.take(k as int), c);
                                                assert(groups_union(
                                                    rem.take(k as int),
                                                ).contains(c));
                                                assert(rcb.to_set().contains(c));
                                                assert(cell(work_b.grid(), c) is Stone);
                                                assert(rem[k as int].stones_seq().contains(c));
                                                let j3 = choose|j3: int|
                                                    0 <= j3 < rg_stones@.len() && rg_stones@[j3]
                                                        == c;
                                                assert(cell(work_b.grid(), rg_stones@[j3])
                                                    == Intersection::Empty);
                                                assert(false);
                                            }
                                        }
                                    }
                                }
                                rset = rset.insert(gidk as int);
                                assert forall|g: int| rset.contains(g) implies exists|j: int|
                                    0 <= j < k + 1 && restored_gids@[j] as int == g by {
                                    if g == gidk as int {
                                        assert(restored_gids@[k as int] as int == g);
                                    } else {
                                        let j = choose|j: int| 0 <= j < k && rg0[j] as int == g;
                                        assert(restored_gids@[j] as int == g);
                                    }
                                }
                                assert(rem.take(k + 1).drop_last() =~= rem.take(k as int));
                                vstd::seq_lib::seq_to_set_distributes_over_add(rcb, rg_stones@);
                                assert(restored_cells@.to_set() =~= groups_union(rem.take(k + 1)));
                                assert(rg_stones@.no_duplicates()) by {
                                    gk.stones_seq().unique_seq_to_set();
                                    assert(gk.stone_set().len() == rg_stones@.len());
                                    assert(rg_stones@.to_set().len() == rg_stones@.len());
                                    rg_stones@.lemma_no_dup_set_cardinality();
                                }
                                assert forall|i1: int, i2: int|
                                    0 <= i1 < i2 < restored_cells@.len() implies restored_cells@[i1]
                                    != restored_cells@[i2] by {
                                    if i1 < rcb.len() && i2 >= rcb.len() {
                                        let c1 = restored_cells@[i1];
                                        let c2 = restored_cells@[i2];
                                        if c1 == c2 {
                                            assert(rcb.contains(c1));
                                            assert(rcb.to_set().contains(c1));
                                            assert(cell(work_b.grid(), c1) is Stone);
                                            assert(rg_stones@.contains(c2));
                                            assert(rg_stones@.to_set().contains(c2));
                                            let j2 = choose|j2: int|
                                                0 <= j2 < rg_stones@.len() && rg_stones@[j2] == c2;
                                            assert(cell(work_b.grid(), c2)
                                                == Intersection::Empty);
                                            assert(false);
                                        }
                                    } else if i1 >= rcb.len() {
                                        assert(rg_stones@[i1 - rcb.len()] != rg_stones@[i2
                                            - rcb.len()]);
                                    }
                                }
                            }
                            k = k + 1;
                        }
                        let ghost arena_r = work.garena();
                        proof {
                            assert(rem.take(nrem as int) =~= rem);
                        }
                        let ghost rr = restored_cells@.to_set();
                        let ghost oldcells_s = grp(pre.garena(), oldgid as int).stone_set();
                        let ghost col0 = gcol(pre.grid(), grp(pre.garena(), oldgid as int));

                        // forget the played stone; the old group's slot
                        // stays reserved until its remains are regrouped
                        let oldstones = coords_copy(work.group_ref(oldgid).get_stones());
                        work.set_at(x, y, Intersection::Empty);
                        proof {
                            assert(oldstones@.to_set() =~= oldcells_s);
                            assert(grp(pre.garena(), oldgid as int).stone_set().contains((x, y)));
                            assert(group_ok(
                                pre.grid(),
                                size,
                                oldgid,
                                grp(pre.garena(), oldgid as int),
                            ));
                            assert(!rr.contains((x, y))) by {
                                if rr.contains((x, y)) {
                                    assert(cell(pre.grid(), (x, y)) == Intersection::Empty);
                                }
                            }
                        }

                        // split what is left of the old group into chains
                        let mut rest = coords_copy(&oldstones);
                        coords_remove(&mut rest, (x, y));
                        let mut split_gids: Vec<usize> = Vec::new();
                        let ghost mut sset: Set<int> = Set::empty();
                        let ghost sclean = oldcells_s.remove((x, y));
                        proof {
                            assert forall|c: (usize, usize)| #[trigger]
                                oldcells_s.contains(c) implies in_extent(c, size) && cell(
                                pre.grid(),
                                c,
                            ) == Intersection::Stone(col0, oldgid) && !rr.contains(c) by {
                                if rr.contains(c) {
                                    assert(cell(pre.grid(), c) == Intersection::Empty);
                                }
                            }
                            assert forall|c: (usize, usize)|
                                in_extent(c, MAX_SIZE) && c != (x, y) implies #[trigger] cell(
                                work.grid(),
                                c,
                            ) == (if rr.contains(c) {
                                cell(work.grid(), c)
                            } else {
                                cell(pre.grid(), c)
                            }) by {
                                lemma_idx_bounds(c);
                                lemma_idx_bounds((x, y));
                                if idx(c) == idx((x, y)) {
                                    lemma_idx_injective(c, (x, y));
                                }
                            }
                            assert forall|c: (usize, usize)|
                                in_extent(c, MAX_SIZE) && rr.contains(c) implies (#[trigger] cell(
                                work.grid(),
                                c,
                            ) matches Intersection::Stone(col, g) && col == opp(player)
                                && rset.contains(g as int) && live(work.garena(), g as int) && grp(
                                work.garena(),
                                g as int,
                            ).stone_set().contains(c)) by {
                                assert(c != (x, y));
                                lemma_idx_bounds(c);
                                lemma_idx_bounds((x, y));
                                if idx(c) == idx((x, y)) {
                                    lemma_idx_injective(c, (x, y));
                                }
                                assert(restored_cells@.to_set().contains(c));
                            }
                            assert forall|c: (usize, usize)| #[trigger]
                                rest@.contains(c) implies oldcells_s.contains(c) && c != (x, y) by {
                                assert(oldstones@.contains(c));
                                assert(grp(pre.garena(), oldgid as int).stones_seq().contains(c));
                            }
                            assert forall|c: (usize, usize)|
                                in_extent(c, MAX_SIZE) && rest@.contains(c) implies #[trigger] cell(
                                work.grid(),
                                c,
                            ) == Intersection::Stone(col0, oldgid) by {
                                assert(oldcells_s.contains(c));
                                assert(!rr.contains(c));
                                assert(c != (x, y));
                            }
                            assert forall|c: (usize, usize)|
                                in_extent(c, MAX_SIZE) && oldcells_s.contains(c) && c != (x, y)
                                implies rest@.contains(c) by {
                                assert(grp(pre.garena(), oldgid as int).stone_set().contains(c));
                                assert(grp(pre.garena(), oldgid as int).stones_seq().contains(c));
                                assert(oldstones@.contains(c));
                            }
                        }
                        while rest.len() > 0
                            invariant
                                *self == pre,
                                pre == *old(self),
                                pre.wf(),
                                1 <= size <= MAX_SIZE,
                                size == pre.spec_size(),
                                in_extent((x, y), size),
                                opponent_col == opp(player),
                                live(pre.garena(), oldgid as int),
                                oldcells_s == grp(pre.garena(), oldgid as int).stone_set(),
                                col0 == gcol(pre.grid(), grp(pre.garena(), oldgid as int)),
                                cell(pre.grid(), (x, y)) == Intersection::Stone(col0, oldgid),
                                oldcells_s.contains((x, y)),
                                !rr.contains((x, y)),
                                rr == restored_cells@.to_set(),
                                forall|c: (usize, usize)| #[trigger]
                                    rr.contains(c) ==> in_extent(c, size) && cell(pre.grid(), c)
                                        == Intersection::Empty,
                                forall|g: int| #[trigger] rset.contains(g) ==> !live(pre.garena(), g),
                                forall|g: int| #[trigger] sset.contains(g) ==> !live(pre.garena(), g),
                                forall|j: int|
                                    0 <= j < split_gids@.len() ==> sset.contains(
                                        #[trigger] split_gids@[j] as int,
                                    ) && live(work.garena(), split_gids@[j] as int),
                                forall|g: int|
                                    sset.contains(g) ==> exists|j: int|
                                        0 <= j < split_gids@.len() && split_gids@[j] as int == g,
                                sclean == oldcells_s.remove((x, y)),
                                forall|g: int| #[trigger]
                                    rset.contains(g) ==> grp(work.garena(), g).stones_seq() == grp(
                                        arena_r,
                                        g,
                                    ).stones_seq(),
                                forall|g: int, c: (usize, usize)|
                                    #![trigger sset.contains(g), grp(work.garena(), g).stone_set().contains(c)]
                                    sset.contains(g) && grp(work.garena(), g).stone_set().contains(
                                        c,
                                    ) ==> sclean.contains(c),
                                forall|g: int, u: (usize, usize), v: (usize, usize)|
                                    #![trigger sset.contains(g), grp(work.garena(), g).stone_set().contains(u), grp(work.garena(), g).stone_set().contains(v)]
                                    sset.contains(g) && grp(work.garena(), g).stone_set().contains(
                                        u,
                                    ) && grp(work.garena(), g).stone_set().contains(v)
                                        ==> connected_in(grp(work.garena(), g).stone_set(), u, v),
                                forall|g: int, u: (usize, usize), v: (usize, usize)|
                                    #![trigger sset.contains(g), grp(work.garena(), g).stone_set().contains(u), rest@.contains(v)]
                                    sset.contains(g) && grp(work.garena(), g).stone_set().contains(
                                        u,
                                    ) && rest@.contains(v) ==> !adjacent(u, v),
                                forall|g1: int, g2: int, u: (usize, usize), v: (usize, usize)|
                                    #![trigger sset.contains(g1), sset.contains(g2), grp(work.garena(), g1).stone_set().contains(u), grp(work.garena(), g2).stone_set().contains(v)]
                                    sset.contains(g1) && sset.contains(g2) && g1 != g2 && grp(
                                        work.garena(),
                                        g1,
                                    ).stone_set().contains(u) && grp(
                                        work.garena(),
                                        g2,
                                    ).stone_set().contains(v) ==> !adjacent(u, v),
                                work.spec_size() == size,
                                work.grid().len() == 625,
                                work.hist().len() == 0,
                                forall|g: int| #![trigger live(work.garena(), g)]
                                    live(work.garena(), g) <==> (live(pre.garena(), g)
                                        || rset.contains(g) || sset.contains(g)),
                                rest@.no_duplicates(),
                                forall|c: (usize, usize)| #[trigger]
                                    rest@.contains(c) ==> oldcells_s.contains(c) && c != (x, y),
                                cell(work.grid(), (x, y)) == Intersection::Empty,
                                forall|c: (usize, usize)|
                                    in_extent(c, MAX_SIZE) && rr.contains(c) ==> (#[trigger] cell(
                                        work.grid(),
                                        c,
                                    ) matches Intersection::Stone(col, g) && col == opp(player)
                                        && rset.contains(g as int) && live(work.garena(), g as int)
                                        && grp(work.garena(), g as int).stone_set().contains(c)),
                                forall|c: (usize, usize)|
                                    in_extent(c, MAX_SIZE) && rest@.contains(c) ==> #[trigger] cell(
                                        work.grid(),
                                        c,
                                    ) == Intersection::Stone(col0, oldgid),
                                forall|c: (usize, usize)|
                                    in_extent(c, MAX_SIZE) && oldcells_s.contains(c) && c != (x, y)
                                        && !rest@.contains(c) ==> (#[trigger] cell(
                                        work.grid(),
                                        c,
                                    ) matches Intersection::Stone(col, g) && col == col0
                                        && sset.contains(g as int) && live(work.garena(), g as int)
                                        && grp(work.garena(), g as int).stone_set().contains(c)),
                                forall|c: (usize, usize)|
                                    in_extent(c, MAX_SIZE) && c != (x, y) && !rr.contains(c)
                                        && !oldcells_s.contains(c) ==> #[trigger] cell(
                                        work.grid(),
                                        c,
                                    ) == cell(pre.grid(), c),
                                forall|g: int| #![trigger live(work.garena(), g)]
                                    (rset.contains(g) || sset.contains(g)) && live(
                                        work.garena(),
                                        g,
                                    ) ==> {
                                        let ng = grp(work.garena(), g);
                                        &&& ng.wf()
                                        &&& ng.stones_seq().len() >= 1
                                        &&& ng.liberty_set() == Set::<(usize, usize)>::empty()
                                        &&& forall|c: (usize, usize)| #[trigger]
                                            ng.stone_set().contains(c) ==> in_extent(c, size)
                                                && cell(work.grid(), c) == Intersection::Stone(
                                                if rset.contains(g) {
                                                    opp(player)
                                                } else {
                                                    col0
                                                },
                                                g as usize,
                                            )
                                    },
                                forall|g: int| #![trigger live(pre.garena(), g)]
                                    live(pre.garena(), g) && g != oldgid as int ==> live(
                                        work.garena(),
                                        g,
                                    ) && grp(work.garena(), g).stones_seq() == grp(
                                        pre.garena(),
                                        g,
                                    ).stones_seq() && grp(work.garena(), g).libs_seq() == grp(
                                        pre.garena(),
                                        g,
                                    ).libs_seq(),
                            decreases rest@.len(),
                        {
                            let seed = rest[0];
                            let wal = work.groups.len();
                            let ghost rest_h = rest@;
                            proof {
                                assert(rest@.contains(rest@[0]));
                                assert(rest@.contains(seed));
                                assert(work.garena().len() == wal);
                            }
                            coords_remove(&mut rest, seed);
                            let mut comp: Vec<(usize, usize)> = Vec::new();
                            comp.push(seed);
                            let mut wl: Vec<(usize, usize)> = Vec::new();
                            wl.push(seed);
                            let ghost work_s = work;
                            let ghost rest_b = rest@.to_set().insert(seed);
                            let ghost rest_seeded = rest@.len();
                            proof {
                                assert(rest_b =~= rest_h.to_set());
                                assert(comp@.to_set().contains(seed));
                                lemma_connected_refl(comp@.to_set(), seed);
                            }
                            while wl.len() > 0
                                invariant
                                    work == work_s,
                                    1 <= size <= MAX_SIZE,
                                    size == pre.spec_size(),
                                    rest@.len() <= rest_seeded,
                                    rest@.no_duplicates(),
                                    comp@.no_duplicates(),
                                    comp@.len() >= 1,
                                    forall|c: (usize, usize)| #[trigger]
                                        rest@.contains(c) ==> rest_b.contains(c),
                                    forall|c: (usize, usize)| #[trigger]
                                        comp@.contains(c) ==> rest_b.contains(c),
                                    forall|c: (usize, usize)| #[trigger]
                                        rest_b.contains(c) ==> (rest@.contains(c)
                                            || comp@.contains(c)),
                                    forall|c: (usize, usize)|
                                        !(#[trigger] rest@.contains(c) && #[trigger] comp@.contains(
                                            c,
                                        )),
                                    forall|c: (usize, usize)| #[trigger]
                                        rest_b.contains(c) ==> oldcells_s.contains(c) && c != (
                                        x,
                                        y,
                                    ),
                                    forall|j: int|
                                        0 <= j < wl@.len() ==> in_extent(#[trigger] wl@[j], size),
                                    forall|j: int|
                                        0 <= j < wl@.len() ==> comp@.contains(#[trigger] wl@[j]),
                                    forall|c: (usize, usize)| #[trigger]
                                        oldcells_s.contains(c) ==> in_extent(c, size),
                                    forall|c: (usize, usize)| #[trigger]
                                        rest_b.contains(c) ==> in_extent(c, size),
                                    forall|c: (usize, usize)| #[trigger]
                                        comp@.contains(c) ==> connected_in(
                                            comp@.to_set(),
                                            seed,
                                            c,
                                        ),
                                    forall|u: (usize, usize), v: (usize, usize)|
                                        #![trigger comp@.contains(u), rest@.contains(v)]
                                        comp@.contains(u) && !wl@.contains(u) && rest@.contains(v)
                                            ==> !adjacent(u, v),
                                decreases rest@.len(), wl@.len(),
                            {
                                let copt = wl.pop();
                                match copt {
                                    Option::Some(cc) => {
                                        let nbrsc = neighbours(cc.0, cc.1, size);
                                        let mut nj: usize = 0;
                                        let ghost rest_at = rest@;
                                        let ghost wl_at = wl@.len();
                                        while nj < nbrsc.len()
                                            invariant
                                                work == work_s,
                                                1 <= size <= MAX_SIZE,
                                                size == pre.spec_size(),
                                                nj <= nbrsc@.len(),
                                                forall|c: (usize, usize)| #![trigger nbrsc@.contains(c)]
                                                    nbrsc@.contains(c) <==> in_extent(c, size)
                                                        && adjacent(c, (cc.0, cc.1)),
                                                rest@.len() <= rest_seeded,
                                                wl@.len() <= wl_at + (rest_at.len()
                                                    - rest@.len()),
                                                rest@.no_duplicates(),
                                                comp@.no_duplicates(),
                                                comp@.len() >= 1,
                                                forall|c: (usize, usize)| #[trigger]
                                                    rest@.contains(c) ==> rest_at.contains(c),
                                                forall|c: (usize, usize)| #[trigger]
                                                    rest@.contains(c) ==> rest_b.contains(c),
                                                forall|c: (usize, usize)| #[trigger]
                                                    comp@.contains(c) ==> rest_b.contains(c),
                                                forall|c: (usize, usize)| #[trigger]
                                                    rest_b.contains(c) ==> (rest@.contains(c)
                                                        || comp@.contains(c)),
                                                forall|c: (usize, usize)|
                                                    !(#[trigger] rest@.contains(c)
                                                        && #[trigger] comp@.contains(c)),
                                                forall|c: (usize, usize)| #[trigger]
                                                    rest_b.contains(c) ==> oldcells_s.contains(c)
                                                        && c != (x, y),
                                                forall|j: int|
                                                    0 <= j < wl@.len() ==> in_extent(
                                                        #[trigger] wl@[j],
                                                        size,
                                                    ),
                                                forall|j: int|
                                                    0 <= j < wl@.len() ==> comp@.contains(
                                                        #[trigger] wl@[j],
                                                    ),
                                                forall|c: (usize, usize)| #[trigger]
                                                    oldcells_s.contains(c) ==> in_extent(c, size),
                                                forall|c: (usize, usize)| #[trigger]
                                                    rest_b.contains(c) ==> in_extent(c, size),
                                                comp@.contains(cc),
                                                forall|c: (usize, usize)| #[trigger]
                                                    comp@.contains(c) ==> connected_in(
                                                        comp@.to_set(),
                                                        seed,
                                                        c,
                                                    ),
                                                forall|u: (usize, usize), v: (usize, usize)|
                                                    #![trigger comp@.contains(u), rest@.contains(v)]
                                                    comp@.contains(u) && !wl@.contains(u) && u != cc
                                                        && rest@.contains(v) ==> !adjacent(u, v),
                                                forall|jj: int|
                                                    0 <= jj < nj ==> !rest@.contains(
                                                        #[trigger] nbrsc@[jj],
                                                    ),
                                                rest@.len() <= rest_at.len(),
                                            decreases nbrsc@.len() - nj,
                                        {
                                            let nb = nbrsc[nj];
                                            proof {
                                                assert(nb == nbrsc@[nj as int]);
                                                assert(nbrsc@.contains(nb));
                                            }
                                            if coords_contains(&rest, nb) {
                                                proof {
                                                    if comp@.contains(nb) {
                                                        assert(false);
                                                    }
                                                }
                                                coords_remove(&mut rest, nb);
                                                let ghost comp0 = comp@.to_set();
                                                let ghost compseq0 = comp@;
                                                comp.push(nb);
                                                proof {
                                                    assert(comp@ == compseq0.push(nb));
                                                    assert(compseq0.push(nb).to_set()
                                                        =~= compseq0.to_set().insert(nb));
                                                    assert(comp@.to_set() =~= comp0.insert(nb));
                                                    assert(adjacent(nb, (cc.0, cc.1)));
                                                    assert(cc == (cc.0, cc.1));
                                                    assert(adjacent(cc, nb));
                                                    assert forall|c: (usize, usize)| #[trigger]
                                                        comp@.contains(c) implies connected_in(
                                                        comp@.to_set(),
                                                        seed,
                                                        c,
                                                    ) by {
                                                        if c == nb {
                                                            lemma_connected_mono(
                                                                comp0,
                                                                comp@.to_set(),
                                                                seed,
                                                                cc,
                                                            );
                                                            lemma_connected_step(
                                                                comp@.to_set(),
                                                                seed,
                                                                cc,
                                                                nb,
                                                            );
                                                        } else {
                                                            lemma_connected_mono(
                                                                comp0,
                                                                comp@.to_set(),
                                                                seed,
                                                                c,
                                                            );
                                                        }
                                                    }
                                                }
                                                wl.push(nb);
                                            }
                                            nj = nj + 1;
                                        }
                                        proof {
                                            assert forall|u: (usize, usize), v: (usize, usize)|
                                                comp@.contains(u) && !wl@.contains(u)
                                                    && rest@.contains(v) implies !adjacent(
                                                u,
                                                v,
                                            ) by {
                                                if u == cc && adjacent(u, v) {
                                                    assert(rest_b.contains(v));
                                                    assert(in_extent(v, size));
                                                    assert(cc == (cc.0, cc.1));
                                                    assert(adjacent(v, (cc.0, cc.1)));
                                                    assert(nbrsc@.contains(v));
                                                    let jj = choose|jj: int|
                                                        0 <= jj < nbrsc@.len() && nbrsc@[jj] == v;
                                                    assert(!rest@.contains(nbrsc@[jj]));
                                                    assert(false);
                                                }
                                            }
                                        }
                                    },
                                    Option::None => {
                                        proof {
                                            assert(false);
                                        }
                                    },
                                }
                            }
                            // one chain found: give it a fresh identifier
                            let gidc = work.next_gid();
                            let mut gc = Group::new();
                            let ghost sset0 = sset;
                            let mut ci: usize = 0;
                            while ci < comp.len()
                                invariant
                                    pre.wf(),
                                    1 <= size <= MAX_SIZE,
                                    size == pre.spec_size(),
                                    in_extent((x, y), size),
                                    ci <= comp@.len(),
                                    comp@.no_duplicates(),
                                    forall|c: (usize, usize)| #[trigger]
                                        comp@.contains(c) ==> oldcells_s.contains(c) && c != (
                                        x,
                                        y,
                                    ) && in_extent(c, size),
                                    forall|c: (usize, usize)| #[trigger]
                                        comp@.contains(c) && !comp@.take(ci as int).contains(c)
                                            ==> cell(work_s.grid(), c) == Intersection::Stone(
                                            col0,
                                            oldgid,
                                        ),
                                    work.spec_size() == size,
                                    work.grid().len() == 625,
                                    work.hist().len() == 0,
                                    work.garena() == work_s.garena(),
                                    !live(work.garena(), gidc as int),
                                    gidc <= work.garena().len(),
                                    gc.wf(),
                                    gc.liberty_set() == Set::<(usize, usize)>::empty(),
                                    gc.stone_set() == comp@.take(ci as int).to_set(),
                                    gc.stones_seq().len() == ci,
                                    forall|c: (usize, usize)|
                                        in_extent(c, MAX_SIZE) ==> #[trigger] cell(work.grid(), c)
                                            == (if comp@.take(ci as int).contains(c) {
                                            Intersection::Stone(col0, gidc)
                                        } else {
                                            cell(work_s.grid(), c)
                                        }),
                                decreases comp@.len() - ci,
                            {
                                let (cv, cw) = comp[ci];
                                proof {
                                    assert((cv, cw) == comp@[ci as int]);
                                    assert(comp@.contains((cv, cw)));
                                    assert(in_extent((cv, cw), size));
                                    if comp@.take(ci as int).contains((cv, cw)) {
                                        let j = choose|j: int|
                                            0 <= j < ci && comp@[j] == (cv, cw);
                                        assert(comp@[j] == comp@[ci as int]);
                                        assert(false);
                                    }
                                    assert(cell(work.grid(), (cv, cw)) == Intersection::Stone(
                                        col0,
                                        oldgid,
                                    ));
                                    assert(comp@.take(ci + 1) == comp@.take(ci as int).push(
                                        comp@[ci as int],
                                    ));
                                }
                                match work.at(cv, cw) {
                                    Intersection::Stone(colc, _) => {
                                        work.set_at(
                                            cv,
                                            cw,
                                            Intersection::Stone(colc, gidc),
                                        );
                                        proof {
                                            assert(!gc.stone_set().contains((cv, cw)));
                                            assert(!gc.stones_seq().contains((cv, cw)));
                                        }
                                        gc.add_stone(cv, cw);
                                        proof {
                                            assert(gc.stone_set() =~= comp@.take(ci + 1).to_set());
                                            assert forall|c: (usize, usize)|
                                                in_extent(c, MAX_SIZE) implies #[trigger] cell(
                                                work.grid(),
                                                c,
                                            ) == (if comp@.take(ci + 1).contains(c) {
                                                Intersection::Stone(col0, gidc)
                                            } else {
                                                cell(work_s.grid(), c)
                                            }) by {
                                                lemma_idx_bounds(c);
                                                lemma_idx_bounds((cv, cw));
                                                if c != (cv, cw) && idx(c) == idx((cv, cw)) {
                                                    lemma_idx_injective(c, (cv, cw));
                                                }
                                            }
                                        }
                                    },
                                    Intersection::Empty => {
                                        proof {
                                            assert(false);
                                        }
                                    },
                                }
                                ci = ci + 1;
                            }
                            proof {
                                assert(comp@.take(comp@.len() as int) =~= comp@);
                            }
                            work.insert_group(gidc, gc);
                            let ghost sg0 = split_gids@;
                            split_gids.push(gidc);
                            proof {
                                let sset0 = sset;
                                sset = sset.insert(gidc as int);
                                assert forall|g: int| sset.contains(g) implies exists|j: int|
                                    0 <= j < split_gids@.len() && split_gids@[j] as int == g by {
                                    if g == gidc as int {
                                        assert(split_gids@[sg0.len() as int] as int == g);
                                    } else {
                                        let j = choose|j: int|
                                            0 <= j < sg0.len() && sg0[j] as int == g;
                                        assert(split_gids@[j] as int == g);
                                    }
                                }
                                assert(!live(pre.garena(), gidc as int)) by {
                                    assert(!live(work_s.garena(), gidc as int));
                                    if live(pre.garena(), gidc as int) {
                                        assert(live(work_s.garena(), gidc as int));
                                        assert(false);
                                    }
                                }
                                assert(gidc as int != oldgid as int) by {
                                    assert(live(work_s.garena(), oldgid as int));
                                }
                                assert(comp@.take(comp@.len() as int) =~= comp@);
                                assert(grp(work.garena(), gidc as int).stone_set()
                                    =~= comp@.to_set());
                                // cells of earlier groups are away from this chain
                                assert forall|c: (usize, usize)|
                                    in_extent(c, MAX_SIZE) && !comp@.contains(c) implies
                                    #[trigger] cell(work.grid(), c) == cell(work_s.grid(), c) by {
                                    assert(!comp@.take(comp@.len() as int).contains(c));
                                }
                                assert forall|c: (usize, usize)|
                                    in_extent(c, MAX_SIZE) && comp@.contains(c) implies
                                    #[trigger] cell(work.grid(), c) == Intersection::Stone(
                                    col0,
                                    gidc,
                                ) by {
                                    assert(comp@.take(comp@.len() as int).contains(c));
                                }
                                // the remaining unprocessed stones keep the old label
                                assert forall|c: (usize, usize)|
                                    in_extent(c, MAX_SIZE) && rest@.contains(c) implies
                                    #[trigger] cell(work.grid(), c) == Intersection::Stone(
                                    col0,
                                    oldgid,
                                ) by {
                                    assert(rest_b.contains(c));
                                    assert(!comp@.contains(c));
                                    assert(cell(work_s.grid(), c) == Intersection::Stone(
                                        col0,
                                        oldgid,
                                    ));
                                }
                                // every processed old cell now sits in a fresh chain
                                assert forall|c: (usize, usize)|
                                    in_extent(c, MAX_SIZE) && oldcells_s.contains(c) && c != (
                                    x,
                                    y,
                                ) && !rest@.contains(c) implies (#[trigger] cell(
                                    work.grid(),
                                    c,
                                ) matches Intersection::Stone(col, g) && col == col0
                                    && sset.contains(g as int) && live(work.garena(), g as int)
                                    && grp(work.garena(), g as int).stone_set().contains(c)) by {
                                    if comp@.contains(c) {
                                        assert(cell(work.grid(), c) == Intersection::Stone(
                                            col0,
                                            gidc,
                                        ));
                                        assert(live(work.garena(), gidc as int));
                                    } else {
                                        if rest_b.contains(c) {
                                            assert(rest@.contains(c) || comp@.contains(c));
                                            assert(false);
                                        }
                                        assert(cell(work_s.grid(), c) matches Intersection::Stone(
                                            col,
                                            g,
                                        ) && col == col0 && sset0.contains(g as int) && live(
                                            work_s.garena(),
                                            g as int,
                                        ) && grp(work_s.garena(), g as int).stone_set().contains(
                                            c,
                                        ));
                                        let g = cell_gid(cell(work_s.grid(), c));
                                        assert(g as int != gidc as int);
                                        assert(grp(work.garena(), g as int) == grp(
                                            work_s.garena(),
                                            g as int,
                                        ));
                                    }
                                }
                                // the fresh chains and the re-placed groups still hold
                                assert forall|g: int| #![trigger live(work.garena(), g)]
                                    (rset.contains(g) || sset.contains(g)) && live(
                                    work.garena(),
                                    g,
                                ) implies {
                                    let ng = grp(work.garena(), g);
                                    &&& ng.wf()
                                    &&& ng.stones_seq().len() >= 1
                                    &&& ng.liberty_set() == Set::<(usize, usize)>::empty()
                                    &&& forall|c: (usize, usize)| #[trigger]
                                        ng.stone_set().contains(c) ==> in_extent(c, size) && cell(
                                            work.grid(),
                                            c,
                                        ) == Intersection::Stone(
                                            if rset.contains(g) {
                                                opp(player)
                                            } else {
                                                col0
                                            },
                                            g as usize,
                                        )
                                } by {
                                    if g == gidc as int {
                                        assert(grp(work.garena(), g).liberty_set()
                                            =~= Set::<(usize, usize)>::empty());
                                        assert forall|c: (usize, usize)| #[trigger] grp(
                                            work.garena(),
                                            g,
                                        ).stone_set().contains(c) implies in_extent(c, size)
                                            && cell(work.grid(), c) == Intersection::Stone(
                                            col0,
                                            g as usize,
                                        ) by {
                                            assert(comp@.contains(c));
                                            assert(rest_b.contains(c));
                                        }
                                        assert(!rset.contains(g));
                                    } else {
                                        assert(live(work_s.garena(), g));
                                        assert(grp(work.garena(), g) == grp(work_s.garena(), g));
                                        let ng = grp(work.garena(), g);
                                        assert forall|c: (usize, usize)| #[trigger]
                                            ng.stone_set().contains(c) implies in_extent(c, size)
                                            && cell(work.grid(), c) == Intersection::Stone(
                                            if rset.contains(g) {
                                                opp(player)
                                            } else {
                                                col0
                                            },
                                            g as usize,
                                        ) by {
                                            assert(cell(work_s.grid(), c) == Intersection::Stone(
                                                if rset.contains(g) {
                                                    opp(player)
                                                } else {
                                                    col0
                                                },
                                                g as usize,
                                            ));
                                            if comp@.contains(c) {
                                                assert(rest_b.contains(c));
                                                assert(cell(work_s.grid(), c)
                                                    == Intersection::Stone(col0, oldgid));
                                                assert((g as usize) == oldgid);
                                                assert(0 <= g < work_s.garena().len());
                                                assert(work_s.garena().len() == wal);
                                                assert(g <= usize::MAX);
                                                assert(g == oldgid as int);
                                                assert(live(pre.garena(), g));
                                                assert(false);
                                            }
                                        }
                                    }
                                }
                                // the new chain hangs together, lies in the
                                // remainder, and stands apart from the rest
                                assert(wl@.len() == 0);
                                let compset = grp(work.garena(), gidc as int).stone_set();
                                assert(compset == comp@.to_set());
                                assert forall|u: (usize, usize), v: (usize, usize)|
                                    compset.contains(u) && compset.contains(v) implies
                                    connected_in(compset, u, v) by {
                                    assert(comp@.contains(u) && comp@.contains(v));
                                    assert(connected_in(comp@.to_set(), seed, u));
                                    assert(connected_in(comp@.to_set(), seed, v));
                                    lemma_connected_sym(comp@.to_set(), seed, u);
                                    lemma_connected_trans(comp@.to_set(), u, seed, v);
                                }
                                assert forall|g: int, c: (usize, usize)|
                                    sset.contains(g) && grp(work.garena(), g).stone_set().contains(
                                        c,
                                    ) implies sclean.contains(c) by {
                                    if g == gidc as int {
                                        assert(comp@.contains(c));
                                        assert(rest_b.contains(c));
                                    } else {
                                        assert(sset0.contains(g));
                                        assert(grp(work.garena(), g) == grp(work_s.garena(), g));
                                    }
                                }
                                assert forall|g: int, u: (usize, usize), v: (usize, usize)|
                                    sset.contains(g) && grp(work.garena(), g).stone_set().contains(
                                        u,
                                    ) && grp(work.garena(), g).stone_set().contains(v) implies
                                    connected_in(grp(work.garena(), g).stone_set(), u, v) by {
                                    if g != gidc as int {
                                        assert(sset0.contains(g));
                                        assert(grp(work.garena(), g) == grp(work_s.garena(), g));
                                    }
                                }
                                assert forall|g: int, u: (usize, usize), v: (usize, usize)|
                                    sset.contains(g) && grp(work.garena(), g).stone_set().contains(
                                        u,
                                    ) && rest@.contains(v) implies !adjacent(u, v) by {
                                    if g == gidc as int {
                                        assert(comp@.contains(u));
                                        assert(!wl@.contains(u));
                                    } else {
                                        assert(sset0.contains(g));
                                        assert(grp(work.garena(), g) == grp(work_s.garena(), g));
                                        assert(rest_b.contains(v));
                                        assert(rest_h.contains(v));
                                    }
                                }
                                assert forall|g1: int, g2: int, u: (usize, usize), v: (usize, usize)|
                                    sset.contains(g1) && sset.contains(g2) && g1 != g2 && grp(
                                        work.garena(),
                                        g1,
                                    ).stone_set().contains(u) && grp(
                                        work.garena(),
                                        g2,
                                    ).stone_set().contains(v) implies !adjacent(u, v) by {
                                    if g1 == gidc as int {
                                        assert(sset0.contains(g2));
                                        assert(grp(work.garena(), g2) == grp(work_s.garena(), g2));
                                        assert(comp@.contains(u));
                                        assert(rest_b.contains(u));
                                        assert(rest_h.contains(u));
                                        assert(!adjacent(v, u));
                                        assert(!adjacent(u, v));
                                    } else if g2 == gidc as int {
                                        assert(sset0.contains(g1));
                                        assert(grp(work.garena(), g1) == grp(work_s.garena(), g1));
                                        assert(comp@.contains(v));
                                        assert(rest_b.contains(v));
                                        assert(rest_h.contains(v));
                                    } else {
                                        assert(sset0.contains(g1) && sset0.contains(g2));
                                        assert(grp(work.garena(), g1) == grp(work_s.garena(), g1));
                                        assert(grp(work.garena(), g2) == grp(work_s.garena(), g2));
                                    }
                                }
                            }
                        }
                        let ghost arena_s = work.garena();
                        let _old_group = work.take_group(oldgid);
                        proof {
                            assert(rest@.len() == 0);
                            assert forall|c: (usize, usize)| #[trigger]
                                rest@.contains(c) implies false by {
                                let j = choose|j: int| 0 <= j < rest@.len() && rest@[j] == c;
                            }
                        }

                        // recompute the liberties of every fresh group
                        let ghost grid_l = work.grid();
                        let ghost arena_l = work.garena();
                        let ghost mut lp: Set<int> = Set::empty();
                        let mut li: usize = 0;
                        while li < restored_gids.len()
                            invariant
                                1 <= size <= MAX_SIZE,
                                size == pre.spec_size(),
                                li <= restored_gids@.len(),
                                work.grid() == grid_l,
                                work.grid().len() == 625,
                                work.spec_size() == size,
                                work.hist().len() == 0,
                                work.garena().len() == arena_l.len(),
                                forall|g: int| live(work.garena(), g) <==> live(arena_l, g),
                                forall|j: int|
                                    0 <= j < restored_gids@.len() ==> rset.contains(
                                        #[trigger] restored_gids@[j] as int,
                                    ) && live(arena_l, restored_gids@[j] as int),
                                forall|g: int| #[trigger]
                                    lp.contains(g) ==> live(arena_l, g) && (rset.contains(g)
                                        || sset.contains(g)),
                                forall|j: int|
                                    0 <= j < li ==> lp.contains(#[trigger] restored_gids@[j] as int),
                                forall|g: int| #![trigger live(arena_l, g)]
                                    live(arena_l, g) ==> {
                                        let ng = grp(work.garena(), g);
                                        let og = grp(arena_l, g);
                                        &&& ng.stones_seq() == og.stones_seq()
                                        &&& ng.wf()
                                        &&& ng.liberty_set() == if lp.contains(g) {
                                            exact_libs(og.stone_set(), grid_l, size)
                                        } else {
                                            og.liberty_set()
                                        }
                                    },
                                forall|g: int| #[trigger]
                                    live(arena_l, g) ==> forall|c: (usize, usize)| #[trigger] grp(
                                        arena_l,
                                        g,
                                    ).stone_set().contains(c) ==> in_extent(c, size),
                            decreases restored_gids@.len() - li,
                        {
                            let gid = restored_gids[li];
                            proof {
                                assert(rset.contains(restored_gids@[li as int] as int));
                                assert(live(arena_l, gid as int));
                                assert(live(work.garena(), gid as int));
                            }
                            let stones_g = coords_copy(work.group_ref(gid).get_stones());
                            proof {
                                assert forall|j: int|
                                    0 <= j < stones_g@.len() implies in_extent(
                                    #[trigger] stones_g@[j],
                                    size,
                                ) by {
                                    assert(stones_g@.contains(stones_g@[j]));
                                    assert(grp(arena_l, gid as int).stone_set().contains(
                                        stones_g@[j],
                                    ));
                                }
                            }
                            let libs_g = work.exact_liberties_of(&stones_g);
                            let mut g2 = Group::new();
                            let mut s2i: usize = 0;
                            while s2i < stones_g.len()
                                invariant
                                    s2i <= stones_g@.len(),
                                    stones_g@.no_duplicates(),
                                    g2.wf(),
                                    g2.stones_seq() == stones_g@.take(s2i as int),
                                    g2.liberty_set() == Set::<(usize, usize)>::empty(),
                                decreases stones_g@.len() - s2i,
                            {
                                proof {
                                    assert(stones_g@.take(s2i + 1) == stones_g@.take(
                                        s2i as int,
                                    ).push(stones_g@[s2i as int]));
                                    if stones_g@.take(s2i as int).contains(stones_g@[s2i as int]) {
                                        let j = choose|j: int|
                                            0 <= j < s2i && stones_g@[j] == stones_g@[s2i as int];
                                        assert(false);
                                    }
                                }
                                let (sv, sw) = stones_g[s2i];
                                g2.add_stone(sv, sw);
                                s2i = s2i + 1;
                            }
                            proof {
                                assert(stones_g@.take(stones_g@.len() as int) =~= stones_g@);
                            }
                            let mut l2i: usize = 0;
                            while l2i < libs_g.len()
                                invariant
                                    l2i <= libs_g@.len(),
                                    g2.wf(),
                                    g2.stones_seq() == stones_g@,
                                    g2.liberty_set() == libs_g@.take(l2i as int).to_set(),
                                decreases libs_g@.len() - l2i,
                            {
                                proof {
                                    assert(libs_g@.take(l2i + 1) == libs_g@.take(l2i as int).push(
                                        libs_g@[l2i as int],
                                    ));
                                }
                                let (lv, lw) = libs_g[l2i];
                                g2.add_liberty(lv, lw);
                                proof {
                                    assert(g2.liberty_set() =~= libs_g@.take(l2i + 1).to_set());
                                }
                                l2i = l2i + 1;
                            }
                            proof {
                                assert(libs_g@.take(libs_g@.len() as int) =~= libs_g@);
                            }
                            work.update_group(gid, g2);
                            proof {
                                lp = lp.insert(gid as int);
                                assert(grp(work.garena(), gid as int).liberty_set()
                                    =~= exact_libs(
                                    grp(arena_l, gid as int).stone_set(),
                                    grid_l,
                                    size,
                                )) by {
                                    assert(stones_g@.to_set() =~= grp(
                                        arena_l,
                                        gid as int,
                                    ).stone_set());
                                    assert(exact_libs(stones_g@.to_set(), grid_l, size)
                                        =~= exact_libs(
                                        grp(arena_l, gid as int).stone_set(),
                                        grid_l,
                                        size,
                                    ));
                                }
                            }
                            li = li + 1;
                        }
                        let mut si2: usize = 0;
                        while si2 < split_gids.len()
                            invariant
                                1 <= size <= MAX_SIZE,
                                size == pre.spec_size(),
                                si2 <= split_gids@.len(),
                                work.grid() == grid_l,
                                work.grid().len() == 625,
                                work.spec_size() == size,
                                work.hist().len() == 0,
                                work.garena().len() == arena_l.len(),
                                forall|g: int| live(work.garena(), g) <==> live(arena_l, g),
                                forall|j: int|
                                    0 <= j < split_gids@.len() ==> live(
                                        arena_l,
                                        #[trigger] split_gids@[j] as int,
                                    ) && sset.contains(split_gids@[j] as int),
                                forall|g: int| #[trigger]
                                    lp.contains(g) ==> live(arena_l, g) && (rset.contains(g)
                                        || sset.contains(g)),
                                forall|j: int|
                                    0 <= j < restored_gids@.len() ==> lp.contains(
                                        #[trigger] restored_gids@[j] as int,
                                    ),
                                forall|j: int|
                                    0 <= j < si2 ==> lp.contains(#[trigger] split_gids@[j] as int),
                                forall|g: int| #![trigger live(arena_l, g)]
                                    live(arena_l, g) ==> {
                                        let ng = grp(work.garena(), g);
                                        let og = grp(arena_l, g);
                                        &&& ng.stones_seq() == og.stones_seq()
                                        &&& ng.wf()
                                        &&& ng.liberty_set() == if lp.contains(g) {
                                            exact_libs(og.stone_set(), grid_l, size)
                                        } else {
                                            og.liberty_set()
                                        }
                                    },
                                forall|g: int| #[trigger]
                                    live(arena_l, g) ==> forall|c: (usize, usize)| #[trigger] grp(
                                        arena_l,
                                        g,
                                    ).stone_set().contains(c) ==> in_extent(c, size),
                            decreases split_gids@.len() - si2,
                        {
                            let gid = split_gids[si2];
                            proof {
                                assert(live(arena_l, split_gids@[si2 as int] as int));
                                assert(live(arena_l, gid as int));
                                assert(live(work.garena(), gid as int));
                            }
                            let stones_g = coords_copy(work.group_ref(gid).get_stones());
                            proof {
                                assert forall|j: int|
                                    0 <= j < stones_g@.len() implies in_extent(
                                    #[trigger] stones_g@[j],
                                    size,
                                ) by {
                                    assert(stones_g@.contains(stones_g@[j]));
                                    assert(grp(arena_l, gid as int).stone_set().contains(
                                        stones_g@[j],
                                    ));
                                }
                            }
                            let libs_g = work.exact_liberties_of(&stones_g);
                            let mut g2 = Group::new();
                            let mut s2i: usize = 0;
                            while s2i < stones_g.len()
                                invariant
                                    s2i <= stones_g@.len(),
                                    stones_g@.no_duplicates(),
                                    g2.wf(),
                                    g2.stones_seq() == stones_g@.take(s2i as int),
                                    g2.liberty_set() == Set::<(usize, usize)>::empty(),
                                decreases stones_g@.len() - s2i,
                            {
                                proof {
                                    assert(stones_g@.take(s2i + 1) == stones_g@.take(
                                        s2i as int,
                                    ).push(stones_g@[s2i as int]));
                                    if stones_g@.take(s2i as int).contains(stones_g@[s2i as int]) {
                                        let j = choose|j: int|
                                            0 <= j < s2i && stones_g@[j] == stones_g@[s2i as int];
                                        assert(false);
                                    }
                                }
                                let (sv, sw) = stones_g[s2i];
                                g2.add_stone(sv, sw);
                                s2i = s2i + 1;
                            }
                            proof {
                                assert(stones_g@.take(stones_g@.len() as int) =~= stones_g@);
                            }
                            let mut l2i: usize = 0;
                            while l2i < libs_g.len()
                                invariant
                                    l2i <= libs_g@.len(),
                                    g2.wf(),
                                    g2.stones_seq() == stones_g@,
                                    g2.liberty_set() == libs_g@.take(l2i as int).to_set(),
                                decreases libs_g@.len() - l2i,
                            {
                                proof {
                                    assert(libs_g@.take(l2i + 1) == libs_g@.take(l2i as int).push(
                                        libs_g@[l2i as int],
                                    ));
                                }
                                let (lv, lw) = libs_g[l2i];
                                g2.add_liberty(lv, lw);
                                proof {
                                    assert(g2.liberty_set() =~= libs_g@.take(l2i + 1).to_set());
                                }
                                l2i = l2i + 1;
                            }
                            proof {
                                assert(libs_g@.take(libs_g@.len() as int) =~= libs_g@);
                            }
                            work.update_group(gid, g2);
                            proof {
                                lp = lp.insert(gid as int);
                                assert(grp(work.garena(), gid as int).liberty_set()
                                    =~= exact_libs(
                                    grp(arena_l, gid as int).stone_set(),
                                    grid_l,
                                    size,
                                )) by {
                                    assert(stones_g@.to_set() =~= grp(
                                        arena_l,
                                        gid as int,
                                    ).stone_set());
                                    assert(exact_libs(stones_g@.to_set(), grid_l, size)
                                        =~= exact_libs(
                                        grp(arena_l, gid as int).stone_set(),
                                        grid_l,
                                        size,
                                    ));
                                }
                            }
                            si2 = si2 + 1;
                        }
                        proof {
                            // every fresh group has been given its exact liberties
                            assert forall|g: int|
                                (rset.contains(g) || sset.contains(g)) && live(
                                work.garena(),
                                g,
                            ) implies #[trigger] lp.contains(g) by {
                                if rset.contains(g) {
                                    let j = choose|j: int|
                                        0 <= j < restored_gids@.len() && restored_gids@[j] as int
                                            == g;
                                    assert(lp.contains(restored_gids@[j] as int));
                                } else {
                                    let j = choose|j: int|
                                        0 <= j < split_gids@.len() && split_gids@[j] as int == g;
                                    assert(lp.contains(split_gids@[j] as int));
                                }
                            }
                        }

                        // the vacated point becomes a liberty of its
                        // neighbours again, and the re-placed stones stop
                        // being liberties
                        let ghost arena_v0 = work.garena();
                        proof {
                            assert forall|g: int| live(work.garena(), g) implies grp(
                                work.garena(),
                                g,
                            ).wf() by {
                                assert(live(arena_l, g));
                            }
                        }
                        work.vacate_cell(x, y);
                        proof {
                            assert(work.grid() =~= grid_l) by {
                                assert(cell(grid_l, (x, y)) == Intersection::Empty);
                                lemma_idx_bounds((x, y));
                            }
                        }
                        let ghost arena_v1 = work.garena();
                        proof {
                            assert forall|g: int| live(work.garena(), g) implies grp(
                                work.garena(),
                                g,
                            ).wf() by {
                                assert(live(arena_v0, g));
                                assert(live(arena_l, g));
                            }
                            assert forall|j: int|
                                0 <= j < restored_cells@.len() implies in_extent(
                                #[trigger] restored_cells@[j],
                                size,
                            ) by {
                            }
                        }
                        work.retract_liberties(&restored_cells);

                        // the rebuilt position, described before the final check
                        proof {
                            let wb = work;
                            assert(work.grid() == grid_l);
                            // the combined description of the rebuilt grid
                            assert forall|c: (usize, usize)|
                                in_extent(c, MAX_SIZE) implies (if c == (x, y) {
                                #[trigger] cell(wb.grid(), c) == Intersection::Empty
                            } else if rr.contains(c) {
                                cell(wb.grid(), c) matches Intersection::Stone(col, g) && col
                                    == opp(player) && rset.contains(g as int) && live(
                                    wb.garena(),
                                    g as int,
                                ) && grp(wb.garena(), g as int).stone_set().contains(c)
                            } else if oldcells_s.contains(c) {
                                cell(wb.grid(), c) matches Intersection::Stone(col, g) && col
                                    == col0 && sset.contains(g as int) && live(
                                    wb.garena(),
                                    g as int,
                                ) && grp(wb.garena(), g as int).stone_set().contains(c)
                            } else {
                                cell(wb.grid(), c) == cell(pre.grid(), c)
                            }) by {
                                if c != (x, y) && rr.contains(c) {
                                    let g = cell_gid(cell(grid_l, c));
                                    assert(live(arena_l, g as int));
                                    assert(grp(wb.garena(), g as int).stones_seq() == grp(
                                        arena_l,
                                        g as int,
                                    ).stones_seq());
                                    assert(grp(wb.garena(), g as int).stone_set() =~= grp(
                                        arena_l,
                                        g as int,
                                    ).stone_set());
                                } else if c != (x, y) && !rr.contains(c) && oldcells_s.contains(
                                    c,
                                ) {
                                    let g = cell_gid(cell(grid_l, c));
                                    assert(live(arena_l, g as int));
                                    assert(grp(wb.garena(), g as int).stone_set() =~= grp(
                                        arena_l,
                                        g as int,
                                    ).stone_set());
                                }
                            }
                            // the fresh groups carry exactly their liberties
                            assert forall|g: int| #![trigger live(wb.garena(), g)]
                                (rset.contains(g) || sset.contains(g)) && live(
                                wb.garena(),
                                g,
                            ) implies {
                                let ng = grp(wb.garena(), g);
                                &&& ng.wf()
                                &&& ng.stones_seq().len() >= 1
                                &&& ng.liberty_set() == exact_libs(
                                    ng.stone_set(),
                                    wb.grid(),
                                    pre.spec_size(),
                                )
                                &&& forall|c: (usize, usize)| #[trigger]
                                    ng.stone_set().contains(c) ==> in_extent(c, pre.spec_size())
                                        && cell(wb.grid(), c) == Intersection::Stone(
                                        if rset.contains(g) {
                                            opp(player)
                                        } else {
                                            col0
                                        },
                                        g as usize,
                                    )
                            } by {
                                assert(lp.contains(g));
                                assert(live(arena_l, g));
                                assert(live(arena_v0, g) && live(arena_v1, g));
                                let sl = grp(arena_l, g).stone_set();
                                assert(grp(wb.garena(), g).stone_set() =~= sl);
                                // handing the point out again adds nothing new
                                let lv0 = grp(arena_v0, g).liberty_set();
                                assert(lv0 == exact_libs(sl, grid_l, size));
                                if touches(grid_l, size, g as usize, (x, y)) {
                                    assert(exact_libs(sl, grid_l, size).contains((x, y))) by {
                                        let cb = choose|cb: (usize, usize)|
                                            adjacent(cb, (x, y)) && in_extent(cb, size)
                                                && #[trigger] is_stone_of(
                                                cell(grid_l, cb),
                                                g as usize,
                                            );
                                        assert(grp(wb.garena(), cell_gid(
                                            cell(grid_l, cb),
                                        ) as int).stone_set().contains(cb));
                                        assert(sl.contains(cb) && adjacent(cb, (x, y)));
                                        assert(cell(grid_l, (x, y)) == Intersection::Empty);
                                    }
                                    assert(grp(arena_v1, g).liberty_set() =~= lv0);
                                } else {
                                    assert(grp(arena_v1, g).liberty_set() == lv0);
                                }
                                // retracting occupied points removes nothing
                                assert(grp(wb.garena(), g).liberty_set() =~= exact_libs(
                                    sl,
                                    grid_l,
                                    size,
                                )) by {
                                    assert(grp(wb.garena(), g).liberty_set() == grp(
                                        arena_v1,
                                        g,
                                    ).liberty_set().difference(
                                        Set::new(
                                            |c: (usize, usize)|
                                                restored_cells@.contains(c) && touches(
                                                    grid_l,
                                                    size,
                                                    g as usize,
                                                    c,
                                                ),
                                        ),
                                    ));
                                    assert forall|c: (usize, usize)|
                                        exact_libs(sl, grid_l, size).contains(c) implies
                                        !restored_cells@.contains(c) by {
                                        if restored_cells@.contains(c) {
                                            assert(rr.contains(c));
                                            assert(cell(grid_l, c) is Stone);
                                        }
                                    }
                                }
                            }
                            // the surviving groups keep their adjusted liberties
                            assert forall|g: int| #![trigger live(pre.garena(), g)]
                                live(pre.garena(), g) && g != oldgid as int implies {
                                let ng = grp(wb.garena(), g);
                                let og = grp(pre.garena(), g);
                                &&& ng.stones_seq() == og.stones_seq()
                                &&& ng.wf()
                                &&& ng.liberty_set() == (og.liberty_set() + (if touches(
                                    wb.grid(),
                                    pre.spec_size(),
                                    g as usize,
                                    (x, y),
                                ) {
                                    Set::<(usize, usize)>::empty().insert((x, y))
                                } else {
                                    Set::<(usize, usize)>::empty()
                                })).difference(
                                    Set::new(
                                        |c: (usize, usize)|
                                            rr.contains(c) && touches(
                                                wb.grid(),
                                                pre.spec_size(),
                                                g as usize,
                                                c,
                                            ),
                                    ),
                                )
                            } by {
                                assert(live(arena_l, g));
                                assert(!lp.contains(g)) by {
                                    if lp.contains(g) {
                                        assert(rset.contains(g) || sset.contains(g));
                                        assert(!live(pre.garena(), g));
                                    }
                                }
                                assert(grp(arena_l, g).liberty_set() =~= grp(
                                    pre.garena(),
                                    g,
                                ).liberty_set());
                                assert(grp(arena_v0, g).liberty_set() == grp(
                                    arena_l,
                                    g,
                                ).liberty_set());
                                assert(grp(wb.garena(), g).liberty_set() =~= (grp(
                                    pre.garena(),
                                    g,
                                ).liberty_set() + (if touches(grid_l, size, g as usize, (x, y)) {
                                    Set::<(usize, usize)>::empty().insert((x, y))
                                } else {
                                    Set::<(usize, usize)>::empty()
                                })).difference(
                                    Set::new(
                                        |c: (usize, usize)|
                                            rr.contains(c) && touches(
                                                grid_l,
                                                size,
                                                g as usize,
                                                c,
                                            ),
                                    ),
                                )) by {
                                    assert(grp(arena_v1, g).liberty_set() == if touches(
                                        grid_l,
                                        size,
                                        g as usize,
                                        (x, y),
                                    ) {
                                        grp(arena_v0, g).liberty_set().insert((x, y))
                                    } else {
                                        grp(arena_v0, g).liberty_set()
                                    });
                                    assert(Set::new(
                                        |c: (usize, usize)|
                                            restored_cells@.contains(c) && touches(
                                                grid_l,
                                                size,
                                                g as usize,
                                                c,
                                            ),
                                    ) =~= Set::new(
                                        |c: (usize, usize)|
                                            rr.contains(c) && touches(
                                                grid_l,
                                                size,
                                                g as usize,
                                                c,
                                            ),
                                    ));
                                }
                                assert(grp(wb.garena(), g).stones_seq() == grp(
                                    pre.garena(),
                                    g,
                                ).stones_seq());
                            }
                            assert forall|g: int| #![trigger live(wb.garena(), g)]
                                live(wb.garena(), g) <==> ((live(pre.garena(), g) && g
                                    != oldgid as int) || rset.contains(g) || sset.contains(g)) by {
                                assert(live(wb.garena(), g) <==> live(arena_l, g));
                                if rset.contains(g) {
                                    assert(!live(pre.garena(), g));
                                    assert(g != oldgid as int);
                                }
                                if sset.contains(g) {
                                    assert(!live(pre.garena(), g));
                                    assert(g != oldgid as int);
                                }
                            }
                            // the undone grid's empty points, over the old position
                            assert(rr == groups_union(rem)) by {
                                assert(rr =~= groups_union(rem));
                            }
                            assert forall|c: (usize, usize)| in_extent(c, MAX_SIZE) implies ((cell(
                                grid_l,
                                c,
                            ) == Intersection::Empty) <==> undone_empty(pre, c)) by {
                                if c != (x, y) && !rr.contains(c) && oldcells_s.contains(c) {
                                    assert(grp(pre.garena(), oldgid as int).stone_set().contains(
                                        c,
                                    ));
                                    assert(cell(pre.grid(), c) == Intersection::Stone(
                                        col0,
                                        oldgid,
                                    ));
                                }
                            }
                            assert(sclean == grp(pre.garena(), oldgid as int).stone_set().remove(
                                (x, y),
                            ));
                            // every live group's stones read the same as just
                            // after the split
                            assert forall|g: int| live(wb.garena(), g) implies live(arena_s, g)
                                && grp(wb.garena(), g).stones_seq() == grp(
                                arena_s,
                                g,
                            ).stones_seq() by {
                                assert(live(arena_l, g));
                                assert(grp(wb.garena(), g).stones_seq() == grp(
                                    arena_l,
                                    g,
                                ).stones_seq());
                                assert(g != oldgid as int);
                                assert(grp(arena_l, g) == grp(arena_s, g));
                            }
                            // the re-placed cells were empty, in extent
                            assert forall|c: (usize, usize)| #[trigger]
                                rr.contains(c) implies in_extent(c, size) && cell(pre.grid(), c)
                                == Intersection::Empty by {
                                assert(restored_cells@.contains(c));
                                let j = choose|j: int|
                                    0 <= j < restored_cells@.len() && restored_cells@[j] == c;
                            }
                            // the rebuilt captured groups hold the recorded stones
                            assert forall|j: int| 0 <= j < restored_gids@.len() implies rset.contains(
                                #[trigger] restored_gids@[j] as int,
                            ) && grp(wb.garena(), restored_gids@[j] as int).stone_set() == rem[
                                j
                            ].stone_set() by {
                                let gw = restored_gids@[j] as int;
                                assert(rset.contains(gw));
                                assert(live(wb.garena(), gw));
                                assert(grp(arena_r, gw).stone_set() == rem[j].stone_set());
                                assert(grp(arena_s, gw).stones_seq() == grp(
                                    arena_r,
                                    gw,
                                ).stones_seq());
                                assert(grp(wb.garena(), gw).stone_set() =~= rem[j].stone_set());
                            }
                            // the chains keep their shape facts
                            assert forall|g: int, c: (usize, usize)|
                                #![trigger sset.contains(g), grp(wb.garena(), g).stone_set().contains(c)]
                                sset.contains(g) && live(wb.garena(), g) && grp(
                                    wb.garena(),
                                    g,
                                ).stone_set().contains(c) implies sclean.contains(c) by {
                                assert(live(arena_s, g));
                                assert(grp(wb.garena(), g).stones_seq() == grp(
                                    arena_s,
                                    g,
                                ).stones_seq());
                                assert(grp(arena_s, g).stone_set().contains(c));
                            }
                            assert forall|g: int, u: (usize, usize), v: (usize, usize)|
                                #![trigger sset.contains(g), grp(wb.garena(), g).stone_set().contains(u), grp(wb.garena(), g).stone_set().contains(v)]
                                sset.contains(g) && live(wb.garena(), g) && grp(
                                    wb.garena(),
                                    g,
                                ).stone_set().contains(u) && grp(wb.garena(), g).stone_set().contains(
                                    v,
                                ) implies connected_in(grp(wb.garena(), g).stone_set(), u, v) by {
                                assert(grp(wb.garena(), g).stones_seq() == grp(
                                    arena_s,
                                    g,
                                ).stones_seq());
                                assert(grp(wb.garena(), g).stone_set() =~= grp(
                                    arena_s,
                                    g,
                                ).stone_set());
                                assert(grp(arena_s, g).stone_set().contains(u) && grp(
                                    arena_s,
                                    g,
                                ).stone_set().contains(v));
                                assert(connected_in(grp(arena_s, g).stone_set(), u, v));
                            }
                            assert forall|g1: int, g2: int, u: (usize, usize), v: (usize, usize)|
                                #![trigger sset.contains(g1), sset.contains(g2), grp(wb.garena(), g1).stone_set().contains(u), grp(wb.garena(), g2).stone_set().contains(v)]
                                sset.contains(g1) && sset.contains(g2) && g1 != g2 && live(
                                    wb.garena(),
                                    g1,
                                ) && live(wb.garena(), g2) && grp(wb.garena(), g1).stone_set().contains(
                                    u,
                                ) && grp(wb.garena(), g2).stone_set().contains(v) implies !adjacent(
                                u,
                                v,
                            ) by {
                                assert(grp(wb.garena(), g1).stones_seq() == grp(
                                    arena_s,
                                    g1,
                                ).stones_seq());
                                assert(grp(wb.garena(), g2).stones_seq() == grp(
                                    arena_s,
                                    g2,
                                ).stones_seq());
                                assert(grp(arena_s, g1).stone_set().contains(u));
                                assert(grp(arena_s, g2).stone_set().contains(v));
                            }
                            // how the rebuilt table relates to the old one
                            assert forall|g: int| #![trigger live(pre.garena(), g)]
                                live(pre.garena(), g) && g != oldgid as int implies live(
                                wb.garena(),
                                g,
                            ) && grp(wb.garena(), g).stones_seq() == grp(
                                pre.garena(),
                                g,
                            ).stones_seq() by {
                            }
                            assert forall|g: int| #![trigger live(wb.garena(), g)]
                                live(wb.garena(), g) && !live(pre.garena(), g) implies ((exists|
                                    k: int,
                                |
                                    0 <= k < rem.len() && grp(wb.garena(), g).stone_set() == (
                                    #[trigger] rem[k]).stone_set()) || {
                                    let sg = grp(wb.garena(), g).stone_set();
                                    &&& forall|c: (usize, usize)| #[trigger]
                                        sg.contains(c) ==> sclean.contains(c)
                                    &&& forall|u: (usize, usize), v: (usize, usize)|
                                        #[trigger] sg.contains(u) && #[trigger] sg.contains(v)
                                            ==> connected_in(sg, u, v)
                                    &&& forall|u: (usize, usize), v: (usize, usize)|
                                        #[trigger] sg.contains(u) && #[trigger] sclean.contains(v)
                                            && adjacent(u, v) ==> sg.contains(v)
                                }) by {
                                if rset.contains(g) {
                                    let j = choose|j: int|
                                        0 <= j < restored_gids@.len() && restored_gids@[j] as int
                                            == g;
                                    assert(grp(wb.garena(), g).stone_set() == rem[j].stone_set());
                                } else {
                                    assert(sset.contains(g));
                                    let sg = grp(wb.garena(), g).stone_set();
                                    assert forall|u: (usize, usize), v: (usize, usize)|
                                        #[trigger] sg.contains(u) && #[trigger] sclean.contains(v)
                                            && adjacent(u, v) implies sg.contains(v) by {
                                        assert(grp(pre.garena(), oldgid as int).stone_set().contains(
                                            v,
                                        ));
                                        assert(group_ok(
                                            pre.grid(),
                                            size,
                                            oldgid,
                                            grp(pre.garena(), oldgid as int),
                                        ));
                                        assert(in_extent(v, size) && in_extent(v, MAX_SIZE));
                                        assert(!rr.contains(v)) by {
                                            if rr.contains(v) {
                                                assert(restored_cells@.contains(v));
                                                let j2 = choose|j2: int|
                                                    0 <= j2 < restored_cells@.len()
                                                        && restored_cells@[j2] == v;
                                                assert(cell(pre.grid(), v)
                                                    == Intersection::Empty);
                                                assert(cell(pre.grid(), v) == Intersection::Stone(
                                                    col0,
                                                    oldgid,
                                                ));
                                            }
                                        }
                                        assert(cell(grid_l, v) matches Intersection::Stone(
                                            colv,
                                            gv,
                                        ) && colv == col0 && sset.contains(gv as int) && live(
                                            wb.garena(),
                                            gv as int,
                                        ) && grp(wb.garena(), gv as int).stone_set().contains(v));
                                        let gv = cell_gid(cell(grid_l, v)) as int;
                                        if gv != g {
                                            assert(!adjacent(u, v));
                                        } else {
                                            assert(sg.contains(v));
                                        }
                                    }
                                }
                            }
                        }
                        // no group may be left without a liberty
                        let ghost wfix = work;
                        let glen2 = work.groups.len();
                        let mut found_dead = false;
                        let mut libless: usize = 0;
                        let mut gi: usize = 0;
                        while gi < glen2
                            invariant
                                work == wfix,
                                glen2 == work.garena().len(),
                                gi <= glen2,
                                found_dead ==> libless < glen2 && live(
                                    work.garena(),
                                    libless as int,
                                ) && grp(work.garena(), libless as int).libs_seq().len() == 0,
                                !found_dead ==> forall|j: int|
                                    0 <= j < gi && live(work.garena(), j) ==> grp(
                                        work.garena(),
                                        j,
                                    ).libs_seq().len() >= 1,
                            decreases glen2 - gi,
                        {
                            if !found_dead {
                                match &work.groups[gi] {
                                    Option::Some(gr) => {
                                        if gr.get_liberties().len() == 0 {
                                            found_dead = true;
                                            libless = gi;
                                        }
                                    },
                                    Option::None => {},
                                }
                            }
                            gi = gi + 1;
                        }

                        if found_dead {
                            // some rebuilt or surviving group would be left
                            // without a liberty: the record does not fit
                            proof {
                                lemma_undo_unfits(
                                    pre,
                                    work,
                                    player,
                                    x,
                                    y,
                                    oldgid,
                                    col0,
                                    rem,
                                    rr,
                                    sclean,
                                    rset,
                                    sset,
                                    restored_gids@,
                                    libless as int,
                                );
                            }
                            return false;
                        }

                        // everything fits: the position is consistent again
                        proof {
                            let wb = work;
                            assert forall|g: int| live(wb.garena(), g) implies grp(
                                wb.garena(),
                                g,
                            ).libs_seq().len() >= 1 by {
                                assert(0 <= g < glen2);
                            }
                            assert(wb.garena().len() == glen2);
                            assert forall|g: int| #![trigger live(wb.garena(), g)]
                                (rset.contains(g) || sset.contains(g)) && live(
                                wb.garena(),
                                g,
                            ) implies {
                                let ng = grp(wb.garena(), g);
                                &&& ng.wf()
                                &&& ng.stones_seq().len() >= 1
                                &&& ng.libs_seq().len() >= 1
                                &&& ng.liberty_set() == exact_libs(
                                    ng.stone_set(),
                                    wb.grid(),
                                    pre.spec_size(),
                                )
                                &&& forall|c: (usize, usize)| #[trigger]
                                    ng.stone_set().contains(c) ==> in_extent(c, pre.spec_size())
                                        && cell(wb.grid(), c) == Intersection::Stone(
                                        if rset.contains(g) {
                                            opp(player)
                                        } else {
                                            col0
                                        },
                                        g as usize,
                                    )
                            } by {
                            }
                            assert forall|g: int| #![trigger live(pre.garena(), g)]
                                live(pre.garena(), g) && g != oldgid as int implies {
                                let ng = grp(wb.garena(), g);
                                let og = grp(pre.garena(), g);
                                &&& ng.stones_seq() == og.stones_seq()
                                &&& ng.wf()
                                &&& ng.libs_seq().len() >= 1
                                &&& ng.liberty_set() == (og.liberty_set() + (if touches(
                                    wb.grid(),
                                    pre.spec_size(),
                                    g as usize,
                                    (x, y),
                                ) {
                                    Set::<(usize, usize)>::empty().insert((x, y))
                                } else {
                                    Set::<(usize, usize)>::empty()
                                })).difference(
                                    Set::new(
                                        |c: (usize, usize)|
                                            rr.contains(c) && touches(
                                                wb.grid(),
                                                pre.spec_size(),
                                                g as usize,
                                                c,
                                            ),
                                    ),
                                )
                            } by {
                                assert(live(wb.garena(), g));
                            }
                            lemma_undo_assemble(
                                pre,
                                wb,
                                player,
                                x,
                                y,
                                oldgid,
                                rset,
                                sset,
                                rr,
                                oldcells_s,
                                col0,
                            );
                            // the record fits the position: every check the
                            // body makes is reflected in the pre-state
                            assert forall|k2: int, c: (usize, usize)|
                                0 <= k2 < rem.len() && (#[trigger] rem[k2].stone_set().contains(
                                    c,
                                )) implies in_extent(c, size) && cell(pre.grid(), c)
                                == Intersection::Empty by {
                                assert(rem.take(nrem as int)[k2] == rem[k2]);
                                assert(rem.take(nrem as int)[k2].stone_set().contains(c));
                                lemma_groups_union_contains(rem.take(nrem as int), c);
                                assert(groups_union(rem.take(nrem as int)).contains(c));
                                assert(rr.contains(c));
                            }
                            lemma_undo_fits_holds(
                                pre,
                                wb,
                                player,
                                x,
                                y,
                                oldgid,
                                col0,
                                rem,
                                rr,
                                sclean,
                                rset,
                                sset,
                                restored_gids@,
                            );
                        }

                        let ghost wfin = work;
                        let Board { stones: wstones, groups: wgroups, .. } = work;
                        self.stones = wstones;
                        self.groups = wgroups;
                        // the captured stones return: take them off the tally
                        let ghost wd1 = self.wd();
                        let ghost bd1 = self.bd();
                        let mut k7: usize = 0;
                        while k7 < nrem
                            invariant
                                nrem == rem.len(),
                                self.hist() == pre.hist(),
                                1 <= hlen,
                                hlen == pre.hist().len(),
                                rem == pre.hist().last().removed@,
                                k7 <= nrem,
                                self.wd() == if player is Black {
                                    sat_sub(wd1 as int, groups_total(rem.take(k7 as int)))
                                } else {
                                    wd1
                                },
                                self.bd() == if player is White {
                                    sat_sub(bd1 as int, groups_total(rem.take(k7 as int)))
                                } else {
                                    bd1
                                },
                                self.grid() == wfin.grid(),
                                self.garena() == wfin.garena(),
                                self.spec_size() == size,
                                self.ko() == pre.ko(),
                            decreases nrem - k7,
                        {
                            let n = self.history[hlen - 1].removed[k7].get_stones().len();
                            proof {
                                assert(rem.take(k7 + 1).drop_last() =~= rem.take(k7 as int));
                                assert(rem.take(k7 + 1).last() == rem[k7 as int]);
                                lemma_groups_total_nonneg(rem.take(k7 as int));
                            }
                            match player {
                                Colour::Black => {
                                    self.white_dead = self.white_dead.saturating_sub(n);
                                },
                                Colour::White => {
                                    self.black_dead = self.black_dead.saturating_sub(n);
                                },
                            }
                            k7 = k7 + 1;
                        }
                        proof {
                            assert(rem.take(nrem as int) =~= rem);
                        }
                        self.current_ko = (0, 0);
                        self.history.pop();
                        proof {
                            assert(self.hist() =~= pre.hist().drop_last());
                            assert(puts_in_extent(self.hist(), size)) by {
                                assert forall|j: int| 0 <= j < self.hist().len() implies
                                    put_move_ok(#[trigger] self.hist()[j], size) by {
                                    assert(self.hist()[j] == pre.hist()[j]);
                                    assert(put_move_ok(pre.hist()[j], size));
                                }
                            }
                            assert(geo_wf(self.grid(), self.garena(), size));
                            assert(self.wf());
                        }
                        self.recompute_ko();
                        proof {
                            assert(groups_union(rem) == rr);
                            assert(undo_post(pre, *final(self))) by {
                                assert(final(self).hist() == pre.hist().drop_last());
                                assert(cell(final(self).grid(), (x, y)) == Intersection::Empty);
                                assert(final(self).wf());
                                assert(final(self).ko_coherent());
                                assert(final(self).garena() == wfin.garena());
                                assert(sclean == grp(pre.garena(), oldgid as int).stone_set().remove(
                                    (x, y),
                                ));
                                assert(!live(final(self).garena(), oldgid as int)) by {
                                    if live(wfin.garena(), oldgid as int) {
                                        assert(rset.contains(oldgid as int) || sset.contains(
                                            oldgid as int,
                                        ));
                                        assert(!live(pre.garena(), oldgid as int));
                                    }
                                }
                            }
                        }
                        true
                    },
                }
            },
        }
    }

    /// Plays the given move. Returns false, with the board unchanged,
    /// when the point is occupied, when it is the active ko point, or
    /// when the stone would be left without a liberty and captures
    /// nothing (suicide). Otherwise it places the stone, captures every
    /// opposing neighbour group whose last liberty it took, merges with
    /// the neighbouring own-coloured groups (the larger group absorbs
    /// the smaller), updates the dead-stone counters, records the move,
    /// and re-evaluates the simple ko.
    #[verifier::rlimit(100)]
    #[verifier::spinoff_prover]
    pub fn play(&mut self, player: Colour, x: usize, y: usize) -> (r: bool)
        requires
            old(self).wf(),
            in_extent((x, y), old(self).spec_size()),
        ensures
            r == play_allowed(*old(self), player, x, y),
            !r ==> *final(self) == *old(self),
            r ==> play_post(*old(self), *final(self), player, x, y),
            final(self).wf(),
    {
        let ghost pre = *old(self);
        // A stone there already, or the ko point: rejected.
        match self.at(x, y) {
            Intersection::Stone(_, _) => {
                return false;
            },
            Intersection::Empty => {},
        }
        if x == self.current_ko.0 && y == self.current_ko.1 {
            return false;
        }
        let size = self.size;
        let glen = self.groups.len();
        let nbrs = neighbours(x, y, size);

        // Which opposing neighbour groups would this stone capture?
        let mut killgids: Vec<usize> = Vec::new();
        let mut i: usize = 0;
        while i < nbrs.len()
            invariant
                *self == pre,
                pre == *old(self),
                pre.wf(),
                in_extent((x, y), size),
                size == pre.spec_size(),
                glen == pre.garena().len(),
                i <= nbrs@.len(),
                nbrs@.no_duplicates(),
                forall|c: (usize, usize)| #![trigger nbrs@.contains(c)]
                    nbrs@.contains(c) <==> in_extent(c, size) && adjacent(c, (x, y)),
                killgids@.no_duplicates(),
                forall|k: int|
                    0 <= k < killgids@.len() ==> kill_gid(
                        pre,
                        player,
                        x,
                        y,
                        #[trigger] killgids@[k] as int,
                    ),
                forall|j: int|
                    0 <= j < i ==> {
                        let ce = cell(pre.grid(), #[trigger] nbrs@[j]);
                        (ce is Stone && cell_col(ce) == opp(player) && kill_gid(
                            pre,
                            player,
                            x,
                            y,
                            cell_gid(ce) as int,
                        )) ==> killgids@.contains(cell_gid(ce))
                    },
            decreases nbrs@.len() - i,
        {
            let (a, b) = nbrs[i];
            proof {
                assert((a, b) == nbrs@[i as int]);
                assert(nbrs@.contains((a, b)));
                assert(in_extent((a, b), size));
            }
            match self.at(a, b) {
                Intersection::Stone(col, g2) => {
                    if col != player {
                        proof {
                            assert(cell(pre.grid(), (a, b)) == Intersection::Stone(col, g2));
                            assert(live(pre.garena(), g2 as int));
                            assert(group_ok(
                                pre.grid(),
                                size,
                                g2,
                                grp(pre.garena(), g2 as int),
                            ));
                            assert(col == opp(player));
                        }
                        let lc = self.group_ref(g2).liberty_count();
                        if lc == 1 {
                            let l0 = self.group_ref(g2).get_liberties()[0];
                            proof {
                                assert(grp(pre.garena(), g2 as int).libs_seq().contains(l0));
                                assert(grp(pre.garena(), g2 as int).liberty_set().contains(l0));
                            }
                            if l0.0 == x && l0.1 == y {
                                proof {
                                    assert forall|l: (usize, usize)| #[trigger] grp(
                                        pre.garena(),
                                        g2 as int,
                                    ).liberty_set().contains(l) implies l == (x, y) by {
                                        let li = choose|li: int|
                                            0 <= li < grp(pre.garena(), g2 as int).libs_seq().len()
                                                && grp(pre.garena(), g2 as int).libs_seq()[li] == l;
                                        assert(li == 0);
                                    }
                                    assert(kill_gid(pre, player, x, y, g2 as int));
                                }
                                if !gids_contains(&killgids, g2) {
                                    killgids.push(g2);
                                }
                                proof {
                                    assert(killgids@.contains(g2));
                                }
                            } else {
                                proof {
                                    assert(l0 != (x, y));
                                    assert(!kill_gid(pre, player, x, y, g2 as int));
                                }
                            }
                        } else {
                            proof {
                                if kill_gid(pre, player, x, y, g2 as int) {
                                    let gl = grp(pre.garena(), g2 as int).libs_seq();
                                    assert(gl.len() >= 1);
                                    if gl.len() >= 2 {
                                        assert(grp(pre.garena(), g2 as int).liberty_set().contains(
                                            gl[0],
                                        ));
                                        assert(grp(pre.garena(), g2 as int).liberty_set().contains(
                                            gl[1],
                                        ));
                                        assert(gl[0] == (x, y) && gl[1] == (x, y));
                                        assert(false);
                                    }
                                    assert(false);
                                }
                            }
                        }
                    }
                },
                Intersection::Empty => {},
            }
            i = i + 1;
        }
        proof {
            assert forall|g: int| kill_gid(pre, player, x, y, g) implies 0 <= g < glen
                && killgids@.contains(g as usize) by {
                let cb = choose|cb: (usize, usize)|
                    adjacent(cb, (x, y)) && in_extent(cb, pre.spec_size()) && #[trigger] cell(
                        pre.grid(),
                        cb,
                    ) == Intersection::Stone(opp(player), g as usize);
                assert(nbrs@.contains(cb));
                let j = choose|j: int| 0 <= j < nbrs@.len() && nbrs@[j] == cb;
                assert(cell(pre.grid(), nbrs@[j]) == Intersection::Stone(opp(player), g as usize));
            }
            assert(forall|g: usize| #[trigger]
                killgids@.contains(g) ==> kill_gid(pre, player, x, y, g as int)) by {
                assert forall|g: usize| #[trigger] killgids@.contains(g) implies kill_gid(
                    pre,
                    player,
                    x,
                    y,
                    g as int,
                ) by {
                    let k = choose|k: int| 0 <= k < killgids@.len() && killgids@[k] == g;
                    assert(kill_gid(pre, player, x, y, killgids@[k] as int));
                }
            }
        }

        if killgids.len() == 0 {
            // Nothing is captured: the stone needs a liberty of its own.
            let mut alive = false;
            let mut i2: usize = 0;
            while i2 < nbrs.len()
                invariant
                    *self == pre,
                    pre == *old(self),
                    pre.wf(),
                    in_extent((x, y), size),
                    size == pre.spec_size(),
                    i2 <= nbrs@.len(),
                    forall|c: (usize, usize)| #![trigger nbrs@.contains(c)]
                        nbrs@.contains(c) <==> in_extent(c, size) && adjacent(c, (x, y)),
                    alive ==> placement_alive(pre, player, x, y),
                    !alive ==> forall|j: int|
                        0 <= j < i2 ==> {
                            let ce = cell(pre.grid(), #[trigger] nbrs@[j]);
                            ce != Intersection::Empty && ((ce is Stone && cell_col(ce) == player)
                                ==> grp(pre.garena(), cell_gid(ce) as int).libs_seq().len() <= 1)
                        },
                decreases nbrs@.len() - i2,
            {
                let (a, b) = nbrs[i2];
                proof {
                    assert((a, b) == nbrs@[i2 as int]);
                    assert(nbrs@.contains((a, b)));
                    assert(in_extent((a, b), size));
                }
                match self.at(a, b) {
                    Intersection::Empty => {
                        proof {
                            assert(cell(pre.grid(), (a, b)) == Intersection::Empty);
                            assert(placement_alive(pre, player, x, y));
                        }
                        alive = true;
                    },
                    Intersection::Stone(col, g2) => {
                        if col == player {
                            proof {
                                assert(cell(pre.grid(), (a, b)) == Intersection::Stone(col, g2));
                                assert(live(pre.garena(), g2 as int));
                                assert(group_ok(
                                    pre.grid(),
                                    size,
                                    g2,
                                    grp(pre.garena(), g2 as int),
                                ));
                            }
                            let lc = self.group_ref(g2).liberty_count();
                            if lc > 1 {
                                proof {
                                    assert(own_nbr(pre, player, x, y, g2 as int));
                                    assert(placement_alive(pre, player, x, y));
                                }
                                alive = true;
                            }
                        }
                    },
                }
                i2 = i2 + 1;
            }
            if !alive {
                proof {
                    assert(!has_kill(pre, player, x, y)) by {
                        if has_kill(pre, player, x, y) {
                            let g = choose|g: int| kill_gid(pre, player, x, y, g);
                            assert(killgids@.contains(g as usize));
                            assert(killgids@.len() > 0);
                        }
                    }
                    assert(!placement_alive(pre, player, x, y)) by {
                        if placement_alive(pre, player, x, y) {
                            if exists|cb: (usize, usize)|
                                adjacent(cb, (x, y)) && in_extent(cb, pre.spec_size())
                                    && #[trigger] cell(pre.grid(), cb) == Intersection::Empty {
                                let cb = choose|cb: (usize, usize)|
                                    adjacent(cb, (x, y)) && in_extent(cb, pre.spec_size())
                                        && #[trigger] cell(pre.grid(), cb) == Intersection::Empty;
                                assert(nbrs@.contains(cb));
                                let j = choose|j: int| 0 <= j < nbrs@.len() && nbrs@[j] == cb;
                                assert(cell(pre.grid(), nbrs@[j]) == Intersection::Empty);
                                assert(false);
                            } else {
                                let g = choose|g: int|
                                    #[trigger] own_nbr(pre, player, x, y, g) && live(
                                        pre.garena(),
                                        g,
                                    ) && grp(pre.garena(), g).libs_seq().len() > 1;
                                let cb = choose|cb: (usize, usize)|
                                    adjacent(cb, (x, y)) && in_extent(cb, pre.spec_size())
                                        && #[trigger] cell(pre.grid(), cb) == Intersection::Stone(
                                        player,
                                        g as usize,
                                    );
                                assert(nbrs@.contains(cb));
                                let j = choose|j: int| 0 <= j < nbrs@.len() && nbrs@[j] == cb;
                                assert(cell(pre.grid(), nbrs@[j]) == Intersection::Stone(
                                    player,
                                    g as usize,
                                ));
                                assert(false);
                            }
                        }
                    }
                }
                return false;
            }
        }
        proof {
            assert(play_allowed(pre, player, x, y)) by {
                if killgids@.len() > 0 {
                    assert(kill_gid(pre, player, x, y, killgids@[0] as int));
                    assert(has_kill(pre, player, x, y));
                }
            }
        }

        // The placed stone's identifier is allocated before any capture,
        // so a captured identifier is never taken over by this move.
        let gid_new = self.next_gid();
        proof {
            assert(!live(pre.garena(), gid_new as int));
        }

        // Remove each captured group from the table; its liberties are
        // gone (the point itself was the last one), and its cells are
        // remembered for vacating and for the history record.
        let ghost arena0 = pre.garena();
        let mut killed: Vec<Group> = Vec::new();
        let mut vac_cells: Vec<(usize, usize)> = Vec::new();
        let ghost mut kp: Set<int> = Set::empty();
        let mut k: usize = 0;
        while k < killgids.len()
            invariant
                pre == *old(self),
                pre.wf(),
                in_extent((x, y), size),
                size == pre.spec_size(),
                glen == pre.garena().len(),
                arena0 == pre.garena(),
                cell(pre.grid(), (x, y)) == Intersection::Empty,
                k <= killgids@.len(),
                killgids@.no_duplicates(),
                forall|j: int|
                    0 <= j < killgids@.len() ==> kill_gid(
                        pre,
                        player,
                        x,
                        y,
                        #[trigger] killgids@[j] as int,
                    ),
                forall|g: int| kp.contains(g) ==> exists|j: int|
                    0 <= j < k && killgids@[j] as int == g,
                forall|j: int| 0 <= j < k ==> kp.contains(#[trigger] killgids@[j] as int),
                self.grid() == pre.grid(),
                self.hist() == pre.hist(),
                self.spec_size() == size,
                self.wd() == pre.wd(),
                self.bd() == pre.bd(),
                self.ko() == pre.ko(),
                self.garena().len() == glen,
                forall|g: int| live(self.garena(), g) <==> (live(arena0, g) && !kp.contains(g)),
                forall|g: int|
                    live(self.garena(), g) ==> grp(self.garena(), g) == grp(arena0, g),
                killed@.len() == k,
                forall|j: int|
                    0 <= j < k ==> {
                        let kg = #[trigger] killed@[j];
                        &&& kg.wf()
                        &&& kg.stones_seq() == grp(arena0, killgids@[j] as int).stones_seq()
                        &&& kg.stone_set() == grp(arena0, killgids@[j] as int).stone_set()
                        &&& kg.liberty_set() == Set::<(usize, usize)>::empty()
                        &&& kg.stones_seq().len() >= 1
                    },
                vac_cells@.no_duplicates(),
                vac_cells@.to_set() == groups_union(killed@),
                forall|j: int|
                    0 <= j < vac_cells@.len() ==> in_extent(#[trigger] vac_cells@[j], size)
                        && cell(pre.grid(), vac_cells@[j]) is Stone && kp.contains(
                        cell_gid(cell(pre.grid(), vac_cells@[j])) as int,
                    ),
            decreases killgids@.len() - k,
        {
            let g2 = killgids[k];
            proof {
                assert(g2 == killgids@[k as int]);
                assert(kill_gid(pre, player, x, y, g2 as int));
                if kp.contains(g2 as int) {
                    let j = choose|j: int| 0 <= j < k && killgids@[j] as int == g2 as int;
                    assert(killgids@[j] == killgids@[k as int]);
                    assert(false);
                }
                assert(live(self.garena(), g2 as int));
                assert(group_ok(pre.grid(), size, g2, grp(arena0, g2 as int)));
            }
            let mut dead = self.take_group(g2);
            dead.remove_liberty(x, y);
            proof {
                assert(dead.liberty_set() =~= Set::<(usize, usize)>::empty());
            }
            let ghost old_vc = vac_cells@;
            let ghost old_killed = killed@;
            append_coords(&mut vac_cells, dead.get_stones());
            proof {
                assert(dead.stone_set() =~= grp(arena0, g2 as int).stone_set());
            }
            killed.push(dead);
            proof {
                assert(killed@.drop_last() =~= old_killed);
                assert(groups_union(killed@) == groups_union(old_killed) + killed@.last().stone_set());
                vstd::seq_lib::seq_to_set_distributes_over_add(
                    old_vc,
                    grp(arena0, g2 as int).stones_seq(),
                );
                assert(vac_cells@.to_set() =~= groups_union(killed@));
                // the appended cells are stones of the captured group
                assert forall|j: int|
                    0 <= j < vac_cells@.len() implies in_extent(#[trigger] vac_cells@[j], size)
                    && cell(pre.grid(), vac_cells@[j]) is Stone && (kp.insert(g2 as int)).contains(
                    cell_gid(cell(pre.grid(), vac_cells@[j])) as int,
                ) by {
                    if j >= old_vc.len() {
                        let c = vac_cells@[j];
                        assert(grp(arena0, g2 as int).stones_seq().contains(c));
                        assert(grp(arena0, g2 as int).stone_set().contains(c));
                        assert(cell(pre.grid(), c) == Intersection::Stone(
                            gcol(pre.grid(), grp(arena0, g2 as int)),
                            g2,
                        ));
                    } else {
                        assert(vac_cells@[j] == old_vc[j]);
                    }
                }
                // no duplicates: cells of distinct captured groups differ
                assert forall|i1: int, i2: int|
                    0 <= i1 < i2 < vac_cells@.len() implies vac_cells@[i1] != vac_cells@[i2] by {
                    if i1 < old_vc.len() && i2 >= old_vc.len() {
                        let c1 = vac_cells@[i1];
                        let c2 = vac_cells@[i2];
                        if c1 == c2 {
                            assert(kp.contains(cell_gid(cell(pre.grid(), c1)) as int));
                            assert(grp(arena0, g2 as int).stones_seq().contains(c2));
                            assert(grp(arena0, g2 as int).stone_set().contains(c2));
                            assert(cell(pre.grid(), c2) == Intersection::Stone(
                                gcol(pre.grid(), grp(arena0, g2 as int)),
                                g2,
                            ));
                            assert(false);
                        }
                    } else if i1 >= old_vc.len() {
                        assert(grp(arena0, g2 as int).stones_seq()[i1 - old_vc.len()] != grp(
                            arena0,
                            g2 as int,
                        ).stones_seq()[i2 - old_vc.len()]);
                    }
                }
                kp = kp.insert(g2 as int);
            }
            k = k + 1;
        }
        proof {
            // the processed set is exactly the captured set
            assert forall|g: int| kp.contains(g) <==> kill_gid(pre, player, x, y, g) by {
                if kp.contains(g) {
                    let j = choose|j: int|
                        0 <= j < killgids@.len() && killgids@[j] as int == g;
                    assert(kill_gid(pre, player, x, y, killgids@[j] as int));
                }
                if kill_gid(pre, player, x, y, g) {
                    assert(killgids@.contains(g as usize));
                    let j = choose|j: int| 0 <= j < killgids@.len() && killgids@[j] == g as usize;
                    assert(kp.contains(killgids@[j] as int));
                }
            }
            // the cells to vacate are exactly the vacated set
            assert(vac_cells@.to_set() =~= vacated(pre, player, x, y)) by {
                assert forall|c: (usize, usize)|
                    vac_cells@.to_set().contains(c) implies vacated(pre, player, x, y).contains(
                    c,
                ) by {
                    lemma_groups_union_contains(killed@, c);
                    let j = choose|j: int|
                        0 <= j < killed@.len() && (#[trigger] killed@[j]).stone_set().contains(c);
                    assert(kill_gid(pre, player, x, y, killgids@[j] as int));
                    assert(grp(arena0, killgids@[j] as int).stone_set().contains(c));
                }
                assert forall|c: (usize, usize)|
                    vacated(pre, player, x, y).contains(c) implies vac_cells@.to_set().contains(
                    c,
                ) by {
                    let g = choose|g: int|
                        #[trigger] kill_gid(pre, player, x, y, g) && grp(
                            pre.garena(),
                            g,
                        ).stone_set().contains(c);
                    assert(killgids@.contains(g as usize));
                    let j = choose|j: int| 0 <= j < killgids@.len() && killgids@[j] == g as usize;
                    assert(killed@[j].stone_set().contains(c));
                    lemma_groups_union_contains(killed@, c);
                }
            }
        }
        let ghost vset = vac_cells@.to_set();

        // The placed stone stops being a liberty of the surviving
        // opposing neighbour groups.
        let ghost arena_c1 = self.garena();
        let ghost mut pset: Set<int> = Set::empty();
        proof {
            assert forall|g: int| live(self.garena(), g) implies grp(self.garena(), g).wf() by {
                assert(live(arena0, g));
                assert(live(pre.garena(), g));
                assert(group_ok(pre.grid(), size, g as usize, grp(pre.garena(), g)));
            }
        }
        let mut i3: usize = 0;
        while i3 < nbrs.len()
            invariant
                pre == *old(self),
                pre.wf(),
                in_extent((x, y), size),
                size == pre.spec_size(),
                glen == pre.garena().len(),
                arena0 == pre.garena(),
                i3 <= nbrs@.len(),
                forall|c: (usize, usize)| #![trigger nbrs@.contains(c)]
                    nbrs@.contains(c) <==> in_extent(c, size) && adjacent(c, (x, y)),
                forall|g: int| kp.contains(g) <==> kill_gid(pre, player, x, y, g),
                forall|g: int| live(arena_c1, g) <==> (live(arena0, g) && !kp.contains(g)),
                forall|g: int| live(arena_c1, g) ==> grp(arena_c1, g) == grp(arena0, g),
                self.grid() == pre.grid(),
                self.hist() == pre.hist(),
                self.spec_size() == size,
                self.wd() == pre.wd(),
                self.bd() == pre.bd(),
                self.ko() == pre.ko(),
                self.garena().len() == glen,
                forall|g: int| live(self.garena(), g) <==> live(arena_c1, g),
                forall|g: int| pset.contains(g) ==> live(self.garena(), g) && opposing_nbr(
                    pre,
                    player,
                    x,
                    y,
                    g,
                ),
                forall|g: int| #[trigger]
                    live(self.garena(), g) ==> {
                        let og = grp(arena0, g);
                        let ng = grp(self.garena(), g);
                        &&& ng.stones_seq() == og.stones_seq()
                        &&& ng.wf()
                        &&& ng.liberty_set() == if pset.contains(g) {
                            og.liberty_set().remove((x, y))
                        } else {
                            og.liberty_set()
                        }
                    },
                forall|j: int|
                    0 <= j < i3 ==> {
                        let ce = cell(pre.grid(), #[trigger] nbrs@[j]);
                        (ce is Stone && cell_col(ce) == opp(player) && live(
                            self.garena(),
                            cell_gid(ce) as int,
                        )) ==> pset.contains(cell_gid(ce) as int)
                    },
            decreases nbrs@.len() - i3,
        {
            let (a, b) = nbrs[i3];
            proof {
                assert((a, b) == nbrs@[i3 as int]);
                assert(nbrs@.contains((a, b)));
                assert(in_extent((a, b), size));
            }
            match self.at(a, b) {
                Intersection::Stone(col, g2) => {
                    if col != player {
                        let is_live = g2 < self.groups.len() && self.groups[g2].is_some();
                        if is_live {
                            proof {
                                assert(live(self.garena(), g2 as int));
                                assert(grp(self.garena(), g2 as int).wf());
                                assert(col == opp(player));
                            }
                            let mut g = self.group_ref(g2).duplicate();
                            g.remove_liberty(x, y);
                            self.update_group(g2, g);
                            proof {
                                if pset.contains(g2 as int) {
                                    assert(grp(self.garena(), g2 as int).liberty_set() =~= grp(
                                        arena0,
                                        g2 as int,
                                    ).liberty_set().remove((x, y)));
                                }
                                assert(cell(pre.grid(), (a, b)) == Intersection::Stone(col, g2));
                                assert(opposing_nbr(pre, player, x, y, g2 as int));
                                pset = pset.insert(g2 as int);
                            }
                        }
                    }
                },
                Intersection::Empty => {},
            }
            i3 = i3 + 1;
        }
        proof {
            // each surviving group now carries its adjusted liberty set
            assert forall|g: int| #[trigger] live(self.garena(), g) implies grp(
                self.garena(),
                g,
            ).liberty_set() == c2_libs(pre, player, x, y, g) by {
                if opposing_nbr(pre, player, x, y, g) && !pset.contains(g) {
                    let cb = choose|cb: (usize, usize)|
                        adjacent(cb, (x, y)) && in_extent(cb, pre.spec_size()) && #[trigger] cell(
                            pre.grid(),
                            cb,
                        ) == Intersection::Stone(opp(player), g as usize);
                    assert(nbrs@.contains(cb));
                    let j = choose|j: int| 0 <= j < nbrs@.len() && nbrs@[j] == cb;
                    assert(0 <= g < glen);
                    assert(cell_gid(cell(pre.grid(), nbrs@[j])) as int == g);
                    assert(false);
                }
                if !opposing_nbr(pre, player, x, y, g) && pset.contains(g) {
                    assert(false);
                }
                if !opposing_nbr(pre, player, x, y, g) {
                    assert(grp(self.garena(), g).liberty_set() == grp(arena0, g).liberty_set());
                    assert(grp(arena0, g).liberty_set() == grp(pre.garena(), g).liberty_set());
                }
            }
        }

        // Vacate the captured cells; each becomes a liberty of every
        // surviving group beside it.
        proof {
            assert forall|j: int|
                0 <= j < vac_cells@.len() implies cell(self.grid(), #[trigger] vac_cells@[j])
                is Stone && !live(self.garena(), cell_gid(cell(self.grid(), vac_cells@[j])) as int) by {
                assert(kp.contains(cell_gid(cell(pre.grid(), vac_cells@[j])) as int));
            }
        }
        let ghost arena_c2 = self.garena();
        self.vacate_cells(&vac_cells);
        let ghost vcs = vac_cells@;
        proof {
            assert forall|g: int| #[trigger] live(self.garena(), g) implies {
                &&& live(pre.garena(), g) && !kp.contains(g)
                &&& grp(self.garena(), g).stones_seq() == grp(pre.garena(), g).stones_seq()
                &&& grp(self.garena(), g).wf()
                &&& grp(self.garena(), g).liberty_set() == c3_libs(pre, player, x, y, vcs, g)
            } by {
                assert(live(arena_c2, g));
                assert(grp(arena_c2, g).liberty_set() == c2_libs(pre, player, x, y, g));
                assert(grp(self.garena(), g).liberty_set() =~= c3_libs(pre, player, x, y, vcs, g));
            }
        }

        // Place the stone: a fresh group owning the point, with the
        // empty neighbours as its liberties.
        proof {
            assert(!live(self.garena(), gid_new as int));
            assert(self.garena().len() == glen);
            assert(gid_new < glen ==> self.garena()[gid_new as int] is None);
        }
        let mut gnew = Group::new();
        gnew.add_stone(x, y);
        let ghost grid_c3 = self.grid();
        let ghost arena_c3 = self.garena();
        let mut i4: usize = 0;
        while i4 < nbrs.len()
            invariant
                i4 <= nbrs@.len(),
                forall|c: (usize, usize)| #![trigger nbrs@.contains(c)]
                    nbrs@.contains(c) <==> in_extent(c, size) && adjacent(c, (x, y)),
                1 <= size <= MAX_SIZE,
                in_extent((x, y), size),
                grid_c3 == self.grid(),
                self.grid().len() == 625,
                gnew.wf(),
                gnew.stones_seq() == Seq::<(usize, usize)>::empty().push((x, y)),
                gnew.stone_set() == Set::<(usize, usize)>::empty().insert((x, y)),
                forall|c: (usize, usize)| #[trigger]
                    gnew.liberty_set().contains(c) ==> adjacent(c, (x, y)) && in_extent(c, size)
                        && cell(grid_c3, c) == Intersection::Empty,
                forall|j: int|
                    0 <= j < i4 && cell(grid_c3, #[trigger] nbrs@[j]) == Intersection::Empty
                        ==> gnew.liberty_set().contains(nbrs@[j]),
            decreases nbrs@.len() - i4,
        {
            let (a, b) = nbrs[i4];
            proof {
                assert((a, b) == nbrs@[i4 as int]);
                assert(nbrs@.contains((a, b)));
                assert(in_extent((a, b), size));
            }
            match self.at(a, b) {
                Intersection::Empty => {
                    gnew.add_liberty(a, b);
                },
                Intersection::Stone(_, _) => {},
            }
            i4 = i4 + 1;
        }
        let ghost sown0 = Set::<(usize, usize)>::empty().insert((x, y));
        proof {
            assert(own_stones(pre, x, y, Set::empty()) =~= sown0);
        }
        self.insert_group(gid_new, gnew);
        self.set_at(x, y, Intersection::Stone(player, gid_new));
        let ghost grid_c4 = self.grid();
        let ghost arena_c4 = self.garena();
        proof {
            // statuses: the captured cells became empty, the point became
            // occupied, everything else kept its status
            assert forall|c: (usize, usize)| in_extent(c, MAX_SIZE) implies ((#[trigger] cell(
                grid_c4,
                c,
            ) == Intersection::Empty) <==> ((vset.contains(c) || cell(pre.grid(), c)
                == Intersection::Empty) && c != (x, y))) by {
                lemma_idx_bounds(c);
                lemma_idx_bounds((x, y));
                if c != (x, y) {
                    if idx(c) == idx((x, y)) {
                        lemma_idx_injective(c, (x, y));
                    }
                    assert(cell(grid_c4, c) == cell(grid_c3, c));
                    if vset.contains(c) {
                        assert(vcs.contains(c));
                        assert(cell(grid_c3, c) == Intersection::Empty);
                    } else {
                        assert(!vcs.contains(c));
                        assert(cell(grid_c3, c) == cell(pre.grid(), c));
                    }
                } else {
                    assert(cell(grid_c4, c) == Intersection::Stone(player, gid_new));
                }
            }
            // the new group's liberties are exactly the empty points
            // around the placed stone
            assert(grp(arena_c4, gid_new as int).liberty_set() =~= exact_libs(
                sown0,
                grid_c4,
                size,
            )) by {
                assert forall|c: (usize, usize)|
                    grp(arena_c4, gid_new as int).liberty_set().contains(c) implies exact_libs(
                    sown0,
                    grid_c4,
                    size,
                ).contains(c) by {
                    assert(adjacent(c, (x, y)) && in_extent(c, size) && cell(grid_c3, c)
                        == Intersection::Empty);
                    assert(c != (x, y));
                    lemma_idx_bounds(c);
                    lemma_idx_bounds((x, y));
                    if idx(c) == idx((x, y)) {
                        lemma_idx_injective(c, (x, y));
                    }
                    assert(cell(grid_c4, c) == Intersection::Empty);
                    assert(sown0.contains((x, y)) && adjacent((x, y), c));
                }
                assert forall|c: (usize, usize)|
                    exact_libs(sown0, grid_c4, size).contains(c) implies grp(
                    arena_c4,
                    gid_new as int,
                ).liberty_set().contains(c) by {
                    assert(nbrs@.contains(c));
                    let j = choose|j: int| 0 <= j < nbrs@.len() && nbrs@[j] == c;
                    assert(c != (x, y));
                    lemma_idx_bounds(c);
                    lemma_idx_bounds((x, y));
                    if idx(c) == idx((x, y)) {
                        lemma_idx_injective(c, (x, y));
                    }
                    assert(cell(grid_c3, c) == cell(grid_c4, c));
                    assert(cell(grid_c3, nbrs@[j]) == Intersection::Empty);
                }
            }
        }

        // Merge with the own-coloured neighbour groups; the larger group
        // absorbs the smaller.
        let ghost mut own: int = gid_new as int;
        let ghost mut mown: Set<int> = Set::empty();
        proof {
            assert(grp(self.garena(), own).stone_set() =~= own_stones(pre, x, y, mown));
            assert(grp(self.garena(), own).liberty_set() =~= exact_libs(
                own_stones(pre, x, y, mown),
                grid_c4,
                size,
            ));
            assert forall|c: (usize, usize)| in_extent(c, MAX_SIZE) implies #[trigger] cell(
                self.grid(),
                c,
            ) == (if own_stones(pre, x, y, mown).contains(c) {
                Intersection::Stone(player, own as usize)
            } else if vset.contains(c) {
                Intersection::Empty
            } else {
                cell(pre.grid(), c)
            }) by {
                lemma_idx_bounds(c);
                lemma_idx_bounds((x, y));
                if c != (x, y) {
                    if idx(c) == idx((x, y)) {
                        lemma_idx_injective(c, (x, y));
                    }
                    assert(cell(grid_c4, c) == cell(grid_c3, c));
                    if vset.contains(c) {
                        assert(vcs.contains(c));
                    } else {
                        assert(!vcs.contains(c));
                    }
                }
            }
        }
        proof {
            assert forall|g: int|
                live(self.garena(), g) <==> (g == own || (live(pre.garena(), g) && !kp.contains(
                    g,
                ) && !mown.contains(g))) by {
                assert(live(self.garena(), g) <==> (live(arena_c3, g) || g == gid_new as int));
                if live(arena_c3, g) {
                    assert(live(pre.garena(), g) && !kp.contains(g));
                }
                if live(pre.garena(), g) && !kp.contains(g) {
                    assert(live(arena_c2, g));
                    assert(live(arena_c3, g));
                }
            }
        }
        let mut i5: usize = 0;
        while i5 < nbrs.len()
            invariant
                pre == *old(self),
                pre.wf(),
                arena0 == pre.garena(),
                in_extent((x, y), size),
                size == pre.spec_size(),
                glen == pre.garena().len(),
                cell(pre.grid(), (x, y)) == Intersection::Empty,
                i5 <= nbrs@.len(),
                forall|c: (usize, usize)| #![trigger nbrs@.contains(c)]
                    nbrs@.contains(c) <==> in_extent(c, size) && adjacent(c, (x, y)),
                forall|g: int| kp.contains(g) <==> kill_gid(pre, player, x, y, g),
                vset == vacated(pre, player, x, y),
                vset == vcs.to_set(),
                forall|c: (usize, usize)| #[trigger]
                    vcs.contains(c) ==> in_extent(c, size) && cell(pre.grid(), c) is Stone,
                forall|c: (usize, usize)| in_extent(c, MAX_SIZE) ==> ((#[trigger] cell(
                    grid_c4,
                    c,
                ) == Intersection::Empty) <==> ((vset.contains(c) || cell(pre.grid(), c)
                    == Intersection::Empty) && c != (x, y))),
                !live(pre.garena(), gid_new as int),
                sown0 == Set::<(usize, usize)>::empty().insert((x, y)),
                self.hist() == pre.hist(),
                self.spec_size() == size,
                self.wd() == pre.wd(),
                self.bd() == pre.bd(),
                self.ko() == pre.ko(),
                self.grid().len() == 625,
                0 <= own <= glen,
                live(self.garena(), own),
                own == gid_new as int || mown.contains(own),
                grp(self.garena(), own).wf(),
                grp(self.garena(), own).stone_set() == own_stones(pre, x, y, mown),
                grp(self.garena(), own).stones_seq().len() >= 1,
                grp(self.garena(), own).liberty_set() == exact_libs(
                    own_stones(pre, x, y, mown),
                    grid_c4,
                    size,
                ),
                forall|g: int| #[trigger]
                    mown.contains(g) ==> live(pre.garena(), g) && own_nbr(pre, player, x, y, g)
                        && !kp.contains(g) && 0 <= g <= glen,
                forall|g: int| #![trigger live(self.garena(), g)]
                    live(self.garena(), g) <==> (g == own || (live(pre.garena(), g)
                        && !kp.contains(g) && !mown.contains(g))),
                forall|g: int|
                    live(self.garena(), g) && g != own ==> grp(self.garena(), g) == grp(
                        arena_c3,
                        g,
                    ) && live(arena_c3, g),
                forall|g: int| #[trigger]
                    live(arena_c3, g) ==> live(pre.garena(), g) && !kp.contains(g) && grp(
                        arena_c3,
                        g,
                    ).stones_seq() == grp(pre.garena(), g).stones_seq() && grp(arena_c3, g).wf()
                        && grp(arena_c3, g).liberty_set() == c3_libs(pre, player, x, y, vcs, g),
                forall|c: (usize, usize)| in_extent(c, MAX_SIZE) ==> #[trigger] cell(
                    self.grid(),
                    c,
                ) == (if own_stones(pre, x, y, mown).contains(c) {
                    Intersection::Stone(player, own as usize)
                } else if vset.contains(c) {
                    Intersection::Empty
                } else {
                    cell(pre.grid(), c)
                }),
                forall|j: int|
                    0 <= j < i5 ==> {
                        let ce = cell(self.grid(), #[trigger] nbrs@[j]);
                        (ce is Stone && cell_col(ce) == player) ==> cell_gid(ce) as int == own
                    },
            decreases nbrs@.len() - i5,
        {
            let (a, b) = nbrs[i5];
            proof {
                assert((a, b) == nbrs@[i5 as int]);
                assert(nbrs@.contains((a, b)));
                assert(in_extent((a, b), size));
            }
            let ce = self.at(a, b);
            match ce {
                Intersection::Stone(col, g2) => {
                    if col == player {
                        let ghost sa = own_stones(pre, x, y, mown);
                        let ghost s2 = grp(pre.garena(), g2 as int).stone_set();
                        proof {
                            // the neighbour's group is live: either it is the
                            // growing group itself, or an untouched group
                            if !sa.contains((a, b)) {
                                assert(!vset.contains((a, b)));
                                assert(cell(pre.grid(), (a, b)) == Intersection::Stone(col, g2));
                                assert(live(pre.garena(), g2 as int));
                                assert(group_ok(
                                    pre.grid(),
                                    size,
                                    g2,
                                    grp(pre.garena(), g2 as int),
                                ));
                                assert(grp(pre.garena(), g2 as int).stone_set().contains((a, b)));
                                assert(gcol(pre.grid(), grp(pre.garena(), g2 as int)) == player);
                                // not a captured group: its colour is the player's
                                if kp.contains(g2 as int) {
                                    let cb = choose|cb: (usize, usize)|
                                        adjacent(cb, (x, y)) && in_extent(cb, pre.spec_size())
                                            && #[trigger] cell(pre.grid(), cb)
                                            == Intersection::Stone(opp(player), g2 as usize);
                                    assert(grp(pre.garena(), g2 as int).stone_set().contains(cb));
                                    assert(false);
                                }
                                // not yet absorbed
                                if mown.contains(g2 as int) {
                                    assert(own_stones(pre, x, y, mown).contains((a, b)));
                                    assert(false);
                                }
                                assert(live(self.garena(), g2 as int));
                                assert(own_nbr(pre, player, x, y, g2 as int));
                            } else {
                                assert(cell(self.grid(), (a, b)) == Intersection::Stone(
                                    player,
                                    own as usize,
                                ));
                                assert(g2 as int == own);
                            }
                            assert(live(self.garena(), g2 as int));
                            // facts the merge needs about both groups
                            assert(cell(self.grid(), (x, y)) == Intersection::Stone(
                                player,
                                own as usize,
                            )) by {
                                assert(own_stones(pre, x, y, mown).contains((x, y)));
                            }
                            assert(grp(self.garena(), own).stone_set().contains((x, y)));
                            assert(stones_on_grid(
                                self.grid(),
                                size,
                                own as usize,
                                grp(self.garena(), own),
                            )) by {
                                assert forall|c: (usize, usize)| #[trigger] grp(
                                    self.garena(),
                                    own,
                                ).stone_set().contains(c) implies in_extent(c, size) && cell(
                                    self.grid(),
                                    c,
                                ) == Intersection::Stone(
                                    gcol(self.grid(), grp(self.garena(), own)),
                                    own as usize,
                                ) by {
                                    assert(own_stones(pre, x, y, mown).contains(c));
                                    if c != (x, y) {
                                        let g = choose|g: int| #[trigger] mown.contains(g) && grp(
                                            pre.garena(),
                                            g,
                                        ).stone_set().contains(c);
                                        assert(group_ok(
                                            pre.grid(),
                                            size,
                                            g as usize,
                                            grp(pre.garena(), g),
                                        ));
                                        assert(in_extent(c, size));
                                    }
                                    assert(cell(self.grid(), c) == Intersection::Stone(
                                        player,
                                        own as usize,
                                    ));
                                    let c0 = grp(self.garena(), own).stones_seq()[0];
                                    assert(grp(self.garena(), own).stones_seq().contains(c0));
                                    assert(grp(self.garena(), own).stone_set().contains(c0));
                                    assert(own_stones(pre, x, y, mown).contains(c0));
                                    assert(cell(self.grid(), c0) == Intersection::Stone(
                                        player,
                                        own as usize,
                                    ));
                                    assert(gcol(self.grid(), grp(self.garena(), own)) == player);
                                }
                            }
                            if g2 as int != own {
                                assert(grp(self.garena(), g2 as int) == grp(arena_c3, g2 as int));
                                assert(grp(self.garena(), g2 as int).stones_seq() == grp(
                                    pre.garena(),
                                    g2 as int,
                                ).stones_seq());
                                assert(grp(self.garena(), g2 as int).stone_set() =~= s2);
                                assert(group_ok(
                                    pre.grid(),
                                    size,
                                    g2,
                                    grp(pre.garena(), g2 as int),
                                ));
                                assert(grp(self.garena(), g2 as int).stones_seq().len() >= 1);
                                // the untouched group still sits on the grid
                                assert(stones_on_grid(
                                    self.grid(),
                                    size,
                                    g2,
                                    grp(self.garena(), g2 as int),
                                )) by {
                                    assert forall|c: (usize, usize)| #[trigger] grp(
                                        self.garena(),
                                        g2 as int,
                                    ).stone_set().contains(c) implies in_extent(c, size) && cell(
                                        self.grid(),
                                        c,
                                    ) == Intersection::Stone(
                                        gcol(self.grid(), grp(self.garena(), g2 as int)),
                                        g2,
                                    ) by {
                                        assert(s2.contains(c));
                                        assert(cell(pre.grid(), c) == Intersection::Stone(
                                            gcol(pre.grid(), grp(pre.garena(), g2 as int)),
                                            g2,
                                        ));
                                        // the cell is untouched on the current grid
                                        if own_stones(pre, x, y, mown).contains(c) {
                                            if c == (x, y) {
                                                assert(false);
                                            } else {
                                                let g = choose|g: int|
                                                    #[trigger] mown.contains(g) && grp(
                                                        pre.garena(),
                                                        g,
                                                    ).stone_set().contains(c);
                                                if g != g2 as int {
                                                    lemma_distinct_groups_disjoint(
                                                        pre.grid(),
                                                        pre.garena(),
                                                        size,
                                                        g,
                                                        g2 as int,
                                                    );
                                                }
                                                assert(false);
                                            }
                                        }
                                        if vset.contains(c) {
                                            let gk = choose|gk: int|
                                                #[trigger] kill_gid(pre, player, x, y, gk) && grp(
                                                    pre.garena(),
                                                    gk,
                                                ).stone_set().contains(c);
                                            if gk != g2 as int {
                                                lemma_distinct_groups_disjoint(
                                                    pre.grid(),
                                                    pre.garena(),
                                                    size,
                                                    gk,
                                                    g2 as int,
                                                );
                                            }
                                            assert(false);
                                        }
                                        assert(cell(self.grid(), c) == cell(pre.grid(), c));
                                        let c0 = grp(self.garena(), g2 as int).stones_seq()[0];
                                        assert(grp(self.garena(), g2 as int).stones_seq().contains(
                                            c0,
                                        ));
                                        assert(grp(self.garena(), g2 as int).stone_set().contains(
                                            c0,
                                        ));
                                        assert(cell(self.grid(), c0) == cell(pre.grid(), c0));
                                        assert(gcol(self.grid(), grp(self.garena(), g2 as int))
                                            == gcol(pre.grid(), grp(pre.garena(), g2 as int)));
                                    }
                                }
                            }
                        }
                        let ghost bf = *self;
                        self.fuse_groups(x, y, a, b);
                        proof {
                            assert(fuse_post(bf, *self, (x, y), (a, b)));
                            assert(cell_gid(cell(bf.grid(), (x, y))) as int == own) by {
                                assert(own_stones(pre, x, y, mown).contains((x, y)));
                            }
                            if g2 as int == own {
                                assert(*self == bf);
                                assert(cell(self.grid(), nbrs@[i5 as int]) is Stone);
                            } else {
                                let ga = own;
                                let gb = g2 as int;
                                let keep: int = if grp(bf.garena(), ga).stones_seq().len() > grp(
                                    bf.garena(),
                                    gb,
                                ).stones_seq().len() {
                                    ga
                                } else {
                                    gb
                                };
                                let del: int = if keep == ga {
                                    gb
                                } else {
                                    ga
                                };
                                let old_mown = mown;
                                let old_own = own;
                                mown = mown.insert(g2 as int);
                                own = keep;
                                let sown_new = own_stones(pre, x, y, mown);
                                // the merged stone set
                                assert(sown_new =~= sa + s2) by {
                                    assert forall|c: (usize, usize)|
                                        sown_new.contains(c) implies (sa + s2).contains(c) by {
                                        if c != (x, y) {
                                            let g = choose|g: int|
                                                #[trigger] mown.contains(g) && grp(
                                                    pre.garena(),
                                                    g,
                                                ).stone_set().contains(c);
                                            if g == g2 as int {
                                                assert(s2.contains(c));
                                            } else {
                                                assert(old_mown.contains(g));
                                                assert(sa.contains(c));
                                            }
                                        }
                                    }
                                    assert forall|c: (usize, usize)|
                                        (sa + s2).contains(c) implies sown_new.contains(c) by {
                                        if sa.contains(c) && c != (x, y) {
                                            let g = choose|g: int|
                                                #[trigger] old_mown.contains(g) && grp(
                                                    pre.garena(),
                                                    g,
                                                ).stone_set().contains(c);
                                            assert(mown.contains(g));
                                        }
                                        if s2.contains(c) {
                                            assert(mown.contains(g2 as int));
                                        }
                                    }
                                }
                                assert(grp(self.garena(), keep).stone_set() == sa + s2);
                                // the merged liberty set is exact
                                let l2 = grp(bf.garena(), gb).liberty_set();
                                assert(l2 == c3_libs(pre, player, x, y, vcs, gb));
                                assert(!opposing_nbr(pre, player, x, y, gb)) by {
                                    if opposing_nbr(pre, player, x, y, gb) {
                                        let cb = choose|cb: (usize, usize)|
                                            adjacent(cb, (x, y)) && in_extent(cb, pre.spec_size())
                                                && #[trigger] cell(pre.grid(), cb)
                                                == Intersection::Stone(opp(player), g2);
                                        assert(grp(pre.garena(), gb).stone_set().contains(cb));
                                        assert(cell(pre.grid(), cb) == Intersection::Stone(
                                            gcol(pre.grid(), grp(pre.garena(), gb)),
                                            g2,
                                        ));
                                        assert(false);
                                    }
                                }
                                assert(c2_libs(pre, player, x, y, gb) == grp(
                                    pre.garena(),
                                    gb,
                                ).liberty_set());
                                assert(grp(pre.garena(), gb).liberty_set() == exact_libs(
                                    s2,
                                    pre.grid(),
                                    size,
                                ));
                                lemma_exact_shift(pre.grid(), grid_c4, size, s2, vset, (x, y));
                                // the gained liberties are the vacated points
                                // beside the group
                                assert(Set::new(
                                    |c: (usize, usize)|
                                        vcs.contains(c) && touches(pre.grid(), size, g2, c),
                                ) =~= vset.intersect(adj_zone(s2, size))) by {
                                    assert forall|c: (usize, usize)|
                                        vcs.contains(c) && touches(pre.grid(), size, g2, c)
                                        implies vset.contains(c) && adj_zone(s2, size).contains(
                                        c,
                                    ) by {
                                        let cb = choose|cb: (usize, usize)|
                                            adjacent(cb, c) && in_extent(cb, size)
                                                && #[trigger] is_stone_of(
                                                cell(pre.grid(), cb),
                                                g2,
                                            );
                                        assert(cell(pre.grid(), cb) is Stone);
                                        assert(cell_gid(cell(pre.grid(), cb)) == g2);
                                        assert(s2.contains(cb));
                                        assert(in_extent(c, size));
                                    }
                                    assert forall|c: (usize, usize)|
                                        vset.contains(c) && adj_zone(s2, size).contains(c) implies
                                        vcs.contains(c) && touches(pre.grid(), size, g2, c) by {
                                        let st = choose|st: (usize, usize)|
                                            s2.contains(st) && #[trigger] adjacent(st, c);
                                        assert(cell(pre.grid(), st) == Intersection::Stone(
                                            gcol(pre.grid(), grp(pre.garena(), gb)),
                                            g2,
                                        ));
                                        assert(in_extent(st, size));
                                        assert(is_stone_of(cell(pre.grid(), st), g2));
                                    }
                                }
                                assert(l2 =~= exact_libs(s2, grid_c4, size) + (exact_libs(
                                    s2,
                                    pre.grid(),
                                    size,
                                ).intersect(sown0))) by {
                                    assert(l2 =~= exact_libs(s2, pre.grid(), size) + Set::new(
                                        |c: (usize, usize)|
                                            vcs.contains(c) && touches(pre.grid(), size, g2, c),
                                    ));
                                    assert(exact_libs(s2, grid_c4, size) == exact_libs(
                                        s2,
                                        pre.grid(),
                                        size,
                                    ).remove((x, y)) + vset.intersect(adj_zone(s2, size)));
                                    assert forall|c: (usize, usize)| l2.contains(c) implies (
                                    exact_libs(s2, grid_c4, size) + (exact_libs(
                                        s2,
                                        pre.grid(),
                                        size,
                                    ).intersect(sown0))).contains(c) by {
                                        if exact_libs(s2, pre.grid(), size).contains(c) {
                                            if c == (x, y) {
                                                assert(sown0.contains(c));
                                            } else {
                                                assert(exact_libs(s2, pre.grid(), size).remove(
                                                    (x, y),
                                                ).contains(c));
                                            }
                                        }
                                    }
                                    assert forall|c: (usize, usize)| (exact_libs(
                                        s2,
                                        grid_c4,
                                        size,
                                    ) + (exact_libs(s2, pre.grid(), size).intersect(
                                        sown0,
                                    ))).contains(c) implies l2.contains(c) by {
                                    }
                                }
                                // every stone of the merged set occupies its cell
                                assert forall|c: (usize, usize)| (sa + s2).contains(c) implies cell(
                                    grid_c4,
                                    c,
                                ) != Intersection::Empty by {
                                    if c == (x, y) {
                                    } else if sa.contains(c) {
                                        let g = choose|g: int|
                                            #[trigger] old_mown.contains(g) && grp(
                                                pre.garena(),
                                                g,
                                            ).stone_set().contains(c);
                                        assert(cell(pre.grid(), c) == Intersection::Stone(
                                            gcol(pre.grid(), grp(pre.garena(), g)),
                                            g as usize,
                                        ));
                                        if vset.contains(c) {
                                            let gk = choose|gk: int|
                                                #[trigger] kill_gid(pre, player, x, y, gk) && grp(
                                                    pre.garena(),
                                                    gk,
                                                ).stone_set().contains(c);
                                            if gk != g {
                                                lemma_distinct_groups_disjoint(
                                                    pre.grid(),
                                                    pre.garena(),
                                                    size,
                                                    gk,
                                                    g,
                                                );
                                            }
                                            assert(false);
                                        }
                                    } else {
                                        assert(s2.contains(c));
                                        assert(cell(pre.grid(), c) == Intersection::Stone(
                                            gcol(pre.grid(), grp(pre.garena(), gb)),
                                            g2,
                                        ));
                                        if vset.contains(c) {
                                            let gk = choose|gk: int|
                                                #[trigger] kill_gid(pre, player, x, y, gk) && grp(
                                                    pre.garena(),
                                                    gk,
                                                ).stone_set().contains(c);
                                            if gk != gb {
                                                lemma_distinct_groups_disjoint(
                                                    pre.grid(),
                                                    pre.garena(),
                                                    size,
                                                    gk,
                                                    gb,
                                                );
                                            }
                                            assert(false);
                                        }
                                    }
                                }
                                lemma_exact_union(sa, s2, grid_c4, size);
                                assert(grp(self.garena(), keep).liberty_set() =~= exact_libs(
                                    sown_new,
                                    grid_c4,
                                    size,
                                )) by {
                                    assert(grp(self.garena(), keep).liberty_set() == (grp(
                                        bf.garena(),
                                        ga,
                                    ).liberty_set() + l2).difference(sa + s2));
                                    assert(grp(bf.garena(), ga).liberty_set() == exact_libs(
                                        sa,
                                        grid_c4,
                                        size,
                                    ));
                                    assert(exact_libs(sown_new, grid_c4, size) =~= exact_libs(
                                        sa + s2,
                                        grid_c4,
                                        size,
                                    ));
                                }
                                // liveness and the untouched groups
                                assert(cell_gid(cell(bf.grid(), (a, b))) as int == g2 as int);
                                assert forall|g: int|
                                    live(self.garena(), g) <==> (g == own || (live(
                                        pre.garena(),
                                        g,
                                    ) && !kp.contains(g) && !mown.contains(g))) by {
                                    assert(live(self.garena(), g) <==> (live(bf.garena(), g) && g
                                        != del));
                                    assert(live(bf.garena(), keep));
                                    if g == del {
                                        if del == old_own {
                                            if old_own == gid_new as int {
                                                assert(!live(pre.garena(), g) || kp.contains(g));
                                            } else {
                                                assert(old_mown.contains(old_own));
                                                assert(mown.contains(g));
                                            }
                                        } else {
                                            assert(del == g2 as int);
                                            assert(mown.contains(g));
                                        }
                                    } else if g != keep {
                                        assert(g != g2 as int && g != old_own);
                                        assert(mown.contains(g) == old_mown.contains(g));
                                        assert(live(bf.garena(), g) <==> (g == old_own || (live(
                                            pre.garena(),
                                            g,
                                        ) && !kp.contains(g) && !old_mown.contains(g))));
                                    }
                                }
                                assert forall|g: int| #[trigger] mown.contains(g) implies live(
                                    pre.garena(),
                                    g,
                                ) && own_nbr(pre, player, x, y, g) && !kp.contains(g) && 0 <= g
                                    <= glen by {
                                    if g != g2 as int {
                                        assert(old_mown.contains(g));
                                    }
                                }
                                // the grid after the relabelling
                                assert forall|c: (usize, usize)| in_extent(c, MAX_SIZE) implies
                                    #[trigger] cell(self.grid(), c) == (if own_stones(
                                    pre,
                                    x,
                                    y,
                                    mown,
                                ).contains(c) {
                                    Intersection::Stone(player, own as usize)
                                } else if vset.contains(c) {
                                    Intersection::Empty
                                } else {
                                    cell(pre.grid(), c)
                                }) by {
                                    assert(grp(bf.garena(), del).stone_set() == if del == ga {
                                        sa
                                    } else {
                                        s2
                                    });
                                    if own_stones(pre, x, y, mown).contains(c) {
                                        assert((sa + s2).contains(c));
                                        if grp(bf.garena(), del).stone_set().contains(c) {
                                            assert(cell(self.grid(), c) == Intersection::Stone(
                                                cell_col(cell(bf.grid(), c)),
                                                keep as usize,
                                            ));
                                            assert(cell_col(cell(bf.grid(), c)) == player);
                                        } else {
                                            assert(grp(bf.garena(), keep).stone_set().contains(c));
                                            assert(cell(bf.grid(), c) == Intersection::Stone(
                                                player,
                                                keep as usize,
                                            )) by {
                                                if keep == ga {
                                                    assert(sa.contains(c));
                                                } else {
                                                    assert(s2.contains(c));
                                                    assert(!sa.contains(c));
                                                    assert(!vset.contains(c));
                                                    assert(cell(pre.grid(), c)
                                                        == Intersection::Stone(
                                                        gcol(
                                                            pre.grid(),
                                                            grp(pre.garena(), gb),
                                                        ),
                                                        g2,
                                                    ));
                                                }
                                            }
                                            assert(cell(self.grid(), c) == cell(bf.grid(), c));
                                        }
                                    } else {
                                        assert(!grp(bf.garena(), del).stone_set().contains(c)) by {
                                            if del == ga {
                                                assert(!sa.contains(c)) by {
                                                    if sa.contains(c) {
                                                        assert(own_stones(
                                                            pre,
                                                            x,
                                                            y,
                                                            mown,
                                                        ).contains(c));
                                                    }
                                                }
                                            } else {
                                                assert(!s2.contains(c)) by {
                                                    if s2.contains(c) {
                                                        assert(mown.contains(g2 as int));
                                                        assert(own_stones(
                                                            pre,
                                                            x,
                                                            y,
                                                            mown,
                                                        ).contains(c));
                                                    }
                                                }
                                            }
                                        }
                                        assert(cell(self.grid(), c) == cell(bf.grid(), c));
                                        assert(!own_stones(pre, x, y, old_mown).contains(c)) by {
                                            if own_stones(pre, x, y, old_mown).contains(c) {
                                                if c != (x, y) {
                                                    let g = choose|g: int|
                                                        #[trigger] old_mown.contains(g) && grp(
                                                            pre.garena(),
                                                            g,
                                                        ).stone_set().contains(c);
                                                    assert(mown.contains(g));
                                                    assert(own_stones(pre, x, y, mown).contains(
                                                        c,
                                                    ));
                                                }
                                                assert(false);
                                            }
                                        }
                                    }
                                }
                                // the other groups are untouched
                                assert forall|g: int|
                                    live(self.garena(), g) && g != own implies grp(
                                    self.garena(),
                                    g,
                                ) == grp(arena_c3, g) && live(arena_c3, g) by {
                                    assert(g != keep && g != del);
                                    assert(live(bf.garena(), g));
                                    assert(grp(self.garena(), g) == grp(bf.garena(), g));
                                    assert(g != old_own);
                                }
                                assert(grp(self.garena(), own).stones_seq().len() >= 1);
                                assert(grp(self.garena(), own).wf());
                            }
                        }
                    }
                },
                Intersection::Empty => {},
            }
            proof {
                assert forall|j: int| 0 <= j < i5 + 1 implies {
                    let ce2 = cell(self.grid(), #[trigger] nbrs@[j]);
                    (ce2 is Stone && cell_col(ce2) == player) ==> cell_gid(ce2) as int == own
                } by {
                    let cj = nbrs@[j];
                    assert(nbrs@.contains(cj));
                    assert(in_extent(cj, size));
                    let ce2 = cell(self.grid(), cj);
                    if ce2 is Stone && cell_col(ce2) == player {
                        if own_stones(pre, x, y, mown).contains(cj) {
                            assert(cell_gid(ce2) as int == own);
                        } else {
                            assert(!vset.contains(cj));
                            assert(ce2 == cell(pre.grid(), cj));
                            if j < i5 {
                                assert(false);
                            } else {
                                assert(cj == (a, b));
                                assert(false);
                            }
                        }
                    }
                }
            }
            i5 = i5 + 1;
        }

        // The position is consistent again: every live group records
        // exactly the empty points beside it, and none is dead.
        let ghost grid_f = self.grid();
        let ghost sown = own_stones(pre, x, y, mown);
        proof {
            assert forall|cb: (usize, usize)|
                adjacent(cb, (x, y)) && in_extent(cb, size) && (#[trigger] cell(
                    self.grid(),
                    cb,
                )) is Stone && cell_col(cell(self.grid(), cb)) == player implies cell_gid(
                cell(self.grid(), cb),
            ) as int == own by {
                assert(nbrs@.contains(cb));
                let j = choose|j: int| 0 <= j < nbrs@.len() && nbrs@[j] == cb;
                assert(cell(self.grid(), nbrs@[j]) is Stone);
            }
            lemma_play_assemble(
                pre,
                *self,
                player,
                x,
                y,
                kp,
                vset,
                vcs,
                mown,
                own,
                gid_new,
                glen as int,
                grid_c4,
                arena_c3,
            );
        }
        // Count the captured stones against the colour that lost them.
        let mut k6: usize = 0;
        let ghost wd0 = self.wd();
        let ghost bd0 = self.bd();
        let ghost arena_f = self.garena();
        while k6 < killed.len()
            invariant
                k6 <= killed@.len(),
                self.wd() == if player is Black {
                    sat_add(wd0 as int, groups_total(killed@.take(k6 as int)))
                } else {
                    wd0
                },
                self.bd() == if player is White {
                    sat_add(bd0 as int, groups_total(killed@.take(k6 as int)))
                } else {
                    bd0
                },
                self.grid() == grid_f,
                self.garena() == arena_f,
                self.hist() == pre.hist(),
                self.spec_size() == size,
                self.ko() == pre.ko(),
            decreases killed@.len() - k6,
        {
            let n = killed[k6].get_stones().len();
            proof {
                assert(killed@.take(k6 + 1).drop_last() =~= killed@.take(k6 as int));
                assert(killed@.take(k6 + 1).last() == killed@[k6 as int]);
                lemma_groups_total_nonneg(killed@.take(k6 as int));
            }
            match player {
                Colour::Black => {
                    self.white_dead = self.white_dead.saturating_add(n);
                },
                Colour::White => {
                    self.black_dead = self.black_dead.saturating_add(n);
                },
            }
            k6 = k6 + 1;
        }
        proof {
            assert(killed@.take(killed@.len() as int) =~= killed@);
        }

        // Record the move, then re-evaluate the simple ko.
        self.current_ko = (0, 0);
        let ghost killed_snapshot = killed@;
        self.history.push(Move { player, action: Vertex::Put(x, y), removed: killed });
        proof {
            assert(self.hist().drop_last() =~= pre.hist());
            assert(puts_in_extent(self.hist(), size)) by {
                assert forall|j: int| 0 <= j < self.hist().len() implies put_move_ok(
                    #[trigger] self.hist()[j],
                    size,
                ) by {
                    if j < pre.hist().len() {
                        assert(self.hist()[j] == pre.hist()[j]);
                        assert(put_move_ok(pre.hist()[j], size));
                    }
                }
            }
            assert(self.wf());
        }
        self.recompute_ko();
        proof {
            let m = final(self).hist().last();
            assert(m.removed@ == killed_snapshot);
            assert(groups_union(m.removed@) =~= vacated(pre, player, x, y));
            assert forall|i9: int, j9: int|
                0 <= i9 < j9 < m.removed@.len() implies (#[trigger] m.removed@[i9]).stone_set().disjoint(
                (#[trigger] m.removed@[j9]).stone_set(),
            ) by {
                assert(killgids@[i9] != killgids@[j9]);
                lemma_distinct_groups_disjoint(
                    pre.grid(),
                    pre.garena(),
                    size,
                    killgids@[i9] as int,
                    killgids@[j9] as int,
                );
                assert(m.removed@[i9].stone_set() =~= grp(
                    pre.garena(),
                    killgids@[i9] as int,
                ).stone_set());
                assert(m.removed@[j9].stone_set() =~= grp(
                    pre.garena(),
                    killgids@[j9] as int,
                ).stone_set());
            }
            assert forall|i9: int| 0 <= i9 < m.removed@.len() implies ((#[trigger] m.removed@[i9]).wf()
                && m.removed@[i9].stones_seq().len() >= 1 && exists|gid: int|
                kill_gid(pre, player, x, y, gid) && m.removed@[i9].stone_set() == grp(
                    pre.garena(),
                    gid,
                ).stone_set()) by {
                assert(kill_gid(pre, player, x, y, killgids@[i9] as int));
                assert(m.removed@[i9].stone_set() == grp(arena0, killgids@[i9] as int).stone_set());
            }
            assert forall|c: (usize, usize)|
                in_extent(c, MAX_SIZE) && vacated(pre, player, x, y).contains(c) implies
                #[trigger] cell(final(self).grid(), c) == Intersection::Empty by {
                assert(vset.contains(c));
                assert(cell(final(self).grid(), c) == cell(grid_f, c));
            }
            assert forall|c: (usize, usize)|
                in_extent(c, MAX_SIZE) && c != (x, y) && !vacated(pre, player, x, y).contains(c)
                implies (((#[trigger] cell(final(self).grid(), c)) is Stone <==> cell(
                pre.grid(),
                c,
            ) is Stone) && (cell(final(self).grid(), c) is Stone ==> cell_col(
                cell(final(self).grid(), c),
            ) == cell_col(cell(pre.grid(), c)))) by {
                assert(!vset.contains(c));
                assert(cell(final(self).grid(), c) == cell(grid_f, c));
            }
            assert forall|g: int| kill_gid(pre, player, x, y, g) implies !live(
                #[trigger] final(self).garena(),
                g,
            ) by {
                assert(kp.contains(g));
                if live(final(self).garena(), g) {
                    assert(g == own || (live(pre.garena(), g) && !kp.contains(g)
                        && !mown.contains(g)));
                    assert(g == own);
                    if own == gid_new as int {
                        assert(live(pre.garena(), g));
                        assert(false);
                    } else {
                        assert(mown.contains(own));
                        assert(false);
                    }
                }
            }
            // which groups the move absorbed: exactly the neighbouring
            // chains of the player's own colour
            assert forall|g: int|
                live(pre.garena(), g) && own_nbr(pre, player, x, y, g) implies !kp.contains(g)
                && #[trigger] mown.contains(g) by {
                let cb = choose|cb: (usize, usize)|
                    adjacent(cb, (x, y)) && in_extent(cb, pre.spec_size()) && #[trigger] cell(
                        pre.grid(),
                        cb,
                    ) == Intersection::Stone(player, g as usize);
                assert(0 <= g < glen);
                assert(group_ok(pre.grid(), size, g as usize, grp(pre.garena(), g)));
                assert(grp(pre.garena(), g).stone_set().contains(cb));
                assert(gcol(pre.grid(), grp(pre.garena(), g)) == player);
                assert(!kp.contains(g)) by {
                    if kp.contains(g) {
                        let cb2 = choose|cb2: (usize, usize)|
                            adjacent(cb2, (x, y)) && in_extent(cb2, pre.spec_size())
                                && #[trigger] cell(pre.grid(), cb2) == Intersection::Stone(
                                opp(player),
                                g as usize,
                            );
                        assert(grp(pre.garena(), g).stone_set().contains(cb2));
                        assert(false);
                    }
                }
                if !mown.contains(g) {
                    assert(live(final(self).garena(), g));
                    assert(g == own || (live(pre.garena(), g) && !kp.contains(g)
                        && !mown.contains(g)));
                    assert(g != own) by {
                        if g == own {
                            if own == gid_new as int {
                                assert(!live(pre.garena(), g));
                            } else {
                                assert(mown.contains(own));
                            }
                            assert(false);
                        }
                    }
                    // its neighbouring stone would still carry its old
                    // identifier, yet every own-coloured neighbour of the
                    // point ends in the merged group
                    assert(!vset.contains(cb)) by {
                        if vset.contains(cb) {
                            let gk = choose|gk: int|
                                #[trigger] kill_gid(pre, player, x, y, gk) && grp(
                                    pre.garena(),
                                    gk,
                                ).stone_set().contains(cb);
                            if gk != g {
                                lemma_distinct_groups_disjoint(
                                    pre.grid(),
                                    pre.garena(),
                                    size,
                                    gk,
                                    g,
                                );
                            }
                            assert(false);
                        }
                    }
                    assert(!own_stones(pre, x, y, mown).contains(cb)) by {
                        if own_stones(pre, x, y, mown).contains(cb) {
                            if cb != (x, y) {
                                let g3 = choose|g3: int|
                                    #[trigger] mown.contains(g3) && grp(
                                        pre.garena(),
                                        g3,
                                    ).stone_set().contains(cb);
                                if g3 != g {
                                    lemma_distinct_groups_disjoint(
                                        pre.grid(),
                                        pre.garena(),
                                        size,
                                        g3,
                                        g,
                                    );
                                }
                            }
                            assert(false);
                        }
                    }
                    assert(cell(grid_f, cb) == cell(pre.grid(), cb));
                    assert(cell(grid_f, cb) is Stone && cell_col(cell(grid_f, cb)) == player);
                    assert(cell_gid(cell(grid_f, cb)) as int == own);
                    assert(false);
                }
            }
            assert(cell(grid_f, (x, y)) == Intersection::Stone(player, own as usize)) by {
                assert(own_stones(pre, x, y, mown).contains((x, y)));
            }
            assert(grp(final(self).garena(), own).stone_set() =~= Set::new(
                |c: (usize, usize)|
                    c == (x, y) || exists|g: int|
                        #[trigger] live(pre.garena(), g) && own_nbr(pre, player, x, y, g) && grp(
                            pre.garena(),
                            g,
                        ).stone_set().contains(c),
            )) by {
                assert forall|c: (usize, usize)|
                    own_stones(pre, x, y, mown).contains(c) && c != (x, y) implies exists|g: int|
                    #[trigger] live(pre.garena(), g) && own_nbr(pre, player, x, y, g) && grp(
                        pre.garena(),
                        g,
                    ).stone_set().contains(c) by {
                    let g = choose|g: int|
                        #[trigger] mown.contains(g) && grp(pre.garena(), g).stone_set().contains(
                            c,
                        );
                    assert(live(pre.garena(), g) && own_nbr(pre, player, x, y, g));
                }
                assert forall|c: (usize, usize)|
                    (exists|g: int|
                        #[trigger] live(pre.garena(), g) && own_nbr(pre, player, x, y, g) && grp(
                            pre.garena(),
                            g,
                        ).stone_set().contains(c)) implies own_stones(pre, x, y, mown).contains(
                    c,
                ) by {
                    let g = choose|g: int|
                        #[trigger] live(pre.garena(), g) && own_nbr(pre, player, x, y, g) && grp(
                            pre.garena(),
                            g,
                        ).stone_set().contains(c);
                    assert(mown.contains(g));
                }
            }
            assert forall|g: int| #![trigger live(final(self).garena(), g)]
                live(final(self).garena(), g) <==> (g == own || (live(pre.garena(), g)
                    && !kill_gid(pre, player, x, y, g) && !own_nbr(pre, player, x, y, g))) by {
                if live(pre.garena(), g) && !kill_gid(pre, player, x, y, g) && !own_nbr(
                    pre,
                    player,
                    x,
                    y,
                    g,
                ) {
                    assert(!kp.contains(g));
                    assert(!mown.contains(g)) by {
                        if mown.contains(g) {
                            assert(own_nbr(pre, player, x, y, g));
                        }
                    }
                }
                if live(final(self).garena(), g) && g != own {
                    assert(!kp.contains(g) && !mown.contains(g));
                }
            }
            assert forall|g: int| #![trigger live(pre.garena(), g)]
                live(pre.garena(), g) && !kill_gid(pre, player, x, y, g) && !own_nbr(
                    pre,
                    player,
                    x,
                    y,
                    g,
                ) implies live(final(self).garena(), g) && grp(
                final(self).garena(),
                g,
            ).stones_seq() == grp(pre.garena(), g).stones_seq() by {
                assert(!kp.contains(g));
                assert(!mown.contains(g)) by {
                    if mown.contains(g) {
                        assert(own_nbr(pre, player, x, y, g));
                    }
                }
                assert(g != own) by {
                    if g == own {
                        if own == gid_new as int {
                            assert(!live(pre.garena(), g));
                        } else {
                            assert(mown.contains(own));
                        }
                        assert(false);
                    }
                }
                assert(grp(final(self).garena(), g) == grp(arena_c3, g));
                assert(grp(arena_c3, g).stones_seq() == grp(pre.garena(), g).stones_seq());
            }
            assert(play_post(pre, *final(self), player, x, y)) by {
                assert(final(self).hist().last() == m);
                assert(final(self).hist().drop_last() =~= pre.hist());
                assert((cell(final(self).grid(), (x, y)) matches Intersection::Stone(pc, _)
                    && pc == player)) by {
                    assert(sown.contains((x, y)));
                    assert(cell(grid_f, (x, y)) == Intersection::Stone(player, own as usize));
                }
                assert(final(self).ko_coherent());
                assert(final(self).wf());
            }
        }
        true
    }
}

} // verus!
