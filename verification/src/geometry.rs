//! Coordinates on the board, orthogonal adjacency, and small
//! duplicate-free buffers of coordinates.
//!
//! A coordinate is a pair `(x, y)` with `1 <= x, y <= size`; the board
//! extent never exceeds `MAX_SIZE` in either direction.

use vstd::prelude::*;

verus! {

broadcast use {vstd::seq_lib::group_seq_properties, vstd::prelude::Seq::lemma_push_to_set_commute};

/// Largest board extent the engine supports.
pub const MAX_SIZE: usize = 25;

/// A coordinate lies on the active part of a board of the given size.
pub open spec fn in_extent(c: (usize, usize), size: usize) -> bool {
    1 <= c.0 <= size && 1 <= c.1 <= size
}

/// Two coordinates are orthogonally adjacent (no diagonals).
pub open spec fn adjacent(a: (usize, usize), b: (usize, usize)) -> bool {
    ||| (a.0 == b.0 && (a.1 + 1 == b.1 || b.1 + 1 == a.1))
    ||| (a.1 == b.1 && (a.0 + 1 == b.0 || b.0 + 1 == a.0))
}

/// Index of a coordinate in the flattened 25 x 25 grid, row major.
pub open spec fn idx(c: (usize, usize)) -> int {
    (c.0 - 1) * 25 + (c.1 - 1)
}

pub proof fn lemma_idx_bounds(c: (usize, usize))
    requires
        in_extent(c, MAX_SIZE),
    ensures
        0 <= idx(c) < 625,
{
}

/// Within the maximal extent, distinct coordinates have distinct indices.
pub proof fn lemma_idx_injective(a: (usize, usize), b: (usize, usize))
    requires
        in_extent(a, MAX_SIZE),
        in_extent(b, MAX_SIZE),
        idx(a) == idx(b),
    ensures
        a == b,
{
    assert(a.0 == b.0) by (nonlinear_arith)
        requires
            1 <= a.0 <= 25 && 1 <= a.1 <= 25 && 1 <= b.0 <= 25 && 1 <= b.1 <= 25,
            (a.0 - 1) * 25 + (a.1 - 1) == (b.0 - 1) * 25 + (b.1 - 1),
    ;
}

/// True when the vector `v` holds the coordinate `c`.
pub fn coords_contains(v: &Vec<(usize, usize)>, c: (usize, usize)) -> (r: bool)
    ensures
        r == v@.contains(c),
{
    let mut i: usize = 0;
    while i < v.len()
        invariant
            i <= v@.len(),
            forall|j: int| 0 <= j < i ==> v@[j] != c,
        decreases v@.len() - i,
    {
        if v[i].0 == c.0 && v[i].1 == c.1 {
            assert(v@[i as int] == c);
            return true;
        }
        i = i + 1;
    }
    false
}

/// Appends `c` unless it is already present, keeping the vector duplicate free.
pub fn coords_insert(v: &mut Vec<(usize, usize)>, c: (usize, usize))
    requires
        old(v)@.no_duplicates(),
    ensures
        final(v)@.no_duplicates(),
        final(v)@.to_set() == old(v)@.to_set().insert(c),
        forall|e: (usize, usize)| final(v)@.contains(e) <==> old(v)@.contains(e) || e == c,
        old(v)@.contains(c) ==> final(v)@ == old(v)@,
        !old(v)@.contains(c) ==> final(v)@ == old(v)@.push(c),
{
    if !coords_contains(v, c) {
        proof {
            assert forall|i: int, j: int|
                0 <= i < old(v)@.push(c).len() && 0 <= j < old(v)@.push(c).len() && i != j
                implies old(v)@.push(c)[i] != old(v)@.push(c)[j] by {
                if j == old(v)@.len() {
                    assert(old(v)@[i] != c);
                } else if i == old(v)@.len() {
                    assert(old(v)@[j] != c);
                }
            }
        }
        v.push(c);
    } else {
        proof {
            assert(v@.to_set() =~= v@.to_set().insert(c));
        }
    }
}

/// Removes every occurrence of `c`, keeping the order of the rest.
pub fn coords_remove(v: &mut Vec<(usize, usize)>, c: (usize, usize))
    requires
        old(v)@.no_duplicates(),
    ensures
        final(v)@.no_duplicates(),
        final(v)@.to_set() == old(v)@.to_set().remove(c),
        forall|e: (usize, usize)| final(v)@.contains(e) <==> old(v)@.contains(e) && e != c,
        final(v)@.len() <= old(v)@.len(),
        old(v)@.contains(c) ==> final(v)@.len() < old(v)@.len(),
{
    let mut out: Vec<(usize, usize)> = Vec::new();
    let mut i: usize = 0;
    while i < v.len()
        invariant
            i <= v@.len(),
            v@.no_duplicates(),
            out@.no_duplicates(),
            forall|e: (usize, usize)|
                out@.contains(e) <==> v@.take(i as int).contains(e) && e != c,
            out@.len() + (if v@.take(i as int).contains(c) {
                1int
            } else {
                0int
            }) <= i,
        decreases v@.len() - i,
    {
        let e = v[i];
        proof {
            assert(v@.take(i + 1) == v@.take(i as int).push(v@[i as int]));
        }
        if !(e.0 == c.0 && e.1 == c.1) {
            proof {
                if out@.contains(e) {
                    let j = choose|j: int| 0 <= j < i && v@[j] == e;
                    assert(v@[j] == v@[i as int]);
                    assert(false);
                }
            }
            out.push(e);
        }
        i = i + 1;
    }
    proof {
        assert(v@.take(v@.len() as int) =~= v@);
        assert(out@.to_set() =~= v@.to_set().remove(c));
    }
    *v = out;
    proof {
        assert(old(v)@.take(old(v)@.len() as int) =~= old(v)@);
    }
}

/// A fresh copy of a coordinate vector.
pub fn coords_copy(v: &Vec<(usize, usize)>) -> (r: Vec<(usize, usize)>)
    ensures
        r@ == v@,
{
    let mut r: Vec<(usize, usize)> = Vec::new();
    let mut i: usize = 0;
    while i < v.len()
        invariant
            i <= v@.len(),
            r@ == v@.take(i as int),
        decreases v@.len() - i,
    {
        proof {
            assert(v@.take(i + 1) == v@.take(i as int).push(v@[i as int]));
        }
        r.push(v[i]);
        i = i + 1;
    }
    proof {
        assert(v@.take(v@.len() as int) =~= v@);
    }
    r
}

/// The in-bounds orthogonal neighbours of `(x, y)` on a board of the
/// given size, in the fixed order left, down, right, up.
pub fn neighbours(x: usize, y: usize, size: usize) -> (r: Vec<(usize, usize)>)
    requires
        size <= MAX_SIZE,
        in_extent((x, y), size),
    ensures
        r@.no_duplicates(),
        forall|c: (usize, usize)| #![trigger r@.contains(c)]
            r@.contains(c) <==> in_extent(c, size) && adjacent(c, (x, y)),
{
    let mut r: Vec<(usize, usize)> = Vec::new();
    if x > 1 {
        coords_insert(&mut r, (x - 1, y));
    }
    if y > 1 {
        coords_insert(&mut r, (x, y - 1));
    }
    if x < size {
        coords_insert(&mut r, (x + 1, y));
    }
    if y < size {
        coords_insert(&mut r, (x, y + 1));
    }
    proof {
        assert forall|c: (usize, usize)|
            in_extent(c, size) && adjacent(c, (x, y)) implies r@.contains(c) by {
            if c.0 == x && c.1 + 1 == y {
                assert(c == (x, (y - 1) as usize));
            } else if c.0 == x && y + 1 == c.1 {
                assert(c == (x, (y + 1) as usize));
            } else if c.1 == y && c.0 + 1 == x {
                assert(c == ((x - 1) as usize, y));
            } else {
                assert(c == ((x + 1) as usize, y));
            }
        }
    }
    r
}

} // verus!
