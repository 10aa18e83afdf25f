//! A group (chain) of same-coloured stones together with its liberties.
//!
//! Stones and liberties are kept as duplicate-free vectors of coordinates;
//! contracts speak about them as mathematical sets.

use vstd::prelude::*;

use crate::geometry::coords_contains;
use crate::geometry::coords_copy;
use crate::geometry::coords_insert;
use crate::geometry::coords_remove;

verus! {

broadcast use {vstd::seq_lib::group_seq_properties, vstd::prelude::Seq::lemma_push_to_set_commute};

/// The stones of one same-coloured chain and the liberties it currently
/// holds (empty points adjacent to the chain).
pub struct Group {
    stones: Vec<(usize, usize)>,
    liberties: Vec<(usize, usize)>,
}

impl Group {
    /// The stones, in insertion order.
    pub closed spec fn stones_seq(&self) -> Seq<(usize, usize)> {
        self.stones@
    }

    /// The liberties, in insertion order.
    pub closed spec fn libs_seq(&self) -> Seq<(usize, usize)> {
        self.liberties@
    }

    /// The stones as a set.
    pub open spec fn stone_set(&self) -> Set<(usize, usize)> {
        self.stones_seq().to_set()
    }

    /// The liberties as a set.
    pub open spec fn liberty_set(&self) -> Set<(usize, usize)> {
        self.libs_seq().to_set()
    }

    /// Both vectors are duplicate free, so their lengths are the set sizes.
    pub open spec fn wf(&self) -> bool {
        self.stones_seq().no_duplicates() && self.libs_seq().no_duplicates()
    }

    /// A new group with no stones and no liberties.
    pub fn new() -> (g: Group)
        ensures
            g.wf(),
            g.stones_seq() == Seq::<(usize, usize)>::empty(),
            g.libs_seq() == Seq::<(usize, usize)>::empty(),
            g.stone_set() == Set::<(usize, usize)>::empty(),
            g.liberty_set() == Set::<(usize, usize)>::empty(),
    {
        let g = Group { stones: Vec::new(), liberties: Vec::new() };
        proof {
            assert(g.stone_set() =~= Set::<(usize, usize)>::empty());
            assert(g.liberty_set() =~= Set::<(usize, usize)>::empty());
        }
        g
    }

    /// A group is dead when it has no liberty left.
    pub fn is_dead(&self) -> (r: bool)
        ensures
            r == self.liberty_set().is_empty(),
    {
        let r = self.liberties.len() == 0;
        proof {
            if self.liberties@.len() > 0 {
                assert(self.liberty_set().contains(self.liberties@[0]));
            } else {
                assert(self.liberty_set() =~= Set::<(usize, usize)>::empty());
            }
        }
        r
    }

    /// Adds `(x, y)` as a stone; the point stops being a liberty.
    pub fn add_stone(&mut self, x: usize, y: usize)
        requires
            old(self).wf(),
        ensures
            final(self).wf(),
            final(self).stone_set() == old(self).stone_set().insert((x, y)),
            final(self).liberty_set() == old(self).liberty_set().remove((x, y)),
            old(self).stones_seq().contains((x, y)) ==> final(self).stones_seq()
                == old(self).stones_seq(),
            !old(self).stones_seq().contains((x, y)) ==> final(self).stones_seq()
                == old(self).stones_seq().push((x, y)),
    {
        coords_insert(&mut self.stones, (x, y));
        coords_remove(&mut self.liberties, (x, y));
    }

    /// Adds `(x, y)` as a liberty.
    pub fn add_liberty(&mut self, x: usize, y: usize)
        requires
            old(self).wf(),
        ensures
            final(self).wf(),
            final(self).stones_seq() == old(self).stones_seq(),
            final(self).liberty_set() == old(self).liberty_set().insert((x, y)),
    {
        coords_insert(&mut self.liberties, (x, y));
    }

    /// Removes `(x, y)` from the liberties, if present.
    pub fn remove_liberty(&mut self, x: usize, y: usize)
        requires
            old(self).wf(),
        ensures
            final(self).wf(),
            final(self).stones_seq() == old(self).stones_seq(),
            final(self).liberty_set() == old(self).liberty_set().remove((x, y)),
    {
        coords_remove(&mut self.liberties, (x, y));
    }

    /// Destructive merge: takes over the other group's stones and
    /// liberties, then drops every liberty that is now an owned stone.
    pub fn absorb(&mut self, other: Group)
        requires
            old(self).wf(),
            other.wf(),
        ensures
            final(self).wf(),
            final(self).stone_set() == old(self).stone_set().union(other.stone_set()),
            final(self).liberty_set() == old(self).liberty_set().union(
                other.liberty_set(),
            ).difference(old(self).stone_set().union(other.stone_set())),
    {
        let ghost s_union = old(self).stone_set().union(other.stone_set());
        let mut i: usize = 0;
        while i < other.stones.len()
            invariant
                i <= other.stones@.len(),
                other.wf(),
                self.stones@.no_duplicates(),
                self.liberties@ == old(self).liberties@,
                self.stones@.to_set() == old(self).stones@.to_set().union(
                    other.stones@.take(i as int).to_set(),
                ),
            decreases other.stones@.len() - i,
        {
            let c = other.stones[i];
            proof {
                assert(other.stones@.take(i + 1) == other.stones@.take(i as int).push(
                    other.stones@[i as int],
                ));
            }
            coords_insert(&mut self.stones, c);
            proof {
                assert(self.stones@.to_set() =~= old(self).stones@.to_set().union(
                    other.stones@.take(i + 1).to_set(),
                ));
            }
            i = i + 1;
        }
        proof {
            assert(other.stones@.take(other.stones@.len() as int) =~= other.stones@);
            assert(self.stones@.to_set() =~= s_union);
        }
        let mut j: usize = 0;
        while j < other.liberties.len()
            invariant
                j <= other.liberties@.len(),
                other.wf(),
                self.stones@.no_duplicates(),
                self.stones@.to_set() == s_union,
                self.liberties@.no_duplicates(),
                self.liberties@.to_set() == old(self).liberties@.to_set().union(
                    other.liberties@.take(j as int).to_set(),
                ),
            decreases other.liberties@.len() - j,
        {
            let c = other.liberties[j];
            proof {
                assert(other.liberties@.take(j + 1) == other.liberties@.take(j as int).push(
                    other.liberties@[j as int],
                ));
            }
            coords_insert(&mut self.liberties, c);
            proof {
                assert(self.liberties@.to_set() =~= old(self).liberties@.to_set().union(
                    other.liberties@.take(j + 1).to_set(),
                ));
            }
            j = j + 1;
        }
        proof {
            assert(other.liberties@.take(other.liberties@.len() as int)
                =~= other.liberties@);
        }
        let ghost l_union = self.liberties@.to_set();
        let mut out: Vec<(usize, usize)> = Vec::new();
        let mut k: usize = 0;
        while k < self.liberties.len()
            invariant
                k <= self.liberties@.len(),
                self.stones@.no_duplicates(),
                self.stones@.to_set() == s_union,
                self.liberties@.no_duplicates(),
                self.liberties@.to_set() == l_union,
                out@.no_duplicates(),
                out@.to_set() == self.liberties@.take(k as int).to_set().difference(s_union),
            decreases self.liberties@.len() - k,
        {
            let c = self.liberties[k];
            proof {
                assert(self.liberties@.take(k + 1) == self.liberties@.take(k as int).push(
                    self.liberties@[k as int],
                ));
                assert(self.liberties@.take(k + 1).to_set() == self.liberties@.take(
                    k as int,
                ).to_set().insert(c));
                assert(s_union.contains(c) == self.stones@.contains(c));
            }
            if !coords_contains(&self.stones, c) {
                coords_insert(&mut out, c);
            }
            proof {
                assert(out@.to_set() =~= self.liberties@.take(k + 1).to_set().difference(
                    s_union,
                ));
            }
            k = k + 1;
        }
        proof {
            assert(self.liberties@.take(self.liberties@.len() as int) =~= self.liberties@);
        }
        self.liberties = out;
        proof {
            assert(self.liberties@.to_set() =~= old(self).liberty_set().union(
                other.liberty_set(),
            ).difference(s_union));
        }
    }

    /// Number of stones in the group.
    pub fn stone_count(&self) -> (r: usize)
        requires
            self.wf(),
        ensures
            r == self.stones_seq().len(),
            r == self.stone_set().len(),
    {
        proof {
            self.stones_seq().unique_seq_to_set();
        }
        self.stones.len()
    }

    /// Number of liberties of the group.
    pub fn liberty_count(&self) -> (r: usize)
        requires
            self.wf(),
        ensures
            r == self.libs_seq().len(),
            r == self.liberty_set().len(),
    {
        proof {
            self.libs_seq().unique_seq_to_set();
        }
        self.liberties.len()
    }

    /// Read-only access to the stones.
    pub fn get_stones(&self) -> (r: &Vec<(usize, usize)>)
        ensures
            r@ == self.stones_seq(),
    {
        &self.stones
    }

    /// Read-only access to the liberties.
    pub fn get_liberties(&self) -> (r: &Vec<(usize, usize)>)
        ensures
            r@ == self.libs_seq(),
    {
        &self.liberties
    }

    /// Consumes the group and hands back its stones.
    pub fn dismantle(self) -> (r: Vec<(usize, usize)>)
        ensures
            r@ == self.stones_seq(),
    {
        self.stones
    }

    /// A fresh copy of the group.
    pub fn duplicate(&self) -> (r: Group)
        ensures
            r.stones_seq() == self.stones_seq(),
            r.libs_seq() == self.libs_seq(),
            r.wf() == self.wf(),
    {
        Group { stones: coords_copy(&self.stones), liberties: coords_copy(&self.liberties) }
    }
}

} // verus!
