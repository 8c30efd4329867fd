//! Locations and the ordered location-keyed multimap that both the
//! definition index and the collated output are built on.
//!
//! A `LocMap` keeps one entry per `Location`, entries sorted by
//! (file, line) ascending, and each entry's items in the order they were
//! pushed. This realizes the location index: grouping by (file, line) while
//! preserving relative production order within a line.

use vstd::prelude::*;

verus! {

/// A (file identifier, 1-based line number) pair; the join key between
/// declarations and comments. Totally ordered by file, then line.
#[derive(Clone, Copy, PartialEq, Eq, Structural, Debug)]
pub struct Location {
    pub file: u32,
    pub line: u32,
}

/// Strict order on locations: by file identifier, then by line number.
pub open spec fn loc_lt(a: Location, b: Location) -> bool {
    a.file < b.file || (a.file == b.file && a.line < b.line)
}

/// All items pushed at one location, in production order.
pub struct LocEntry<V> {
    pub loc: Location,
    pub items: Vec<V>,
}

/// Ordered map from location to the items produced there.
pub struct LocMap<V> {
    pub entries: Vec<LocEntry<V>>,
}

impl<V: View> View for LocMap<V> {
    type V = Seq<(Location, Seq<<V as View>::V>)>;

    open spec fn view(&self) -> Seq<(Location, Seq<<V as View>::V>)> {
        self.entries@.map_values(
            |e: LocEntry<V>| (e.loc, e.items@.map_values(|v: V| v@)),
        )
    }
}

/// The effect of one push on the abstract map: the item joins the group at
/// its location, and a fresh group is created in order when none exists.
pub open spec fn loc_push_spec<T>(
    m: Seq<(Location, Seq<T>)>,
    loc: Location,
    item: T,
) -> Seq<(Location, Seq<T>)>
    decreases m.len(),
{
    if m.len() == 0 {
        seq![(loc, seq![item])]
    } else if loc_lt(loc, m[0].0) {
        seq![(loc, seq![item])] + m
    } else if m[0].0 == loc {
        seq![(m[0].0, m[0].1.push(item))] + m.skip(1)
    } else {
        seq![m[0]] + loc_push_spec(m.skip(1), loc, item)
    }
}

/// A fold of pushes, applied left to right.
pub open spec fn loc_push_fold<T>(
    m: Seq<(Location, Seq<T>)>,
    pushes: Seq<(Location, T)>,
) -> Seq<(Location, Seq<T>)>
    decreases pushes.len(),
{
    if pushes.len() == 0 {
        m
    } else {
        loc_push_fold(loc_push_spec(m, pushes[0].0, pushes[0].1), pushes.skip(1))
    }
}

/// Folding a concatenation of push lists equals folding them in turn.
pub proof fn lemma_loc_push_fold_concat<T>(
    m: Seq<(Location, Seq<T>)>,
    a: Seq<(Location, T)>,
    b: Seq<(Location, T)>,
)
    ensures
        loc_push_fold(m, a + b) == loc_push_fold(loc_push_fold(m, a), b),
    decreases a.len(),
{
    if a.len() == 0 {
        assert(a + b =~= b);
    } else {
        assert((a + b).skip(1) =~= a.skip(1) + b);
        lemma_loc_push_fold_concat(loc_push_spec(m, a[0].0, a[0].1), a.skip(1), b);
    }
}

/// Folding one more push applies it after the others.
pub proof fn lemma_loc_push_fold_snoc<T>(
    m: Seq<(Location, Seq<T>)>,
    pushes: Seq<(Location, T)>,
    x: (Location, T),
)
    ensures
        loc_push_fold(m, pushes.push(x))
            == loc_push_spec(loc_push_fold(m, pushes), x.0, x.1),
{
    assert(pushes.push(x) =~= pushes + seq![x]);
    lemma_loc_push_fold_concat(m, pushes, seq![x]);
    assert(seq![x].skip(1) =~= Seq::<(Location, T)>::empty());
    assert(seq![x][0] == x);
    let m1 = loc_push_spec(loc_push_fold(m, pushes), x.0, x.1);
    assert(loc_push_fold(m1, Seq::<(Location, T)>::empty()) == m1);
    assert(loc_push_fold(loc_push_fold(m, pushes), seq![x])
        == loc_push_spec(loc_push_fold(m, pushes), x.0, x.1));
}

/// A push lands past any prefix of groups at strictly earlier locations.
pub proof fn lemma_loc_push_skip<T>(
    m: Seq<(Location, Seq<T>)>,
    loc: Location,
    item: T,
    i: int,
)
    requires
        0 <= i <= m.len(),
        forall|k: int| 0 <= k < i ==> loc_lt(#[trigger] m[k].0, loc),
    ensures
        loc_push_spec(m, loc, item) == m.take(i) + loc_push_spec(m.skip(i), loc, item),
    decreases i,
{
    if i == 0 {
        assert(m.skip(0) =~= m);
        assert(m.take(0) + loc_push_spec(m, loc, item) =~= loc_push_spec(m, loc, item));
    } else {
        assert(loc_lt(m[0].0, loc));
        lemma_loc_push_skip(m.skip(1), loc, item, i - 1);
        assert(m.skip(1).skip(i - 1) =~= m.skip(i));
        assert(seq![m[0]] + (m.skip(1).take(i - 1) + loc_push_spec(m.skip(i), loc, item))
            =~= m.take(i) + loc_push_spec(m.skip(i), loc, item));
    }
}

impl<V: View> LocMap<V> {
    /// Groups stand in strictly ascending location order.
    pub open spec fn wf(&self) -> bool {
        forall|i: int, j: int|
            0 <= i < j < self@.len() ==> loc_lt(#[trigger] self@[i].0, #[trigger] self@[j].0)
    }

    /// An empty map.
    pub fn new() -> (r: LocMap<V>)
        ensures
            r@ == Seq::<(Location, Seq<<V as View>::V>)>::empty(),
            r.wf(),
    {
        let r = LocMap { entries: Vec::new() };
        proof {
            assert(r@ =~= Seq::<(Location, Seq<<V as View>::V>)>::empty());
        }
        r
    }

    /// Appends `item` to the group at `loc`, creating the group in sorted
    /// position when absent. Within a group, production order is kept.
    #[verifier::loop_isolation(false)]
    pub fn push(&mut self, loc: Location, item: V)
        requires
            old(self).wf(),
        ensures
            final(self).wf(),
            final(self)@ == loc_push_spec(old(self)@, loc, item@),
    {
        let ghost m = self@;
        let mut i: usize = 0;
        while i < self.entries.len()
            && (self.entries[i].loc.file < loc.file
                || (self.entries[i].loc.file == loc.file && self.entries[i].loc.line < loc.line))
            invariant
                i <= self.entries@.len(),
                forall|k: int| 0 <= k < i ==> loc_lt(#[trigger] m[k].0, loc),
            decreases self.entries@.len() - i,
        {
            i = i + 1;
        }
        proof {
            lemma_loc_push_skip(m, loc, item@, i as int);
        }
        if i < self.entries.len() && self.entries[i].loc == loc {
            let mut e = self.entries.remove(i);
            e.items.push(item);
            self.entries.insert(i, e);
            proof {
                assert(m.skip(i as int)[0].0 == loc);
                assert(loc_push_spec(m.skip(i as int), loc, item@)
                    == seq![(loc, m.skip(i as int)[0].1.push(item@))] + m.skip(i as int).skip(1));
                assert(self@ =~~= m.take(i as int) + loc_push_spec(m.skip(i as int), loc, item@));
                assert(forall|k: int| 0 <= k < self@.len() ==> #[trigger] self@[k].0 == m[k].0);
            }
        } else {
            let mut items: Vec<V> = Vec::new();
            items.push(item);
            self.entries.insert(i, LocEntry { loc, items });
            proof {
                if i < m.len() {
                    assert(m.skip(i as int)[0].0 == m[i as int].0);
                    assert(m[i as int].0 != loc);
                    assert(!loc_lt(m[i as int].0, loc));
                    assert(loc_lt(loc, m[i as int].0));
                    assert(loc_push_spec(m.skip(i as int), loc, item@)
                        == seq![(loc, seq![item@])] + m.skip(i as int));
                } else {
                    assert(m.skip(i as int) =~= Seq::<(Location, Seq<<V as View>::V>)>::empty());
                }
                assert(self@ =~~= m.take(i as int) + loc_push_spec(m.skip(i as int), loc, item@));
                assert(forall|k: int| 0 <= k < i ==> #[trigger] self@[k].0 == m[k].0);
                assert(self@[i as int].0 == loc);
                assert(forall|k: int| i < k < self@.len() ==> #[trigger] self@[k].0 == m[k - 1].0);
            }
        }
    }

}

} // verus!
