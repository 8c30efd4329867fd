//! Laws of the collation core, stated and proved over the same spec
//! functions the executable functions are verified against.

use vstd::prelude::*;
use crate::collate::{TrackSt, init_st, track_finish, track_groups, track_step, track_defs};
use crate::defs::DefSpec;
use crate::loc::{Location, loc_lt, loc_push_fold, loc_push_spec};

verus! {

/// Locations strictly ascending.
pub open spec fn sorted_locs<T>(m: Seq<(Location, Seq<T>)>) -> bool {
    forall|i: int, j: int| 0 <= i < j < m.len() ==> loc_lt(#[trigger] m[i].0, #[trigger] m[j].0)
}

/// The items grouped at one location (empty when the location is absent).
pub open spec fn group_at<T>(m: Seq<(Location, Seq<T>)>, loc: Location) -> Seq<T>
    decreases m.len(),
{
    if m.len() == 0 {
        Seq::<T>::empty()
    } else if m[0].0 == loc {
        m[0].1
    } else {
        group_at(m.skip(1), loc)
    }
}

/// The items pushed at one location, in production order.
pub open spec fn pushes_at<T>(ps: Seq<(Location, T)>, loc: Location) -> Seq<T>
    decreases ps.len(),
{
    if ps.len() == 0 {
        Seq::<T>::empty()
    } else if ps[0].0 == loc {
        seq![ps[0].1] + pushes_at(ps.skip(1), loc)
    } else {
        pushes_at(ps.skip(1), loc)
    }
}

/// One more push at the end lands at the end of its location's selection.
pub proof fn lemma_pushes_at_snoc<T>(ps: Seq<(Location, T)>, x: (Location, T), loc: Location)
    ensures
        pushes_at(ps.push(x), loc) == if x.0 == loc {
            pushes_at(ps, loc).push(x.1)
        } else {
            pushes_at(ps, loc)
        },
    decreases ps.len(),
{
    if ps.len() == 0 {
        assert(ps.push(x)[0] == x);
        assert(ps.push(x).skip(1) =~= Seq::<(Location, T)>::empty());
        assert(pushes_at(Seq::<(Location, T)>::empty(), loc) == Seq::<T>::empty());
        if x.0 == loc {
            assert(seq![x.1] + Seq::<T>::empty() =~= Seq::<T>::empty().push(x.1));
        }
    } else {
        assert(ps.push(x).skip(1) =~= ps.skip(1).push(x));
        lemma_pushes_at_snoc(ps.skip(1), x, loc);
        if ps[0].0 == loc && x.0 == loc {
            assert(seq![ps[0].1] + pushes_at(ps.skip(1), loc).push(x.1)
                =~= (seq![ps[0].1] + pushes_at(ps.skip(1), loc)).push(x.1));
        }
    }
}

/// Every location in a pushed map is the pushed one or was already there.
pub proof fn lemma_push_keys<T>(m: Seq<(Location, Seq<T>)>, loc: Location, item: T, j: int)
    requires
        0 <= j < loc_push_spec(m, loc, item).len(),
    ensures
        loc_push_spec(m, loc, item)[j].0 == loc || exists|i: int|
            0 <= i < m.len() && (#[trigger] m[i].0) == loc_push_spec(m, loc, item)[j].0,
    decreases m.len(),
{
    if m.len() == 0 {
    } else if loc_lt(loc, m[0].0) {
        if j > 0 {
            assert(m[j - 1].0 == loc_push_spec(m, loc, item)[j].0);
        }
    } else if m[0].0 == loc {
        if j > 0 {
            assert(m[j].0 == loc_push_spec(m, loc, item)[j].0);
        }
    } else {
        if j > 0 {
            lemma_push_keys(m.skip(1), loc, item, j - 1);
            if loc_push_spec(m, loc, item)[j].0 != loc {
                let i = choose|i: int|
                    0 <= i < m.skip(1).len() && (#[trigger] m.skip(1)[i].0)
                        == loc_push_spec(m.skip(1), loc, item)[j - 1].0;
                assert(m[i + 1].0 == loc_push_spec(m, loc, item)[j].0);
            }
        }
    }
}

/// A push keeps the locations strictly ascending.
pub proof fn lemma_push_sorted<T>(m: Seq<(Location, Seq<T>)>, loc: Location, item: T)
    requires
        sorted_locs(m),
    ensures
        sorted_locs(loc_push_spec(m, loc, item)),
    decreases m.len(),
{
    if m.len() == 0 {
    } else if loc_lt(loc, m[0].0) {
    } else if m[0].0 == loc {
    } else {
        assert(forall|i: int, j: int| 0 <= i < j < m.skip(1).len()
            ==> loc_lt(#[trigger] m.skip(1)[i].0, #[trigger] m.skip(1)[j].0));
        lemma_push_sorted(m.skip(1), loc, item);
        let r = loc_push_spec(m, loc, item);
        let r1 = loc_push_spec(m.skip(1), loc, item);
        assert forall|j: int| 1 <= j < r.len() implies loc_lt(r[0].0, #[trigger] r[j].0) by {
            assert(r[j] == r1[j - 1]);
            lemma_push_keys(m.skip(1), loc, item, j - 1);
            if r1[j - 1].0 != loc {
                let i = choose|i: int|
                    0 <= i < m.skip(1).len() && (#[trigger] m.skip(1)[i].0) == r1[j - 1].0;
                assert(loc_lt(m[0].0, m[i + 1].0));
            }
        }
    }
}

/// A push appends to its own location's group and leaves the others alone.
pub proof fn lemma_push_group_at<T>(
    m: Seq<(Location, Seq<T>)>,
    loc: Location,
    item: T,
    at: Location,
)
    requires
        sorted_locs(m),
    ensures
        group_at(loc_push_spec(m, loc, item), at) == if at == loc {
            group_at(m, at).push(item)
        } else {
            group_at(m, at)
        },
    decreases m.len(),
{
    let r = loc_push_spec(m, loc, item);
    assert(group_at(Seq::<(Location, Seq<T>)>::empty(), at) == Seq::<T>::empty());
    if m.len() == 0 {
        assert(r[0] == (loc, seq![item]));
        assert(r.skip(1) =~= Seq::<(Location, Seq<T>)>::empty());
        if at == loc {
            assert(group_at(r, at) == seq![item]);
            assert(seq![item] =~= Seq::<T>::empty().push(item));
        } else {
            assert(group_at(r, at) == group_at(r.skip(1), at));
        }
    } else if loc_lt(loc, m[0].0) {
        assert(r[0] == (loc, seq![item]));
        assert(r.skip(1) =~= m);
        if at == loc {
            assert(group_at(r, at) == seq![item]);
            assert(forall|i: int| 0 <= i < m.len() ==> loc_lt(loc, #[trigger] m[i].0));
            assert(forall|i: int| 0 <= i < m.len() ==> (#[trigger] m[i].0) != at);
            lemma_group_at_absent(m, at);
            assert(seq![item] =~= Seq::<T>::empty().push(item));
        } else {
            assert(group_at(r, at) == group_at(m, at));
        }
    } else if m[0].0 == loc {
        assert(r[0] == (m[0].0, m[0].1.push(item)));
        assert(r.skip(1) =~= m.skip(1));
        if at == loc {
            assert(group_at(r, at) == m[0].1.push(item));
            assert(group_at(m, at) == m[0].1);
        } else {
            assert(group_at(r, at) == group_at(m.skip(1), at));
            assert(group_at(m, at) == group_at(m.skip(1), at));
        }
    } else {
        assert(r[0] == m[0]);
        assert(r.skip(1) =~= loc_push_spec(m.skip(1), loc, item));
        assert(forall|i: int, j: int| 0 <= i < j < m.skip(1).len()
            ==> loc_lt(#[trigger] m.skip(1)[i].0, #[trigger] m.skip(1)[j].0));
        lemma_push_group_at(m.skip(1), loc, item, at);
        if at == m[0].0 {
            assert(at != loc);
            assert(group_at(r, at) == r[0].1);
            assert(group_at(m, at) == m[0].1);
        } else {
            assert(group_at(r, at) == group_at(r.skip(1), at));
            assert(group_at(m, at) == group_at(m.skip(1), at));
        }
    }
}

/// A location carried by no group has the empty group.
pub proof fn lemma_group_at_absent<T>(m: Seq<(Location, Seq<T>)>, at: Location)
    requires
        forall|i: int| 0 <= i < m.len() ==> (#[trigger] m[i].0) != at,
    ensures
        group_at(m, at) == Seq::<T>::empty(),
    decreases m.len(),
{
    if m.len() > 0 {
        assert(forall|i: int| 0 <= i < m.skip(1).len() ==> (#[trigger] m.skip(1)[i].0) != at);
        lemma_group_at_absent(m.skip(1), at);
    }
}

/// Law: in the index built from a push stream, the group at any location
/// holds exactly the items pushed there, in their production order.
pub proof fn lemma_production_order(ps: Seq<(Location, DefSpec)>, at: Location)
    ensures
        sorted_locs(loc_push_fold(Seq::<(Location, Seq<DefSpec>)>::empty(), ps)),
        group_at(loc_push_fold(Seq::<(Location, Seq<DefSpec>)>::empty(), ps), at)
            == pushes_at(ps, at),
    decreases ps.len(),
{
    if ps.len() == 0 {
        assert(pushes_at(ps, at) == Seq::<DefSpec>::empty());
    } else {
        let q = ps.drop_last();
        let x = ps.last();
        assert(ps =~= q.push(x));
        lemma_production_order(q, at);
        crate::loc::lemma_loc_push_fold_snoc(
            Seq::<(Location, Seq<DefSpec>)>::empty(),
            q,
            x,
        );
        let mq = loc_push_fold(Seq::<(Location, Seq<DefSpec>)>::empty(), q);
        lemma_push_sorted(mq, x.0, x.1);
        lemma_push_group_at(mq, x.0, x.1, at);
        lemma_pushes_at_snoc(q, x, at);
    }
}

/// One step of the boundary pass appends to a location's fragment group or
/// leaves it alone: what already stands in the output keeps its order.
pub proof fn lemma_step_appends(st: TrackSt, loc: Location, d: DefSpec, at: Location)
    requires
        sorted_locs(st.out),
    ensures
        sorted_locs(track_step(st, loc, d).out),
        group_at(st.out, at).is_prefix_of(group_at(track_step(st, loc, d).out, at)),
{
    let r = track_step(st, loc, d);
    if d.comment {
        lemma_push_sorted(st.out, loc, d.bit);
        lemma_push_group_at(st.out, loc, d.bit, at);
    } else {
        match st.last {
            Some(lp) => {
                if d.class != lp.1 || loc.file != lp.0.file {
                    let out1 = if lp.1.len() > 0 {
                        lemma_push_sorted(st.out, lp.0, crate::collate::close_frag());
                        lemma_push_group_at(st.out, lp.0, crate::collate::close_frag(), at);
                        loc_push_spec(st.out, lp.0, crate::collate::close_frag())
                    } else {
                        st.out
                    };
                    if d.class.len() > 0 {
                        lemma_push_sorted(out1, loc, crate::collate::class_frag(d.class));
                        lemma_push_group_at(out1, loc, crate::collate::class_frag(d.class), at);
                        let out2 = loc_push_spec(out1, loc, crate::collate::class_frag(d.class));
                        let out3 = if st.ext.contains_key(d.class) {
                            lemma_push_sorted(
                                out2,
                                loc,
                                crate::collate::extends_frag(st.ext[d.class]),
                            );
                            lemma_push_group_at(
                                out2,
                                loc,
                                crate::collate::extends_frag(st.ext[d.class]),
                                at,
                            );
                            loc_push_spec(out2, loc, crate::collate::extends_frag(st.ext[d.class]))
                        } else {
                            out2
                        };
                        lemma_push_sorted(out3, loc, crate::collate::open_brace_frag());
                        lemma_push_group_at(out3, loc, crate::collate::open_brace_frag(), at);
                        let out4 = loc_push_spec(out3, loc, crate::collate::open_brace_frag());
                        lemma_push_sorted(out4, loc, d.bit);
                        lemma_push_group_at(out4, loc, d.bit, at);
                    } else {
                        lemma_push_sorted(out1, loc, d.bit);
                        lemma_push_group_at(out1, loc, d.bit, at);
                    }
                } else {
                    lemma_push_sorted(st.out, loc, d.bit);
                    lemma_push_group_at(st.out, loc, d.bit, at);
                }
            },
            None => {
                lemma_push_sorted(st.out, loc, d.bit);
                lemma_push_group_at(st.out, loc, d.bit, at);
            },
        }
        assert(sorted_locs(r.out));
    }
}

/// A whole definition group only appends to any location's fragments.
pub proof fn lemma_defs_appends(st: TrackSt, loc: Location, ds: Seq<DefSpec>, at: Location)
    requires
        sorted_locs(st.out),
    ensures
        sorted_locs(track_defs(st, loc, ds).out),
        group_at(st.out, at).is_prefix_of(group_at(track_defs(st, loc, ds).out, at)),
    decreases ds.len(),
{
    if ds.len() == 0 {
    } else {
        lemma_step_appends(st, loc, ds[0], at);
        lemma_defs_appends(track_step(st, loc, ds[0]), loc, ds.skip(1), at);
    }
}

/// The whole group stream only appends to any location's fragments.
pub proof fn lemma_groups_appends(
    st: TrackSt,
    gs: Seq<(Location, Seq<DefSpec>)>,
    at: Location,
)
    requires
        sorted_locs(st.out),
    ensures
        sorted_locs(track_groups(st, gs).out),
        group_at(st.out, at).is_prefix_of(group_at(track_groups(st, gs).out, at)),
    decreases gs.len(),
{
    if gs.len() == 0 {
    } else {
        lemma_defs_appends(st, gs[0].0, gs[0].1, at);
        lemma_groups_appends(track_defs(st, gs[0].0, gs[0].1), gs.skip(1), at);
    }
}

/// Law: over a full collation run, fragments already placed at a location
/// are never reordered or displaced — later work only appends after them —
/// so co-located definitions keep their relative production order in the
/// output.
pub proof fn lemma_output_order(
    st: TrackSt,
    gs: Seq<(Location, Seq<DefSpec>)>,
    at: Location,
)
    requires
        sorted_locs(st.out),
    ensures
        group_at(st.out, at).is_prefix_of(
            group_at(track_finish(track_groups(st, gs)).out, at),
        ),
{
    lemma_groups_appends(st, gs, at);
    let stf = track_groups(st, gs);
    match stf.last {
        Some(lp) => {
            if lp.1.len() > 0 {
                lemma_push_group_at(stf.out, lp.0, crate::collate::close_frag(), at);
            }
        },
        None => {},
    }
}

/// One when the tracker currently stands inside a class whose close is
/// still owed, zero otherwise.
pub open spec fn pending(st: TrackSt) -> nat {
    match st.last {
        Some(lp) => if lp.1.len() > 0 {
            1
        } else {
            0
        },
        None => 0,
    }
}

/// The running balance between opens and closes: every inserted close is
/// accounted for by an inserted open, the class still standing open, or the
/// one class that was already open when the stream began.
pub open spec fn balance_ok(st: TrackSt) -> bool {
    &&& st.opened + st.debt == st.closed + pending(st)
    &&& st.debt <= 1
    &&& st.last is None ==> st.debt == 0
}

/// One step preserves the balance.
pub proof fn lemma_step_balance(st: TrackSt, loc: Location, d: DefSpec)
    requires
        balance_ok(st),
    ensures
        balance_ok(track_step(st, loc, d)),
{
}

/// A definition group preserves the balance.
pub proof fn lemma_defs_balance(st: TrackSt, loc: Location, ds: Seq<DefSpec>)
    requires
        balance_ok(st),
    ensures
        balance_ok(track_defs(st, loc, ds)),
    decreases ds.len(),
{
    if ds.len() > 0 {
        lemma_step_balance(st, loc, ds[0]);
        lemma_defs_balance(track_step(st, loc, ds[0]), loc, ds.skip(1));
    }
}

/// The whole group stream preserves the balance.
pub proof fn lemma_groups_balance(st: TrackSt, gs: Seq<(Location, Seq<DefSpec>)>)
    requires
        balance_ok(st),
    ensures
        balance_ok(track_groups(st, gs)),
    decreases gs.len(),
{
    if gs.len() > 0 {
        lemma_defs_balance(st, gs[0].0, gs[0].1);
        lemma_groups_balance(track_defs(st, gs[0].0, gs[0].1), gs.skip(1));
    }
}

/// Law: over a full run, every class-open got exactly one close — counting
/// the synthetic close at end-of-stream — except that one close may lack an
/// open when the very first non-comment definition already lay in a class.
pub proof fn lemma_scaffold_balance(gs: Seq<(Location, Seq<DefSpec>)>, ext0: Map<Seq<u8>, Seq<u8>>)
    ensures
        ({
            let fin = track_finish(track_groups(init_st(ext0), gs));
            fin.closed == fin.opened + fin.debt && fin.debt <= 1
        }),
{
    lemma_groups_balance(init_st(ext0), gs);
}

/// Extends bookkeeping: a class still in the working set was never emitted,
/// and no class was emitted more than once.
pub open spec fn extends_ok(st: TrackSt) -> bool {
    &&& forall|c: Seq<u8>| st.ext.contains_key(c) ==> (#[trigger] st.ext_count[c]) == 0
    &&& forall|c: Seq<u8>| (#[trigger] st.ext_count[c]) <= 1
    &&& forall|c: Seq<u8>| #[trigger] st.ext_count.contains_key(c)
}

/// One step preserves the extends bookkeeping.
pub proof fn lemma_step_extends(st: TrackSt, loc: Location, d: DefSpec)
    requires
        extends_ok(st),
    ensures
        extends_ok(track_step(st, loc, d)),
{
}

/// A definition group preserves the extends bookkeeping.
pub proof fn lemma_defs_extends(st: TrackSt, loc: Location, ds: Seq<DefSpec>)
    requires
        extends_ok(st),
    ensures
        extends_ok(track_defs(st, loc, ds)),
    decreases ds.len(),
{
    if ds.len() > 0 {
        lemma_step_extends(st, loc, ds[0]);
        lemma_defs_extends(track_step(st, loc, ds[0]), loc, ds.skip(1));
    }
}

/// The whole group stream preserves the extends bookkeeping.
pub proof fn lemma_groups_extends(st: TrackSt, gs: Seq<(Location, Seq<DefSpec>)>)
    requires
        extends_ok(st),
    ensures
        extends_ok(track_groups(st, gs)),
    decreases gs.len(),
{
    if gs.len() > 0 {
        lemma_defs_extends(st, gs[0].0, gs[0].1);
        lemma_groups_extends(track_defs(st, gs[0].0, gs[0].1), gs.skip(1));
    }
}

/// Law: across a full run, each class's extends annotation is emitted at
/// most once, however often the collaborator reports the class.
pub proof fn lemma_extends_once(gs: Seq<(Location, Seq<DefSpec>)>, ext0: Map<Seq<u8>, Seq<u8>>)
    ensures
        forall|c: Seq<u8>|
            (#[trigger] track_finish(track_groups(init_st(ext0), gs)).ext_count[c]) <= 1,
{
    lemma_groups_extends(init_st(ext0), gs);
}

} // verus!
