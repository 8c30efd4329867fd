//! The class-boundary tracker: a single forward pass over the ordered
//! definition groups that inserts class close and open/extends/open-brace
//! scaffolding at class-transition points.
//!
//! The pass is specified as a pure fold (`track_step` per definition) over
//! an explicit accumulator: the output map so far, the location and class of
//! the most recent non-comment definition, and the remaining extends
//! entries. The accumulator also carries spec-only counters for the
//! scaffolding laws: how many opens and closes were inserted, and how often
//! each class's extends annotation was emitted.

use vstd::prelude::*;
use crate::bytesutil::{append_bytes, bytes_eq};
use crate::defs::{DefSpec, Definitions, ExtendsMap};
use crate::loc::{LocMap, Location, loc_push_spec};

verus! {

/// The close fragment `}`.
pub open spec fn close_frag() -> Seq<u8> {
    seq![125u8]
}

/// The open-brace fragment `{`.
pub open spec fn open_brace_frag() -> Seq<u8> {
    seq![123u8]
}

/// The class-open fragment `class <name>`.
pub open spec fn class_frag(class: Seq<u8>) -> Seq<u8> {
    seq![99u8, 108u8, 97u8, 115u8, 115u8, 32u8] + class
}

/// The extends fragment ` extends <parent>`.
pub open spec fn extends_frag(parent: Seq<u8>) -> Seq<u8> {
    seq![32u8, 101u8, 120u8, 116u8, 101u8, 110u8, 100u8, 115u8, 32u8] + parent
}

/// The boundary tracker's accumulator.
pub ghost struct TrackSt {
    /// Output so far: fragments grouped per location.
    pub out: Seq<(Location, Seq<Seq<u8>>)>,
    /// Location and class of the most recent non-comment definition.
    pub last: Option<(Location, Seq<u8>)>,
    /// Extends entries not yet consumed.
    pub ext: Map<Seq<u8>, Seq<u8>>,
    /// How many class-open fragments were inserted.
    pub opened: nat,
    /// How many close fragments were inserted.
    pub closed: nat,
    /// One when the first non-comment definition already lay in a class, so
    /// that class's close never had a matching open.
    pub debt: nat,
    /// How often each class's extends annotation was emitted.
    pub ext_count: Map<Seq<u8>, nat>,
}

/// The accumulator before any definition is seen.
pub open spec fn init_st(ext0: Map<Seq<u8>, Seq<u8>>) -> TrackSt {
    TrackSt {
        out: Seq::empty(),
        last: None,
        ext: ext0,
        opened: 0,
        closed: 0,
        debt: 0,
        ext_count: Map::new(|c: Seq<u8>| true, |c: Seq<u8>| 0),
    }
}

/// One definition's effect: scaffolding first when a boundary fires, then
/// the definition's own fragment at its own location. Comments pass through
/// without touching the boundary state.
pub open spec fn track_step(st: TrackSt, loc: Location, d: DefSpec) -> TrackSt {
    let st1 = if !d.comment {
        match st.last {
            Some(lp) => {
                if d.class != lp.1 || loc.file != lp.0.file {
                    let fired_close = lp.1.len() > 0;
                    let out1 = if fired_close {
                        loc_push_spec(st.out, lp.0, close_frag())
                    } else {
                        st.out
                    };
                    let closed1 = if fired_close {
                        st.closed + 1
                    } else {
                        st.closed
                    };
                    if d.class.len() > 0 {
                        let out2 = loc_push_spec(out1, loc, class_frag(d.class));
                        let has_ext = st.ext.contains_key(d.class);
                        let out3 = if has_ext {
                            loc_push_spec(out2, loc, extends_frag(st.ext[d.class]))
                        } else {
                            out2
                        };
                        let ext3 = if has_ext {
                            st.ext.remove(d.class)
                        } else {
                            st.ext
                        };
                        let cnt3 = if has_ext {
                            st.ext_count.insert(d.class, (st.ext_count[d.class] + 1) as nat)
                        } else {
                            st.ext_count
                        };
                        TrackSt {
                            out: loc_push_spec(out3, loc, open_brace_frag()),
                            last: Some((loc, d.class)),
                            ext: ext3,
                            opened: st.opened + 1,
                            closed: closed1,
                            debt: st.debt,
                            ext_count: cnt3,
                        }
                    } else {
                        TrackSt {
                            out: out1,
                            last: Some((loc, d.class)),
                            ext: st.ext,
                            opened: st.opened,
                            closed: closed1,
                            debt: st.debt,
                            ext_count: st.ext_count,
                        }
                    }
                } else {
                    TrackSt {
                        out: st.out,
                        last: Some((loc, d.class)),
                        ext: st.ext,
                        opened: st.opened,
                        closed: st.closed,
                        debt: st.debt,
                        ext_count: st.ext_count,
                    }
                }
            },
            None => TrackSt {
                out: st.out,
                last: Some((loc, d.class)),
                ext: st.ext,
                opened: st.opened,
                closed: st.closed,
                debt: if d.class.len() > 0 {
                    1
                } else {
                    0
                },
                ext_count: st.ext_count,
            },
        }
    } else {
        st
    };
    TrackSt {
        out: loc_push_spec(st1.out, loc, d.bit),
        last: st1.last,
        ext: st1.ext,
        opened: st1.opened,
        closed: st1.closed,
        debt: st1.debt,
        ext_count: st1.ext_count,
    }
}

/// Folds `track_step` over one location's definitions, in production order.
pub open spec fn track_defs(st: TrackSt, loc: Location, ds: Seq<DefSpec>) -> TrackSt
    decreases ds.len(),
{
    if ds.len() == 0 {
        st
    } else {
        track_defs(track_step(st, loc, ds[0]), loc, ds.skip(1))
    }
}

/// Folds `track_step` over all groups, in location order.
pub open spec fn track_groups(st: TrackSt, gs: Seq<(Location, Seq<DefSpec>)>) -> TrackSt
    decreases gs.len(),
{
    if gs.len() == 0 {
        st
    } else {
        track_groups(track_defs(st, gs[0].0, gs[0].1), gs.skip(1))
    }
}

/// At stream end, a still-open class gets its synthetic close, attributed to
/// the last location that contributed to it.
pub open spec fn track_finish(st: TrackSt) -> TrackSt {
    match st.last {
        Some(lp) => if lp.1.len() > 0 {
            TrackSt {
                out: loc_push_spec(st.out, lp.0, close_frag()),
                last: st.last,
                ext: st.ext,
                opened: st.opened,
                closed: st.closed + 1,
                debt: st.debt,
                ext_count: st.ext_count,
            }
        } else {
            st
        },
        None => st,
    }
}

/// The whole pass: fold over the groups, then the final close.
pub open spec fn collate_spec(
    gs: Seq<(Location, Seq<DefSpec>)>,
    ext0: Map<Seq<u8>, Seq<u8>>,
) -> Seq<(Location, Seq<Seq<u8>>)> {
    track_finish(track_groups(init_st(ext0), gs)).out
}

/// Folding a definition list one longer folds the last definition last.
pub proof fn lemma_track_defs_concat(st: TrackSt, loc: Location, a: Seq<DefSpec>, b: Seq<DefSpec>)
    ensures
        track_defs(st, loc, a + b) == track_defs(track_defs(st, loc, a), loc, b),
    decreases a.len(),
{
    if a.len() == 0 {
        assert(a + b =~= b);
    } else {
        assert((a + b).skip(1) =~= a.skip(1) + b);
        lemma_track_defs_concat(track_step(st, loc, a[0]), loc, a.skip(1), b);
    }
}

/// Folding a group list one longer folds the last group last.
pub proof fn lemma_track_groups_concat(
    st: TrackSt,
    a: Seq<(Location, Seq<DefSpec>)>,
    b: Seq<(Location, Seq<DefSpec>)>,
)
    ensures
        track_groups(st, a + b) == track_groups(track_groups(st, a), b),
    decreases a.len(),
{
    if a.len() == 0 {
        assert(a + b =~= b);
    } else {
        assert((a + b).skip(1) =~= a.skip(1) + b);
        lemma_track_groups_concat(track_defs(st, a[0].0, a[0].1), a.skip(1), b);
    }
}

/// The spec-level image of the tracker's executable `last` state.
pub open spec fn last_view(l: Option<(Location, Vec<u8>)>) -> Option<(Location, Seq<u8>)> {
    match l {
        Some(p) => Some((p.0, p.1@)),
        None => None,
    }
}

/// Copies a byte vector.
pub fn clone_bytes(v: &Vec<u8>) -> (r: Vec<u8>)
    ensures
        r@ == v@,
{
    let mut r: Vec<u8> = Vec::new();
    append_bytes(&mut r, v);
    proof {
        assert(Seq::<u8>::empty() + v@ =~= v@);
    }
    r
}

/// Builds the close fragment.
fn close_vec() -> (r: Vec<u8>)
    ensures
        r@ == close_frag(),
{
    let mut r: Vec<u8> = Vec::new();
    r.push(125);
    proof {
        assert(r@ =~= close_frag());
    }
    r
}

/// Builds the open-brace fragment.
fn brace_vec() -> (r: Vec<u8>)
    ensures
        r@ == open_brace_frag(),
{
    let mut r: Vec<u8> = Vec::new();
    r.push(123);
    proof {
        assert(r@ =~= open_brace_frag());
    }
    r
}

/// Builds the class-open fragment for `class`.
fn class_vec(class: &Vec<u8>) -> (r: Vec<u8>)
    ensures
        r@ == class_frag(class@),
{
    let mut r: Vec<u8> = Vec::new();
    r.push(99);
    r.push(108);
    r.push(97);
    r.push(115);
    r.push(115);
    r.push(32);
    proof {
        assert(r@ =~= seq![99u8, 108u8, 97u8, 115u8, 115u8, 32u8]);
    }
    append_bytes(&mut r, class);
    r
}

/// Builds the extends fragment for `parent`.
fn extends_vec(parent: &Vec<u8>) -> (r: Vec<u8>)
    ensures
        r@ == extends_frag(parent@),
{
    let mut r: Vec<u8> = Vec::new();
    r.push(32);
    r.push(101);
    r.push(120);
    r.push(116);
    r.push(101);
    r.push(110);
    r.push(100);
    r.push(115);
    r.push(32);
    proof {
        assert(r@ =~= seq![32u8, 101u8, 120u8, 116u8, 101u8, 110u8, 100u8, 115u8, 32u8]);
    }
    append_bytes(&mut r, parent);
    r
}

/// Runs the boundary pass: consumes the extends working set and produces the
/// augmented output map, fragments grouped per location.
#[verifier::loop_isolation(false)]
pub fn collate(defs: &Definitions, extends: ExtendsMap) -> (out: LocMap<Vec<u8>>)
    requires
        defs.wf(),
        extends.wf(),
    ensures
        out.wf(),
        out@ == collate_spec(defs@, extends@),
{
    let ghost ext0 = extends@;
    let mut out: LocMap<Vec<u8>> = LocMap::new();
    let mut ext = extends;
    let mut last: Option<(Location, Vec<u8>)> = None;
    let ghost mut st = init_st(ext0);
    proof {
        assert(defs@.take(0) =~= Seq::<(Location, Seq<DefSpec>)>::empty());
    }
    let mut gi: usize = 0;
    while gi < defs.map.entries.len()
        invariant
            gi <= defs.map.entries@.len(),
            st == track_groups(init_st(ext0), defs@.take(gi as int)),
            out@ == st.out,
            out.wf(),
            ext@ == st.ext,
            ext.wf(),
            last_view(last) == st.last,
        decreases defs.map.entries@.len() - gi,
    {
        let loc = defs.map.entries[gi].loc;
        let ghost ds = defs@[gi as int].1;
        let ghost st_g = st;
        proof {
            assert(ds.take(0) =~= Seq::<DefSpec>::empty());
        }
        let mut ji: usize = 0;
        while ji < defs.map.entries[gi].items.len()
            invariant
                gi < defs.map.entries@.len(),
                ji <= defs.map.entries@[gi as int].items@.len(),
                ds == defs@[gi as int].1,
                loc == defs@[gi as int].0,
                st_g == track_groups(init_st(ext0), defs@.take(gi as int)),
                st == track_defs(st_g, loc, ds.take(ji as int)),
                out@ == st.out,
                out.wf(),
                ext@ == st.ext,
                ext.wf(),
                last_view(last) == st.last,
            decreases defs.map.entries@[gi as int].items@.len() - ji,
        {
            let d = &defs.map.entries[gi].items[ji];
            let ghost dv = d@;
            let ghost st0 = st;
            if !d.comment {
                let mut fire: bool = false;
                if let Some(lp) = &last {
                    if !bytes_eq(&d.class, &lp.1) || loc.file != lp.0.file {
                        fire = true;
                        if lp.1.len() > 0 {
                            out.push(lp.0, close_vec());
                        }
                        if d.class.len() > 0 {
                            out.push(loc, class_vec(&d.class));
                            match ext.remove(&d.class) {
                                Some(parent) => {
                                    out.push(loc, extends_vec(&parent));
                                },
                                None => {},
                            }
                            out.push(loc, brace_vec());
                        }
                    }
                }
                last = Some((loc, clone_bytes(&d.class)));
            }
            out.push(loc, clone_bytes(&d.bit));
            proof {
                st = track_step(st0, loc, dv);
                if !dv.comment && st0.last is Some {
                    let lp = st0.last->Some_0;
                    if (dv.class != lp.1 || loc.file != lp.0.file) && dv.class.len() > 0
                        && !st0.ext.contains_key(dv.class) {
                        assert(st0.ext.remove(dv.class) =~= st0.ext);
                    }
                }
                assert(out@ == st.out);
                assert(ext@ == st.ext);
                assert(last_view(last) == st.last);
                lemma_track_defs_concat(st_g, loc, ds.take(ji as int), seq![dv]);
                assert(ds.take(ji as int) + seq![dv] =~= ds.take(ji + 1));
                assert(seq![dv].skip(1) =~= Seq::<DefSpec>::empty());
                assert(dv == ds[ji as int]);
                assert(track_defs(st, loc, seq![dv].skip(1)) == st);
                assert(track_defs(st0, loc, seq![dv]) == st);
                assert(track_defs(st_g, loc, ds.take(ji + 1)) == st);
            }
            ji = ji + 1;
        }
        proof {
            assert(ds.take(ds.len() as int) =~= ds);
            assert(st == track_defs(st_g, loc, ds));
            let g = defs@[gi as int];
            assert(g.0 == loc && g.1 == ds);
            assert(seq![g].skip(1) =~= Seq::<(Location, Seq<DefSpec>)>::empty());
            assert(track_groups(st, seq![g].skip(1)) == st);
            assert(track_groups(st_g, seq![g]) == st);
            lemma_track_groups_concat(init_st(ext0), defs@.take(gi as int), seq![g]);
            assert(defs@.take(gi as int) + seq![g] =~= defs@.take(gi + 1));
            st = track_groups(init_st(ext0), defs@.take(gi + 1));
            assert(st.out == out@);
        }
        gi = gi + 1;
    }
    proof {
        assert(defs@.take(defs@.len() as int) =~= defs@);
    }
    if let Some(lp) = &last {
        if lp.1.len() > 0 {
            out.push(lp.0, close_vec());
        }
    }
    out
}

} // verus!
