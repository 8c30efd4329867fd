//! The definition collector: turns the collaborator's type tree — handed
//! over as a pre-order list of type records — and its comment stream into
//! the flat definition index and the class-to-parent lookup.

use vstd::prelude::*;
use crate::bytesutil::{append_bytes, join_scope, join_spec, views_of};
use crate::collate::clone_bytes;
use crate::defs::{DefSpec, Definition, Definitions, ExtendsMap};
use crate::loc::{Location, loc_push_fold, loc_push_spec, lemma_loc_push_fold_concat,
    lemma_loc_push_fold_snoc};
use crate::paths::{path, qualify_spec};

verus! {

/// A free-floating doc comment at its location.
pub struct Comment {
    pub location: Location,
    pub text: Vec<u8>,
}

/// A variable member: its name and, when locally declared, the declared
/// type's path segments.
pub struct VarEntry {
    pub location: Location,
    pub name: Vec<u8>,
    pub declaration: Option<Vec<Vec<u8>>>,
}

/// One procedure parameter: type path segments and parameter name.
pub struct Param {
    pub path: Vec<Vec<u8>>,
    pub name: Vec<u8>,
}

/// A procedure member: its name, whether its site declares it (and then
/// whether as a verb), and its parameters in declared order.
pub struct ProcEntry {
    pub location: Location,
    pub name: Vec<u8>,
    pub declaration: Option<bool>,
    pub parameters: Vec<Param>,
}

/// One node of the type tree, in pre-order: its slash path (empty for the
/// root), its parent's slash path if it has a named parent, and its members
/// in stable declaration order.
pub struct TypeEntry {
    pub location: Location,
    pub path: Vec<u8>,
    pub parent_path: Option<Vec<u8>>,
    pub vars: Vec<VarEntry>,
    pub procs: Vec<ProcEntry>,
}

/// A type's owning class name: empty for the root, else its qualified path.
pub open spec fn class_of(t: TypeEntry) -> Seq<u8> {
    if t.path@.len() == 0 {
        Seq::<u8>::empty()
    } else {
        qualify_spec(t.path@)
    }
}

/// A variable's declared-type prefix: empty without a local declaration.
pub open spec fn var_decl_spec(v: VarEntry) -> Seq<u8> {
    match v.declaration {
        None => Seq::<u8>::empty(),
        Some(p) => join_spec(views_of(p@)),
    }
}

/// A variable's fragment: `<decl> <name>;`.
pub open spec fn var_frag(v: VarEntry) -> Seq<u8> {
    var_decl_spec(v) + seq![32u8] + v.name@ + seq![59u8]
}

/// A procedure's qualifier: `proc`/`verb` when declared at this site.
pub open spec fn proc_qual_spec(p: ProcEntry) -> Seq<u8> {
    match p.declaration {
        None => Seq::<u8>::empty(),
        Some(is_verb) => if is_verb {
            seq![118u8, 101u8, 114u8, 98u8]
        } else {
            seq![112u8, 114u8, 111u8, 99u8]
        },
    }
}

/// A procedure's opening fragment: `<qualifier> <name>(`.
pub open spec fn proc_open_frag(p: ProcEntry) -> Seq<u8> {
    proc_qual_spec(p) + seq![32u8] + p.name@ + seq![40u8]
}

/// A parameter scope-joined with its name appended as the last segment.
pub open spec fn param_join(pr: Param) -> Seq<u8> {
    join_spec(views_of(pr.path@).push(pr.name@))
}

/// A parameter's fragment, with `, ` before every parameter but the first.
pub open spec fn param_frag(k: int, pr: Param) -> Seq<u8> {
    if k == 0 {
        param_join(pr)
    } else {
        seq![44u8, 32u8] + param_join(pr)
    }
}

/// A procedure's closing fragment `){}`, rendering an empty body.
pub open spec fn proc_close_frag() -> Seq<u8> {
    seq![41u8, 123u8, 125u8]
}

/// The push a comment record makes.
pub open spec fn comment_push(c: Comment) -> (Location, DefSpec) {
    (c.location, DefSpec { class: Seq::<u8>::empty(), bit: c.text@, comment: true })
}

/// The pushes the comment stream makes, in order.
pub open spec fn comments_pushes(cs: Seq<Comment>) -> Seq<(Location, DefSpec)> {
    cs.map_values(|c: Comment| comment_push(c))
}

/// The class-open marker a non-root type pushes at its own location.
pub open spec fn class_open_pushes(t: TypeEntry) -> Seq<(Location, DefSpec)> {
    if t.path@.len() == 0 {
        Seq::<(Location, DefSpec)>::empty()
    } else {
        seq![
            (t.location, DefSpec {
                class: class_of(t),
                bit: Seq::<u8>::empty(),
                comment: false,
            }),
        ]
    }
}

/// The pushes a type's variables make, in declaration order.
pub open spec fn vars_pushes(class: Seq<u8>, vs: Seq<VarEntry>) -> Seq<(Location, DefSpec)> {
    vs.map_values(
        |v: VarEntry| (v.location, DefSpec { class: class, bit: var_frag(v), comment: false }),
    )
}

/// The pushes a procedure's parameters make, all at the procedure's location.
pub open spec fn params_pushes(class: Seq<u8>, loc: Location, prs: Seq<Param>) -> Seq<
    (Location, DefSpec),
> {
    Seq::new(
        prs.len(),
        |k: int| (loc, DefSpec { class: class, bit: param_frag(k, prs[k]), comment: false }),
    )
}

/// The pushes one procedure makes: opening fragment, one per parameter, and
/// the closing fragment, all at its declaration location.
pub open spec fn proc_pushes(class: Seq<u8>, p: ProcEntry) -> Seq<(Location, DefSpec)> {
    seq![(p.location, DefSpec { class: class, bit: proc_open_frag(p), comment: false })]
        + params_pushes(class, p.location, p.parameters@)
        + seq![(p.location, DefSpec { class: class, bit: proc_close_frag(), comment: false })]
}

/// The pushes a type's procedures make, in declaration order.
pub open spec fn procs_pushes(class: Seq<u8>, ps: Seq<ProcEntry>) -> Seq<(Location, DefSpec)>
    decreases ps.len(),
{
    if ps.len() == 0 {
        Seq::<(Location, DefSpec)>::empty()
    } else {
        proc_pushes(class, ps[0]) + procs_pushes(class, ps.skip(1))
    }
}

/// One more procedure appends its pushes.
pub proof fn lemma_procs_pushes_snoc(class: Seq<u8>, ps: Seq<ProcEntry>, x: ProcEntry)
    ensures
        procs_pushes(class, ps.push(x)) == procs_pushes(class, ps) + proc_pushes(class, x),
    decreases ps.len(),
{
    if ps.len() == 0 {
        assert(ps.push(x)[0] == x);
        assert(ps.push(x).skip(1) =~= Seq::<ProcEntry>::empty());
        assert(procs_pushes(class, Seq::<ProcEntry>::empty())
            == Seq::<(Location, DefSpec)>::empty());
        assert(proc_pushes(class, x) + Seq::<(Location, DefSpec)>::empty()
            =~= proc_pushes(class, x));
        assert(Seq::<(Location, DefSpec)>::empty() + proc_pushes(class, x)
            =~= proc_pushes(class, x));
    } else {
        assert(ps.push(x).skip(1) =~= ps.skip(1).push(x));
        lemma_procs_pushes_snoc(class, ps.skip(1), x);
        assert(proc_pushes(class, ps[0]) + (procs_pushes(class, ps.skip(1)) + proc_pushes(class, x))
            =~= (proc_pushes(class, ps[0]) + procs_pushes(class, ps.skip(1)))
                + proc_pushes(class, x));
    }
}

/// The pushes one type makes: its class-open marker, its variables, then
/// its procedures.
pub open spec fn type_pushes(t: TypeEntry) -> Seq<(Location, DefSpec)> {
    class_open_pushes(t) + vars_pushes(class_of(t), t.vars@) + procs_pushes(class_of(t), t.procs@)
}

/// The pushes the whole pre-order walk makes.
pub open spec fn types_pushes(ts: Seq<TypeEntry>) -> Seq<(Location, DefSpec)>
    decreases ts.len(),
{
    if ts.len() == 0 {
        Seq::<(Location, DefSpec)>::empty()
    } else {
        type_pushes(ts[0]) + types_pushes(ts.skip(1))
    }
}

/// One more type appends its pushes.
pub proof fn lemma_types_pushes_snoc(ts: Seq<TypeEntry>, x: TypeEntry)
    ensures
        types_pushes(ts.push(x)) == types_pushes(ts) + type_pushes(x),
    decreases ts.len(),
{
    if ts.len() == 0 {
        assert(ts.push(x)[0] == x);
        assert(ts.push(x).skip(1) =~= Seq::<TypeEntry>::empty());
        assert(types_pushes(Seq::<TypeEntry>::empty()) == Seq::<(Location, DefSpec)>::empty());
        assert(type_pushes(x) + Seq::<(Location, DefSpec)>::empty() =~= type_pushes(x));
        assert(Seq::<(Location, DefSpec)>::empty() + type_pushes(x) =~= type_pushes(x));
    } else {
        assert(ts.push(x).skip(1) =~= ts.skip(1).push(x));
        lemma_types_pushes_snoc(ts.skip(1), x);
        assert(type_pushes(ts[0]) + (types_pushes(ts.skip(1)) + type_pushes(x))
            =~= (type_pushes(ts[0]) + types_pushes(ts.skip(1))) + type_pushes(x));
    }
}

/// All pushes of a run: the comment stream first, then the walk.
pub open spec fn all_pushes(ts: Seq<TypeEntry>, cs: Seq<Comment>) -> Seq<(Location, DefSpec)> {
    comments_pushes(cs) + types_pushes(ts)
}

/// One type's effect on the extends lookup: a non-root type with a named,
/// non-root parent records its parent's qualified name; last write wins.
pub open spec fn type_ext(m: Map<Seq<u8>, Seq<u8>>, t: TypeEntry) -> Map<Seq<u8>, Seq<u8>> {
    match t.parent_path {
        Some(pp) => if t.path@.len() > 0 && pp@.len() > 0 {
            m.insert(class_of(t), qualify_spec(pp@))
        } else {
            m
        },
        None => m,
    }
}

/// The extends lookup built over the walk, in pre-order.
pub open spec fn ext_fold(m: Map<Seq<u8>, Seq<u8>>, ts: Seq<TypeEntry>) -> Map<Seq<u8>, Seq<u8>>
    decreases ts.len(),
{
    if ts.len() == 0 {
        m
    } else {
        ext_fold(type_ext(m, ts[0]), ts.skip(1))
    }
}

/// One more type folds its extends effect last.
pub proof fn lemma_ext_fold_snoc(m: Map<Seq<u8>, Seq<u8>>, ts: Seq<TypeEntry>, x: TypeEntry)
    ensures
        ext_fold(m, ts.push(x)) == type_ext(ext_fold(m, ts), x),
    decreases ts.len(),
{
    if ts.len() == 0 {
        assert(ts.push(x)[0] == x);
        assert(ts.push(x).skip(1) =~= Seq::<TypeEntry>::empty());
        assert(ext_fold(type_ext(m, x), Seq::<TypeEntry>::empty()) == type_ext(m, x));
    } else {
        assert(ts.push(x).skip(1) =~= ts.skip(1).push(x));
        lemma_ext_fold_snoc(type_ext(m, ts[0]), ts.skip(1), x);
    }
}

/// Builds a variable's fragment `<decl> <name>;`.
fn var_frag_vec(v: &VarEntry) -> (r: Vec<u8>)
    ensures
        r@ == var_frag(*v),
{
    let mut r: Vec<u8> = match &v.declaration {
        None => Vec::new(),
        Some(p) => join_scope(p),
    };
    r.push(32);
    append_bytes(&mut r, &v.name);
    r.push(59);
    proof {
        assert(r@ =~= var_frag(*v));
    }
    r
}

/// Builds a procedure's opening fragment `<qualifier> <name>(`.
fn proc_open_vec(p: &ProcEntry) -> (r: Vec<u8>)
    ensures
        r@ == proc_open_frag(*p),
{
    let mut r: Vec<u8> = Vec::new();
    match &p.declaration {
        None => {},
        Some(is_verb) => {
            if *is_verb {
                r.push(118);
                r.push(101);
                r.push(114);
                r.push(98);
            } else {
                r.push(112);
                r.push(114);
                r.push(111);
                r.push(99);
            }
        },
    }
    proof {
        assert(r@ =~= proc_qual_spec(*p));
    }
    r.push(32);
    append_bytes(&mut r, &p.name);
    r.push(40);
    proof {
        assert(r@ =~= proc_open_frag(*p));
    }
    r
}

/// Builds a parameter's fragment, `, `-separated after the first.
fn param_frag_vec(pr: &Param, first: bool) -> (r: Vec<u8>)
    ensures
        r@ == param_frag(if first { 0int } else { 1int }, *pr),
{
    let mut r: Vec<u8> = Vec::new();
    if !first {
        r.push(44);
        r.push(32);
    }
    let joined: Vec<u8> = if pr.path.len() == 0 {
        clone_bytes(&pr.name)
    } else {
        let mut j = join_scope(&pr.path);
        j.push(58);
        j.push(58);
        append_bytes(&mut j, &pr.name);
        j
    };
    proof {
        if pr.path@.len() == 0 {
            assert(views_of(pr.path@).push(pr.name@) =~= seq![pr.name@]);
            assert(join_spec(seq![pr.name@]) == pr.name@);
        } else {
            crate::bytesutil::lemma_join_push(views_of(pr.path@), pr.name@);
            assert(joined@ =~= join_spec(views_of(pr.path@)) + crate::bytesutil::scope_sep()
                + pr.name@);
        }
        assert(joined@ == param_join(*pr));
    }
    append_bytes(&mut r, &joined);
    proof {
        assert(r@ =~= param_frag(if first { 0int } else { 1int }, *pr));
    }
    r
}

/// Builds the closing fragment `){}`.
fn proc_close_vec() -> (r: Vec<u8>)
    ensures
        r@ == proc_close_frag(),
{
    let mut r: Vec<u8> = Vec::new();
    r.push(41);
    r.push(123);
    r.push(125);
    proof {
        assert(r@ =~= proc_close_frag());
    }
    r
}

/// Pushes one procedure's fragments: opening, parameters, closing.
#[verifier::loop_isolation(false)]
fn push_proc(defs: &mut Definitions, cls: &Vec<u8>, p: &ProcEntry)
    requires
        old(defs).wf(),
    ensures
        final(defs).wf(),
        final(defs)@ == loc_push_fold(old(defs)@, proc_pushes(cls@, *p)),
{
    let ghost base = defs@;
    let loc = p.location;
    defs.push(loc, Definition::new(cls, proc_open_vec(p)));
    let ghost open_push = proc_pushes(cls@, *p)[0];
    proof {
        assert(open_push == (p.location, DefSpec {
            class: cls@,
            bit: proc_open_frag(*p),
            comment: false,
        }));
        lemma_loc_push_fold_snoc(base, Seq::<(Location, DefSpec)>::empty(), open_push);
        assert(loc_push_fold(base, Seq::<(Location, DefSpec)>::empty()) == base);
        assert(Seq::<(Location, DefSpec)>::empty().push(open_push) =~= seq![open_push]);
        assert(defs@ == loc_push_fold(base, seq![open_push]));
    }
    let ghost pushed = seq![open_push];
    let mut ki: usize = 0;
    while ki < p.parameters.len()
        invariant
            ki <= p.parameters@.len(),
            defs.wf(),
            pushed == seq![open_push] + params_pushes(cls@, p.location, p.parameters@.take(ki as int)),
            defs@ == loc_push_fold(base, pushed),
        decreases p.parameters@.len() - ki,
    {
        let frag = param_frag_vec(&p.parameters[ki], ki == 0);
        defs.push(loc, Definition::new(cls, frag));
        proof {
            let x = (loc, DefSpec {
                class: cls@,
                bit: param_frag(ki as int, p.parameters@[ki as int]),
                comment: false,
            });
            lemma_loc_push_fold_snoc(base, pushed, x);
            pushed = pushed.push(x);
            assert(pushed =~= seq![open_push]
                + params_pushes(cls@, p.location, p.parameters@.take(ki + 1)));
        }
        ki = ki + 1;
    }
    defs.push(loc, Definition::new(cls, proc_close_vec()));
    proof {
        let x = (loc, DefSpec { class: cls@, bit: proc_close_frag(), comment: false });
        lemma_loc_push_fold_snoc(base, pushed, x);
        pushed = pushed.push(x);
        assert(p.parameters@.take(p.parameters@.len() as int) =~= p.parameters@);
        assert(pushed =~= proc_pushes(cls@, *p));
    }
}

/// Pushes one type's fragments and records its extends entry: the class-open
/// marker, then variables, then procedures, in stable order.
#[verifier::loop_isolation(false)]
pub fn push_type(defs: &mut Definitions, ext: &mut ExtendsMap, t: &TypeEntry)
    requires
        old(defs).wf(),
        old(ext).wf(),
    ensures
        final(defs).wf(),
        final(ext).wf(),
        final(defs)@ == loc_push_fold(old(defs)@, type_pushes(*t)),
        final(ext)@ == type_ext(old(ext)@, *t),
{
    let ghost base = defs@;
    let cls: Vec<u8> = if t.path.len() == 0 {
        Vec::new()
    } else {
        path(&t.path)
    };
    proof {
        assert(cls@ == class_of(*t));
    }
    if t.path.len() > 0 {
        match &t.parent_path {
            Some(pp) => {
                if pp.len() > 0 {
                    ext.insert(clone_bytes(&cls), path(pp));
                }
            },
            None => {},
        }
        defs.push(t.location, Definition::new(&cls, Vec::new()));
    }
    let ghost pushed = class_open_pushes(*t);
    proof {
        if t.path@.len() > 0 {
            let x = pushed[0];
            lemma_loc_push_fold_snoc(base, Seq::<(Location, DefSpec)>::empty(), x);
            assert(loc_push_fold(base, Seq::<(Location, DefSpec)>::empty()) == base);
            assert(Seq::<(Location, DefSpec)>::empty().push(x) =~= pushed);
            assert(defs@ == loc_push_fold(base, pushed));
        } else {
            assert(pushed =~= Seq::<(Location, DefSpec)>::empty());
        }
    }
    let mut vi: usize = 0;
    while vi < t.vars.len()
        invariant
            vi <= t.vars@.len(),
            defs.wf(),
            cls@ == class_of(*t),
            pushed == class_open_pushes(*t) + vars_pushes(cls@, t.vars@.take(vi as int)),
            defs@ == loc_push_fold(base, pushed),
        decreases t.vars@.len() - vi,
    {
        let v = &t.vars[vi];
        let frag = var_frag_vec(v);
        defs.push(v.location, Definition::new(&cls, frag));
        proof {
            let x = (v.location, DefSpec { class: cls@, bit: var_frag(*v), comment: false });
            lemma_loc_push_fold_snoc(base, pushed, x);
            pushed = pushed.push(x);
            assert(pushed =~= class_open_pushes(*t) + vars_pushes(cls@, t.vars@.take(vi + 1)));
        }
        vi = vi + 1;
    }
    proof {
        assert(t.vars@.take(t.vars@.len() as int) =~= t.vars@);
    }
    let mut pi: usize = 0;
    while pi < t.procs.len()
        invariant
            pi <= t.procs@.len(),
            defs.wf(),
            cls@ == class_of(*t),
            pushed == class_open_pushes(*t) + vars_pushes(cls@, t.vars@)
                + procs_pushes(cls@, t.procs@.take(pi as int)),
            defs@ == loc_push_fold(base, pushed),
        decreases t.procs@.len() - pi,
    {
        let ghost before = pushed;
        push_proc(defs, &cls, &t.procs[pi]);
        proof {
            lemma_loc_push_fold_concat(base, before, proc_pushes(cls@, t.procs@[pi as int]));
            pushed = before + proc_pushes(cls@, t.procs@[pi as int]);
            assert(t.procs@.take(pi + 1) =~= t.procs@.take(pi as int).push(t.procs@[pi as int]));
            lemma_procs_pushes_snoc(cls@, t.procs@.take(pi as int), t.procs@[pi as int]);
            assert(pushed =~= class_open_pushes(*t) + vars_pushes(cls@, t.vars@)
                + procs_pushes(cls@, t.procs@.take(pi + 1)));
        }
        pi = pi + 1;
    }
    proof {
        assert(t.procs@.take(t.procs@.len() as int) =~= t.procs@);
        assert(pushed =~= type_pushes(*t));
    }
}

/// Walks the comment stream and the pre-order type list, producing the full
/// definition index and the extends lookup.
#[verifier::loop_isolation(false)]
pub fn collect(types: &Vec<TypeEntry>, comments: &Vec<Comment>) -> (r: (Definitions, ExtendsMap))
    ensures
        r.0.wf(),
        r.1.wf(),
        r.0@ == loc_push_fold(
            Seq::<(Location, Seq<DefSpec>)>::empty(),
            all_pushes(types@, comments@),
        ),
        r.1@ == ext_fold(Map::<Seq<u8>, Seq<u8>>::empty(), types@),
{
    let mut defs = Definitions::new();
    let mut ext = ExtendsMap::new();
    let ghost mut pushed: Seq<(Location, DefSpec)> = Seq::empty();
    let mut ci: usize = 0;
    while ci < comments.len()
        invariant
            ci <= comments@.len(),
            defs.wf(),
            ext.wf(),
            ext@ == Map::<Seq<u8>, Seq<u8>>::empty(),
            pushed == comments_pushes(comments@.take(ci as int)),
            defs@ == loc_push_fold(Seq::<(Location, Seq<DefSpec>)>::empty(), pushed),
        decreases comments@.len() - ci,
    {
        let c = &comments[ci];
        defs.push(c.location, Definition::new_comment(clone_bytes(&c.text)));
        proof {
            let x = comment_push(comments@[ci as int]);
            lemma_loc_push_fold_snoc(Seq::<(Location, Seq<DefSpec>)>::empty(), pushed, x);
            pushed = pushed.push(x);
            assert(pushed =~= comments_pushes(comments@.take(ci + 1)));
        }
        ci = ci + 1;
    }
    proof {
        assert(comments@.take(comments@.len() as int) =~= comments@);
    }
    let mut ti: usize = 0;
    while ti < types.len()
        invariant
            ti <= types@.len(),
            defs.wf(),
            ext.wf(),
            ext@ == ext_fold(Map::<Seq<u8>, Seq<u8>>::empty(), types@.take(ti as int)),
            pushed == comments_pushes(comments@) + types_pushes(types@.take(ti as int)),
            defs@ == loc_push_fold(Seq::<(Location, Seq<DefSpec>)>::empty(), pushed),
        decreases types@.len() - ti,
    {
        let ghost before = pushed;
        push_type(&mut defs, &mut ext, &types[ti]);
        proof {
            lemma_loc_push_fold_concat(
                Seq::<(Location, Seq<DefSpec>)>::empty(),
                before,
                type_pushes(types@[ti as int]),
            );
            pushed = before + type_pushes(types@[ti as int]);
            assert(types@.take(ti + 1) =~= types@.take(ti as int).push(types@[ti as int]));
            lemma_types_pushes_snoc(types@.take(ti as int), types@[ti as int]);
            assert(pushed =~= comments_pushes(comments@) + types_pushes(types@.take(ti + 1)));
            lemma_ext_fold_snoc(
                Map::<Seq<u8>, Seq<u8>>::empty(),
                types@.take(ti as int),
                types@[ti as int],
            );
        }
        ti = ti + 1;
    }
    proof {
        assert(types@.take(types@.len() as int) =~= types@);
        assert(pushed =~= all_pushes(types@, comments@));
    }
    (defs, ext)
}

} // verus!
