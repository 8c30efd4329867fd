//! The emitter: serializes one file's line-ordered fragment groups to text,
//! padding skipped line numbers with blank lines, concatenating co-located
//! fragments without separators, and ending the file with one terminator.

use vstd::prelude::*;
use crate::bytesutil::append_bytes;
use crate::loc::LocMap;

verus! {

/// The newline byte.
pub const NL: u8 = 10;

/// `n` newline bytes (none when `n` is not positive).
pub open spec fn newlines(n: int) -> Seq<u8> {
    if n <= 0 {
        Seq::<u8>::empty()
    } else {
        Seq::new(n as nat, |i: int| NL)
    }
}

/// The lines of one file, in ascending order: (line number, fragments).
pub open spec fn file_lines(m: Seq<(crate::loc::Location, Seq<Seq<u8>>)>, file: u32) -> Seq<
    (u32, Seq<Seq<u8>>),
>
    decreases m.len(),
{
    if m.len() == 0 {
        Seq::<(u32, Seq<Seq<u8>>)>::empty()
    } else if m[0].0.file == file {
        seq![(m[0].0.line, m[0].1)] + file_lines(m.skip(1), file)
    } else {
        file_lines(m.skip(1), file)
    }
}

/// Co-located fragments concatenated with no separator.
pub open spec fn cat_frags(fs: Seq<Seq<u8>>) -> Seq<u8>
    decreases fs.len(),
{
    if fs.len() == 0 {
        Seq::<u8>::empty()
    } else {
        fs[0] + cat_frags(fs.skip(1))
    }
}

/// One more fragment concatenates at the end.
pub proof fn lemma_cat_frags_snoc(fs: Seq<Seq<u8>>, x: Seq<u8>)
    ensures
        cat_frags(fs.push(x)) == cat_frags(fs) + x,
    decreases fs.len(),
{
    if fs.len() == 0 {
        assert(fs.push(x)[0] == x);
        assert(fs.push(x).skip(1) =~= Seq::<Seq<u8>>::empty());
        assert(cat_frags(Seq::<Seq<u8>>::empty()) == Seq::<u8>::empty());
        assert(x + Seq::<u8>::empty() =~= x);
        assert(Seq::<u8>::empty() + x =~= x);
    } else {
        assert(fs.push(x).skip(1) =~= fs.skip(1).push(x));
        lemma_cat_frags_snoc(fs.skip(1), x);
        assert(fs[0] + (cat_frags(fs.skip(1)) + x) =~= (fs[0] + cat_frags(fs.skip(1))) + x);
    }
}

/// A file's body: each populated line's fragments, preceded by one newline
/// per line number stepped over since the previous content (so L2 − L1 − 1
/// blank lines plus the previous line's terminator), lines taken ascending
/// from the line after `last`.
pub open spec fn render_body(lines: Seq<(u32, Seq<Seq<u8>>)>, last: int) -> Seq<u8>
    decreases lines.len(),
{
    if lines.len() == 0 {
        Seq::<u8>::empty()
    } else {
        newlines(lines[0].0 - last) + cat_frags(lines[0].1)
            + render_body(lines.skip(1), lines[0].0 as int)
    }
}

/// A whole file: its body from line 1, then the final terminator.
pub open spec fn render_spec(
    m: Seq<(crate::loc::Location, Seq<Seq<u8>>)>,
    file: u32,
) -> Seq<u8> {
    render_body(file_lines(m, file), 1) + seq![NL]
}

/// Between consecutive populated lines the output holds exactly
/// (second line − first line) newline bytes: the first line's terminator
/// and one per skipped line number — no more, no fewer.
pub proof fn lemma_render_gap(lines: Seq<(u32, Seq<Seq<u8>>)>, last: int)
    requires
        lines.len() >= 2,
    ensures
        render_body(lines, last) == newlines(lines[0].0 - last) + cat_frags(lines[0].1)
            + newlines(lines[1].0 - lines[0].0) + cat_frags(lines[1].1)
            + render_body(lines.skip(2), lines[1].0 as int),
        lines[0].0 < lines[1].0 ==> newlines(lines[1].0 - lines[0].0).len()
            == lines[1].0 - lines[0].0,
{
    assert(lines.skip(1)[0] == lines[1]);
    assert(lines.skip(1).skip(1) =~= lines.skip(2));
    assert(render_body(lines, last) == newlines(lines[0].0 - last) + cat_frags(lines[0].1)
        + render_body(lines.skip(1), lines[0].0 as int));
    assert(render_body(lines.skip(1), lines[0].0 as int) == newlines(lines[1].0 - lines[0].0)
        + cat_frags(lines[1].1) + render_body(lines.skip(2), lines[1].0 as int));
    assert(newlines(lines[0].0 - last) + (cat_frags(lines[0].1) + (newlines(
        lines[1].0 - lines[0].0,
    ) + (cat_frags(lines[1].1) + render_body(lines.skip(2), lines[1].0 as int)))) =~= newlines(
        lines[0].0 - last,
    ) + cat_frags(lines[0].1) + newlines(lines[1].0 - lines[0].0) + cat_frags(lines[1].1)
        + render_body(lines.skip(2), lines[1].0 as int));
}

/// The distinct file identifiers of the map's groups, ascending, the most
/// recently seen one carried along.
pub open spec fn file_ids_from(
    m: Seq<(crate::loc::Location, Seq<Seq<u8>>)>,
    prev: Option<u32>,
) -> Seq<u32>
    decreases m.len(),
{
    if m.len() == 0 {
        Seq::<u32>::empty()
    } else if prev matches Some(f) && m[0].0.file == f {
        file_ids_from(m.skip(1), prev)
    } else {
        seq![m[0].0.file] + file_ids_from(m.skip(1), Some(m[0].0.file))
    }
}

/// The file identifiers with at least one fragment group, ascending.
#[verifier::loop_isolation(false)]
pub fn file_ids(out: &LocMap<Vec<u8>>) -> (r: Vec<u32>)
    ensures
        r@ == file_ids_from(out@, None),
{
    let mut r: Vec<u32> = Vec::new();
    let mut prev: Option<u32> = None;
    let mut i: usize = 0;
    proof {
        assert(out@.skip(0) =~= out@);
        assert(Seq::<u32>::empty() + file_ids_from(out@, None) =~= file_ids_from(out@, None));
    }
    while i < out.entries.len()
        invariant
            i <= out.entries@.len(),
            file_ids_from(out@, None) == r@ + file_ids_from(out@.skip(i as int), prev),
        decreases out.entries@.len() - i,
    {
        let f = out.entries[i].loc.file;
        proof {
            assert(out@.skip(i as int)[0] == out@[i as int]);
            assert(out@.skip(i as int).skip(1) =~= out@.skip(i + 1));
        }
        let hit = match prev {
            Some(g) => g == f,
            None => false,
        };
        if !hit {
            r.push(f);
            prev = Some(f);
            proof {
                assert(r@ + (seq![f] + file_ids_from(out@.skip(i + 1), Some(f)))
                    =~= r@.push(f) + file_ids_from(out@.skip(i + 1), Some(f)));
            }
        }
        i = i + 1;
    }
    proof {
        assert(out@.skip(out@.len() as int) =~= Seq::<(crate::loc::Location, Seq<Seq<u8>>)>::empty());
        assert(r@ + Seq::<u32>::empty() =~= r@);
    }
    r
}

/// How many populated lines one file of the collated output has.
#[verifier::loop_isolation(false)]
pub fn line_count(out: &LocMap<Vec<u8>>, file: u32) -> (n: usize)
    ensures
        n == file_lines(out@, file).len(),
{
    let mut n: usize = 0;
    let mut i: usize = 0;
    proof {
        assert(out@.skip(0) =~= out@);
    }
    while i < out.entries.len()
        invariant
            i <= out.entries@.len(),
            n <= i,
            file_lines(out@, file).len() == n + file_lines(out@.skip(i as int), file).len(),
        decreases out.entries@.len() - i,
    {
        proof {
            assert(out@.skip(i as int)[0] == out@[i as int]);
            assert(out@.skip(i as int).skip(1) =~= out@.skip(i + 1));
        }
        if out.entries[i].loc.file == file {
            n = n + 1;
        }
        i = i + 1;
    }
    proof {
        assert(out@.skip(out@.len() as int) =~= Seq::<(crate::loc::Location, Seq<Seq<u8>>)>::empty());
    }
    n
}

/// Renders one file of the collated output: line-ordered fragments,
/// blank-line padding for skipped line numbers, a final terminator.
#[verifier::loop_isolation(false)]
pub fn render_file(out: &LocMap<Vec<u8>>, file: u32) -> (r: Vec<u8>)
    requires
        out.wf(),
    ensures
        r@ == render_spec(out@, file),
{
    let mut r: Vec<u8> = Vec::new();
    let mut last: u32 = 1;
    let mut i: usize = 0;
    proof {
        assert(out@.skip(0) =~= out@);
        assert(Seq::<u8>::empty() + render_body(file_lines(out@, file), 1)
            =~= render_body(file_lines(out@, file), 1));
    }
    while i < out.entries.len()
        invariant
            i <= out.entries@.len(),
            render_body(file_lines(out@, file), 1)
                == r@ + render_body(file_lines(out@.skip(i as int), file), last as int),
        decreases out.entries@.len() - i,
    {
        let loc = out.entries[i].loc;
        proof {
            assert(out@.skip(i as int)[0] == out@[i as int]);
            assert(out@.skip(i as int).skip(1) =~= out@.skip(i + 1));
        }
        if loc.file == file {
            let ghost fsv = out@[i as int].1;
            let ghost r0 = r@;
            let ghost l0 = last as int;
            let line = loc.line;
            proof {
                assert(r0 + newlines(0) =~= r0);
            }
            while last < line
                invariant
                    l0 <= last as int,
                    last <= line || last as int == l0,
                    r@ == r0 + newlines(last - l0),
                decreases line - last,
            {
                r.push(NL);
                proof {
                    assert(r0 + newlines(last - l0) + seq![NL]
                        =~= r0 + newlines(last + 1 - l0));
                }
                last = last + 1;
            }
            proof {
                if l0 < line {
                    assert(last == line);
                    assert(r@ == r0 + newlines(line - l0));
                } else {
                    assert(newlines(line - l0) == Seq::<u8>::empty());
                    assert(newlines(last - l0) == Seq::<u8>::empty());
                    assert(r@ =~= r0 + newlines(line - l0));
                }
            }
            last = line;
            let ghost r1 = r@;
            let mut j: usize = 0;
            while j < out.entries[i].items.len()
                invariant
                    i < out.entries@.len(),
                    j <= out.entries@[i as int].items@.len(),
                    fsv == out@[i as int].1,
                    r@ == r1 + cat_frags(fsv.take(j as int)),
                decreases out.entries@[i as int].items@.len() - j,
            {
                append_bytes(&mut r, &out.entries[i].items[j]);
                proof {
                    lemma_cat_frags_snoc(fsv.take(j as int), fsv[j as int]);
                    assert(fsv.take(j + 1) =~= fsv.take(j as int).push(fsv[j as int]));
                    assert(r1 + cat_frags(fsv.take(j as int)) + fsv[j as int]
                        =~= r1 + (cat_frags(fsv.take(j as int)) + fsv[j as int]));
                }
                j = j + 1;
            }
            proof {
                assert(fsv.take(fsv.len() as int) =~= fsv);
                assert(file_lines(out@.skip(i as int), file)
                    == seq![(line, fsv)] + file_lines(out@.skip(i + 1), file));
                assert((seq![(line, fsv)] + file_lines(out@.skip(i + 1), file))[0]
                    == (line, fsv));
                assert((seq![(line, fsv)] + file_lines(out@.skip(i + 1), file)).skip(1)
                    =~= file_lines(out@.skip(i + 1), file));
                assert(render_body(file_lines(out@.skip(i as int), file), l0)
                    == newlines(line - l0) + cat_frags(fsv)
                        + render_body(file_lines(out@.skip(i + 1), file), line as int));
                assert(r0 + newlines(line - l0) + cat_frags(fsv)
                    =~= r0 + (newlines(line - l0) + cat_frags(fsv)));
                assert(r0 + (newlines(line - l0) + cat_frags(fsv))
                    + render_body(file_lines(out@.skip(i + 1), file), line as int)
                    =~= r0 + ((newlines(line - l0) + cat_frags(fsv))
                        + render_body(file_lines(out@.skip(i + 1), file), line as int)));
            }
        }
        i = i + 1;
    }
    proof {
        assert(out@.skip(out@.len() as int) =~= Seq::<(crate::loc::Location, Seq<Seq<u8>>)>::empty());
        assert(render_body(Seq::<(u32, Seq<Seq<u8>>)>::empty(), last as int) == Seq::<u8>::empty());
        assert(r@ + Seq::<u8>::empty() =~= r@);
    }
    r.push(NL);
    proof {
        assert(r@ =~= render_body(file_lines(out@, file), 1) + seq![NL]);
    }
    r
}

} // verus!
