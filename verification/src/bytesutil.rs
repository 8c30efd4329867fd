//! Byte-sequence helpers: leftmost, non-overlapping pattern replacement and
//! scope-separator joining, used to derive cache paths and qualified class
//! names.

use vstd::prelude::*;

verus! {

/// Replacement of every leftmost, non-overlapping occurrence of `pat` in `s`
/// by `rep`, scanning left to right.
pub open spec fn replace_spec(s: Seq<u8>, pat: Seq<u8>, rep: Seq<u8>) -> Seq<u8>
    decreases s.len(),
    when pat.len() > 0
{
    if s.len() < pat.len() {
        s
    } else if s.subrange(0, pat.len() as int) == pat {
        rep + replace_spec(s.skip(pat.len() as int), pat, rep)
    } else {
        seq![s[0]] + replace_spec(s.skip(1), pat, rep)
    }
}

/// The byte `:`; two of them form the scope separator.
pub const COLON: u8 = 58;

/// The views of a sequence of byte vectors.
pub open spec fn views_of(s: Seq<Vec<u8>>) -> Seq<Seq<u8>> {
    s.map_values(|v: Vec<u8>| v@)
}

/// The scope separator (`::`) expected by the downstream parser.
pub open spec fn scope_sep() -> Seq<u8> {
    seq![COLON, COLON]
}

/// Path segments joined by the scope separator.
pub open spec fn join_spec(parts: Seq<Seq<u8>>) -> Seq<u8>
    decreases parts.len(),
{
    if parts.len() == 0 {
        Seq::<u8>::empty()
    } else if parts.len() == 1 {
        parts[0]
    } else {
        parts[0] + scope_sep() + join_spec(parts.skip(1))
    }
}

/// Joining one more segment appends a separator and the segment.
pub proof fn lemma_join_push(parts: Seq<Seq<u8>>, x: Seq<u8>)
    requires
        parts.len() >= 1,
    ensures
        join_spec(parts.push(x)) == join_spec(parts) + scope_sep() + x,
    decreases parts.len(),
{
    if parts.len() == 1 {
        assert(parts.push(x).skip(1) =~= seq![x]);
        assert(join_spec(seq![x]) == x);
    } else {
        assert(parts.push(x).skip(1) =~= parts.skip(1).push(x));
        lemma_join_push(parts.skip(1), x);
        assert(parts[0] + scope_sep() + (join_spec(parts.skip(1)) + scope_sep() + x)
            =~= (parts[0] + scope_sep() + join_spec(parts.skip(1))) + scope_sep() + x);
    }
}

/// Appends all of `src` to `dst`.
pub fn append_bytes(dst: &mut Vec<u8>, src: &Vec<u8>)
    ensures
        final(dst)@ == old(dst)@ + src@,
{
    let ghost d0 = dst@;
    let mut i: usize = 0;
    while i < src.len()
        invariant
            i <= src@.len(),
            dst@ == d0 + src@.subrange(0, i as int),
        decreases src@.len() - i,
    {
        let b = src[i];
        dst.push(b);
        proof {
            assert(d0 + src@.subrange(0, i as int) + seq![b]
                =~= d0 + src@.subrange(0, i + 1));
        }
        i = i + 1;
    }
    proof {
        assert(d0 + src@.subrange(0, src@.len() as int) =~= d0 + src@);
    }
}

/// Byte-vector equality.
pub fn bytes_eq(a: &Vec<u8>, b: &Vec<u8>) -> (r: bool)
    ensures
        r == (a@ == b@),
{
    if a.len() != b.len() {
        return false;
    }
    let mut i: usize = 0;
    while i < a.len()
        invariant
            i <= a@.len(),
            a@.len() == b@.len(),
            forall|k: int| 0 <= k < i ==> a@[k] == b@[k],
        decreases a@.len() - i,
    {
        if a[i] != b[i] {
            return false;
        }
        i = i + 1;
    }
    proof {
        assert(a@ =~= b@);
    }
    true
}

/// Joins path segments with the scope separator.
#[verifier::loop_isolation(false)]
pub fn join_scope(parts: &Vec<Vec<u8>>) -> (r: Vec<u8>)
    ensures
        r@ == join_spec(views_of(parts@)),
{
    let mut r: Vec<u8> = Vec::new();
    let mut i: usize = 0;
    while i < parts.len()
        invariant
            i <= parts@.len(),
            r@ == join_spec(views_of(parts@).take(i as int)),
        decreases parts@.len() - i,
    {
        if i > 0 {
            r.push(COLON);
            r.push(COLON);
        }
        let ghost pre = views_of(parts@).take(i as int);
        append_bytes(&mut r, &parts[i]);
        proof {
            if i == 0 {
                assert(views_of(parts@).take(1) =~= seq![parts@[0]@]);
                assert(r@ =~= join_spec(views_of(parts@).take(1)));
            } else {
                lemma_join_push(pre, parts@[i as int]@);
                assert(views_of(parts@).take(i + 1) =~= pre.push(parts@[i as int]@));
                assert(r@ =~= join_spec(pre) + scope_sep() + parts@[i as int]@);
            }
        }
        i = i + 1;
    }
    proof {
        assert(views_of(parts@).take(parts@.len() as int) =~= views_of(parts@));
    }
    r
}

/// True when `pat` occurs in `s` starting at index `i`.
fn match_at(s: &Vec<u8>, pat: &Vec<u8>, i: usize) -> (r: bool)
    requires
        i + pat@.len() <= s@.len(),
    ensures
        r == (s@.subrange(i as int, i + pat@.len()) == pat@),
{
    let slen: usize = s.len();
    let mut j: usize = 0;
    while j < pat.len()
        invariant
            j <= pat@.len(),
            i + pat@.len() <= s@.len(),
            s@.len() == slen,
            forall|k: int| 0 <= k < j ==> s@[i + k] == pat@[k],
        decreases pat@.len() - j,
    {
        if s[i + j] != pat[j] {
            proof {
                assert(s@.subrange(i as int, i + pat@.len())[j as int] == s@[i + j]);
            }
            return false;
        }
        j = j + 1;
    }
    proof {
        assert(s@.subrange(i as int, i + pat@.len()) =~= pat@);
    }
    true
}

/// Replaces every leftmost occurrence of `pat` in `s` with `rep`.
pub fn replace_bytes(s: &Vec<u8>, pat: &Vec<u8>, rep: &Vec<u8>) -> (r: Vec<u8>)
    requires
        pat@.len() > 0,
    ensures
        r@ == replace_spec(s@, pat@, rep@),
{
    let mut r: Vec<u8> = Vec::new();
    let mut i: usize = 0;
    proof {
        assert(s@.skip(0) =~= s@);
        assert(r@ + replace_spec(s@, pat@, rep@) =~= replace_spec(s@, pat@, rep@));
    }
    while i < s.len()
        invariant
            i <= s@.len(),
            pat@.len() > 0,
            replace_spec(s@, pat@, rep@) == r@ + replace_spec(s@.skip(i as int), pat@, rep@),
        decreases s@.len() - i,
    {
        let remaining = s.len() - i;
        if remaining >= pat.len() && match_at(s, pat, i) {
            proof {
                assert(s@.skip(i as int).subrange(0, pat@.len() as int)
                    =~= s@.subrange(i as int, i + pat@.len()));
                assert(s@.skip(i as int).skip(pat@.len() as int)
                    =~= s@.skip(i + pat@.len()));
                assert(replace_spec(s@.skip(i as int), pat@, rep@)
                    == rep@ + replace_spec(s@.skip(i + pat@.len()), pat@, rep@));
            }
            let ghost r0 = r@;
            let mut k: usize = 0;
            while k < rep.len()
                invariant
                    k <= rep@.len(),
                    r@ == r0 + rep@.subrange(0, k as int),
                decreases rep@.len() - k,
            {
                r.push(rep[k]);
                proof {
                    assert(r0 + rep@.subrange(0, k as int) + seq![rep@[k as int]]
                        =~= r0 + rep@.subrange(0, k + 1));
                }
                k = k + 1;
            }
            proof {
                assert(r@ =~= r0 + rep@);
                assert(r0 + rep@ + replace_spec(s@.skip(i + pat@.len()), pat@, rep@)
                    =~= r0 + (rep@ + replace_spec(s@.skip(i + pat@.len()), pat@, rep@)));
            }
            i = i + pat.len();
        } else {
            proof {
                let rest = s@.skip(i as int);
                if rest.len() >= pat@.len() {
                    assert(rest.subrange(0, pat@.len() as int)
                        =~= s@.subrange(i as int, i + pat@.len()));
                    assert(replace_spec(rest, pat@, rep@)
                        == seq![rest[0]] + replace_spec(rest.skip(1), pat@, rep@));
                } else {
                    assert(replace_spec(rest, pat@, rep@) == rest);
                    assert(replace_spec(rest.skip(1), pat@, rep@) == rest.skip(1));
                }
                assert(rest =~= seq![s@[i as int]] + rest.skip(1));
                assert(rest.skip(1) =~= s@.skip(i + 1));
                assert(r@ + seq![s@[i as int]] + replace_spec(s@.skip(i + 1), pat@, rep@)
                    =~= r@ + (seq![s@[i as int]] + replace_spec(s@.skip(i + 1), pat@, rep@)));
            }
            r.push(s[i]);
            i = i + 1;
        }
    }
    proof {
        assert(s@.skip(i as int) =~= Seq::<u8>::empty());
        assert(replace_spec(Seq::<u8>::empty(), pat@, rep@) == Seq::<u8>::empty());
        assert(r@ + Seq::<u8>::empty() =~= r@);
    }
    r
}

} // verus!
