//! Deterministic path derivation: where a source file's pseudo-source is
//! cached, and how a type's slash path becomes a scope-qualified class name.

use vstd::prelude::*;
use crate::bytesutil::{COLON, append_bytes, replace_bytes, replace_spec, scope_sep};

verus! {

/// The byte `/`.
pub const SLASH: u8 = 47;

/// The byte `$`, the sentinel that replaces path separators.
pub const DOLLAR: u8 = 36;

/// The byte `.`.
pub const DOT: u8 = 46;

/// The cache directory prefix `dm2doxy/` under which pseudo-source files live.
pub open spec fn cache_prefix() -> Seq<u8> {
    seq![100u8, 109u8, 50u8, 100u8, 111u8, 120u8, 121u8, 47u8]
}

/// The source extension `.dm`, rewritten to the sentinel suffix `..`.
pub open spec fn dm_ext() -> Seq<u8> {
    seq![46u8, 100u8, 109u8]
}

/// The sentinel suffix `..`.
pub open spec fn dot_dot() -> Seq<u8> {
    seq![46u8, 46u8]
}

/// The cache path for a source path: every `/` becomes `$`, every `.dm`
/// becomes `..`, rooted under the cache directory.
pub open spec fn tempfile_spec(p: Seq<u8>) -> Seq<u8> {
    cache_prefix() + replace_spec(replace_spec(p, seq![SLASH], seq![DOLLAR]), dm_ext(), dot_dot())
}

/// The fallback class name for an empty type path.
pub open spec fn globals_name() -> Seq<u8> {
    seq![103u8, 108u8, 111u8, 98u8, 97u8, 108u8, 115u8]
}

/// A type's qualified class name: the slash path without its root segment,
/// slashes turned into the scope separator; `globals` for an empty path.
pub open spec fn qualify_spec(p: Seq<u8>) -> Seq<u8> {
    if p.len() == 0 {
        globals_name()
    } else {
        replace_spec(p.skip(1), seq![SLASH], scope_sep())
    }
}

/// Maps a source path to the cache path of its pseudo-source file.
pub fn tempfile(path: &Vec<u8>) -> (r: Vec<u8>)
    ensures
        r@ == tempfile_spec(path@),
{
    let mut r: Vec<u8> = Vec::new();
    r.push(100);
    r.push(109);
    r.push(50);
    r.push(100);
    r.push(111);
    r.push(120);
    r.push(121);
    r.push(47);
    proof {
        assert(r@ =~= cache_prefix());
    }
    let mut slash: Vec<u8> = Vec::new();
    slash.push(SLASH);
    let mut dollar: Vec<u8> = Vec::new();
    dollar.push(DOLLAR);
    let mut ext: Vec<u8> = Vec::new();
    ext.push(DOT);
    ext.push(100);
    ext.push(109);
    let mut dots: Vec<u8> = Vec::new();
    dots.push(DOT);
    dots.push(DOT);
    proof {
        assert(slash@ =~= seq![SLASH]);
        assert(dollar@ =~= seq![DOLLAR]);
        assert(ext@ =~= dm_ext());
        assert(dots@ =~= dot_dot());
    }
    let step1 = replace_bytes(path, &slash, &dollar);
    let step2 = replace_bytes(&step1, &ext, &dots);
    append_bytes(&mut r, &step2);
    r
}

/// Maps a type's slash path to its qualified class name.
pub fn path(type_path: &Vec<u8>) -> (r: Vec<u8>)
    ensures
        r@ == qualify_spec(type_path@),
{
    if type_path.len() == 0 {
        let mut r: Vec<u8> = Vec::new();
        r.push(103);
        r.push(108);
        r.push(111);
        r.push(98);
        r.push(97);
        r.push(108);
        r.push(115);
        proof {
            assert(r@ =~= globals_name());
        }
        r
    } else {
        let mut tail: Vec<u8> = Vec::new();
        let mut i: usize = 1;
        while i < type_path.len()
            invariant
                1 <= i <= type_path@.len(),
                tail@ == type_path@.subrange(1, i as int),
            decreases type_path@.len() - i,
        {
            let b = type_path[i];
            tail.push(b);
            proof {
                assert(type_path@.subrange(1, i as int).push(b)
                    =~= type_path@.subrange(1, i + 1));
            }
            i = i + 1;
        }
        proof {
            assert(tail@ =~= type_path@.skip(1));
        }
        let mut slash: Vec<u8> = Vec::new();
        slash.push(SLASH);
        let mut sep: Vec<u8> = Vec::new();
        sep.push(COLON);
        sep.push(COLON);
        proof {
            assert(slash@ =~= seq![SLASH]);
            assert(sep@ =~= scope_sep());
        }
        replace_bytes(&tail, &slash, &sep)
    }
}

} // verus!
