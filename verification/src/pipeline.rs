//! The whole collation core in one call: collect, index, track boundaries,
//! and render one pseudo-source text per contributing file. The caller does
//! the I/O around it: parsing the environment into the plain records this
//! takes, and writing each rendered file out.

use vstd::prelude::*;
use crate::collate::{collate, collate_spec};
use crate::collect::{Comment, TypeEntry, all_pushes, collect, ext_fold};
use crate::defs::DefSpec;
use crate::emit::{file_ids, file_ids_from, file_lines, line_count, render_file, render_spec};
use crate::loc::{Location, loc_push_fold};

verus! {

/// One rendered pseudo-source file, keyed by its file identifier, with its
/// populated-line count for the per-file summary.
pub struct OutputFile {
    pub file: u32,
    pub bytes: Vec<u8>,
    pub lines: usize,
}

/// The collated output of a run over the given type walk and comments.
pub open spec fn run_output_spec(
    ts: Seq<TypeEntry>,
    cs: Seq<Comment>,
) -> Seq<(Location, Seq<Seq<u8>>)> {
    collate_spec(
        loc_push_fold(Seq::<(Location, Seq<DefSpec>)>::empty(), all_pushes(ts, cs)),
        ext_fold(Map::<Seq<u8>, Seq<u8>>::empty(), ts),
    )
}

/// Runs the full pipeline: one rendered text per contributing file, in
/// ascending file-identifier order.
#[verifier::loop_isolation(false)]
pub fn produce(types: &Vec<TypeEntry>, comments: &Vec<Comment>) -> (r: Vec<OutputFile>)
    ensures
        r@.len() == file_ids_from(run_output_spec(types@, comments@), None).len(),
        forall|k: int| 0 <= k < r@.len() ==> {
            &&& (#[trigger] r@[k]).file == file_ids_from(
                run_output_spec(types@, comments@),
                None,
            )[k]
            &&& r@[k].bytes@ == render_spec(run_output_spec(types@, comments@), r@[k].file)
            &&& r@[k].lines == file_lines(run_output_spec(types@, comments@), r@[k].file).len()
        },
{
    let (defs, extends) = collect(types, comments);
    let out = collate(&defs, extends);
    let ids = file_ids(&out);
    let mut r: Vec<OutputFile> = Vec::new();
    let mut k: usize = 0;
    while k < ids.len()
        invariant
            k <= ids@.len(),
            out@ == run_output_spec(types@, comments@),
            ids@ == file_ids_from(run_output_spec(types@, comments@), None),
            out.wf(),
            r@.len() == k,
            forall|j: int| 0 <= j < k ==> {
                &&& (#[trigger] r@[j]).file == ids@[j]
                &&& r@[j].bytes@ == render_spec(run_output_spec(types@, comments@), r@[j].file)
                &&& r@[j].lines == file_lines(run_output_spec(types@, comments@), r@[j].file).len()
            },
        decreases ids@.len() - k,
    {
        let id = ids[k];
        let bytes = render_file(&out, id);
        let lines = line_count(&out, id);
        r.push(OutputFile { file: id, bytes, lines });
        k = k + 1;
    }
    r
}

} // verus!
