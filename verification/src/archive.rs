//! Planning of archive entries: each source path read from the candidate
//! lists is paired with its translated destination path. Any source path that
//! cannot be translated aborts the whole plan, so a failed backup run leaves
//! no half-planned archive.

use vstd::prelude::*;

use crate::paths::SEP;
use crate::paths::clone_path;
use crate::paths::seq_views;
use crate::translate::TranslateError;
use crate::translate::dest_spec;
use crate::translate::get_dest;
use crate::translate::translatable;

verus! {

/// One planned archive entry: the absolute source path and the
/// archive-relative destination path it is stored under.
pub struct ArchiveEntry {
    pub source: Vec<u8>,
    pub dest: Vec<u8>,
}

/// Pairs every source path with its translated destination path. Succeeds
/// exactly when every source path is translatable; the first untranslatable
/// path aborts the plan with `UnsupportedPathKind`.
pub fn plan_entries(sources: &Vec<Vec<u8>>) -> (r: Result<Vec<ArchiveEntry>, TranslateError>)
    ensures
        (r is Ok) == (forall|i: int|
            0 <= i < sources@.len() ==> translatable(#[trigger] seq_views(sources@)[i])),
        r matches Ok(es) ==> es@.len() == sources@.len() && forall|i: int|
            0 <= i < es@.len() ==> (#[trigger] es@[i].source@) == seq_views(sources@)[i]
                && es@[i].dest@ == dest_spec(seq_views(sources@)[i]),
        r matches Err(e) ==> e == TranslateError::UnsupportedPathKind,
{
    let mut es: Vec<ArchiveEntry> = Vec::new();
    let mut i: usize = 0;
    while i < sources.len()
        invariant
            0 <= i <= sources@.len(),
            es@.len() == i,
            forall|m: int| 0 <= m < i ==> translatable(#[trigger] seq_views(sources@)[m]),
            forall|m: int|
                0 <= m < i ==> (#[trigger] es@[m].source@) == seq_views(sources@)[m]
                    && es@[m].dest@ == dest_spec(seq_views(sources@)[m]),
        decreases sources@.len() - i,
    {
        match get_dest(&sources[i]) {
            Ok(d) => {
                let entry = ArchiveEntry { source: clone_path(&sources[i]), dest: d };
                es.push(entry);
            },
            Err(e) => {
                proof {
                    assert(!translatable(seq_views(sources@)[i as int]));
                }
                return Err(e);
            },
        }
        i = i + 1;
    }
    Ok(es)
}

/// The archive path of a file that lies at relative path `rel` inside an
/// archived directory stored at `dir_dest`: the entries of a directory are
/// rooted at its destination path, preserving their relative structure.
pub fn entry_path_in_dir(dir_dest: &Vec<u8>, rel: &Vec<u8>) -> (r: Vec<u8>)
    ensures
        r@ == dir_dest@ + seq![SEP] + rel@,
{
    let mut r = clone_path(dir_dest);
    r.push(SEP);
    proof {
        assert(r@ =~= dir_dest@ + seq![SEP] + rel@.take(0));
    }
    let mut i: usize = 0;
    while i < rel.len()
        invariant
            0 <= i <= rel@.len(),
            r@ == dir_dest@ + seq![SEP] + rel@.take(i as int),
        decreases rel@.len() - i,
    {
        r.push(rel[i]);
        proof {
            assert(r@ =~= dir_dest@ + seq![SEP] + rel@.take(i + 1));
        }
        i = i + 1;
    }
    proof {
        assert(rel@.take(rel@.len() as int) =~= rel@);
    }
    r
}

} // verus!
