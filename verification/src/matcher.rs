//! Matching of filesystem entries against the marker substring `sav` and
//! normalization of a match to its candidate directory: a matched file yields
//! its parent directory, a matched directory yields itself, and every other
//! entry kind is dropped.

use vstd::prelude::*;

use crate::paths::COLON;
use crate::paths::SEP;
use crate::paths::clone_path;
use crate::paths::seq_views;
use crate::reduce::is_reduction;
use crate::reduce::reduce_candidates;

verus! {

/// ASCII lowercase folding; bytes outside `A`..`Z` are unchanged.
pub open spec fn ascii_lower(b: u8) -> u8 {
    if 65 <= b && b <= 90 {
        (b + 32) as u8
    } else {
        b
    }
}

/// The marker `sav` starts at position `i` of `s`, ignoring ASCII case.
pub open spec fn marker_at(s: Seq<u8>, i: int) -> bool {
    ascii_lower(s[i]) == 115 && ascii_lower(s[i + 1]) == 97 && ascii_lower(s[i + 2]) == 118
}

/// The name contains the marker substring `sav`, ignoring ASCII case.
pub open spec fn contains_marker(s: Seq<u8>) -> bool {
    exists|i: int| 0 <= i && i + 3 <= s.len() && #[trigger] marker_at(s, i)
}

fn lower_byte(b: u8) -> (r: u8)
    ensures
        r == ascii_lower(b),
{
    if b >= 65 && b <= 90 {
        b + 32
    } else {
        b
    }
}

/// Whether a base name contains the marker substring, ignoring ASCII case.
pub fn name_contains_marker(name: &Vec<u8>) -> (r: bool)
    ensures
        r == contains_marker(name@),
{
    if name.len() < 3 {
        return false;
    }
    let mut i: usize = 0;
    while i <= name.len() - 3
        invariant
            3 <= name@.len(),
            0 <= i <= name@.len() - 2,
            forall|j: int| 0 <= j < i ==> !#[trigger] marker_at(name@, j),
        decreases name@.len() - i,
    {
        if lower_byte(name[i]) == 115 && lower_byte(name[i + 1]) == 97 && lower_byte(name[i + 2])
            == 118 {
            proof {
                assert(marker_at(name@, i as int));
            }
            return true;
        }
        i = i + 1;
    }
    false
}

/// Index of the last separator in `p`, or `-1` if `p` holds none.
pub open spec fn last_sep(p: Seq<u8>) -> int
    decreases p.len(),
{
    if p.len() == 0 {
        -1
    } else if p[p.len() - 1] == SEP {
        p.len() - 1
    } else {
        last_sep(p.drop_last())
    }
}

pub proof fn lemma_last_sep(p: Seq<u8>)
    ensures
        -1 <= last_sep(p) < p.len(),
        last_sep(p) >= 0 ==> p[last_sep(p)] == SEP,
        forall|j: int| last_sep(p) < j < p.len() ==> p[j] != SEP,
    decreases p.len(),
{
    if p.len() > 0 && p[p.len() - 1] != SEP {
        lemma_last_sep(p.drop_last());
        assert forall|j: int| last_sep(p) < j < p.len() implies p[j] != SEP by {
            if j < p.len() - 1 {
                assert(p.drop_last()[j] == p[j]);
            }
        }
    }
}

/// The base name of a path: everything after its last separator.
pub open spec fn base_name_spec(p: Seq<u8>) -> Seq<u8> {
    p.skip(last_sep(p) + 1)
}

/// The parent directory of a path: everything before its last separator,
/// except that a path directly under a volume root, such as `C:\name`, keeps
/// the root `C:\` as its parent. A path without a separator has no parent.
pub open spec fn parent_dir_spec(p: Seq<u8>) -> Option<Seq<u8>> {
    if last_sep(p) < 0 {
        None
    } else if last_sep(p) == 2 && p[1] == COLON {
        Some(p.take(3))
    } else {
        Some(p.take(last_sep(p)))
    }
}

/// Index of the last separator, executable form.
fn last_sep_index(p: &Vec<u8>) -> (r: Option<usize>)
    ensures
        match r {
            Some(i) => last_sep(p@) == i,
            None => last_sep(p@) < 0,
        },
{
    proof {
        lemma_last_sep(p@);
    }
    let mut i: usize = p.len();
    while i > 0
        invariant
            0 <= i <= p@.len(),
            forall|j: int| i <= j < p@.len() ==> p@[j] != SEP,
            -1 <= last_sep(p@) < p@.len(),
            last_sep(p@) >= 0 ==> p@[last_sep(p@)] == SEP,
            forall|j: int| last_sep(p@) < j < p@.len() ==> p@[j] != SEP,
        decreases i,
    {
        i = i - 1;
        if p[i] == SEP {
            proof {
                assert(last_sep(p@) >= i) by {
                    if last_sep(p@) < i {
                        assert(p@[i as int] != SEP);
                    }
                }
                assert(last_sep(p@) <= i) by {
                    if last_sep(p@) > i {
                        assert(p@[last_sep(p@)] == SEP);
                    }
                }
            }
            return Some(i);
        }
    }
    proof {
        if last_sep(p@) >= 0 {
            assert(p@[last_sep(p@)] != SEP);
        }
    }
    None
}

/// Copy of the first `n` bytes of `p`.
fn take_prefix(p: &Vec<u8>, n: usize) -> (r: Vec<u8>)
    requires
        n <= p@.len(),
    ensures
        r@ == p@.take(n as int),
{
    let mut r: Vec<u8> = Vec::new();
    let mut i: usize = 0;
    while i < n
        invariant
            0 <= i <= n <= p@.len(),
            r@ == p@.take(n as int).take(i as int),
        decreases n - i,
    {
        r.push(p[i]);
        proof {
            assert(r@ =~= p@.take(n as int).take(i + 1));
        }
        i = i + 1;
    }
    proof {
        assert(p@.take(n as int).take(n as int) =~= p@.take(n as int));
    }
    r
}

/// Copy of the bytes of `p` from position `n` on.
fn skip_prefix(p: &Vec<u8>, n: usize) -> (r: Vec<u8>)
    requires
        n <= p@.len(),
    ensures
        r@ == p@.skip(n as int),
{
    let mut r: Vec<u8> = Vec::new();
    let mut i: usize = n;
    while i < p.len()
        invariant
            n <= i <= p@.len(),
            r@ == p@.skip(n as int).take(i - n),
        decreases p@.len() - i,
    {
        r.push(p[i]);
        proof {
            assert(r@ =~= p@.skip(n as int).take(i + 1 - n));
        }
        i = i + 1;
    }
    proof {
        assert(p@.skip(n as int).take(p@.len() - n) =~= p@.skip(n as int));
    }
    r
}

/// Kind of a filesystem entry seen by the directory walk.
#[derive(Clone, Copy, PartialEq, Eq, Structural, Debug)]
pub enum EntryKind {
    File,
    Directory,
    Other,
}

/// A filesystem entry seen by the directory walk: its absolute path and kind.
pub struct Entry {
    pub path: Vec<u8>,
    pub kind: EntryKind,
}

/// The candidate directory contributed by one entry: for an entry whose base
/// name holds the marker, a file yields its parent directory and a directory
/// yields itself; everything else yields nothing.
pub open spec fn candidate_spec(p: Seq<u8>, kind: EntryKind) -> Option<Seq<u8>> {
    if !contains_marker(base_name_spec(p)) {
        None
    } else {
        match kind {
            EntryKind::File => parent_dir_spec(p),
            EntryKind::Directory => Some(p),
            EntryKind::Other => None,
        }
    }
}

/// Computes the candidate directory contributed by one entry.
pub fn candidate_for_entry(path: &Vec<u8>, kind: EntryKind) -> (r: Option<Vec<u8>>)
    ensures
        (r is Some) == (candidate_spec(path@, kind) is Some),
        r matches Some(c) ==> candidate_spec(path@, kind) == Some(c@),
{
    proof {
        lemma_last_sep(path@);
    }
    let ls = last_sep_index(path);
    let base = match ls {
        Some(i) => {
            let n = path.len();
            proof {
                assert(i == last_sep(path@));
                assert(i < n);
            }
            skip_prefix(path, i + 1)
        },
        None => clone_path(path),
    };
    proof {
        if ls is None {
            assert(path@.skip(0) =~= path@);
        }
        assert(base@ == base_name_spec(path@));
    }
    if !name_contains_marker(&base) {
        return None;
    }
    match kind {
        EntryKind::File => match ls {
            Some(i) => {
                if i == 2 && path[1] == COLON {
                    Some(take_prefix(path, 3))
                } else {
                    Some(take_prefix(path, i))
                }
            },
            None => None,
        },
        EntryKind::Directory => Some(clone_path(path)),
        EntryKind::Other => None,
    }
}

/// The candidate directories contributed by a sequence of entries, in order.
pub open spec fn candidates_of(s: Seq<Entry>) -> Seq<Seq<u8>>
    decreases s.len(),
{
    if s.len() == 0 {
        Seq::empty()
    } else {
        let rest = candidates_of(s.drop_last());
        match candidate_spec(s.last().path@, s.last().kind) {
            Some(p) => rest.push(p),
            None => rest,
        }
    }
}

/// Computes the backup candidate directories among the walked entries: the
/// entries matching the marker are normalized to directories and reduced to
/// the minimal non-nested candidate set.
pub fn search_archive_targets(entries: &Vec<Entry>) -> (out: Vec<Vec<u8>>)
    ensures
        is_reduction(candidates_of(entries@), seq_views(out@)),
{
    let mut cands: Vec<Vec<u8>> = Vec::new();
    let mut i: usize = 0;
    while i < entries.len()
        invariant
            0 <= i <= entries@.len(),
            seq_views(cands@) == candidates_of(entries@.take(i as int)),
        decreases entries@.len() - i,
    {
        let e = &entries[i];
        let ghost old_cands = cands@;
        let c = candidate_for_entry(&e.path, e.kind);
        match c {
            Some(cand) => {
                let ghost cv = cand@;
                cands.push(cand);
                proof {
                    assert(seq_views(cands@) =~= seq_views(old_cands).push(cv));
                }
            },
            None => {},
        }
        proof {
            assert(entries@.take(i + 1).drop_last() =~= entries@.take(i as int));
            assert(entries@.take(i + 1).last() == entries@[i as int]);
        }
        i = i + 1;
    }
    proof {
        assert(entries@.take(entries@.len() as int) =~= entries@);
    }
    reduce_candidates(&cands)
}

} // verus!
