//! Reduction of the matched paths to the minimal candidate set: the matches
//! are sorted in the component-wise path order and collapsed in one forward
//! scan, so that exactly the paths with no strict ancestor among the matches
//! remain, without duplicates and without nesting.

use vstd::prelude::*;

use crate::paths::covers;
use crate::paths::covers_exec;
use crate::paths::clone_path;
use crate::paths::lemma_between;
use crate::paths::lemma_common_covers;
use crate::paths::lemma_covers_transitive;
use crate::paths::lemma_le_lt_transitive;
use crate::paths::lemma_le_transitive;
use crate::paths::lemma_lt_asymmetric;
use crate::paths::lemma_lt_irreflexive;
use crate::paths::lemma_lt_total;
use crate::paths::lemma_lt_transitive;
use crate::paths::lemma_strict_ancestor_lt;
use crate::paths::path_le;
use crate::paths::path_lt;
use crate::paths::path_lt_exec;
use crate::paths::seq_views;
use crate::paths::strict_ancestor_of;

verus! {

/// The sequence is sorted in the component-wise path order.
pub open spec fn sorted_le(s: Seq<Seq<u8>>) -> bool {
    forall|i: int, j: int| 0 <= i <= j < s.len() ==> #[trigger] path_le(s[i], s[j])
}

/// The sequence is strictly sorted: sorted and free of duplicates.
pub open spec fn strictly_sorted(s: Seq<Seq<u8>>) -> bool {
    forall|i: int, j: int| 0 <= i < j < s.len() ==> #[trigger] path_lt(s[i], s[j])
}

/// Some element of `s` is a strict ancestor directory of `p`.
pub open spec fn has_strict_ancestor_in(s: Seq<Seq<u8>>, p: Seq<u8>) -> bool {
    exists|q: Seq<u8>| #[trigger] s.contains(q) && strict_ancestor_of(q, p)
}

/// `out` is the candidate set for the matched paths `input`: strictly sorted,
/// free of nesting, holding exactly the matched paths that have no strict
/// ancestor among the matches, and covering every matched path.
pub open spec fn is_reduction(input: Seq<Seq<u8>>, out: Seq<Seq<u8>>) -> bool {
    &&& strictly_sorted(out)
    &&& forall|i: int, j: int|
        0 <= i < out.len() && 0 <= j < out.len() && i != j ==> !strict_ancestor_of(
            #[trigger] out[i],
            #[trigger] out[j],
        )
    &&& forall|p: Seq<u8>| #[trigger]
        out.contains(p) ==> input.contains(p) && !has_strict_ancestor_in(input, p)
    &&& forall|p: Seq<u8>| #[trigger]
        input.contains(p) && !has_strict_ancestor_in(input, p) ==> out.contains(p)
    &&& forall|p: Seq<u8>| #[trigger]
        input.contains(p) ==> exists|i: int| 0 <= i < out.len() && covers(out[i], p)
}

proof fn lemma_seq_views_insert(s: Seq<Vec<u8>>, j: int, x: Vec<u8>)
    requires
        0 <= j <= s.len(),
    ensures
        seq_views(s.insert(j, x)) == seq_views(s).insert(j, x@),
{
    s.insert_ensures(j, x);
    seq_views(s).insert_ensures(j, x@);
    assert forall|i: int| 0 <= i < s.len() + 1 implies #[trigger] seq_views(s.insert(j, x))[i]
        == seq_views(s).insert(j, x@)[i] by {
        if i < j {
            assert(s.insert(j, x)[i] == s[i]);
            assert(seq_views(s).insert(j, x@)[i] == seq_views(s)[i]);
        } else if i == j {
        } else {
            assert(s.insert(j, x)[(i - 1) + 1] == s[i - 1]);
            assert(seq_views(s).insert(j, x@)[(i - 1) + 1] == seq_views(s)[i - 1]);
        }
    }
    assert(seq_views(s.insert(j, x)) =~= seq_views(s).insert(j, x@));
}

/// After inserting a path, a sequence holds exactly what it held before plus
/// the inserted path.
proof fn lemma_insert_contains(s: Seq<Seq<u8>>, j: int, x: Seq<u8>)
    requires
        0 <= j <= s.len(),
    ensures
        forall|p: Seq<u8>| #[trigger] s.insert(j, x).contains(p) <==> (s.contains(p) || p == x),
{
    s.insert_ensures(j, x);
    assert forall|p: Seq<u8>| #[trigger] s.insert(j, x).contains(p) implies (s.contains(p) || p
        == x) by {
        let i = choose|i: int| 0 <= i < s.insert(j, x).len() && s.insert(j, x)[i] == p;
        if i < j {
            assert(s[i] == p);
        } else if i > j {
            assert(s.insert(j, x)[(i - 1) + 1] == s[i - 1]);
            assert(s[i - 1] == p);
        }
    }
    assert forall|p: Seq<u8>| (s.contains(p) || p == x) implies #[trigger] s.insert(j, x).contains(
        p,
    ) by {
        if s.contains(p) {
            let i = choose|i: int| 0 <= i < s.len() && s[i] == p;
            if i < j {
                assert(s.insert(j, x)[i] == p);
            } else {
                assert(s.insert(j, x)[i + 1] == p);
            }
        } else {
            assert(s.insert(j, x)[j] == p);
        }
    }
}

/// Position before the first element that sorts after `x`.
fn insert_position(out: &Vec<Vec<u8>>, x: &Vec<u8>) -> (j: usize)
    requires
        sorted_le(seq_views(out@)),
    ensures
        0 <= j <= out@.len(),
        forall|m: int| 0 <= m < j ==> path_le(#[trigger] seq_views(out@)[m], x@),
        j < out@.len() ==> path_lt(x@, seq_views(out@)[j as int]),
{
    let mut j: usize = 0;
    while j < out.len()
        invariant
            0 <= j <= out@.len(),
            forall|m: int| 0 <= m < j ==> path_le(#[trigger] seq_views(out@)[m], x@),
        decreases out@.len() - j,
    {
        if path_lt_exec(x, &out[j]) {
            return j;
        }
        proof {
            lemma_lt_total(seq_views(out@)[j as int], x@);
        }
        j = j + 1;
    }
    j
}

/// Sorts the paths in the component-wise path order, keeping exactly the same
/// set of paths.
fn sort_paths(v: &Vec<Vec<u8>>) -> (r: Vec<Vec<u8>>)
    ensures
        sorted_le(seq_views(r@)),
        forall|p: Seq<u8>| #[trigger] seq_views(r@).contains(p) <==> seq_views(v@).contains(p),
{
    let mut out: Vec<Vec<u8>> = Vec::new();
    let mut i: usize = 0;
    while i < v.len()
        invariant
            0 <= i <= v@.len(),
            sorted_le(seq_views(out@)),
            forall|p: Seq<u8>| #[trigger]
                seq_views(out@).contains(p) <==> seq_views(v@).take(i as int).contains(p),
        decreases v@.len() - i,
    {
        let ghost old_out = out@;
        let x = clone_path(&v[i]);
        let j = insert_position(&out, &x);
        out.insert(j, x);
        proof {
            lemma_seq_views_insert(old_out, j as int, out@[j as int]);
            assert(seq_views(out@) == seq_views(old_out).insert(j as int, v@[i as int]@));
            let ov = seq_views(old_out);
            let nv = seq_views(out@);
            ov.insert_ensures(j as int, v@[i as int]@);
            // sortedness of the new sequence
            assert forall|a: int, b: int| 0 <= a <= b < nv.len() implies #[trigger] path_le(
                nv[a],
                nv[b],
            ) by {
                let xa = if a < j { ov[a] } else if a == j { v@[i as int]@ } else { ov[a - 1] };
                let xb = if b < j { ov[b] } else if b == j { v@[i as int]@ } else { ov[b - 1] };
                assert(nv[a] == xa) by {
                    if a > j {
                        assert(ov.insert(j as int, v@[i as int]@)[(a - 1) + 1] == ov[a - 1]);
                    }
                }
                assert(nv[b] == xb) by {
                    if b > j {
                        assert(ov.insert(j as int, v@[i as int]@)[(b - 1) + 1] == ov[b - 1]);
                    }
                }
                if a == j && b == j {
                } else if a == j {
                    // x < ov[j] <= ov[b-1]
                    assert(path_lt(v@[i as int]@, ov[j as int]));
                    if b - 1 > j {
                        assert(path_le(ov[j as int], ov[b - 1]));
                        if path_lt(ov[j as int], ov[b - 1]) {
                            lemma_lt_transitive(v@[i as int]@, ov[j as int], ov[b - 1]);
                        }
                    }
                } else if b == j {
                    assert(path_le(ov[a], v@[i as int]@));
                } else if a < j && j < b {
                    assert(path_le(ov[a], v@[i as int]@));
                    assert(path_lt(v@[i as int]@, ov[j as int]));
                    lemma_le_lt_transitive(ov[a], v@[i as int]@, ov[j as int]);
                    if b - 1 > j {
                        assert(path_le(ov[j as int], ov[b - 1]));
                        lemma_le_transitive(ov[a], ov[j as int], ov[b - 1]);
                        assert(path_le(ov[a], ov[b - 1]));
                    } else {
                        assert(path_le(ov[a], ov[b - 1]));
                    }
                } else {
                    assert(path_le(xa, xb));
                }
            }
            // element set of the new sequence
            lemma_insert_contains(ov, j as int, v@[i as int]@);
            assert(seq_views(v@).take(i as int + 1) =~= seq_views(v@).take(i as int).push(
                v@[i as int]@,
            ));
            assert forall|p: Seq<u8>| #[trigger] nv.contains(p) implies seq_views(v@).take(
                i as int + 1,
            ).contains(p) by {
                if ov.contains(p) {
                    let m = choose|m: int|
                        0 <= m < seq_views(v@).take(i as int).len() && seq_views(v@).take(
                            i as int,
                        )[m] == p;
                    assert(seq_views(v@).take(i as int + 1)[m] == p);
                } else {
                    assert(seq_views(v@).take(i as int + 1)[i as int] == p);
                }
            }
            assert forall|p: Seq<u8>| seq_views(v@).take(i as int + 1).contains(p) implies
                #[trigger] nv.contains(p) by {
                let taken = seq_views(v@).take(i as int + 1);
                let m = choose|m: int| 0 <= m < taken.len() && taken[m] == p;
                if m < i {
                    assert(seq_views(v@).take(i as int)[m] == p);
                    assert(seq_views(v@).take(i as int).contains(p));
                }
            }
        }
        i = i + 1;
    }
    proof {
        assert(seq_views(v@).take(v@.len() as int) =~= seq_views(v@));
    }
    out
}

/// Collapses the matched paths to the minimal candidate set.
///
/// The matches are sorted in the component-wise path order, under which every
/// path appears no earlier than its ancestors; one forward scan then keeps a
/// path exactly when the last kept path does not cover it. Duplicates are
/// covered by themselves, so they are dropped as well.
pub fn reduce_candidates(paths: &Vec<Vec<u8>>) -> (out: Vec<Vec<u8>>)
    ensures
        is_reduction(seq_views(paths@), seq_views(out@)),
{
    let s = sort_paths(paths);
    let ghost input = seq_views(paths@);
    let ghost ins = seq_views(s@);
    let mut out: Vec<Vec<u8>> = Vec::new();
    let mut k: usize = 0;
    while k < s.len()
        invariant
            0 <= k <= s@.len(),
            seq_views(s@) == ins,
            sorted_le(ins),
            forall|p: Seq<u8>| #[trigger] ins.contains(p) <==> input.contains(p),
            strictly_sorted(seq_views(out@)),
            forall|i: int, j: int|
                0 <= i < out@.len() && 0 <= j < out@.len() && i != j ==> !strict_ancestor_of(
                    #[trigger] seq_views(out@)[i],
                    #[trigger] seq_views(out@)[j],
                ),
            forall|i: int| 0 <= i < out@.len() ==> ins.contains(#[trigger] seq_views(out@)[i]),
            forall|i: int|
                0 <= i < out@.len() ==> !has_strict_ancestor_in(
                    ins,
                    #[trigger] seq_views(out@)[i],
                ),
            forall|j: int|
                #![trigger ins[j]]
                0 <= j < k ==> exists|i: int|
                    0 <= i < out@.len() && covers(#[trigger] seq_views(out@)[i], ins[j]),
            forall|j: int|
                0 <= j < k ==> seq_views(out@).contains(#[trigger] ins[j])
                    || has_strict_ancestor_in(ins, ins[j]),
            out@.len() > 0 ==> forall|j: int|
                k <= j < ins.len() ==> path_le(
                    seq_views(out@)[out@.len() - 1],
                    #[trigger] ins[j],
                ),
        decreases s@.len() - k,
    {
        let p = clone_path(&s[k]);
        let ghost pv = p@;
        proof {
            assert(pv == ins[k as int]);
        }
        let last_covers = if out.len() > 0 {
            covers_exec(&out[out.len() - 1], &p)
        } else {
            false
        };
        if !last_covers {
            proof {
                let ov = seq_views(out@);
                let bound = out@.len() as int;
                // the last kept path sorts strictly before this one
                if bound > 0 {
                    assert(path_le(ov[bound - 1], pv));
                    assert(ov[bound - 1] != pv);
                    assert(path_lt(ov[bound - 1], pv));
                }
                // no strict ancestor of the new path exists among the matches
                assert(!has_strict_ancestor_in(ins, pv)) by {
                    if has_strict_ancestor_in(ins, pv) {
                        let q = choose|q: Seq<u8>| #[trigger]
                            ins.contains(q) && strict_ancestor_of(q, pv);
                        lemma_strict_ancestor_lt(q, pv);
                        let m = choose|m: int| 0 <= m < ins.len() && ins[m] == q;
                        if m >= k {
                            assert(path_le(ins[k as int], ins[m]));
                            if pv == q {
                                lemma_lt_irreflexive(pv);
                            } else {
                                lemma_lt_asymmetric(q, pv);
                            }
                        } else {
                            // a kept path covers q, hence strictly covers pv,
                            // which the scan would have skipped
                            let i = choose|i: int|
                                0 <= i < out@.len() && covers(
                                #[trigger] seq_views(out@)[i],
                                ins[m],
                            );
                            let c = ov[i];
                            lemma_covers_transitive(c, q, pv);
                            assert(c.len() < pv.len());
                            assert(strict_ancestor_of(c, pv));
                            if i == bound - 1 {
                                assert(covers(c, pv));
                                assert(false);
                            } else {
                                lemma_strict_ancestor_lt(c, pv);
                                lemma_between(c, ov[bound - 1], pv);
                                if c == ov[bound - 1] {
                                    lemma_lt_irreflexive(c);
                                } else {
                                    assert(strict_ancestor_of(c, ov[bound - 1]));
                                }
                                assert(false);
                            }
                        }
                    }
                }
            }
            let ghost ov = seq_views(out@);
            let ghost bound = out@.len() as int;
            out.push(p);
            proof {
                assert(seq_views(out@) =~= ov.push(pv)) by {
                    assert forall|i: int| 0 <= i < out@.len() implies #[trigger] seq_views(out@)[i]
                        == ov.push(pv)[i] by {
                        if i < bound {
                            assert(out@[i] == out@.subrange(0, bound)[i]);
                        }
                    }
                }
                let nv = ov.push(pv);
                // strict sortedness
                assert forall|a: int, b: int| 0 <= a < b < nv.len() implies #[trigger] path_lt(
                    nv[a],
                    nv[b],
                ) by {
                    if b == bound {
                        if a < bound - 1 {
                            lemma_lt_transitive(ov[a], ov[bound - 1], pv);
                        }
                    }
                }
                // no nesting among the kept paths
                assert forall|i: int, j: int|
                    0 <= i < nv.len() && 0 <= j < nv.len() && i != j implies !strict_ancestor_of(
                    #[trigger] nv[i],
                    #[trigger] nv[j],
                ) by {
                    if j == bound && i < bound {
                        assert(ins.contains(ov[i]));
                        if strict_ancestor_of(ov[i], pv) {
                            assert(has_strict_ancestor_in(ins, pv));
                        }
                    } else if i == bound && j < bound {
                        if strict_ancestor_of(pv, ov[j]) {
                            assert(path_lt(nv[j], nv[bound]));
                            assert(nv[j] == ov[j]);
                            lemma_strict_ancestor_lt(pv, ov[j]);
                            lemma_lt_asymmetric(ov[j], pv);
                        }
                    }
                }
                // coverage and membership for the processed prefix
                assert(ins.contains(pv)) by {
                    assert(ins[k as int] == pv);
                }
                assert(covers(pv, pv));
                assert forall|j: int| #![trigger ins[j]] 0 <= j < k + 1 implies exists|i: int|
                    0 <= i < nv.len() && covers(#[trigger] nv[i], ins[j]) by {
                    if j < k {
                        let i = choose|i: int| 0 <= i < ov.len() && covers(#[trigger] ov[i], ins[j]);
                        assert(covers(nv[i], ins[j]));
                    } else {
                        assert(covers(nv[bound], ins[j]));
                    }
                }
                assert forall|j: int| 0 <= j < k + 1 implies seq_views(out@).contains(
                    #[trigger] ins[j],
                ) || has_strict_ancestor_in(ins, ins[j]) by {
                    if j < k {
                        if ov.contains(ins[j]) {
                            let i = choose|i: int| 0 <= i < ov.len() && ov[i] == ins[j];
                            assert(nv[i] == ins[j]);
                        }
                    } else {
                        assert(nv[bound] == ins[j]);
                    }
                }
            }
        } else {
            proof {
                let ov = seq_views(out@);
                let bound = out@.len() as int;
                let last = ov[bound - 1];
                assert forall|j: int| #![trigger ins[j]] 0 <= j < k + 1 implies exists|i: int|
                    0 <= i < ov.len() && covers(#[trigger] ov[i], ins[j]) by {
                    if j == k {
                        assert(covers(ov[bound - 1], ins[j]));
                    }
                }
                assert forall|j: int| 0 <= j < k + 1 implies ov.contains(#[trigger] ins[j])
                    || has_strict_ancestor_in(ins, ins[j]) by {
                    if j == k {
                        if last == pv {
                            assert(ov[bound - 1] == ins[j]);
                            assert(ov.contains(ins[j]));
                        } else {
                            assert(strict_ancestor_of(last, pv));
                            assert(ins.contains(last));
                            assert(has_strict_ancestor_in(ins, pv));
                        }
                    }
                }
            }
        }
        k = k + 1;
    }
    proof {
        let nv = seq_views(out@);
        // ancestors among the sorted matches and among the raw matches agree
        assert forall|p: Seq<u8>| #[trigger] has_strict_ancestor_in(ins, p) implies
            has_strict_ancestor_in(input, p) by {
            let q = choose|q: Seq<u8>| #[trigger] ins.contains(q) && strict_ancestor_of(q, p);
            assert(input.contains(q));
        }
        assert forall|p: Seq<u8>| #[trigger] has_strict_ancestor_in(input, p) implies
            has_strict_ancestor_in(ins, p) by {
            let q = choose|q: Seq<u8>| #[trigger] input.contains(q) && strict_ancestor_of(q, p);
            assert(ins.contains(q));
        }
        assert forall|p: Seq<u8>| #[trigger] nv.contains(p) implies input.contains(p)
            && !has_strict_ancestor_in(input, p) by {
            let i = choose|i: int| 0 <= i < nv.len() && nv[i] == p;
            assert(ins.contains(nv[i]));
            assert(!has_strict_ancestor_in(ins, nv[i]));
        }
        assert forall|p: Seq<u8>| #[trigger]
            input.contains(p) && !has_strict_ancestor_in(input, p) implies nv.contains(p) by {
            assert(ins.contains(p));
            let j = choose|j: int| 0 <= j < ins.len() && ins[j] == p;
            assert(nv.contains(ins[j]) || has_strict_ancestor_in(ins, ins[j]));
        }
        assert forall|p: Seq<u8>| #[trigger] input.contains(p) implies exists|i: int|
            0 <= i < nv.len() && covers(nv[i], p) by {
            assert(ins.contains(p));
            let j = choose|j: int| 0 <= j < ins.len() && ins[j] == p;
            let i = choose|i: int| 0 <= i < nv.len() && covers(#[trigger] nv[i], ins[j]);
            assert(covers(nv[i], p));
        }
    }
    out
}


proof fn lemma_le_antisymmetric(a: Seq<u8>, b: Seq<u8>)
    requires
        path_le(a, b),
        path_le(b, a),
    ensures
        a == b,
{
    if a != b {
        lemma_lt_asymmetric(a, b);
    }
}

/// Two strictly sorted sequences holding the same set of paths are equal.
proof fn lemma_strictly_sorted_same_contains(a: Seq<Seq<u8>>, b: Seq<Seq<u8>>)
    requires
        strictly_sorted(a),
        strictly_sorted(b),
        forall|p: Seq<u8>| #[trigger] a.contains(p) <==> b.contains(p),
    ensures
        a == b,
    decreases a.len(),
{
    if a.len() == 0 {
        if b.len() > 0 {
            assert(b.contains(b[0]));
            assert(a.contains(b[0]));
            assert(false);
        }
        assert(a =~= b);
    } else {
        assert(a.contains(a[0]));
        assert(b.contains(a[0]));
        let jb = choose|j: int| 0 <= j < b.len() && b[j] == a[0];
        assert(b.contains(b[0]));
        assert(a.contains(b[0]));
        let ia = choose|i: int| 0 <= i < a.len() && a[i] == b[0];
        if jb > 0 {
            assert(path_lt(b[0], b[jb]));
        }
        if ia > 0 {
            assert(path_lt(a[0], a[ia]));
        }
        lemma_le_antisymmetric(a[0], b[0]);
        let a1 = a.skip(1);
        let b1 = b.skip(1);
        assert forall|i: int, j: int| 0 <= i < j < a1.len() implies #[trigger] path_lt(
            a1[i],
            a1[j],
        ) by {
            assert(a1[i] == a[i + 1]);
            assert(a1[j] == a[j + 1]);
            assert(path_lt(a[i + 1], a[j + 1]));
        }
        assert forall|i: int, j: int| 0 <= i < j < b1.len() implies #[trigger] path_lt(
            b1[i],
            b1[j],
        ) by {
            assert(b1[i] == b[i + 1]);
            assert(b1[j] == b[j + 1]);
            assert(path_lt(b[i + 1], b[j + 1]));
        }
        assert forall|p: Seq<u8>| #[trigger] a1.contains(p) implies b1.contains(p) by {
            let i = choose|i: int| 0 <= i < a1.len() && a1[i] == p;
            assert(a[i + 1] == p);
            assert(a.contains(p));
            assert(path_lt(a[0], a[i + 1]));
            if p == a[0] {
                lemma_lt_irreflexive(p);
            }
            assert(b.contains(p));
            let j = choose|j: int| 0 <= j < b.len() && b[j] == p;
            assert(j > 0);
            assert(b1[j - 1] == p);
        }
        assert forall|p: Seq<u8>| #[trigger] b1.contains(p) implies a1.contains(p) by {
            let j = choose|j: int| 0 <= j < b1.len() && b1[j] == p;
            assert(b[j + 1] == p);
            assert(b.contains(p));
            assert(path_lt(b[0], b[j + 1]));
            if p == b[0] {
                lemma_lt_irreflexive(p);
            }
            assert(a.contains(p));
            let i = choose|i: int| 0 <= i < a.len() && a[i] == p;
            assert(i > 0);
            assert(a1[i - 1] == p);
        }
        lemma_strictly_sorted_same_contains(a1, b1);
        assert(a.len() == b.len());
        assert forall|i: int| 0 <= i < a.len() implies #[trigger] a[i] == b[i] by {
            if i > 0 {
                assert(a[i] == a1[i - 1]);
                assert(b[i] == b1[i - 1]);
            }
        }
        assert(a =~= b);
    }
}

/// The candidate set is a function of the matched paths alone: reducing the
/// same matches twice yields the same candidate set.
pub proof fn lemma_reduction_deterministic(input: Seq<Seq<u8>>, out1: Seq<Seq<u8>>, out2: Seq<Seq<u8>>)
    requires
        is_reduction(input, out1),
        is_reduction(input, out2),
    ensures
        out1 == out2,
{
    assert forall|p: Seq<u8>| #[trigger] out1.contains(p) implies out2.contains(p) by {
        assert(input.contains(p) && !has_strict_ancestor_in(input, p));
    }
    assert forall|p: Seq<u8>| #[trigger] out2.contains(p) implies out1.contains(p) by {
        assert(input.contains(p) && !has_strict_ancestor_in(input, p));
    }
    lemma_strictly_sorted_same_contains(out1, out2);
}

/// Reduction is idempotent: reducing a candidate set again returns it
/// unchanged.
pub proof fn lemma_reduction_idempotent(input: Seq<Seq<u8>>, out: Seq<Seq<u8>>, again: Seq<Seq<u8>>)
    requires
        is_reduction(input, out),
        is_reduction(out, again),
    ensures
        again == out,
{
    assert forall|p: Seq<u8>| #[trigger] out.contains(p) implies !has_strict_ancestor_in(out, p) by {
        if has_strict_ancestor_in(out, p) {
            let q = choose|q: Seq<u8>| #[trigger] out.contains(q) && strict_ancestor_of(q, p);
            let i = choose|i: int| 0 <= i < out.len() && out[i] == q;
            let j = choose|j: int| 0 <= j < out.len() && out[j] == p;
            assert(q.len() < p.len());
            assert(i != j);
            assert(!strict_ancestor_of(out[i], out[j]));
            assert(false);
        }
    }
    assert forall|p: Seq<u8>| #[trigger] again.contains(p) implies out.contains(p) by {}
    assert forall|p: Seq<u8>| #[trigger] out.contains(p) implies again.contains(p) by {
        assert(!has_strict_ancestor_in(out, p));
    }
    lemma_strictly_sorted_same_contains(again, out);
}

/// Every matched path is covered by exactly one candidate: one candidate is
/// an ancestor of the match or the match itself, and no second candidate is.
pub proof fn lemma_unique_cover(input: Seq<Seq<u8>>, out: Seq<Seq<u8>>, p: Seq<u8>)
    requires
        is_reduction(input, out),
        input.contains(p),
    ensures
        exists|i: int| 0 <= i < out.len() && covers(#[trigger] out[i], p),
        forall|i: int, j: int|
            #![trigger covers(out[i], p), covers(out[j], p)]
            0 <= i < out.len() && 0 <= j < out.len() && covers(out[i], p) && covers(out[j], p)
                ==> i == j,
{
    assert(exists|i: int| 0 <= i < out.len() && covers(#[trigger] out[i], p));
    assert forall|i: int, j: int|
        0 <= i < out.len() && 0 <= j < out.len() && covers(out[i], p) && covers(
            out[j],
            p,
        ) implies i == j by {
        if i != j {
            lemma_common_covers(out[i], out[j], p);
            if out[i] == out[j] {
                if i < j {
                    assert(path_lt(out[i], out[j]));
                } else {
                    assert(path_lt(out[j], out[i]));
                }
                lemma_lt_irreflexive(out[i]);
            } else if strict_ancestor_of(out[i], out[j]) {
                assert(!strict_ancestor_of(out[i], out[j]));
            } else {
                assert(covers(out[j], out[i]));
                assert(strict_ancestor_of(out[j], out[i]));
                assert(!strict_ancestor_of(out[j], out[i]));
            }
            assert(false);
        }
    }
}


/// No nesting within a candidate set: of two distinct candidates, neither is
/// an ancestor directory of the other, nor are they the same path.
pub proof fn lemma_no_nesting(input: Seq<Seq<u8>>, out: Seq<Seq<u8>>, i: int, j: int)
    requires
        is_reduction(input, out),
        0 <= i < out.len(),
        0 <= j < out.len(),
        i != j,
    ensures
        !covers(out[i], out[j]),
{
    if out[i] == out[j] {
        if i < j {
            assert(path_lt(out[i], out[j]));
        } else {
            assert(path_lt(out[j], out[i]));
        }
        lemma_lt_irreflexive(out[i]);
    }
}

} // verus!
