//! The byte-string model of Windows-style paths: the component separator, the
//! ancestor relation between directory paths, and a total order under which a
//! path always sorts before its own descendants and everything between a path
//! and one of its descendants is itself a descendant of that path.

use vstd::prelude::*;

verus! {

/// The path component separator, `\`.
pub const SEP: u8 = 92;

/// The volume designator marker, `:`.
pub const COLON: u8 = 58;

/// Rank of a byte for path ordering: the separator sorts before every other
/// byte, so that a directory sorts before all of its descendants and no
/// sibling can fall in between (`a b` and `a-b` sort after `a`, not between
/// `a` and `a\c`).
pub open spec fn byte_rank(b: u8) -> int {
    if b == SEP {
        -1
    } else {
        b as int
    }
}

/// Total order on paths: byte-lexicographic, except that the separator sorts
/// before every other byte. This is the component-wise path order.
pub open spec fn path_lt(a: Seq<u8>, b: Seq<u8>) -> bool
    decreases a.len(),
{
    if b.len() == 0 {
        false
    } else if a.len() == 0 {
        true
    } else if a[0] == b[0] {
        path_lt(a.skip(1), b.skip(1))
    } else {
        byte_rank(a[0]) < byte_rank(b[0])
    }
}

pub open spec fn path_le(a: Seq<u8>, b: Seq<u8>) -> bool {
    path_lt(a, b) || a == b
}

/// `a` is a strict ancestor directory of `b`: `b` extends `a` with a
/// separator and at least the start of a further component.
pub open spec fn strict_ancestor_of(a: Seq<u8>, b: Seq<u8>) -> bool {
    a.len() < b.len() && b.take(a.len() as int) == a && b[a.len() as int] == SEP
}

/// `a` is an ancestor directory of `b`, or `b` itself.
pub open spec fn covers(a: Seq<u8>, b: Seq<u8>) -> bool {
    a == b || strict_ancestor_of(a, b)
}

/// The byte strings held by a sequence of path values.
pub open spec fn seq_views(s: Seq<Vec<u8>>) -> Seq<Seq<u8>> {
    Seq::new(s.len(), |i: int| s[i]@)
}

pub proof fn lemma_lt_irreflexive(a: Seq<u8>)
    ensures
        !path_lt(a, a),
    decreases a.len(),
{
    if a.len() > 0 {
        lemma_lt_irreflexive(a.skip(1));
    }
}

pub proof fn lemma_lt_asymmetric(a: Seq<u8>, b: Seq<u8>)
    requires
        path_lt(a, b),
    ensures
        !path_lt(b, a),
    decreases a.len(),
{
    if a.len() > 0 && b.len() > 0 && a[0] == b[0] {
        lemma_lt_asymmetric(a.skip(1), b.skip(1));
    }
}

pub proof fn lemma_lt_total(a: Seq<u8>, b: Seq<u8>)
    ensures
        path_lt(a, b) || path_lt(b, a) || a == b,
    decreases a.len(),
{
    if a.len() == 0 && b.len() == 0 {
        assert(a =~= b);
    } else if a.len() > 0 && b.len() > 0 {
        if a[0] == b[0] {
            lemma_lt_total(a.skip(1), b.skip(1));
            if a.skip(1) == b.skip(1) {
                assert(a.len() == b.len()) by {
                    assert(a.skip(1).len() == b.skip(1).len());
                }
                assert forall|i: int| 0 <= i < a.len() implies #[trigger] a[i] == b[i] by {
                    if i > 0 {
                        assert(a[i] == a.skip(1)[i - 1]);
                        assert(b[i] == b.skip(1)[i - 1]);
                    }
                }
                assert(a =~= b);
            }
        } else {
            assert(byte_rank(a[0]) != byte_rank(b[0]));
        }
    }
}

pub proof fn lemma_lt_transitive(a: Seq<u8>, b: Seq<u8>, c: Seq<u8>)
    requires
        path_lt(a, b),
        path_lt(b, c),
    ensures
        path_lt(a, c),
    decreases a.len(),
{
    if a.len() > 0 {
        if a[0] == b[0] && b[0] == c[0] {
            lemma_lt_transitive(a.skip(1), b.skip(1), c.skip(1));
        } else if a[0] == b[0] {
            assert(byte_rank(b[0]) < byte_rank(c[0]));
            assert(a[0] != c[0]);
        } else if b[0] == c[0] {
            assert(byte_rank(a[0]) < byte_rank(b[0]));
            assert(a[0] != c[0]);
        } else {
            assert(byte_rank(a[0]) < byte_rank(c[0]));
            assert(a[0] != c[0]);
        }
    }
}

pub proof fn lemma_le_transitive(a: Seq<u8>, b: Seq<u8>, c: Seq<u8>)
    requires
        path_le(a, b),
        path_le(b, c),
    ensures
        path_le(a, c),
{
    if path_lt(a, b) && path_lt(b, c) {
        lemma_lt_transitive(a, b, c);
    }
}

pub proof fn lemma_le_lt_transitive(a: Seq<u8>, b: Seq<u8>, c: Seq<u8>)
    requires
        path_le(a, b),
        path_lt(b, c),
    ensures
        path_lt(a, c),
{
    if path_lt(a, b) {
        lemma_lt_transitive(a, b, c);
    }
}

/// A proper prefix of a path sorts before it.
pub proof fn lemma_prefix_lt(a: Seq<u8>, b: Seq<u8>)
    requires
        a.len() < b.len(),
        b.take(a.len() as int) == a,
    ensures
        path_lt(a, b),
    decreases a.len(),
{
    if a.len() > 0 {
        assert(b[0] == a[0]) by {
            assert(b.take(a.len() as int)[0] == b[0]);
        }
        assert(b.skip(1).take(a.len() - 1) =~= a.skip(1)) by {
            assert forall|i: int| 0 <= i < a.len() - 1 implies b.skip(1).take(a.len() - 1)[i] == a.skip(
                1,
            )[i] by {
                assert(b.take(a.len() as int)[i + 1] == b[i + 1]);
            }
        }
        lemma_prefix_lt(a.skip(1), b.skip(1));
    }
}

pub proof fn lemma_strict_ancestor_lt(a: Seq<u8>, b: Seq<u8>)
    requires
        strict_ancestor_of(a, b),
    ensures
        path_lt(a, b),
{
    lemma_prefix_lt(a, b);
}

/// Anything that sorts between a path and one of its strict descendants is
/// itself covered by that path. This is what makes a single forward scan over
/// the sorted matches sufficient to drop every nested path.
pub proof fn lemma_between(a: Seq<u8>, b: Seq<u8>, c: Seq<u8>)
    requires
        path_lt(a, b),
        path_lt(b, c),
        strict_ancestor_of(a, c),
    ensures
        covers(a, b),
    decreases a.len(),
{
    if a.len() == 0 {
        assert(c[0] == SEP);
        if b.len() == 0 {
            assert(a =~= b);
        } else if b[0] == c[0] {
            assert(b.take(0) =~= a);
        } else {
            assert(byte_rank(b[0]) >= 0);
            assert(false);
        }
    } else {
        assert(c[0] == a[0]) by {
            assert(c.take(a.len() as int)[0] == c[0]);
        }
        if a[0] == b[0] {
            let a1 = a.skip(1);
            let b1 = b.skip(1);
            let c1 = c.skip(1);
            assert(path_lt(a1, b1));
            assert(path_lt(b1, c1));
            assert(strict_ancestor_of(a1, c1)) by {
                assert(c1.take(a1.len() as int) =~= a1) by {
                    assert forall|i: int| 0 <= i < a1.len() implies c1.take(a1.len() as int)[i]
                        == a1[i] by {
                        assert(c.take(a.len() as int)[i + 1] == c[i + 1]);
                    }
                }
                assert(c1[a1.len() as int] == c[a.len() as int]);
            }
            lemma_between(a1, b1, c1);
            if a1 == b1 {
                assert forall|i: int| 0 <= i < a.len() implies a[i] == b[i] by {
                    if i > 0 {
                        assert(a1[i - 1] == b1[i - 1]);
                    }
                }
                assert(a =~= b);
            } else {
                assert(strict_ancestor_of(a1, b1));
                assert(b.take(a.len() as int) =~= a) by {
                    assert forall|i: int| 0 <= i < a.len() implies b.take(a.len() as int)[i]
                        == a[i] by {
                        if i > 0 {
                            assert(b1.take(a1.len() as int)[i - 1] == b1[i - 1]);
                            assert(a1[i - 1] == b1.take(a1.len() as int)[i - 1]);
                        }
                    }
                }
                assert(b[a.len() as int] == b1[a1.len() as int]);
                assert(strict_ancestor_of(a, b));
            }
        } else {
            assert(byte_rank(a[0]) < byte_rank(b[0]));
            if b[0] == c[0] {
                assert(false);
            } else {
                assert(byte_rank(b[0]) < byte_rank(c[0]));
                assert(false);
            }
        }
    }
}

/// The ancestor-or-self relation is transitive.
pub proof fn lemma_covers_transitive(a: Seq<u8>, b: Seq<u8>, c: Seq<u8>)
    requires
        covers(a, b),
        covers(b, c),
    ensures
        covers(a, c),
{
    if a != b && b != c {
        assert(c.take(a.len() as int) =~= a) by {
            assert forall|i: int| 0 <= i < a.len() implies c.take(a.len() as int)[i] == a[i] by {
                assert(c.take(b.len() as int)[i] == c[i]);
                assert(b.take(a.len() as int)[i] == b[i]);
            }
        }
        assert(c[a.len() as int] == SEP) by {
            assert(c.take(b.len() as int)[a.len() as int] == c[a.len() as int]);
            assert(b[a.len() as int] == SEP);
        }
    }
}

/// Two ancestors of the same path are comparable: one covers the other.
pub proof fn lemma_common_covers(c1: Seq<u8>, c2: Seq<u8>, p: Seq<u8>)
    requires
        covers(c1, p),
        covers(c2, p),
    ensures
        covers(c1, c2) || covers(c2, c1),
{
    if c1 != p && c2 != p {
        if c1.len() == c2.len() {
            assert(c1 =~= c2) by {
                assert forall|i: int| 0 <= i < c1.len() implies c1[i] == c2[i] by {
                    assert(p.take(c1.len() as int)[i] == p[i]);
                    assert(p.take(c2.len() as int)[i] == p[i]);
                }
            }
        } else if c1.len() < c2.len() {
            assert(c2.take(c1.len() as int) =~= c1) by {
                assert forall|i: int| 0 <= i < c1.len() implies c2.take(c1.len() as int)[i]
                    == c1[i] by {
                    assert(p.take(c2.len() as int)[i] == p[i]);
                    assert(p.take(c1.len() as int)[i] == p[i]);
                }
            }
            assert(c2[c1.len() as int] == SEP) by {
                assert(p.take(c2.len() as int)[c1.len() as int] == p[c1.len() as int]);
                assert(p[c1.len() as int] == SEP);
            }
            assert(strict_ancestor_of(c1, c2));
        } else {
            assert(c1.take(c2.len() as int) =~= c2) by {
                assert forall|i: int| 0 <= i < c2.len() implies c1.take(c2.len() as int)[i]
                    == c2[i] by {
                    assert(p.take(c1.len() as int)[i] == p[i]);
                    assert(p.take(c2.len() as int)[i] == p[i]);
                }
            }
            assert(c1[c2.len() as int] == SEP) by {
                assert(p.take(c1.len() as int)[c2.len() as int] == p[c2.len() as int]);
                assert(p[c2.len() as int] == SEP);
            }
            assert(strict_ancestor_of(c2, c1));
        }
    }
}

/// Rank comparison on bytes, executable form.
fn byte_rank_lt(x: u8, y: u8) -> (r: bool)
    ensures
        r == (byte_rank(x) < byte_rank(y)),
{
    if x == SEP {
        y != SEP
    } else if y == SEP {
        false
    } else {
        x < y
    }
}

/// Splitting off a common prefix preserves the order relation.
proof fn lemma_lt_common_prefix(a: Seq<u8>, b: Seq<u8>, i: int)
    requires
        0 <= i <= a.len(),
        i <= b.len(),
        a.take(i) == b.take(i),
    ensures
        path_lt(a, b) == path_lt(a.skip(i), b.skip(i)),
    decreases i,
{
    if i == 0 {
        assert(a.skip(0) =~= a);
        assert(b.skip(0) =~= b);
    } else {
        assert(a[0] == b[0]) by {
            assert(a.take(i)[0] == a[0]);
            assert(b.take(i)[0] == b[0]);
        }
        assert(a.skip(1).take(i - 1) =~= b.skip(1).take(i - 1)) by {
            assert forall|j: int| 0 <= j < i - 1 implies #[trigger] a.skip(1)[j] == b.skip(1)[j] by {
                assert(a.take(i)[j + 1] == a[j + 1]);
                assert(b.take(i)[j + 1] == b[j + 1]);
            }
        }
        lemma_lt_common_prefix(a.skip(1), b.skip(1), i - 1);
        assert(a.skip(1).skip(i - 1) =~= a.skip(i));
        assert(b.skip(1).skip(i - 1) =~= b.skip(i));
    }
}

/// Compares two paths in the component-wise order.
pub fn path_lt_exec(a: &Vec<u8>, b: &Vec<u8>) -> (r: bool)
    ensures
        r == path_lt(a@, b@),
{
    let mut i: usize = 0;
    loop
        invariant
            0 <= i <= a@.len(),
            i <= b@.len(),
            a@.take(i as int) == b@.take(i as int),
        decreases a@.len() - i,
    {
        proof {
            lemma_lt_common_prefix(a@, b@, i as int);
        }
        if i == a.len() || i == b.len() {
            return a.len() < b.len();
        }
        if a[i] != b[i] {
            return byte_rank_lt(a[i], b[i]);
        }
        proof {
            assert(a@.take(i + 1) =~= b@.take(i + 1)) by {
                assert forall|j: int| 0 <= j < i + 1 implies #[trigger] a@[j] == b@[j] by {
                    if j < i {
                        assert(a@.take(i as int)[j] == a@[j]);
                        assert(b@.take(i as int)[j] == b@[j]);
                    }
                }
            }
        }
        i = i + 1;
    }
}

/// Whether `parent` is an ancestor directory of `dir`, or `dir` itself:
/// a prefix of it that ends at a component boundary.
pub fn covers_exec(parent: &Vec<u8>, dir: &Vec<u8>) -> (r: bool)
    ensures
        r == covers(parent@, dir@),
{
    if parent.len() > dir.len() {
        return false;
    }
    let mut i: usize = 0;
    while i < parent.len()
        invariant
            0 <= i <= parent@.len(),
            parent@.len() <= dir@.len(),
            forall|j: int| 0 <= j < i ==> parent@[j] == dir@[j],
        decreases parent@.len() - i,
    {
        if parent[i] != dir[i] {
            assert(!covers(parent@, dir@)) by {
                if parent@ == dir@ {
                    assert(false);
                } else if strict_ancestor_of(parent@, dir@) {
                    assert(dir@.take(parent@.len() as int)[i as int] == dir@[i as int]);
                }
            }
            return false;
        }
        i = i + 1;
    }
    if parent.len() == dir.len() {
        assert(parent@ =~= dir@);
        true
    } else {
        let boundary = dir[parent.len()] == SEP;
        proof {
            assert(dir@.take(parent@.len() as int) =~= parent@);
        }
        boundary
    }
}

/// Whether `dir` lies under the previously accepted candidate, if any.
/// A `None` parent covers nothing.
pub fn is_parent(maybe_parent: &Option<Vec<u8>>, dir: &Vec<u8>) -> (r: bool)
    ensures
        r == match *maybe_parent {
            Some(p) => covers(p@, dir@),
            None => false,
        },
{
    match maybe_parent {
        Some(p) => covers_exec(p, dir),
        None => false,
    }
}

/// Copies a path byte string.
pub fn clone_path(p: &Vec<u8>) -> (r: Vec<u8>)
    ensures
        r@ == p@,
{
    let mut r: Vec<u8> = Vec::new();
    let mut i: usize = 0;
    while i < p.len()
        invariant
            0 <= i <= p@.len(),
            r@ == p@.take(i as int),
        decreases p@.len() - i,
    {
        r.push(p[i]);
        proof {
            assert(r@ =~= p@.take(i + 1));
        }
        i = i + 1;
    }
    proof {
        assert(p@.take(p@.len() as int) =~= p@);
    }
    r
}

} // verus!
