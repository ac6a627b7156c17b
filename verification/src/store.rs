//! The line-delimited text form of the persisted path lists: rendering a
//! candidate list to text, one path per line with a terminating newline, and
//! parsing such text back into lines. Parsing splits on the newline byte,
//! drops the carriage return of a `\r\n` ending, and treats a final fragment
//! without a newline as a last line; an empty final fragment is no line.

use vstd::prelude::*;

use crate::paths::seq_views;

verus! {

/// The line feed byte, `\n`.
pub const NL: u8 = 10;

/// The carriage return byte, `\r`.
pub const CR: u8 = 13;

/// A line with a trailing carriage return stripped, as happens to a line
/// that ended in `\r\n`.
pub open spec fn chomp_cr(l: Seq<u8>) -> Seq<u8> {
    if l.len() > 0 && l[l.len() - 1] == CR {
        l.drop_last()
    } else {
        l
    }
}

/// The lines of `d` when `cur` holds the bytes of the current line read so
/// far: each newline ends a line, and a nonempty tail without a newline is a
/// final line of its own.
pub open spec fn lines_rec(d: Seq<u8>, cur: Seq<u8>) -> Seq<Seq<u8>>
    decreases d.len(),
{
    if d.len() == 0 {
        if cur.len() == 0 {
            Seq::empty()
        } else {
            seq![cur]
        }
    } else if d[0] == NL {
        seq![chomp_cr(cur)] + lines_rec(d.skip(1), Seq::empty())
    } else {
        lines_rec(d.skip(1), cur.push(d[0]))
    }
}

/// The lines of a line-delimited text.
pub open spec fn lines_spec(d: Seq<u8>) -> Seq<Seq<u8>> {
    lines_rec(d, Seq::empty())
}

/// The text form of a path list: each path followed by one newline.
pub open spec fn render_spec(ps: Seq<Seq<u8>>) -> Seq<u8>
    decreases ps.len(),
{
    if ps.len() == 0 {
        Seq::empty()
    } else {
        render_spec(ps.drop_last()) + ps.last() + seq![NL]
    }
}

/// Renders a path list as line-delimited text, one path per line in order,
/// each line terminated by a newline.
pub fn render_lines(paths: &Vec<Vec<u8>>) -> (r: Vec<u8>)
    ensures
        r@ == render_spec(seq_views(paths@)),
{
    let mut r: Vec<u8> = Vec::new();
    let mut i: usize = 0;
    while i < paths.len()
        invariant
            0 <= i <= paths@.len(),
            r@ == render_spec(seq_views(paths@).take(i as int)),
        decreases paths@.len() - i,
    {
        let p = &paths[i];
        let ghost before = r@;
        let mut j: usize = 0;
        while j < p.len()
            invariant
                0 <= j <= p@.len(),
                r@ == before + p@.take(j as int),
            decreases p@.len() - j,
        {
            r.push(p[j]);
            proof {
                assert(r@ =~= before + p@.take(j + 1));
            }
            j = j + 1;
        }
        r.push(NL);
        proof {
            let views = seq_views(paths@);
            assert(views.take(i + 1).drop_last() =~= views.take(i as int));
            assert(views.take(i + 1).last() == views[i as int]);
            assert(p@.take(p@.len() as int) =~= p@);
            assert(r@ =~= render_spec(views.take(i as int)) + views[i as int] + seq![NL]);
        }
        i = i + 1;
    }
    proof {
        assert(seq_views(paths@).take(paths@.len() as int) =~= seq_views(paths@));
    }
    r
}

/// Parses line-delimited text into its lines.
pub fn parse_lines(data: &Vec<u8>) -> (r: Vec<Vec<u8>>)
    ensures
        seq_views(r@) == lines_spec(data@),
{
    let mut out: Vec<Vec<u8>> = Vec::new();
    let mut cur: Vec<u8> = Vec::new();
    let mut k: usize = 0;
    proof {
        assert(data@.skip(0) =~= data@);
    }
    while k < data.len()
        invariant
            0 <= k <= data@.len(),
            seq_views(out@) + lines_rec(data@.skip(k as int), cur@) == lines_spec(data@),
        decreases data@.len() - k,
    {
        let b = data[k];
        proof {
            assert(data@.skip(k as int)[0] == data@[k as int]);
            assert(data@.skip(k as int).skip(1) =~= data@.skip(k + 1));
        }
        if b == NL {
            let ghost old_out = out@;
            let ghost old_cur = cur@;
            if cur.len() > 0 && cur[cur.len() - 1] == CR {
                cur.pop();
            }
            proof {
                assert(cur@ == chomp_cr(old_cur));
            }
            out.push(cur);
            proof {
                assert(seq_views(out@) =~= seq_views(old_out).push(chomp_cr(old_cur)));
                assert(seq_views(out@) + lines_rec(data@.skip(k + 1), Seq::empty())
                    =~= seq_views(old_out) + lines_rec(data@.skip(k as int), old_cur));
            }
            cur = Vec::new();
        } else {
            let ghost old_cur = cur@;
            cur.push(b);
            proof {
                assert(cur@ == old_cur.push(data@[k as int]));
                assert(lines_rec(data@.skip(k + 1), cur@) == lines_rec(
                    data@.skip(k as int),
                    old_cur,
                ));
            }
        }
        k = k + 1;
    }
    proof {
        assert(data@.skip(data@.len() as int) =~= Seq::<u8>::empty());
    }
    if cur.len() > 0 {
        let ghost old_out = out@;
        let ghost cv = cur@;
        out.push(cur);
        proof {
            assert(seq_views(out@) =~= seq_views(old_out).push(cv));
            assert(lines_rec(Seq::<u8>::empty(), cv) =~= seq![cv]);
            assert(seq_views(out@) =~= seq_views(old_out) + seq![cv]);
        }
    }
    out
}


/// Splitting off the first rendered line.
proof fn lemma_render_first(ps: Seq<Seq<u8>>)
    requires
        ps.len() > 0,
    ensures
        render_spec(ps) == ps[0] + seq![NL] + render_spec(ps.skip(1)),
    decreases ps.len(),
{
    if ps.len() == 1 {
        assert(ps.drop_last().len() == 0);
        assert(render_spec(ps.drop_last()) =~= Seq::<u8>::empty());
        assert(ps.skip(1).len() == 0);
        assert(render_spec(ps.skip(1)) =~= Seq::<u8>::empty());
        assert(ps.last() == ps[0]);
        assert(render_spec(ps) =~= ps[0] + seq![NL] + render_spec(ps.skip(1)));
    } else {
        lemma_render_first(ps.drop_last());
        assert(ps.drop_last()[0] == ps[0]);
        assert(ps.skip(1).drop_last() =~= ps.drop_last().skip(1));
        assert(ps.skip(1).last() == ps.last());
        assert(render_spec(ps) =~= ps[0] + seq![NL] + render_spec(ps.skip(1)));
    }
}

/// A line free of newline bytes, followed by a newline, parses to that line
/// appended to whatever the current line held, its `\r\n` ending chomped.
proof fn lemma_lines_take_line(l: Seq<u8>, rest: Seq<u8>, cur: Seq<u8>)
    requires
        forall|j: int| 0 <= j < l.len() ==> l[j] != NL,
    ensures
        lines_rec(l + seq![NL] + rest, cur) == seq![chomp_cr(cur + l)] + lines_rec(
            rest,
            Seq::empty(),
        ),
    decreases l.len(),
{
    let d = l + seq![NL] + rest;
    if l.len() == 0 {
        assert(d[0] == NL);
        assert(d.skip(1) =~= rest);
        assert(cur + l =~= cur);
    } else {
        assert(d[0] == l[0]);
        assert(d.skip(1) =~= l.skip(1) + seq![NL] + rest);
        assert forall|j: int| 0 <= j < l.skip(1).len() implies #[trigger] l.skip(1)[j] != NL by {
            assert(l.skip(1)[j] == l[j + 1]);
        }
        lemma_lines_take_line(l.skip(1), rest, cur.push(l[0]));
        assert(cur.push(l[0]) + l.skip(1) =~= cur + l);
    }
}

/// Rendering then parsing returns the same list: for paths free of newline
/// and carriage-return bytes, a later read of the written candidate list
/// yields exactly the candidates that were written, in order.
pub proof fn lemma_render_parse_round_trip(ps: Seq<Seq<u8>>)
    requires
        forall|i: int, j: int|
            0 <= i < ps.len() && 0 <= j < ps[i].len() ==> ps[i][j] != NL && ps[i][j] != CR,
    ensures
        lines_spec(render_spec(ps)) == ps,
    decreases ps.len(),
{
    if ps.len() == 0 {
        assert(lines_spec(render_spec(ps)) =~= ps);
    } else {
        lemma_render_first(ps);
        assert forall|j: int| 0 <= j < ps[0].len() implies #[trigger] ps[0][j] != NL by {
            assert(ps[0int][j] != NL);
        }
        lemma_lines_take_line(ps[0], render_spec(ps.skip(1)), Seq::empty());
        assert(Seq::<u8>::empty() + ps[0] =~= ps[0]);
        assert(chomp_cr(ps[0]) == ps[0]) by {
            if ps[0].len() > 0 {
                assert(ps[0int][ps[0int].len() - 1] != CR);
            }
        }
        assert forall|i: int, j: int|
            0 <= i < ps.skip(1).len() && 0 <= j < ps.skip(1)[i].len() implies #[trigger] ps.skip(
            1,
        )[i][j] != NL && ps.skip(1)[i][j] != CR by {
            assert(ps.skip(1)[i] == ps[i + 1]);
            assert(ps[i + 1][j] != NL && ps[i + 1][j] != CR);
        }
        lemma_render_parse_round_trip(ps.skip(1));
        assert(lines_spec(render_spec(ps)) =~= ps);
    }
}

} // verus!
