//! Logical lines and the byte-level line model.
//!
//! A file is a flat sequence of bytes; its logical lines are the maximal runs
//! of bytes not containing the terminator `NL`. `split_bytes` is the
//! mathematical splitting of a byte sequence on the terminator (it always
//! yields one more piece than there are terminators; the last piece is the
//! run after the last terminator, possibly empty). `lines_of` is the
//! caller-visible line sequence: the trailing empty piece that follows a
//! final terminator is not a line of its own.

use vstd::prelude::*;

verus! {

/// The line terminator byte (`\n`).
pub const NL: u8 = 10;

/// A logical line: a run of bytes without the terminator, plus a marker of
/// whether the line is known to be complete (both of its ends are a file
/// boundary or a terminator) or is a fragment at the edge of the loaded
/// window, pending continuation in a neighbouring chunk.
pub struct LoadedLine {
    pub bytes: Vec<u8>,
    pub complete: bool,
}

impl LoadedLine {
    /// Build a complete line from its bytes.
    pub fn new(bytes: Vec<u8>) -> (r: LoadedLine)
        requires
            !bytes@.contains(NL),
        ensures
            r.bytes@ == bytes@,
            r.complete,
    {
        LoadedLine { bytes, complete: true }
    }
}

/// Split a byte sequence on the terminator. Always yields at least one
/// piece; a terminator ends the current piece and starts the next.
pub open spec fn split_bytes(s: Seq<u8>) -> Seq<Seq<u8>>
    decreases s.len(),
{
    if s.len() == 0 {
        seq![Seq::<u8>::empty()]
    } else if s[0] == NL {
        seq![Seq::<u8>::empty()] + split_bytes(s.skip(1))
    } else {
        let rest = split_bytes(s.skip(1));
        seq![seq![s[0]] + rest[0]] + rest.skip(1)
    }
}

/// Join pieces back with the terminator between each pair.
pub open spec fn join_bytes(ps: Seq<Seq<u8>>) -> Seq<u8>
    decreases ps.len(),
{
    if ps.len() == 0 {
        Seq::<u8>::empty()
    } else if ps.len() == 1 {
        ps[0]
    } else {
        ps[0] + seq![NL] + join_bytes(ps.skip(1))
    }
}

/// The logical lines of a whole file: the split pieces, except that the
/// empty piece after a final terminator is not a line.
pub open spec fn lines_of(s: Seq<u8>) -> Seq<Seq<u8>> {
    let ps = split_bytes(s);
    if ps.last().len() == 0 {
        ps.drop_last()
    } else {
        ps
    }
}

/// The bytes of a window holding line pieces `ls`, where `trailing` records
/// whether the represented region ends with a terminator.
pub open spec fn joined_bytes(ls: Seq<Seq<u8>>, trailing: bool) -> Seq<u8> {
    join_bytes(ls) + if trailing {
        seq![NL]
    } else {
        Seq::<u8>::empty()
    }
}

/// No piece of a line sequence contains the terminator.
pub open spec fn pieces_have_no_nl(ls: Seq<Seq<u8>>) -> bool {
    forall|i: int| 0 <= i < ls.len() ==> !(#[trigger] ls[i]).contains(NL)
}

pub proof fn lemma_split_len(s: Seq<u8>)
    ensures
        split_bytes(s).len() >= 1,
    decreases s.len(),
{
    if s.len() == 0 {
    } else {
        lemma_split_len(s.skip(1));
    }
}

pub proof fn lemma_split_no_nl(s: Seq<u8>)
    ensures
        pieces_have_no_nl(split_bytes(s)),
    decreases s.len(),
{
    lemma_split_len(s);
    if s.len() == 0 {
        assert forall|i: int| 0 <= i < split_bytes(s).len() implies !(
        #[trigger] split_bytes(s)[i]).contains(NL) by {
            assert(split_bytes(s)[i] =~= Seq::<u8>::empty());
        }
    } else if s[0] == NL {
        lemma_split_no_nl(s.skip(1));
        lemma_split_len(s.skip(1));
        assert forall|i: int| 0 <= i < split_bytes(s).len() implies !(
        #[trigger] split_bytes(s)[i]).contains(NL) by {
            if i == 0 {
                assert(!Seq::<u8>::empty().contains(NL));
                assert(split_bytes(s)[0] =~= Seq::<u8>::empty());
            } else {
                assert(split_bytes(s)[i] == split_bytes(s.skip(1))[i - 1]);
            }
        }
    } else {
        lemma_split_no_nl(s.skip(1));
        lemma_split_len(s.skip(1));
        let rest = split_bytes(s.skip(1));
        assert forall|i: int| 0 <= i < split_bytes(s).len() implies !(
        #[trigger] split_bytes(s)[i]).contains(NL) by {
            if i == 0 {
                assert(!rest[0].contains(NL));
                let p = seq![s[0]] + rest[0];
                assert forall|j: int| 0 <= j < p.len() implies p[j] != NL by {
                    if j == 0 {
                    } else {
                        assert(p[j] == rest[0][j - 1]);
                        assert(!rest[0].contains(NL));
                    }
                }
                assert(split_bytes(s)[0] == p);
            } else {
                assert(split_bytes(s)[i] == rest[i]);
                assert(!rest[i].contains(NL));
            }
        }
    }
}

pub proof fn lemma_join_split(s: Seq<u8>)
    ensures
        join_bytes(split_bytes(s)) =~= s,
    decreases s.len(),
{
    lemma_split_len(s);
    if s.len() == 0 {
    } else if s[0] == NL {
        lemma_join_split(s.skip(1));
        lemma_split_len(s.skip(1));
        let ps = split_bytes(s);
        assert(ps.len() >= 2);
        assert(ps[0] =~= Seq::<u8>::empty());
        assert(ps.skip(1) =~~= split_bytes(s.skip(1)));
        assert(join_bytes(ps) == ps[0] + seq![NL] + join_bytes(ps.skip(1)));
        assert(join_bytes(ps.skip(1)) == join_bytes(split_bytes(s.skip(1))));
        assert(ps[0] + seq![NL] + s.skip(1) =~= s);
    } else {
        lemma_join_split(s.skip(1));
        lemma_split_len(s.skip(1));
        let rest = split_bytes(s.skip(1));
        let ps = split_bytes(s);
        if rest.len() == 1 {
            assert(ps.len() == 1);
            assert(ps[0] =~= seq![s[0]] + rest[0]);
            assert(join_bytes(rest) == rest[0]);
            assert(join_bytes(ps) == ps[0]);
            assert(seq![s[0]] + s.skip(1) =~= s);
            assert(seq![s[0]] + rest[0] =~= seq![s[0]] + join_bytes(rest));
        } else {
            assert(ps[0] == seq![s[0]] + rest[0]);
            assert(ps.skip(1) =~~= rest.skip(1));
            assert(ps.len() >= 2);
            assert(join_bytes(ps) == ps[0] + seq![NL] + join_bytes(ps.skip(1)));
            assert(join_bytes(ps.skip(1)) == join_bytes(rest.skip(1)));
            assert(join_bytes(rest) == rest[0] + seq![NL] + join_bytes(rest.skip(1)));
            assert((seq![s[0]] + rest[0]) + seq![NL] + join_bytes(rest.skip(1)) =~= seq![s[0]] + (
            rest[0] + seq![NL] + join_bytes(rest.skip(1))));
            assert(seq![s[0]] + s.skip(1) =~= s);
        }
    }
}

/// A byte sequence without terminators splits into the single piece that is
/// itself.
pub proof fn lemma_split_single(p: Seq<u8>)
    requires
        !p.contains(NL),
    ensures
        split_bytes(p) =~~= seq![p],
    decreases p.len(),
{
    if p.len() == 0 {
        assert(split_bytes(p) =~~= seq![Seq::<u8>::empty()]);
        assert(p =~= Seq::<u8>::empty());
    } else {
        assert(p[0] != NL);
        assert(!p.skip(1).contains(NL)) by {
            if p.skip(1).contains(NL) {
                let j = choose|j: int| 0 <= j < p.skip(1).len() && p.skip(1)[j] == NL;
                assert(p[j + 1] == NL);
            }
        }
        lemma_split_single(p.skip(1));
        let rest = split_bytes(p.skip(1));
        assert(rest =~~= seq![p.skip(1)]);
        assert(split_bytes(p) =~~= seq![seq![p[0]] + p.skip(1)]);
        assert(seq![p[0]] + p.skip(1) =~= p);
    }
}

/// Splitting the concatenation of two sequences: the pieces of `a`, with
/// `a`'s last piece stitched to `b`'s first piece, then the rest of `b`'s
/// pieces.
pub proof fn lemma_split_concat(a: Seq<u8>, b: Seq<u8>)
    ensures
        split_bytes(a + b) =~~= split_bytes(a).drop_last() + seq![
            split_bytes(a).last() + split_bytes(b)[0],
        ] + split_bytes(b).skip(1),
    decreases a.len(),
{
    lemma_split_len(a);
    lemma_split_len(b);
    if a.len() == 0 {
        assert(a + b =~= b);
        assert(split_bytes(a) =~~= seq![Seq::<u8>::empty()]);
        assert(split_bytes(a).drop_last() =~~= Seq::<Seq<u8>>::empty());
        assert(split_bytes(a).last() + split_bytes(b)[0] =~= split_bytes(b)[0]);
    } else {
        let t = a.skip(1);
        lemma_split_concat(t, b);
        lemma_split_len(t);
        assert((a + b)[0] == a[0]);
        assert((a + b).skip(1) =~= t + b);
        if a[0] == NL {
            assert(split_bytes(a + b) =~~= seq![Seq::<u8>::empty()] + split_bytes(t + b));
            assert(split_bytes(a) =~~= seq![Seq::<u8>::empty()] + split_bytes(t));
            assert(split_bytes(a).drop_last() =~~= seq![Seq::<u8>::empty()] + split_bytes(
                t,
            ).drop_last());
            assert(split_bytes(a).last() == split_bytes(t).last());
        } else {
            let rt = split_bytes(t + b);
            let r = split_bytes(t);
            assert(split_bytes(a + b) =~~= seq![seq![a[0]] + rt[0]] + rt.skip(1));
            assert(split_bytes(a) =~~= seq![seq![a[0]] + r[0]] + r.skip(1));
            if r.len() == 1 {
                assert(rt[0] == r[0] + split_bytes(b)[0]);
                assert(rt.skip(1) =~~= split_bytes(b).skip(1));
                assert(split_bytes(a).drop_last() =~~= Seq::<Seq<u8>>::empty());
                assert(split_bytes(a).last() == seq![a[0]] + r[0]);
                assert(seq![a[0]] + (r[0] + split_bytes(b)[0]) =~= (seq![a[0]] + r[0])
                    + split_bytes(b)[0]);
            } else {
                assert(rt[0] == r[0]);
                assert(rt.skip(1) =~~= r.skip(1).drop_last() + seq![r.last() + split_bytes(b)[0]]
                    + split_bytes(b).skip(1));
                assert(split_bytes(a).drop_last() =~~= seq![seq![a[0]] + r[0]] + r.drop_last().skip(
                    1,
                ));
                assert(r.drop_last().skip(1) =~~= r.skip(1).drop_last());
                assert(split_bytes(a).last() == r.last());
            }
        }
    }
}

/// Splitting the join of terminator-free pieces gives the pieces back.
pub proof fn lemma_split_join(ls: Seq<Seq<u8>>)
    requires
        ls.len() >= 1,
        pieces_have_no_nl(ls),
    ensures
        split_bytes(join_bytes(ls)) =~~= ls,
    decreases ls.len(),
{
    if ls.len() == 1 {
        assert(!ls[0].contains(NL));
        lemma_split_single(ls[0]);
    } else {
        let rest = ls.skip(1);
        assert(pieces_have_no_nl(rest)) by {
            assert forall|i: int| 0 <= i < rest.len() implies !(#[trigger] rest[i]).contains(
                NL,
            ) by {
                assert(rest[i] == ls[i + 1]);
            }
        }
        lemma_split_join(rest);
        assert(!ls[0].contains(NL));
        lemma_split_single(ls[0]);
        let tail = seq![NL] + join_bytes(rest);
        assert(join_bytes(ls) =~= ls[0] + tail);
        lemma_split_concat(ls[0], tail);
        assert(tail.len() >= 1 && tail[0] == NL);
        assert(tail.skip(1) =~= join_bytes(rest));
        assert(split_bytes(tail) == seq![Seq::<u8>::empty()] + split_bytes(tail.skip(1)));
        assert(split_bytes(tail.skip(1)) == split_bytes(join_bytes(rest)));
        assert(split_bytes(tail) =~~= seq![Seq::<u8>::empty()] + split_bytes(join_bytes(rest)));
        assert(split_bytes(ls[0]) =~~= seq![ls[0]]) by {
            lemma_split_single(ls[0]);
        }
        assert(split_bytes(ls[0]).drop_last() =~~= Seq::<Seq<u8>>::empty());
        assert(split_bytes(ls[0]).last() == ls[0]);
        assert(split_bytes(tail)[0] =~= Seq::<u8>::empty());
        assert(split_bytes(tail).skip(1) =~~= split_bytes(join_bytes(rest)));
        assert(ls[0] + Seq::<u8>::empty() =~= ls[0]);
        assert(split_bytes(ls[0] + tail) =~~= seq![ls[0]] + rest);
        assert(seq![ls[0]] + rest =~~= ls);
    }
}

/// Appending one byte to a sequence: a terminator starts a fresh empty
/// piece; any other byte extends the last piece.
pub proof fn lemma_split_snoc(s: Seq<u8>, c: u8)
    ensures
        c == NL ==> split_bytes(s.push(c)) =~~= split_bytes(s).push(Seq::<u8>::empty()),
        c != NL ==> split_bytes(s.push(c)) =~~= split_bytes(s).update(
            split_bytes(s).len() - 1,
            split_bytes(s).last().push(c),
        ),
{
    lemma_split_len(s);
    lemma_split_concat(s, seq![c]);
    if c == NL {
        assert(split_bytes(seq![c]) =~~= seq![Seq::<u8>::empty(), Seq::<u8>::empty()]) by {
            assert(seq![c].len() == 1 && seq![c][0] == NL);
            assert(seq![c].skip(1) =~= Seq::<u8>::empty());
            assert(split_bytes(seq![c]) == seq![Seq::<u8>::empty()] + split_bytes(
                seq![c].skip(1),
            ));
            assert(split_bytes(seq![c].skip(1)) == split_bytes(Seq::<u8>::empty()));
            assert(split_bytes(Seq::<u8>::empty()) == seq![Seq::<u8>::empty()]);
        }
        assert(s.push(c) =~= s + seq![c]);
        assert(split_bytes(s).last() + split_bytes(seq![c])[0] =~= split_bytes(s).last());
        assert(split_bytes(seq![c]).skip(1) =~~= seq![Seq::<u8>::empty()]);
        assert(split_bytes(s).drop_last() + seq![split_bytes(s).last()] + seq![
            Seq::<u8>::empty(),
        ] =~~= split_bytes(s).push(Seq::<u8>::empty()));
    } else {
        assert(!seq![c].contains(NL)) by {
            assert(forall|j: int| 0 <= j < seq![c].len() ==> seq![c][j] == c);
        }
        lemma_split_single(seq![c]);
        assert(split_bytes(seq![c]) =~~= seq![seq![c]]);
        assert(s.push(c) =~= s + seq![c]);
        assert(split_bytes(seq![c]).skip(1) =~~= Seq::<Seq<u8>>::empty());
        assert(split_bytes(s).last() + seq![c] =~= split_bytes(s).last().push(c));
        assert(split_bytes(s).drop_last() + seq![split_bytes(s).last().push(c)] =~~= split_bytes(
            s,
        ).update(split_bytes(s).len() - 1, split_bytes(s).last().push(c)));
    }
}

/// Prepending bytes to the first piece prepends them to the join.
pub proof fn lemma_join_update0(q: Seq<Seq<u8>>, x: Seq<u8>)
    requires
        q.len() >= 1,
    ensures
        join_bytes(q.update(0, x + q[0])) =~= x + join_bytes(q),
{
    let q2 = q.update(0, x + q[0]);
    if q.len() == 1 {
        assert(join_bytes(q2) == q2[0]);
    } else {
        assert(q2.skip(1) =~~= q.skip(1));
        assert(join_bytes(q2) == q2[0] + seq![NL] + join_bytes(q2.skip(1)));
        assert(join_bytes(q) == q[0] + seq![NL] + join_bytes(q.skip(1)));
    }
}

/// Stitching two piece sequences at their boundary joins their bytes with
/// no separator at the seam: the byte content concatenates.
pub proof fn lemma_join_stitch(a: Seq<Seq<u8>>, q: Seq<Seq<u8>>)
    requires
        a.len() >= 1,
        q.len() >= 1,
    ensures
        join_bytes(a.drop_last() + seq![a.last() + q[0]] + q.skip(1)) =~= join_bytes(a)
            + join_bytes(q),
    decreases a.len(),
{
    let st = a.drop_last() + seq![a.last() + q[0]] + q.skip(1);
    if a.len() == 1 {
        assert(st =~~= q.update(0, a.last() + q[0])) by {
            assert(st.len() == q.len());
        }
        lemma_join_update0(q, a.last());
    } else {
        let a2 = a.skip(1);
        lemma_join_stitch(a2, q);
        let st2 = a2.drop_last() + seq![a2.last() + q[0]] + q.skip(1);
        assert(st.len() >= 2);
        assert(st[0] == a[0]);
        assert(st.skip(1) =~~= st2) by {
            assert(st.skip(1).len() == st2.len());
            assert forall|i: int| 0 <= i < st2.len() implies st.skip(1)[i] == st2[i] by {
                assert(a2.drop_last().len() == a.len() - 2);
                if i < a.len() - 2 {
                    assert(st.skip(1)[i] == a.drop_last()[i + 1]);
                    assert(st2[i] == a2.drop_last()[i]);
                    assert(a2.drop_last()[i] == a[i + 1]);
                    assert(a.drop_last()[i + 1] == a[i + 1]);
                } else if i == a.len() - 2 {
                    assert(st.skip(1)[i] == a.last() + q[0]);
                    assert(st2[i] == a2.last() + q[0]);
                    assert(a2.last() == a.last());
                } else {
                    assert(st.skip(1)[i] == q.skip(1)[i - (a.len() - 1)]);
                    assert(st2[i] == q.skip(1)[i - (a2.len() - 1) - 1 + 1 - 1]);
                }
            }
        }
        assert(join_bytes(st) == st[0] + seq![NL] + join_bytes(st.skip(1)));
        assert(join_bytes(st.skip(1)) == join_bytes(st2));
        assert(join_bytes(a) == a[0] + seq![NL] + join_bytes(a2));
    }
}

/// Appending a piece appends its bytes after a separator.
pub proof fn lemma_join_push(l: Seq<Seq<u8>>, x: Seq<u8>)
    ensures
        l.len() == 0 ==> join_bytes(l.push(x)) =~= x,
        l.len() >= 1 ==> join_bytes(l.push(x)) =~= join_bytes(l) + seq![NL] + x,
    decreases l.len(),
{
    if l.len() == 0 {
        assert(join_bytes(l.push(x)) == l.push(x)[0]);
    } else if l.len() == 1 {
        assert(l.push(x).skip(1) =~~= seq![x]);
        assert(join_bytes(l.push(x)) == l[0] + seq![NL] + join_bytes(seq![x]));
    } else {
        lemma_join_push(l.skip(1), x);
        assert(l.push(x).skip(1) =~~= l.skip(1).push(x));
        assert(join_bytes(l.push(x)) == l[0] + seq![NL] + join_bytes(l.skip(1).push(x)));
        assert(join_bytes(l) == l[0] + seq![NL] + join_bytes(l.skip(1)));
    }
}

/// Extending the last piece extends the join.
pub proof fn lemma_join_update_last(l: Seq<Seq<u8>>, c: u8)
    requires
        l.len() >= 1,
    ensures
        join_bytes(l.update(l.len() - 1, l.last().push(c))) =~= join_bytes(l).push(c),
    decreases l.len(),
{
    let l2 = l.update(l.len() - 1, l.last().push(c));
    if l.len() == 1 {
        assert(join_bytes(l2) == l2[0]);
        assert(l2[0] == l.last().push(c));
    } else {
        lemma_join_update_last(l.skip(1), c);
        assert(l2.skip(1) =~~= l.skip(1).update(l.skip(1).len() - 1, l.skip(1).last().push(c)));
        assert(join_bytes(l2) == l2[0] + seq![NL] + join_bytes(l2.skip(1)));
        assert(join_bytes(l) == l[0] + seq![NL] + join_bytes(l.skip(1)));
    }
}

/// Dropping a trailing empty piece shortens the join by one separator.
pub proof fn lemma_join_drop_last_empty(l: Seq<Seq<u8>>)
    requires
        l.len() >= 1,
        l.last().len() == 0,
    ensures
        l.len() == 1 ==> join_bytes(l) =~= Seq::<u8>::empty(),
        l.len() >= 2 ==> join_bytes(l) =~= join_bytes(l.drop_last()) + seq![NL],
{
    if l.len() >= 2 {
        lemma_join_push(l.drop_last(), l.last());
        assert(l.drop_last().push(l.last()) =~~= l);
        assert(join_bytes(l.drop_last()) + seq![NL] + l.last() =~= join_bytes(l.drop_last())
            + seq![NL]);
    }
}

/// The visible lines of a window's bytes are the window's pieces, provided
/// a trailing empty fragment has been folded into the trailing-terminator
/// marker.
pub proof fn lemma_lines_of_joined(l: Seq<Seq<u8>>, t: bool)
    requires
        pieces_have_no_nl(l),
        l.len() == 0 ==> !t,
        t || l.len() == 0 || l.last().len() > 0,
    ensures
        lines_of(joined_bytes(l, t)) =~~= l,
{
    if l.len() == 0 {
        assert(joined_bytes(l, t) =~= Seq::<u8>::empty());
        assert(split_bytes(Seq::<u8>::empty()) =~~= seq![Seq::<u8>::empty()]);
        assert(lines_of(Seq::<u8>::empty()) =~~= Seq::<Seq<u8>>::empty());
    } else if t {
        lemma_split_join(l);
        lemma_split_snoc(join_bytes(l), NL);
        assert(joined_bytes(l, t) =~= join_bytes(l).push(NL));
        assert(split_bytes(joined_bytes(l, t)) =~~= l.push(Seq::<u8>::empty()));
        let ps = split_bytes(joined_bytes(l, t));
        assert(ps.last().len() == 0);
        assert(ps.drop_last() =~~= l);
    } else {
        lemma_split_join(l);
        assert(joined_bytes(l, t) =~= join_bytes(l));
        let ps = split_bytes(joined_bytes(l, t));
        assert(ps =~~= l);
        assert(ps.last().len() > 0);
    }
}

/// Extending a byte sequence does not disturb its settled pieces: every
/// piece before the last one splits out unchanged.
pub proof fn lemma_split_prefix_stable(a: Seq<u8>, b: Seq<u8>, j: int)
    requires
        0 <= j < split_bytes(a).len() - 1,
    ensures
        split_bytes(a + b).len() >= split_bytes(a).len(),
        split_bytes(a + b)[j] == split_bytes(a)[j],
{
    lemma_split_concat(a, b);
    lemma_split_len(a);
    lemma_split_len(b);
    assert(split_bytes(a + b)[j] == split_bytes(a).drop_last()[j]);
}

} // verus!
