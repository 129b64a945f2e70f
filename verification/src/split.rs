//! Splitting text into lines and into words, and joining pieces again.

use vstd::prelude::*;
use crate::text::{copy_range, find_char, is_space, is_whitespace, position_from, word_end, word_len};

verus! {

/// The views of the vectors in `v`, in order.
pub open spec fn views(v: Seq<Vec<char>>) -> Seq<Seq<char>> {
    Seq::new(v.len(), |i: int| v[i]@)
}

/// `s` without one carriage return at its end, if it ends in one.
pub open spec fn strip_cr(s: Seq<char>) -> Seq<char> {
    if s.len() > 0 && s.last() == '\r' {
        s.drop_last()
    } else {
        s
    }
}

/// The lines of `s`. A line ends at a line feed, which is not part of it, nor
/// is a carriage return just before that line feed. What follows the last line
/// feed is a line too, unless it is empty.
pub open spec fn lines_of(s: Seq<char>) -> Seq<Seq<char>>
    decreases s.len(),
{
    if s.len() == 0 {
        Seq::empty()
    } else {
        let n = find_char(s, '\n') as int;
        if n >= s.len() {
            seq![s]
        } else {
            seq![strip_cr(s.take(n))] + lines_of(s.skip(n + 1))
        }
    }
}

/// The words of `s`: its maximal runs of characters that are no white space.
pub open spec fn words_of(s: Seq<char>) -> Seq<Seq<char>>
    decreases s.len(),
{
    if s.len() == 0 {
        Seq::empty()
    } else if is_space(s[0]) {
        words_of(s.skip(1))
    } else {
        let n = word_len(s) as int;
        if 0 < n <= s.len() {
            seq![s.take(n)] + words_of(s.skip(n))
        } else {
            Seq::empty()
        }
    }
}

/// The pieces in order, with `sep` between each two neighbours.
pub open spec fn join_with(pieces: Seq<Seq<char>>, sep: Seq<char>) -> Seq<char>
    decreases pieces.len(),
{
    if pieces.len() == 0 {
        Seq::empty()
    } else if pieces.len() == 1 {
        pieces[0]
    } else {
        join_with(pieces.drop_last(), sep) + sep + pieces.last()
    }
}

/// The first word of a text that starts with a character that is no white
/// space is not empty and lies within the text.
pub proof fn lemma_word_len_bounds(s: Seq<char>)
    ensures
        word_len(s) <= s.len(),
        s.len() > 0 && !is_space(s[0]) ==> word_len(s) > 0,
    decreases s.len(),
{
    if s.len() > 0 && !is_space(s[0]) {
        lemma_word_len_bounds(s.skip(1));
    }
}

/// The lines of the text in `v`.
pub fn split_lines(v: &Vec<char>) -> (out: Vec<Vec<char>>)
    ensures
        views(out@) == lines_of(v@),
{
    let mut out: Vec<Vec<char>> = Vec::new();
    let mut pos: usize = 0;
    proof {
        assert(v@.skip(0) == v@);
        assert(views(out@) + lines_of(v@) == lines_of(v@));
    }
    while pos < v.len()
        invariant
            pos <= v.len(),
            views(out@) + lines_of(v@.skip(pos as int)) == lines_of(v@),
        decreases v.len() - pos,
    {
        let ghost rest = v@.skip(pos as int);
        let ghost before = views(out@);
        let end = position_from(v, pos, '\n');
        if end == v.len() {
            let line = copy_range(v, pos, end);
            out.push(line);
            proof {
                assert(line@ == rest);
                assert(lines_of(rest) == seq![rest]);
                assert(views(out@) == before + seq![rest]);
                assert(lines_of(v@.skip(end as int)) == Seq::<Seq<char>>::empty());
                assert(views(out@) + lines_of(v@.skip(end as int)) == before + lines_of(rest));
            }
            pos = end;
        } else {
            let stop = if end > pos && v[end - 1] == '\r' {
                end - 1
            } else {
                end
            };
            let line = copy_range(v, pos, stop);
            out.push(line);
            proof {
                let n = end - pos;
                assert(rest.take(n) == v@.subrange(pos as int, end as int));
                assert(line@ == strip_cr(rest.take(n)));
                assert(rest.skip(n + 1) == v@.skip(end + 1));
                assert(views(out@) == before + seq![line@]);
                assert(lines_of(rest) == seq![line@] + lines_of(v@.skip(end + 1)));
                assert(views(out@) + lines_of(v@.skip(end + 1)) == before + lines_of(rest));
            }
            pos = end + 1;
        }
    }
    proof {
        assert(lines_of(v@.skip(pos as int)) == Seq::<Seq<char>>::empty());
        assert(views(out@) + Seq::<Seq<char>>::empty() == views(out@));
    }
    out
}

/// The words of the text in `v`.
pub fn split_words(v: &Vec<char>) -> (out: Vec<Vec<char>>)
    ensures
        views(out@) == words_of(v@),
{
    let mut out: Vec<Vec<char>> = Vec::new();
    let mut pos: usize = 0;
    proof {
        assert(v@.skip(0) == v@);
        assert(views(out@) + words_of(v@) == words_of(v@));
    }
    while pos < v.len()
        invariant
            pos <= v.len(),
            views(out@) + words_of(v@.skip(pos as int)) == words_of(v@),
        decreases v.len() - pos,
    {
        let ghost rest = v@.skip(pos as int);
        let ghost before = views(out@);
        if is_whitespace(v[pos]) {
            proof {
                assert(rest[0] == v@[pos as int]);
                assert(rest.skip(1) == v@.skip(pos + 1));
            }
            pos = pos + 1;
        } else {
            let end = word_end(v, pos);
            let word = copy_range(v, pos, end);
            out.push(word);
            proof {
                let n = end - pos;
                assert(rest[0] == v@[pos as int]);
                lemma_word_len_bounds(rest);
                assert(rest.take(n) == v@.subrange(pos as int, end as int));
                assert(rest.skip(n) == v@.skip(end as int));
                assert(views(out@) == before + seq![word@]);
                assert(words_of(rest) == seq![word@] + words_of(v@.skip(end as int)));
                assert(views(out@) + words_of(v@.skip(end as int)) == before + words_of(rest));
            }
            pos = end;
        }
    }
    proof {
        assert(words_of(v@.skip(pos as int)) == Seq::<Seq<char>>::empty());
        assert(views(out@) + Seq::<Seq<char>>::empty() == views(out@));
    }
    out
}

/// The pieces `pieces[from..]`, joined with `sep` between neighbours.
pub fn join_from(pieces: &Vec<Vec<char>>, from: usize, sep: char) -> (out: Vec<char>)
    requires
        from <= pieces.len(),
    ensures
        out@ == join_with(views(pieces@).skip(from as int), seq![sep]),
{
    let mut out: Vec<char> = Vec::new();
    let mut i: usize = from;
    let ghost all = views(pieces@).skip(from as int);
    proof {
        assert(all.take(0) == Seq::<Seq<char>>::empty());
    }
    while i < pieces.len()
        invariant
            from <= i <= pieces.len(),
            all == views(pieces@).skip(from as int),
            out@ == join_with(all.take(i - from), seq![sep]),
        decreases pieces.len() - i,
    {
        let ghost done = out@;
        if i > from {
            out.push(sep);
        }
        let piece = &pieces[i];
        let mut j: usize = 0;
        let ghost head = out@;
        while j < piece.len()
            invariant
                j <= piece.len(),
                out@ == head + piece@.take(j as int),
            decreases piece.len() - j,
        {
            out.push(piece[j]);
            j = j + 1;
        }
        proof {
            assert(piece@.take(piece.len() as int) == piece@);
            let next = all.take(i - from + 1);
            assert(next.drop_last() == all.take(i - from));
            assert(next.last() == piece@);
            if i > from {
                assert(head == done + seq![sep]);
            } else {
                assert(done == Seq::<char>::empty());
                assert(head + piece@ == piece@);
            }
        }
        i = i + 1;
    }
    proof {
        assert(all.take(i - from) == all);
    }
    out
}

} // verus!
