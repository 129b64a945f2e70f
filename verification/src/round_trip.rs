//! Reading back what was written: which requests come back unchanged from
//! their own text, and the proof that they do.

use vstd::prelude::*;
use crate::codec::{
    body_in, body_lines, decode, encode, header_block, header_line, headers_in, parse_header,
    uppercase_of, well_formed, RequestView,
};
use crate::split::{join_with, lemma_word_len_bounds, lines_of, strip_cr, words_of};
use crate::text::{
    find_char, is_blank, is_space, lemma_find_char, lemma_find_char_is_first,
    lemma_leading_spaces, lemma_trim_end, lemma_word_len, trim, word_len,
};

verus! {

/// Whether `s` has no white space at either end.
pub open spec fn trimmed(s: Seq<char>) -> bool {
    s.len() == 0 || (!is_space(s[0]) && !is_space(s.last()))
}

/// Whether `s` is one word: not empty and free of white space.
pub open spec fn one_word(s: Seq<char>) -> bool {
    s.len() > 0 && forall|i: int| 0 <= i < s.len() ==> !is_space(#[trigger] s[i])
}

/// Whether `s` is made of words with one space between each two: it is not
/// empty, has no white space at its ends, and each white space in it is a
/// space followed by a character that is none.
pub open spec fn single_spaced(s: Seq<char>) -> bool {
    &&& s.len() > 0
    &&& !is_space(s[0])
    &&& !is_space(s.last())
    &&& forall|i: int|
        0 <= i < s.len() - 1 && is_space(#[trigger] s[i]) ==> s[i] == ' ' && !is_space(s[i + 1])
}

/// Whether `s` is free of `c`.
pub open spec fn free_of(s: Seq<char>, c: char) -> bool {
    forall|i: int| 0 <= i < s.len() ==> #[trigger] s[i] != c
}

/// Whether a header comes back from its line: the name has no colon, neither
/// the name nor the value has a line feed or white space at its ends.
pub open spec fn plain_header(h: (Seq<char>, Seq<char>)) -> bool {
    &&& free_of(h.0, ':')
    &&& free_of(h.0, '\n')
    &&& free_of(h.1, '\n')
    &&& trimmed(h.0)
    &&& trimmed(h.1)
}

/// Whether a body comes back from its lines: it does not end in a line feed,
/// and no carriage return in it stands just before a line feed.
pub open spec fn plain_body(s: Seq<char>) -> bool {
    &&& s.len() > 0 ==> s.last() != '\n'
    &&& forall|i: int| 0 <= i < s.len() - 1 && #[trigger] s[i] == '\r' ==> s[i + 1] != '\n'
}

/// Whether a request is written in the form in which it is read: the method
/// is one word, the URL is single-spaced, and each header and the body are
/// plain.
pub open spec fn canonical(r: RequestView) -> bool {
    &&& one_word(r.method)
    &&& single_spaced(r.url)
    &&& forall|j: int| 0 <= j < r.headers.len() ==> plain_header(#[trigger] r.headers[j])
    &&& plain_body(r.body)
}

/// Joining starts with the first piece and the separator, if more follow.
pub proof fn lemma_join_front(x: Seq<char>, rest: Seq<Seq<char>>, sep: Seq<char>)
    requires
        rest.len() > 0,
    ensures
        join_with(seq![x] + rest, sep) == x + sep + join_with(rest, sep),
    decreases rest.len(),
{
    let all = seq![x] + rest;
    assert(all.drop_last() == seq![x] + rest.drop_last());
    assert(all.last() == rest.last());
    if rest.len() == 1 {
        assert(all.drop_last() == seq![x]);
        assert(join_with(all.drop_last(), sep) == x);
        assert(join_with(rest, sep) == rest[0]);
    } else {
        lemma_join_front(x, rest.drop_last(), sep);
        assert(join_with(all, sep) == (x + sep + join_with(rest.drop_last(), sep)) + sep
            + rest.last());
        assert(join_with(rest, sep) == join_with(rest.drop_last(), sep) + sep + rest.last());
        assert(join_with(all, sep) == x + sep + join_with(rest, sep));
    }
}

/// The lines of the headers start with the line of the first header.
pub proof fn lemma_header_block_front(
    h: (Seq<char>, Seq<char>),
    rest: Seq<(Seq<char>, Seq<char>)>,
)
    ensures
        header_block(seq![h] + rest) == header_line(h) + header_block(rest),
    decreases rest.len(),
{
    let all = seq![h] + rest;
    if rest.len() == 0 {
        assert(all.drop_last() == Seq::<(Seq<char>, Seq<char>)>::empty());
        assert(header_block(all.drop_last()) == Seq::<char>::empty());
        assert(header_block(all) == header_line(h));
        assert(header_line(h) + header_block(rest) == header_line(h));
    } else {
        assert(all.drop_last() == seq![h] + rest.drop_last());
        assert(all.last() == rest.last());
        lemma_header_block_front(h, rest.drop_last());
        assert(header_block(all) == (header_line(h) + header_block(rest.drop_last()))
            + header_line(rest.last()));
        assert(header_block(all) == header_line(h) + header_block(rest));
    }
}

/// The first word of `s` is free of white space, and white space follows it
/// unless it ends `s`.
pub proof fn lemma_word_len_is_first(s: Seq<char>)
    ensures
        word_len(s) <= s.len(),
        forall|i: int| 0 <= i < word_len(s) ==> !is_space(#[trigger] s[i]),
        word_len(s) < s.len() ==> is_space(s[word_len(s) as int]),
    decreases s.len(),
{
    if s.len() == 0 || is_space(s[0]) {
    } else {
        let t = s.skip(1);
        lemma_word_len_is_first(t);
        assert forall|i: int| 0 <= i < word_len(s) implies !is_space(#[trigger] s[i]) by {
            if i > 0 {
                assert(s[i] == t[i - 1]);
            }
        }
        assert(word_len(t) < t.len() ==> t[word_len(t) as int] == s[word_len(s) as int]);
    }
}

/// A text that is not empty has a line.
pub proof fn lemma_lines_exist(s: Seq<char>)
    requires
        s.len() > 0,
    ensures
        lines_of(s).len() > 0,
{
}

/// The lines of a text that starts with a line `a` and its line feed are the
/// line `a`, less a carriage return at its end, and the lines of the rest.
pub proof fn lemma_lines_front(a: Seq<char>, rest: Seq<char>)
    requires
        free_of(a, '\n'),
    ensures
        lines_of(a + seq!['\n'] + rest) == seq![strip_cr(a)] + lines_of(rest),
{
    let s = a + seq!['\n'] + rest;
    assert(s[a.len() as int] == '\n');
    assert forall|i: int| 0 <= i < a.len() implies #[trigger] s[i] != '\n' by {
        assert(s[i] == a[i]);
    }
    lemma_find_char(s, '\n', a.len());
    assert(s.take(a.len() as int) == a);
    assert(s.skip(a.len() as int + 1) == rest);
}

/// A plain body is its lines with a line feed between each two.
pub proof fn lemma_body_lines_join(s: Seq<char>)
    requires
        plain_body(s),
    ensures
        join_with(lines_of(s), seq!['\n']) == s,
    decreases s.len(),
{
    if s.len() > 0 {
        let n = find_char(s, '\n') as int;
        lemma_find_char_is_first(s, '\n');
        if n < s.len() {
            let a = s.take(n);
            let rest = s.skip(n + 1);
            assert(s[n] == '\n');
            assert(n < s.len() - 1);
            assert(rest.len() > 0);
            if n > 0 {
                assert(a.last() == s[n - 1]);
                assert(s[n - 1] == '\r' ==> s[n] != '\n');
            }
            assert(strip_cr(a) == a);
            assert(rest.last() == s.last());
            assert forall|i: int| 0 <= i < rest.len() - 1 && #[trigger] rest[i] == '\r' implies rest[i
                + 1] != '\n' by {
                assert(rest[i] == s[n + 1 + i]);
                assert(rest[i + 1] == s[n + 1 + i + 1]);
            }
            lemma_body_lines_join(rest);
            lemma_lines_exist(rest);
            lemma_join_front(a, lines_of(rest), seq!['\n']);
            assert(a + seq!['\n'] + rest == s);
        } else {
            assert(lines_of(s) == seq![s]);
        }
    } else {
        assert(lines_of(s) == Seq::<Seq<char>>::empty());
    }
}

/// A single-spaced text has a word, and is its words with a space between
/// each two.
pub proof fn lemma_single_spaced_words(s: Seq<char>)
    requires
        single_spaced(s),
    ensures
        words_of(s).len() > 0,
        join_with(words_of(s), seq![' ']) == s,
    decreases s.len(),
{
    let n = word_len(s) as int;
    lemma_word_len_is_first(s);
    lemma_word_len_bounds(s);
    let word = s.take(n);
    let rest = s.skip(n);
    if n == s.len() {
        assert(word == s);
        assert(words_of(rest) == Seq::<Seq<char>>::empty());
        assert(words_of(s) == seq![s] + Seq::<Seq<char>>::empty());
        assert(words_of(s) == seq![s]);
    } else {
        assert(is_space(s[n]));
        assert(n < s.len() - 1);
        assert(s[n] == ' ' && !is_space(s[n + 1]));
        let tail = s.skip(n + 1);
        assert(rest[0] == s[n]);
        assert(rest.skip(1) == tail);
        assert(words_of(rest) == words_of(tail));
        assert(tail[0] == s[n + 1]);
        assert(tail.last() == s.last());
        assert forall|i: int| 0 <= i < tail.len() - 1 && is_space(#[trigger] tail[i]) implies tail[i]
            == ' ' && !is_space(tail[i + 1]) by {
            assert(tail[i] == s[n + 1 + i]);
            assert(tail[i + 1] == s[n + 1 + i + 1]);
        }
        lemma_single_spaced_words(tail);
        assert(words_of(s) == seq![word] + words_of(tail));
        lemma_join_front(word, words_of(tail), seq![' ']);
        assert(word + seq![' '] + tail == s);
    }
}

/// The words of a word, a space and a text are that word and the words of the
/// text.
pub proof fn lemma_words_front(w: Seq<char>, rest: Seq<char>)
    requires
        one_word(w),
    ensures
        words_of(w + seq![' '] + rest) == seq![w] + words_of(rest),
{
    let s = w + seq![' '] + rest;
    assert(s[0] == w[0]);
    assert forall|i: int| 0 <= i < w.len() implies !is_space(#[trigger] s[i]) by {
        assert(s[i] == w[i]);
    }
    assert(s[w.len() as int] == ' ');
    lemma_word_len(s, w.len());
    assert(s.take(w.len() as int) == w);
    let tail = s.skip(w.len() as int);
    assert(tail[0] == ' ');
    assert(tail.skip(1) == rest);
    assert(words_of(tail) == words_of(rest));
}

/// Trimming leaves a trimmed text as it is.
pub proof fn lemma_trim_trimmed(s: Seq<char>)
    requires
        trimmed(s),
    ensures
        trim(s) == s,
{
    lemma_leading_spaces(s, 0);
    assert(s.skip(0) == s);
    lemma_trim_end(s, s.len());
    assert(s.take(s.len() as int) == s);
}

/// Trimming a space followed by a trimmed text gives that text.
pub proof fn lemma_trim_after_space(s: Seq<char>)
    requires
        trimmed(s),
    ensures
        trim(seq![' '] + s) == s,
{
    let t = seq![' '] + s;
    assert(t[0] == ' ');
    if s.len() > 0 {
        assert(t[1] == s[0]);
    }
    lemma_leading_spaces(t, 1);
    assert(t.skip(1) == s);
    lemma_trim_end(s, s.len());
    assert(s.take(s.len() as int) == s);
}

/// The line of a plain header, without its line feed, stands for that header.
pub proof fn lemma_parse_header_line(h: (Seq<char>, Seq<char>))
    requires
        plain_header(h),
    ensures
        parse_header(h.0 + seq![':', ' '] + h.1) == Some(h),
        !is_blank(h.0 + seq![':', ' '] + h.1),
        free_of(h.0 + seq![':', ' '] + h.1, '\n'),
        strip_cr(h.0 + seq![':', ' '] + h.1) == h.0 + seq![':', ' '] + h.1,
{
    let line = h.0 + seq![':', ' '] + h.1;
    let at = h.0.len() as int;
    assert(line[at] == ':');
    assert(line[at + 1] == ' ');
    assert forall|i: int| 0 <= i < at implies #[trigger] line[i] != ':' by {
        assert(line[i] == h.0[i]);
    }
    lemma_find_char(line, ':', at as nat);
    assert(line.take(at) == h.0);
    assert(line.skip(at + 1) == seq![' '] + h.1);
    lemma_trim_trimmed(h.0);
    lemma_trim_after_space(h.1);
    assert(!is_space(line[at]));
    assert forall|i: int| 0 <= i < line.len() implies #[trigger] line[i] != '\n' by {
        if i < at {
            assert(line[i] == h.0[i]);
        } else if i >= at + 2 {
            assert(line[i] == h.1[i - at - 2]);
        }
    }
    if h.1.len() > 0 {
        assert(line.last() == h.1.last());
        assert(is_space('\r'));
    } else {
        assert(line.last() == ' ');
    }
}

/// The text of plain headers, an empty line and a plain body is read as those
/// headers and that body.
pub proof fn lemma_headers_and_body(hs: Seq<(Seq<char>, Seq<char>)>, body: Seq<char>)
    requires
        forall|j: int| 0 <= j < hs.len() ==> plain_header(#[trigger] hs[j]),
        plain_body(body),
    ensures
        headers_in(lines_of(header_block(hs) + seq!['\n'] + body)) == hs,
        body_in(lines_of(header_block(hs) + seq!['\n'] + body)) == body,
    decreases hs.len(),
{
    let text = header_block(hs) + seq!['\n'] + body;
    if hs.len() == 0 {
        let none = Seq::<char>::empty();
        assert(text == none + seq!['\n'] + body);
        lemma_lines_front(none, body);
        let lines = lines_of(text);
        assert(lines == seq![none] + lines_of(body));
        assert(is_blank(lines[0]));
        assert(lines.skip(1) == lines_of(body));
        lemma_body_lines_join(body);
        assert(headers_in(lines) == hs);
    } else {
        let h = hs[0];
        let rest = hs.skip(1);
        let line = h.0 + seq![':', ' '] + h.1;
        let tail = header_block(rest) + seq!['\n'] + body;
        assert(hs == seq![h] + rest);
        lemma_header_block_front(h, rest);
        assert(header_line(h) == line + seq!['\n']);
        assert(text == line + seq!['\n'] + tail);
        lemma_parse_header_line(h);
        lemma_lines_front(line, tail);
        let lines = lines_of(text);
        assert(lines == seq![line] + lines_of(tail));
        assert(lines[0] == line);
        assert(lines.skip(1) == lines_of(tail));
        assert forall|j: int| 0 <= j < rest.len() implies plain_header(#[trigger] rest[j]) by {
            assert(rest[j] == hs[j + 1]);
        }
        lemma_headers_and_body(rest, body);
        assert(headers_in(lines) == seq![h] + headers_in(lines_of(tail)));
        assert(body_lines(lines) == body_lines(lines_of(tail)));
    }
}

/// Reading the text of a canonical request gives that request with its method
/// in upper case: the request itself where the method is in upper case
/// already.
pub proof fn lemma_decode_encode(r: RequestView)
    requires
        canonical(r),
    ensures
        decode(encode(r)) == Some(
            RequestView {
                method: uppercase_of(r.method),
                url: r.url,
                headers: r.headers,
                body: r.body,
            },
        ),
        uppercase_of(r.method) == r.method ==> decode(encode(r)) == Some(r),
{
    let first = r.method + seq![' '] + r.url;
    let tail = header_block(r.headers) + seq!['\n'] + r.body;
    let text = encode(r);
    assert(text == first + seq!['\n'] + tail);
    assert forall|i: int| 0 <= i < first.len() implies #[trigger] first[i] != '\n' by {
        assert(is_space('\n'));
        if i < r.method.len() {
            assert(first[i] == r.method[i]);
        } else if i > r.method.len() {
            let k = i - r.method.len() - 1;
            assert(first[i] == r.url[k]);
            if k < r.url.len() - 1 {
                assert(is_space(r.url[k]) ==> r.url[k] == ' ');
            }
        }
    }
    assert(first.last() == r.url.last());
    assert(is_space('\r'));
    assert(strip_cr(first) == first);
    lemma_lines_front(first, tail);
    let lines = lines_of(text);
    assert(lines == seq![first] + lines_of(tail));
    assert(lines[0] == first);
    assert(lines.skip(1) == lines_of(tail));
    lemma_words_front(r.method, r.url);
    lemma_single_spaced_words(r.url);
    let parts = words_of(first);
    assert(parts == seq![r.method] + words_of(r.url));
    assert(parts[0] == r.method);
    assert(parts.skip(1) == words_of(r.url));
    lemma_headers_and_body(r.headers, r.body);
    assert(well_formed(text));
}

} // verus!
