//! The request file format as functions on sequences of characters: what a
//! request is written as, and what a text is read as.

use vstd::prelude::*;
use crate::text::{find_char, is_blank, lemma_find_char, trim};
use crate::split::{join_with, lines_of, words_of};

verus! {

/// A request as a mathematical value.
pub struct RequestView {
    pub method: Seq<char>,
    pub url: Seq<char>,
    pub headers: Seq<(Seq<char>, Seq<char>)>,
    pub body: Seq<char>,
}

/// What `str::to_uppercase` of std makes of a text: its upper case form by
/// the rules of Unicode, which depends on the characters alone.
pub uninterp spec fn uppercase_of(s: Seq<char>) -> Seq<char>;

/// `str::to_uppercase` of std: the result is the upper case form of `s`.
pub assume_specification[ str::to_uppercase ](s: &str) -> (out: String)
    ensures
        out@ == uppercase_of(s@),
;

/// The line that one header is written as, with the line feed that ends it.
pub open spec fn header_line(h: (Seq<char>, Seq<char>)) -> Seq<char> {
    h.0 + seq![':', ' '] + h.1 + seq!['\n']
}

/// The lines of all headers, in order.
pub open spec fn header_block(hs: Seq<(Seq<char>, Seq<char>)>) -> Seq<char>
    decreases hs.len(),
{
    if hs.len() == 0 {
        Seq::empty()
    } else {
        header_block(hs.drop_last()) + header_line(hs.last())
    }
}

/// The text of a request: the method and the URL on the first line, one line
/// for each header, an empty line, and the body as it is.
pub open spec fn encode(r: RequestView) -> Seq<char> {
    r.method + seq![' '] + r.url + seq!['\n'] + header_block(r.headers) + seq!['\n'] + r.body
}

/// The header that a line stands for: the text before its first colon and the
/// text after it, both trimmed. A line without a colon stands for none.
pub open spec fn parse_header(line: Seq<char>) -> Option<(Seq<char>, Seq<char>)> {
    let at = find_char(line, ':') as int;
    if at < line.len() {
        Some((trim(line.take(at)), trim(line.skip(at + 1))))
    } else {
        None
    }
}

/// The headers among `lines`: those that the lines before the first blank
/// line stand for.
pub open spec fn headers_in(lines: Seq<Seq<char>>) -> Seq<(Seq<char>, Seq<char>)>
    decreases lines.len(),
{
    if lines.len() == 0 || is_blank(lines[0]) {
        Seq::empty()
    } else {
        match parse_header(lines[0]) {
            Some(h) => seq![h] + headers_in(lines.skip(1)),
            None => headers_in(lines.skip(1)),
        }
    }
}

/// The lines of the body: those after the first blank line.
pub open spec fn body_lines(lines: Seq<Seq<char>>) -> Seq<Seq<char>>
    decreases lines.len(),
{
    if lines.len() == 0 {
        Seq::empty()
    } else if is_blank(lines[0]) {
        lines.skip(1)
    } else {
        body_lines(lines.skip(1))
    }
}

/// The body among `lines`: its lines with a line feed between each two, which
/// is each line followed by a line feed, less the last line feed.
pub open spec fn body_in(lines: Seq<Seq<char>>) -> Seq<char> {
    join_with(body_lines(lines), seq!['\n'])
}

/// Whether `s` can be read as a request: it has a first line, and that line
/// has at least two words.
pub open spec fn well_formed(s: Seq<char>) -> bool {
    lines_of(s).len() > 0 && words_of(lines_of(s)[0]).len() >= 2
}

/// The request that `s` is read as, if it can be read as one. The method is
/// the first word of the first line in upper case, the URL the other words of
/// that line with one space between each two.
pub open spec fn decode(s: Seq<char>) -> Option<RequestView> {
    if well_formed(s) {
        let lines = lines_of(s);
        let parts = words_of(lines[0]);
        Some(
            RequestView {
                method: uppercase_of(parts[0]),
                url: join_with(parts.skip(1), seq![' ']),
                headers: headers_in(lines.skip(1)),
                body: body_in(lines.skip(1)),
            },
        )
    } else {
        None
    }
}

/// What is reported of a text that cannot be read as a request.
pub open spec fn decode_error(s: Seq<char>) -> Seq<char> {
    if lines_of(s).len() == 0 {
        "Empty file"@
    } else {
        "Invalid first line: search for 'METHOD URL'"@
    }
}

/// A line without a colon that is not blank is passed over: it stands for no
/// header, and neither the headers nor the body of what follows change by it.
pub proof fn lemma_line_without_colon(line: Seq<char>, rest: Seq<Seq<char>>)
    requires
        forall|i: int| 0 <= i < line.len() ==> #[trigger] line[i] != ':',
        !is_blank(line),
    ensures
        parse_header(line) is None,
        headers_in(seq![line] + rest) == headers_in(rest),
        body_in(seq![line] + rest) == body_in(rest),
{
    lemma_find_char(line, ':', line.len());
    let all = seq![line] + rest;
    assert(all[0] == line);
    assert(all.skip(1) == rest);
}

} // verus!
