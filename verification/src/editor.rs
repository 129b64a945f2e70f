//! Editing the list of headers: the rows that are shown, and what an edit of
//! a row makes of the list.

use vstd::prelude::*;
use crate::storage::{copy_headers, header_views};

verus! {

/// A list of headers as a mathematical value.
pub type Headers = Seq<(Seq<char>, Seq<char>)>;

/// The rows that are shown for a list of headers: the headers, and an empty
/// row behind them unless the last header has no name yet.
pub open spec fn rows_shown(hs: Headers) -> Headers {
    if hs.len() == 0 || hs.last().0.len() > 0 {
        hs.push((Seq::empty(), Seq::empty()))
    } else {
        hs
    }
}

/// The list after the name in row `i` was set: that header with the new name
/// and its old value, or, for a row behind the list, a new header of that
/// name and no value at the end.
pub open spec fn name_set(hs: Headers, i: int, name: Seq<char>) -> Headers {
    if 0 <= i < hs.len() {
        hs.update(i, (name, hs[i].1))
    } else {
        hs.push((name, Seq::empty()))
    }
}

/// The list after the value in row `i` was set: that header with its old
/// name and the new value, or, for a row behind the list, a new header of no
/// name and that value at the end.
pub open spec fn value_set(hs: Headers, i: int, value: Seq<char>) -> Headers {
    if 0 <= i < hs.len() {
        hs.update(i, (hs[i].0, value))
    } else {
        hs.push((Seq::empty(), value))
    }
}

/// The rows that are shown for `headers`.
pub fn display_rows(headers: &Vec<(String, String)>) -> (rows: Vec<(String, String)>)
    ensures
        header_views(rows@) == rows_shown(header_views(headers@)),
        rows@.len() > 0,
        rows@.last().0@.len() == 0,
{
    let mut rows = copy_headers(headers);
    assert(header_views(rows@).len() == rows@.len());
    assert(header_views(headers@).len() == headers@.len());
    let n = rows.len();
    if n > 0 {
        assert(header_views(rows@)[n - 1] == (rows@[n - 1].0@, rows@[n - 1].1@));
        assert(header_views(rows@)[n - 1] == header_views(headers@)[n - 1]);
    }
    if n == 0 || !rows[n - 1].0.as_str().is_empty() {
        let ghost before = header_views(rows@);
        rows.push((String::new(), String::new()));
        assert(header_views(rows@) == before.push((Seq::<char>::empty(), Seq::<char>::empty())));
    }
    rows
}

/// The list after the name in row `i` was set to `name`.
pub fn set_header_name(headers: &Vec<(String, String)>, i: usize, name: String) -> (out: Vec<
    (String, String),
>)
    ensures
        header_views(out@) == name_set(header_views(headers@), i as int, name@),
{
    let mut out = copy_headers(headers);
    let ghost before = header_views(out@);
    assert(before.len() == out@.len());
    assert(header_views(headers@).len() == headers@.len());
    if i < out.len() {
        assert(before[i as int] == (out@[i as int].0@, out@[i as int].1@));
        let value = out[i].1.clone();
        out.set(i, (name, value));
        assert(header_views(out@) == before.update(i as int, (name@, value@)));
    } else {
        out.push((name, String::new()));
        assert(header_views(out@) == before.push((name@, Seq::<char>::empty())));
    }
    out
}

/// The list after the value in row `i` was set to `value`.
pub fn set_header_value(headers: &Vec<(String, String)>, i: usize, value: String) -> (out: Vec<
    (String, String),
>)
    ensures
        header_views(out@) == value_set(header_views(headers@), i as int, value@),
{
    let mut out = copy_headers(headers);
    let ghost before = header_views(out@);
    assert(before.len() == out@.len());
    assert(header_views(headers@).len() == headers@.len());
    if i < out.len() {
        assert(before[i as int] == (out@[i as int].0@, out@[i as int].1@));
        let name = out[i].0.clone();
        out.set(i, (name, value));
        assert(header_views(out@) == before.update(i as int, (name@, value@)));
    } else {
        out.push((String::new(), value));
        assert(header_views(out@) == before.push((Seq::<char>::empty(), value@)));
    }
    out
}

/// The list without the header in row `i`; nothing for a row behind the
/// list, which changes nothing.
pub fn remove_header(headers: &Vec<(String, String)>, i: usize) -> (out: Option<
    Vec<(String, String)>,
>)
    ensures
        match out {
            Some(rest) => i < headers@.len() && header_views(rest@) == header_views(
                headers@,
            ).remove(i as int),
            None => i >= headers@.len(),
        },
{
    if i < headers.len() {
        let mut rest = copy_headers(headers);
        let ghost before = header_views(rest@);
        assert(before.len() == rest@.len());
        assert(header_views(headers@).len() == headers@.len());
        rest.remove(i);
        assert(header_views(rest@) == before.remove(i as int));
        Some(rest)
    } else {
        None
    }
}

} // verus!
