//! The index document as a template: where the markup of a rendered page
//! goes.
//!
//! The styles of the page take the place of the first `</head>` of the index
//! document, and the body of the page takes the place of the first `</body>`
//! after that.

use crate::text::{chars_of, slice_of};
use vstd::prelude::*;
use vstd::string::{StrSliceExecFns, StringExecFns};

verus! {

/// Whether `pattern` stands in `text` at index `i`.
pub open spec fn occurs_at(text: Seq<char>, pattern: Seq<char>, i: int) -> bool {
    0 <= i && i + pattern.len() <= text.len() && text.subrange(i, i + pattern.len()) == pattern
}

/// The first index at or after `from` at which `pattern` stands in `text`.
pub open spec fn find_from(text: Seq<char>, pattern: Seq<char>, from: int) -> Option<int>
    decreases text.len() + 1 - from,
{
    if from < 0 || from + pattern.len() > text.len() {
        None
    } else if occurs_at(text, pattern, from) {
        Some(from)
    } else {
        find_from(text, pattern, from + 1)
    }
}

/// The first two of the pieces into which the occurrences of `pattern` cut
/// `text`: what stands before the first occurrence, and what stands between
/// it and the next one, or the end. `None` where `pattern` does not occur.
pub open spec fn first_two_pieces(text: Seq<char>, pattern: Seq<char>) -> Option<
    (Seq<char>, Seq<char>),
> {
    match find_from(text, pattern, 0) {
        None => None,
        Some(i) => {
            let start = i + pattern.len();
            let end = match find_from(text, pattern, start) {
                Some(j) => j,
                None => text.len() as int,
            };
            Some((text.take(i), text.subrange(start, end)))
        },
    }
}

/// The document that the index document `index` becomes with the styles
/// `style` and the body `body` of a rendered page. `None` where `index` has no
/// `</head>`, or no `</body>` after it.
pub open spec fn spliced(index: Seq<char>, style: Seq<char>, body: Seq<char>) -> Option<
    Seq<char>,
> {
    match first_two_pieces(index, "</head>"@) {
        None => None,
        Some((before_head, after_head)) => match first_two_pieces(after_head, "</body>"@) {
            None => None,
            Some((before_body, after_body)) => Some(
                before_head + style + before_body + body + after_body,
            ),
        },
    }
}

/// Whether `pattern` stands in `text` at index `i`.
fn stands_at(text: &Vec<char>, pattern: &Vec<char>, i: usize) -> (r: bool)
    requires
        i + pattern.len() <= text.len(),
    ensures
        r == occurs_at(text@, pattern@, i as int),
{
    let ghost window = text@.subrange(i as int, i + pattern.len());
    let mut k: usize = 0;
    while k < pattern.len()
        invariant
            k <= pattern.len(),
            i + pattern.len() <= text.len(),
            window == text@.subrange(i as int, i + pattern.len()),
            window.take(k as int) == pattern@.take(k as int),
        decreases pattern.len() - k,
    {
        if text[i + k] != pattern[k] {
            assert(window[k as int] != pattern@[k as int]);
            return false;
        }
        assert(window.take(k + 1) =~= window.take(k as int).push(window[k as int]));
        assert(pattern@.take(k + 1) =~= pattern@.take(k as int).push(pattern@[k as int]));
        k = k + 1;
    }
    assert(window =~= window.take(k as int));
    assert(pattern@ =~= pattern@.take(k as int));
    true
}

/// The first index at or after `from`, and before `to`, at which `pattern`
/// stands in the first `to` characters of `text`.
fn find(text: &Vec<char>, pattern: &Vec<char>, from: usize, to: usize) -> (r: Option<usize>)
    requires
        to <= text.len(),
    ensures
        match r {
            Some(i) => from <= i && i + pattern.len() <= to && find_from(
                text@.take(to as int),
                pattern@,
                from as int,
            ) == Some(i as int),
            None => find_from(text@.take(to as int), pattern@, from as int) is None,
        },
{
    let ghost head = text@.take(to as int);
    if pattern.len() > to || from > to - pattern.len() {
        return None;
    }
    let last: usize = to - pattern.len();
    let mut i: usize = from;
    loop
        invariant
            from <= i <= last,
            last == to - pattern.len(),
            to <= text.len(),
            head == text@.take(to as int),
            find_from(head, pattern@, from as int) == find_from(head, pattern@, i as int),
        decreases last - i,
    {
        let here = stands_at(text, pattern, i);
        proof {
            assert(head.subrange(i as int, i + pattern.len()) =~= text@.subrange(
                i as int,
                i + pattern.len(),
            ));
        }
        if here {
            return Some(i);
        }
        if i == last {
            assert(find_from(head, pattern@, i + 1) is None);
            return None;
        }
        i = i + 1;
    }
}

/// Puts the styles `style` and the body `body` of a rendered page into the
/// index document `index_html`. `None` where the index document has no
/// `</head>`, or no `</body>` after it.
pub fn splice(index_html: &str, style: &str, body: &str) -> (r: Option<String>)
    ensures
        match r {
            Some(document) => spliced(index_html@, style@, body@) == Some(document@),
            None => spliced(index_html@, style@, body@) is None,
        },
{
    let text = chars_of(index_html);
    let head = chars_of("</head>");
    let tail = chars_of("</body>");
    let n = text.len();
    assert(text@.take(n as int) =~= text@);
    let head_at = match find(&text, &head, 0, n) {
        Some(i) => i,
        None => {
            return None;
        },
    };
    let start: usize = head_at + head.len();
    let end: usize = match find(&text, &head, start, n) {
        Some(j) => j,
        None => n,
    };
    let after_head = slice_of(&text, start, end);
    let m = after_head.len();
    assert(after_head@.take(m as int) =~= after_head@);
    let body_at = match find(&after_head, &tail, 0, m) {
        Some(i) => i,
        None => {
            return None;
        },
    };
    let rest: usize = body_at + tail.len();
    let stop: usize = match find(&after_head, &tail, rest, m) {
        Some(j) => j,
        None => m,
    };
    let mut document = String::from_str(index_html.substring_char(0, head_at));
    document.append(style);
    document.append(index_html.substring_char(start, start + body_at));
    document.append(body);
    document.append(index_html.substring_char(start + rest, start + stop));
    proof {
        let pieces = first_two_pieces(after_head@, "</body>"@)->0;
        assert(pieces.0 =~= text@.subrange(start as int, start + body_at));
        assert(pieces.1 =~= text@.subrange(start + rest, start + stop));
        assert(document@ =~= text@.take(head_at as int) + style@ + pieces.0 + body@ + pieces.1);
    }
    Some(document)
}

} // verus!
