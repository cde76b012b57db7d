//! Character-level helpers on strings.
//!
//! Contracts speak of a string through its view, a `Seq<char>`. The executable
//! helpers work on a `Vec<char>` copy of the string, which can be indexed in
//! constant time.

use vstd::prelude::*;

verus! {

/// `s` holds no occurrence of `c`.
pub open spec fn free_of(s: Seq<char>, c: char) -> bool {
    forall|i: int| 0 <= i < s.len() ==> s[i] != c
}

/// If `s[i]` is `c` and no later character is, `i` is the last index of `c`.
pub proof fn lemma_last_index_is(s: Seq<char>, c: char, i: int)
    requires
        0 <= i < s.len(),
        s[i] == c,
        forall|j: int| i < j < s.len() ==> s[j] != c,
    ensures
        s.index_of_last(c) == Some(i),
{
    s.index_of_last_ensures(c);
    assert(s.contains(c));
}

/// A sequence without `c` has no last index of `c`.
pub proof fn lemma_last_index_none(s: Seq<char>, c: char)
    requires
        free_of(s, c),
    ensures
        s.index_of_last(c) is None,
{
    s.index_of_last_ensures(c);
    if s.index_of_last(c) is Some {
        let k = s.index_of_last(c).unwrap();
        assert(s[k] == c);
    }
}

/// In `x + [c] + y` with `y` free of `c`, the last `c` is the one in the middle.
pub proof fn lemma_last_index_joint(x: Seq<char>, c: char, y: Seq<char>)
    requires
        free_of(y, c),
    ensures
        (x + seq![c] + y).index_of_last(c) == Some(x.len() as int),
        (x + seq![c] + y).take(x.len() as int) == x,
        (x + seq![c] + y).skip(x.len() as int + 1) == y,
{
    let s = x + seq![c] + y;
    assert forall|j: int| x.len() < j < s.len() implies s[j] != c by {
        assert(s[j] == y[j - x.len() - 1]);
    }
    lemma_last_index_is(s, c, x.len() as int);
    assert(s.take(x.len() as int) =~= x);
    assert(s.skip(x.len() as int + 1) =~= y);
}

/// The characters of `s`, in order.
pub fn chars_of(s: &str) -> (v: Vec<char>)
    ensures
        v@ == s@,
{
    broadcast use vstd::string::axiom_spec_iter;

    let mut v: Vec<char> = Vec::new();
    for c in it: s.chars()
        invariant
            it.seq() == s@,
            v@ == it.seq().take(it.index()),
    {
        v.push(c);
    }
    v
}

/// Whether `a` and `b` hold the same characters.
pub fn same_chars(a: &Vec<char>, b: &Vec<char>) -> (r: bool)
    ensures
        r == (a@ == b@),
{
    if a.len() != b.len() {
        return false;
    }
    let mut i: usize = 0;
    while i < a.len()
        invariant
            a.len() == b.len(),
            i <= a.len(),
            a@.take(i as int) == b@.take(i as int),
        decreases a.len() - i,
    {
        if a[i] != b[i] {
            return false;
        }
        assert(a@.take(i + 1) =~= a@.take(i as int).push(a@[i as int]));
        assert(b@.take(i + 1) =~= b@.take(i as int).push(b@[i as int]));
        i = i + 1;
    }
    assert(a@ =~= a@.take(i as int));
    assert(b@ =~= b@.take(i as int));
    true
}

/// Whether the strings `a` and `b` are equal.
pub fn same_text(a: &str, b: &str) -> (r: bool)
    ensures
        r == (a@ == b@),
{
    let x = chars_of(a);
    let y = chars_of(b);
    same_chars(&x, &y)
}

/// Whether `v` begins with `prefix`.
pub fn starts_with(v: &Vec<char>, prefix: &Vec<char>) -> (r: bool)
    ensures
        r == prefix@.is_prefix_of(v@),
{
    if prefix.len() > v.len() {
        return false;
    }
    let mut i: usize = 0;
    while i < prefix.len()
        invariant
            prefix.len() <= v.len(),
            i <= prefix.len(),
            prefix@.take(i as int) == v@.take(i as int),
        decreases prefix.len() - i,
    {
        if prefix[i] != v[i] {
            assert(prefix@[i as int] != v@.subrange(0, prefix.len() as int)[i as int]);
            return false;
        }
        assert(prefix@.take(i + 1) =~= prefix@.take(i as int).push(prefix@[i as int]));
        assert(v@.take(i + 1) =~= v@.take(i as int).push(v@[i as int]));
        i = i + 1;
    }
    assert(prefix@ =~= prefix@.take(i as int));
    true
}

/// Whether `v` ends with `suffix`.
pub fn ends_with(v: &Vec<char>, suffix: &Vec<char>) -> (r: bool)
    ensures
        r == suffix@.is_suffix_of(v@),
{
    if suffix.len() > v.len() {
        return false;
    }
    let base: usize = v.len() - suffix.len();
    let ghost tail = v@.subrange(base as int, v.len() as int);
    let mut i: usize = 0;
    while i < suffix.len()
        invariant
            suffix.len() <= v.len(),
            base == v.len() - suffix.len(),
            tail == v@.subrange(base as int, v.len() as int),
            i <= suffix.len(),
            suffix@.take(i as int) == tail.take(i as int),
        decreases suffix.len() - i,
    {
        if suffix[i] != v[base + i] {
            assert(suffix@[i as int] != tail[i as int]);
            return false;
        }
        assert(suffix@.take(i + 1) =~= suffix@.take(i as int).push(suffix@[i as int]));
        assert(tail.take(i + 1) =~= tail.take(i as int).push(tail[i as int]));
        i = i + 1;
    }
    assert(suffix@ =~= suffix@.take(i as int));
    assert(tail =~= tail.take(i as int));
    true
}

/// The index of the last `c` in `v`, if there is one.
pub fn last_index_of(v: &Vec<char>, c: char) -> (r: Option<usize>)
    ensures
        match r {
            Some(i) => i < v.len() && v@.index_of_last(c) == Some(i as int),
            None => v@.index_of_last(c) is None,
        },
{
    let mut i: usize = v.len();
    while i > 0
        invariant
            i <= v.len(),
            forall|j: int| i <= j < v.len() ==> v@[j] != c,
        decreases i,
    {
        i = i - 1;
        if v[i] == c {
            proof {
                lemma_last_index_is(v@, c, i as int);
            }
            return Some(i);
        }
    }
    proof {
        lemma_last_index_none(v@, c);
    }
    None
}

/// The characters of `v` from index `from` up to, not including, `to`.
pub fn slice_of(v: &Vec<char>, from: usize, to: usize) -> (r: Vec<char>)
    requires
        from <= to <= v.len(),
    ensures
        r@ == v@.subrange(from as int, to as int),
{
    let mut r: Vec<char> = Vec::new();
    let mut i: usize = from;
    while i < to
        invariant
            from <= i <= to <= v.len(),
            r@ == v@.subrange(from as int, i as int),
        decreases to - i,
    {
        r.push(v[i]);
        assert(v@.subrange(from as int, i + 1) =~= v@.subrange(from as int, i as int).push(
            v@[i as int],
        ));
        i = i + 1;
    }
    r
}

} // verus!
