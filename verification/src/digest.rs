//! Content hashes: the MD5 digest of a file's bytes, written in lower-case
//! hexadecimal. The hash is a cache key, not a security property.

use vstd::prelude::*;
use vstd::string::StringExecFns;

verus! {

/// The MD5 digest of `data`, as `md5::compute` returns it.
pub uninterp spec fn md5_sum(data: Seq<u8>) -> Seq<u8>;

/// Calls `md5::compute` on `data` and hands back the 16 bytes of the digest.
/// Trusted: that the digest depends on the bytes of `data` alone.
#[verifier::external_body]
fn md5_digest(data: &[u8]) -> (digest: [u8; 16])
    ensures
        digest@ == md5_sum(data@),
{
    md5::compute(data).0
}

/// The sixteen hexadecimal digits, in order of their value.
pub open spec fn hex_digits() -> Seq<char> {
    seq!['0', '1', '2', '3', '4', '5', '6', '7', '8', '9', 'a', 'b', 'c', 'd', 'e', 'f']
}

/// Whether `c` is a lower-case hexadecimal digit.
pub open spec fn is_hex_digit(c: char) -> bool {
    hex_digits().contains(c)
}

/// Whether `s` is made of lower-case hexadecimal digits only.
pub open spec fn is_hex(s: Seq<char>) -> bool {
    forall|i: int| 0 <= i < s.len() ==> is_hex_digit(#[trigger] s[i])
}

/// The two digits that write the byte `b`, high nibble first.
pub open spec fn hex_of_byte(b: u8) -> Seq<char> {
    seq![hex_digits()[b as int / 16], hex_digits()[b as int % 16]]
}

/// `bytes` in lower-case hexadecimal, two digits for each byte.
pub open spec fn hex_of(bytes: Seq<u8>) -> Seq<char>
    decreases bytes.len(),
{
    if bytes.len() == 0 {
        Seq::empty()
    } else {
        hex_of(bytes.drop_last()) + hex_of_byte(bytes.last())
    }
}

/// The content hash of a file that holds `data`.
pub open spec fn content_hash_of(data: Seq<u8>) -> Seq<char> {
    hex_of(md5_sum(data))
}

/// A hexadecimal string has two digits for each byte, and digits only.
pub proof fn lemma_hex_of(bytes: Seq<u8>)
    ensures
        hex_of(bytes).len() == 2 * bytes.len(),
        is_hex(hex_of(bytes)),
    decreases bytes.len(),
{
    if bytes.len() > 0 {
        lemma_hex_of(bytes.drop_last());
        let b = bytes.last();
        let head = hex_of(bytes.drop_last());
        let s = hex_of(bytes);
        assert(is_hex_digit(hex_digits()[b as int / 16]));
        assert(is_hex_digit(hex_digits()[b as int % 16]));
        assert forall|i: int| 0 <= i < s.len() implies is_hex_digit(#[trigger] s[i]) by {
            if i < head.len() {
                assert(s[i] == head[i]);
            } else {
                assert(s[i] == hex_of_byte(b)[i - head.len()]);
            }
        }
    }
}

/// The digit of value `n`, as a one-character string.
fn hex_digit(n: u8) -> (s: &'static str)
    requires
        n < 16,
    ensures
        s@ == seq![hex_digits()[n as int]],
{
    proof {
        reveal_strlit("0");
        reveal_strlit("1");
        reveal_strlit("2");
        reveal_strlit("3");
        reveal_strlit("4");
        reveal_strlit("5");
        reveal_strlit("6");
        reveal_strlit("7");
        reveal_strlit("8");
        reveal_strlit("9");
        reveal_strlit("a");
        reveal_strlit("b");
        reveal_strlit("c");
        reveal_strlit("d");
        reveal_strlit("e");
        reveal_strlit("f");
    }
    let s = match n {
        0 => "0",
        1 => "1",
        2 => "2",
        3 => "3",
        4 => "4",
        5 => "5",
        6 => "6",
        7 => "7",
        8 => "8",
        9 => "9",
        10 => "a",
        11 => "b",
        12 => "c",
        13 => "d",
        14 => "e",
        _ => "f",
    };
    assert(s@ =~= seq![hex_digits()[n as int]]);
    s
}

/// Writes `bytes` in lower-case hexadecimal.
pub fn to_hex(bytes: &[u8]) -> (s: String)
    ensures
        s@ == hex_of(bytes@),
{
    let mut s = String::new();
    let mut i: usize = 0;
    while i < bytes.len()
        invariant
            i <= bytes.len(),
            s@ == hex_of(bytes@.take(i as int)),
        decreases bytes.len() - i,
    {
        let b = bytes[i];
        proof {
            let next = bytes@.take(i + 1);
            assert(next.drop_last() =~= bytes@.take(i as int));
            assert(next.last() == b);
            assert(hex_of_byte(b) =~= seq![hex_digits()[b as int / 16]] + seq![
                hex_digits()[b as int % 16],
            ]);
        }
        s.append(hex_digit(b / 16));
        s.append(hex_digit(b % 16));
        assert(s@ =~= hex_of(bytes@.take(i + 1)));
        i = i + 1;
    }
    assert(bytes@.take(i as int) =~= bytes@);
    s
}

/// Whether `c` is a lower-case hexadecimal digit.
fn hex_char(c: char) -> (r: bool)
    ensures
        r == is_hex_digit(c),
{
    let r = c == '0' || c == '1' || c == '2' || c == '3' || c == '4' || c == '5' || c == '6' || c
        == '7' || c == '8' || c == '9' || c == 'a' || c == 'b' || c == 'c' || c == 'd' || c == 'e'
        || c == 'f';
    r
}

/// Whether `s` is made of lower-case hexadecimal digits only.
pub fn is_hex_text(s: &str) -> (r: bool)
    ensures
        r == is_hex(s@),
{
    let chars = crate::text::chars_of(s);
    let mut i: usize = 0;
    while i < chars.len()
        invariant
            i <= chars.len(),
            chars@ == s@,
            forall|j: int| 0 <= j < i ==> is_hex_digit(#[trigger] s@[j]),
        decreases chars.len() - i,
    {
        if !hex_char(chars[i]) {
            assert(!is_hex_digit(s@[i as int]));
            return false;
        }
        i = i + 1;
    }
    true
}

/// The content hash of `data`: its MD5 digest, in lower-case hexadecimal.
pub fn content_hash(data: &[u8]) -> (hash: String)
    ensures
        hash@ == content_hash_of(data@),
        hash@.len() == 32,
        is_hex(hash@),
{
    let digest = md5_digest(data);
    proof {
        lemma_hex_of(digest@);
    }
    to_hex(digest.as_slice())
}

} // verus!
