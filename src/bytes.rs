use vstd::prelude::*;
use vstd::utf8::{decode_utf8, encode_utf8, valid_utf8};

verus! {

broadcast use vstd::utf8::group_utf8_lib;

/// The first position at or after `from` where `s` holds `b`.
pub open spec fn find_from(s: Seq<u8>, from: int, b: u8) -> Option<int>
    decreases s.len() - from,
{
    if from < 0 || from >= s.len() {
        None
    } else if s[from] == b {
        Some(from)
    } else {
        find_from(s, from + 1, b)
    }
}

/// `find_from` lands on `k` when `k` holds the byte and nothing between
/// `from` and `k` does.
pub proof fn lemma_find_from_at(s: Seq<u8>, from: int, b: u8, k: int)
    requires
        0 <= from <= k < s.len(),
        s[k] == b,
        forall|j: int| from <= j < k ==> s[j] != b,
    ensures
        find_from(s, from, b) == Some(k),
    decreases k - from,
{
    if from < k {
        lemma_find_from_at(s, from + 1, b, k);
    }
}

/// Where the byte occurs at `k` or later, `find_from` finds it at `k` or
/// before.
pub proof fn lemma_find_from_exists(s: Seq<u8>, from: int, b: u8, k: int)
    requires
        0 <= from <= k < s.len(),
        s[k] == b,
    ensures
        find_from(s, from, b) is Some,
        find_from(s, from, b)->0 <= k,
    decreases k - from,
{
    if from < k && s[from] != b {
        lemma_find_from_exists(s, from + 1, b, k);
    }
}

/// What `find_from` returns is a position of the byte, with none before it.
pub proof fn lemma_find_from_some(s: Seq<u8>, from: int, b: u8)
    requires
        find_from(s, from, b) is Some,
    ensures
        from <= find_from(s, from, b)->0 < s.len(),
        s[find_from(s, from, b)->0] == b,
        forall|j: int| from <= j < find_from(s, from, b)->0 ==> s[j] != b,
    decreases s.len() - from,
{
    if s[from] != b {
        lemma_find_from_some(s, from + 1, b);
    }
}

/// The text that a UTF-8 byte sequence spells.
pub open spec fn text_of(b: Seq<u8>) -> Seq<char> {
    decode_utf8(b)
}

/// Position of the first `b` in `s` at or after `start`.
pub fn find_byte(s: &[u8], start: usize, b: u8) -> (r: Option<usize>)
    ensures
        match r {
            Some(i) => find_from(s@, start as int, b) == Some(i as int),
            None => find_from(s@, start as int, b) is None,
        },
{
    let mut i: usize = start;
    while i < s.len()
        invariant
            start <= i,
            find_from(s@, start as int, b) == find_from(s@, i as int, b),
        decreases s.len() - i,
    {
        if s[i] == b {
            return Some(i);
        }
        i += 1;
    }
    None
}

/// Appends the bytes of `s` to `out`.
pub fn push_all(out: &mut Vec<u8>, s: &[u8])
    ensures
        final(out)@ == old(out)@ + s@,
{
    let mut i: usize = 0;
    while i < s.len()
        invariant
            i <= s@.len(),
            out@ == old(out)@ + s@.take(i as int),
        decreases s.len() - i,
    {
        out.push(s[i]);
        i += 1;
        assert(s@.take(i as int) =~= s@.take(i - 1).push(s@[i - 1]));
    }
    assert(s@.take(i as int) =~= s@);
}

/// A fresh vector holding `s[from..to]`.
pub fn copy_range(s: &[u8], from: usize, to: usize) -> (r: Vec<u8>)
    requires
        from <= to <= s@.len(),
    ensures
        r@ == s@.subrange(from as int, to as int),
{
    let mut out: Vec<u8> = Vec::new();
    push_all(&mut out, &s[from..to]);
    out
}

/// The UTF-8 bytes of a string.
pub fn string_bytes(s: &String) -> (r: &[u8])
    ensures
        r@ == encode_utf8(s@),
{
    s.as_str().as_bytes()
}

/// Relies on `String::from_utf8`: it accepts exactly the valid UTF-8 byte
/// sequences and keeps their bytes.
#[verifier::external_body]
fn utf8_string(v: Vec<u8>) -> (r: Option<String>)
    ensures
        match r {
            Some(s) => encode_utf8(s@) == v@,
            None => !valid_utf8(v@),
        },
{
    String::from_utf8(v).ok()
}

/// Reads bytes as text: `None` exactly when they are not valid UTF-8.
pub fn text_from_bytes(v: Vec<u8>) -> (r: Option<String>)
    ensures
        valid_utf8(v@) <==> r is Some,
        r matches Some(s) ==> s@ == text_of(v@),
{
    let r = utf8_string(v);
    proof {
        if let Some(s) = &r {
            assert(decode_utf8(encode_utf8(s@)) == s@);
        }
    }
    r
}

} // verus!
