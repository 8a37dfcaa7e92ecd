//! Text helpers shared by the engine, and the content hash of commits.

use vstd::prelude::*;
use vstd::string::*;

verus! {

/// `str`'s `==`: two string slices are equal exactly when they hold the same
/// characters.
pub assume_specification[ <str as PartialEq>::eq ](a: &str, b: &str) -> (same: bool)
    ensures
        same == (a@ == b@),
;

/// `String::push` appends one character to the string.
pub assume_specification[ String::push ](s: &mut String, c: char)
    ensures
        final(s)@ == old(s)@.push(c),
;

/// The BLAKE3 digest of `data`, as 64 lowercase hexadecimal characters.
pub uninterp spec fn blake3_hex_of(data: Seq<u8>) -> Seq<char>;

/// Whether `c` is a hexadecimal digit in lower case.
pub open spec fn is_lower_hex(c: char) -> bool {
    ('0' <= c && c <= '9') || ('a' <= c && c <= 'f')
}

/// Whether `s` reads as a digest: 64 hexadecimal digits in lower case.
pub open spec fn is_hex_digest(s: Seq<char>) -> bool {
    s.len() == 64 && forall|i: int| 0 <= i < s.len() ==> is_lower_hex(#[trigger] s[i])
}

/// Hashes `data` with `blake3::hash` and renders the digest with
/// `Hash::to_hex`, which writes two lower-case hexadecimal digits for each of
/// the 32 bytes of the digest. The digest depends on the bytes alone.
#[verifier::external_body]
pub fn blake3_hex(data: &[u8]) -> (hex: String)
    ensures
        hex@ == blake3_hex_of(data@),
        is_hex_digest(hex@),
{
    blake3::hash(data).to_hex().to_string()
}

/// The characters of `s`, one by one.
pub fn chars_of(s: &str) -> (out: Vec<char>)
    ensures
        out@ == s@,
{
    let mut out: Vec<char> = Vec::new();
    for c in it: s.chars()
        invariant
            it.seq() == s@,
            out@ == it.seq().take(it.index() as int),
    {
        out.push(c);
        assert(it.seq().take(it.index() + 1) =~= it.seq().take(it.index() as int).push(c));
    }
    assert(out@ =~= s@);
    out
}

/// The character sequences of a list of strings.
pub open spec fn texts(v: Seq<String>) -> Seq<Seq<char>> {
    v.map_values(|s: String| s@)
}

/// The character sequences of a list of string pairs.
pub open spec fn text_pairs(v: Seq<(String, String)>) -> Seq<(Seq<char>, Seq<char>)> {
    v.map_values(|p: (String, String)| (p.0@, p.1@))
}

/// An owned copy of a list of strings.
pub fn copy_texts(v: &Vec<String>) -> (out: Vec<String>)
    ensures
        texts(out@) == texts(v@),
{
    let mut out: Vec<String> = Vec::new();
    let mut i: usize = 0;
    while i < v.len()
        invariant
            i <= v.len(),
            out@.len() == i,
            forall|j: int| 0 <= j < i ==> out@[j]@ == v@[j]@,
        decreases v.len() - i,
    {
        out.push(v[i].clone());
        i += 1;
    }
    assert(texts(out@) =~= texts(v@));
    out
}

/// An owned copy of a list of string pairs.
pub fn copy_pairs(v: &Vec<(String, String)>) -> (out: Vec<(String, String)>)
    ensures
        text_pairs(out@) == text_pairs(v@),
{
    let mut out: Vec<(String, String)> = Vec::new();
    let mut i: usize = 0;
    while i < v.len()
        invariant
            i <= v.len(),
            out@.len() == i,
            forall|j: int| 0 <= j < i ==> out@[j].0@ == v@[j].0@ && out@[j].1@ == v@[j].1@,
        decreases v.len() - i,
    {
        out.push((v[i].0.clone(), v[i].1.clone()));
        i += 1;
    }
    assert(text_pairs(out@) =~= text_pairs(v@));
    out
}

/// An owned copy of an optional string.
pub fn copy_opt_text(v: &Option<String>) -> (out: Option<String>)
    ensures
        out is Some == v is Some,
        v is Some ==> out->0@ == v->0@,
{
    match v {
        Some(s) => Some(s.clone()),
        None => None,
    }
}

} // verus!
