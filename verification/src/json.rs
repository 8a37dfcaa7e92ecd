//! JSON held as text: canonical form, and lookup by pointer.

use vstd::prelude::*;
use vstd::string::*;
use crate::util::chars_of;

verus! {

/// The compact JSON text of the value that `text` denotes; `None` where
/// `text` is not JSON.
pub uninterp spec fn json_canonical_of(text: Seq<char>) -> Option<Seq<char>>;

/// The compact JSON text of the value that `pointer` addresses in the
/// document `body`; `None` where `body` is not JSON or holds no such value.
pub uninterp spec fn json_pointer_value(body: Seq<char>, pointer: Seq<char>) -> Option<Seq<char>>;

/// The characters of an optional string.
pub open spec fn opt_text(o: Option<String>) -> Option<Seq<char>> {
    match o {
        Some(s) => Some(s@),
        None => None,
    }
}

/// Serialises with `serde_json::to_string` the value that
/// `serde_json::from_str` reads from `text`. `None` where either fails. The
/// result depends on the text alone.
#[verifier::external_body]
pub(crate) fn json_canonical(text: &str) -> (out: Option<String>)
    ensures
        opt_text(out) == json_canonical_of(text@),
{
    let value: serde_json::Value = serde_json::from_str(text).ok()?;
    serde_json::to_string(&value).ok()
}

/// Looks `pointer` up with `serde_json::Value::pointer` in the value that
/// `serde_json::from_str` reads from `body`, and renders what is found with
/// the value's `to_string`. `None` where `body` does not parse or the pointer
/// addresses nothing. The result depends on the two texts alone.
#[verifier::external_body]
pub(crate) fn json_lookup(body: &str, pointer: &str) -> (out: Option<String>)
    ensures
        opt_text(out) == json_pointer_value(body@, pointer@),
{
    let value: serde_json::Value = serde_json::from_str(body).ok()?;
    value.pointer(pointer).map(ToString::to_string)
}

/// Whether `c` is white space, as Unicode defines it.
pub open spec fn is_space(c: char) -> bool {
    let u = c as u32;
    (0x09 <= u <= 0x0d) || u == 0x20 || u == 0x85 || u == 0xa0 || u == 0x1680 || (0x2000 <= u
        <= 0x200a) || u == 0x2028 || u == 0x2029 || u == 0x202f || u == 0x205f || u == 0x3000
}

/// `s` without the white space it starts with.
pub open spec fn without_leading_space(s: Seq<char>) -> Seq<char>
    decreases s.len(),
{
    if s.len() > 0 && is_space(s[0]) {
        without_leading_space(s.skip(1))
    } else {
        s
    }
}

/// `s` without the white space it ends with.
pub open spec fn without_trailing_space(s: Seq<char>) -> Seq<char>
    decreases s.len(),
{
    if s.len() > 0 && is_space(s.last()) {
        without_trailing_space(s.drop_last())
    } else {
        s
    }
}

/// `s` without the run of `c` it starts with.
pub open spec fn without_leading(s: Seq<char>, c: char) -> Seq<char>
    decreases s.len(),
{
    if s.len() > 0 && s[0] == c {
        without_leading(s.skip(1), c)
    } else {
        s
    }
}

/// The dotted parts of `s` that are not empty, each behind a slash.
/// `fresh` says whether `s` starts a part.
pub open spec fn slashed(s: Seq<char>, fresh: bool) -> Seq<char>
    decreases s.len(),
{
    if s.len() == 0 {
        Seq::empty()
    } else if s[0] == '.' {
        slashed(s.skip(1), true)
    } else if fresh {
        seq!['/', s[0]] + slashed(s.skip(1), false)
    } else {
        seq![s[0]] + slashed(s.skip(1), false)
    }
}

/// The JSON pointer that stands for a dotted path: `$.a.b` becomes `/a/b`.
/// White space around the path, the dollar signs and dots it starts with, and
/// empty parts are dropped. Array indices are not understood.
pub open spec fn pointer_of_path(path: Seq<char>) -> Seq<char> {
    slashed(
        without_leading(
            without_leading(without_trailing_space(without_leading_space(path)), '$'),
            '.',
        ),
        true,
    )
}

fn is_space_char(c: char) -> (b: bool)
    ensures
        b == is_space(c),
{
    let u: u32 = c as u32;
    (0x09 <= u && u <= 0x0d) || u == 0x20 || u == 0x85 || u == 0xa0 || u == 0x1680 || (0x2000 <= u
        && u <= 0x200a) || u == 0x2028 || u == 0x2029 || u == 0x202f || u == 0x205f || u == 0x3000
}

/// Turns a dotted path into the JSON pointer that stands for it.
pub fn json_pointer_from_path(path: &str) -> (pointer: String)
    ensures
        pointer@ == pointer_of_path(path@),
{
    let cs = chars_of(path);
    let n: usize = cs.len();
    let mut lo: usize = 0;
    assert(cs@.subrange(0, n as int) =~= cs@);
    while lo < n && is_space_char(cs[lo])
        invariant
            lo <= n,
            n == cs@.len(),
            without_leading_space(cs@) == without_leading_space(cs@.subrange(lo as int, n as int)),
        decreases n - lo,
    {
        assert(cs@.subrange(lo as int, n as int).skip(1) =~= cs@.subrange(lo + 1, n as int));
        lo += 1;
    }
    let ghost a = cs@.subrange(lo as int, n as int);
    assert(without_leading_space(cs@) == a);
    let mut hi: usize = n;
    while hi > lo && is_space_char(cs[hi - 1])
        invariant
            lo <= hi <= n,
            n == cs@.len(),
            a == cs@.subrange(lo as int, n as int),
            without_trailing_space(a) == without_trailing_space(cs@.subrange(lo as int, hi as int)),
        decreases hi - lo,
    {
        assert(cs@.subrange(lo as int, hi as int).drop_last() =~= cs@.subrange(
            lo as int,
            hi - 1,
        ));
        hi -= 1;
    }
    let ghost b = cs@.subrange(lo as int, hi as int);
    assert(without_trailing_space(a) == b);
    while lo < hi && cs[lo] == '$'
        invariant
            lo <= hi <= n,
            n == cs@.len(),
            without_leading(b, '$') == without_leading(cs@.subrange(lo as int, hi as int), '$'),
        decreases hi - lo,
    {
        assert(cs@.subrange(lo as int, hi as int).skip(1) =~= cs@.subrange(lo + 1, hi as int));
        lo += 1;
    }
    let ghost c = cs@.subrange(lo as int, hi as int);
    assert(without_leading(b, '$') == c);
    while lo < hi && cs[lo] == '.'
        invariant
            lo <= hi <= n,
            n == cs@.len(),
            without_leading(c, '.') == without_leading(cs@.subrange(lo as int, hi as int), '.'),
        decreases hi - lo,
    {
        assert(cs@.subrange(lo as int, hi as int).skip(1) =~= cs@.subrange(lo + 1, hi as int));
        lo += 1;
    }
    let ghost d = cs@.subrange(lo as int, hi as int);
    assert(without_leading(c, '.') == d);
    let mut out = String::new();
    let mut fresh: bool = true;
    let mut i: usize = lo;
    assert(out@ + slashed(d, true) =~= slashed(d, true));
    while i < hi
        invariant
            lo <= i <= hi <= n,
            n == cs@.len(),
            d == cs@.subrange(lo as int, hi as int),
            out@ + slashed(cs@.subrange(i as int, hi as int), fresh) == slashed(d, true),
        decreases hi - i,
    {
        let ghost rest = cs@.subrange(i as int, hi as int);
        assert(rest.skip(1) =~= cs@.subrange(i + 1, hi as int));
        let ghost before = out@;
        let ch: char = cs[i];
        assert(ch == rest[0]);
        if ch == '.' {
            fresh = true;
        } else {
            if fresh {
                out.push('/');
            }
            out.push(ch);
            proof {
                let tail = slashed(rest.skip(1), false);
                if fresh {
                    assert(out@ + tail =~= before + (seq!['/', ch] + tail));
                } else {
                    assert(out@ + tail =~= before + (seq![ch] + tail));
                }
            }
            fresh = false;
        }
        i += 1;
    }
    assert(out@ + Seq::<char>::empty() =~= out@);
    out
}

} // verus!
