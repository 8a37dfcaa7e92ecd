//! Snapshots: the current version of every object as lines of JSON,
//! compressed, and the restore of a store from a snapshot and the log written
//! after it.

use vstd::prelude::*;
use vstd::string::*;
use vstd::utf8::{decode_utf8, encode_utf8, valid_utf8};
use crate::json::is_space;
use crate::model::{object_views, Object, ObjectView};
use crate::persistent::{RecBody, RecBodyView};
use crate::util::{chars_of, texts};

verus! {

/// The compression level of snapshots.
pub const SNAPSHOT_LEVEL: i32 = 3;

/// What is recorded of a snapshot file.
#[derive(Debug)]
pub struct SnapshotManifest {
    /// When the snapshot was taken, in seconds since the Unix epoch.
    pub created_ts: i64,
    /// The number of objects in it.
    pub objects: usize,
    /// Where the file is.
    pub path: String,
}

impl Clone for SnapshotManifest {
    fn clone(&self) -> (out: Self)
        ensures
            out.created_ts == self.created_ts,
            out.objects == self.objects,
            out.path@ == self.path@,
    {
        SnapshotManifest {
            created_ts: self.created_ts,
            objects: self.objects,
            path: self.path.clone(),
        }
    }
}

/// The Zstandard frame that `data` compresses to at the level `level`;
/// `None` where the compressor fails.
pub uninterp spec fn zstd_compressed(data: Seq<u8>, level: i32) -> Option<Seq<u8>>;

/// The bytes that the Zstandard frames in `data` decompress to; `None`
/// where `data` is not in that format.
pub uninterp spec fn zstd_decompressed(data: Seq<u8>) -> Option<Seq<u8>>;

/// The bytes of an optional vector.
pub open spec fn opt_bytes(o: Option<Vec<u8>>) -> Option<Seq<u8>> {
    match o {
        Some(v) => Some(v@),
        None => None,
    }
}

/// Compresses with `zstd::encode_all`. `None` where it fails. The result
/// depends on the bytes and the level alone.
#[verifier::external_body]
fn compress(data: &[u8], level: i32) -> (out: Option<Vec<u8>>)
    ensures
        opt_bytes(out) == zstd_compressed(data@, level),
{
    zstd::encode_all(data, level).ok()
}

/// Decompresses with `zstd::decode_all`. `None` where it fails. The result
/// depends on the bytes alone.
#[verifier::external_body]
fn decompress(data: &[u8]) -> (out: Option<Vec<u8>>)
    ensures
        opt_bytes(out) == zstd_decompressed(data@),
{
    zstd::decode_all(data).ok()
}

/// Reads text with `String::from_utf8`: the string whose UTF-8 encoding
/// the bytes are, or `None` where they are not valid UTF-8.
#[verifier::external_body]
fn text_from_utf8(bytes: Vec<u8>) -> (out: Option<String>)
    ensures
        match out {
            Some(s) => valid_utf8(bytes@) && encode_utf8(s@) == bytes@,
            None => !valid_utf8(bytes@),
        },
{
    String::from_utf8(bytes).ok()
}

/// The lines `lines`, each followed by a line feed.
pub open spec fn joined_lines(lines: Seq<Seq<char>>) -> Seq<char>
    decreases lines.len(),
{
    if lines.len() == 0 {
        Seq::empty()
    } else {
        joined_lines(lines.drop_last()) + lines.last() + seq!['\n']
    }
}

/// The length of the first line of `s`: the number of characters before
/// the first line feed.
pub open spec fn first_line_len(s: Seq<char>) -> int
    decreases s.len(),
{
    if s.len() == 0 || s[0] == '\n' {
        0
    } else {
        1 + first_line_len(s.skip(1))
    }
}

/// `line` without the carriage return it ends with, if it ends with one.
pub open spec fn without_cr(line: Seq<char>) -> Seq<char> {
    if line.len() > 0 && line.last() == '\r' {
        line.drop_last()
    } else {
        line
    }
}

/// Whether `line` holds white space only.
pub open spec fn is_blank(line: Seq<char>) -> bool {
    forall|i: int| 0 <= i < line.len() ==> is_space(#[trigger] line[i])
}

/// The lines of `s` that hold more than white space, in order. Lines end
/// at a line feed; a carriage return right before the line feed is not part
/// of the line.
pub open spec fn nonblank_lines(s: Seq<char>) -> Seq<Seq<char>>
    decreases s.len(),
{
    if s.len() == 0 {
        Seq::empty()
    } else {
        let n = first_line_len(s);
        let line = if n < s.len() {
            without_cr(s.take(n))
        } else {
            s.take(n)
        };
        let rest = if n < s.len() {
            s.skip(n + 1)
        } else {
            Seq::empty()
        };
        proof {
            lemma_first_line_len(s);
        }
        if is_blank(line) {
            nonblank_lines(rest)
        } else {
            seq![line] + nonblank_lines(rest)
        }
    }
}

/// The first line is no longer than the text, holds no line feed, and is
/// followed by one unless the text ends with it.
pub proof fn lemma_first_line_len(s: Seq<char>)
    ensures
        0 <= first_line_len(s) <= s.len(),
        first_line_len(s) < s.len() ==> s[first_line_len(s)] == '\n',
        forall|i: int| 0 <= i < first_line_len(s) ==> s[i] != '\n',
    decreases s.len(),
{
    if s.len() == 0 || s[0] == '\n' {
    } else {
        lemma_first_line_len(s.skip(1));
        let n = first_line_len(s.skip(1));
        assert forall|i: int| 0 <= i < first_line_len(s) implies s[i] != '\n' by {
            if i > 0 {
                assert(s.skip(1)[i - 1] == s[i]);
            }
        }
        if first_line_len(s) < s.len() {
            assert(s.skip(1)[n] == s[n + 1]);
        }
    }
}

/// A run of characters without a line feed, ended by a line feed or by the
/// end of the text, is the first line.
pub proof fn lemma_first_line_found(s: Seq<char>, n: int)
    requires
        0 <= n <= s.len(),
        forall|i: int| 0 <= i < n ==> s[i] != '\n',
        n < s.len() ==> s[n] == '\n',
    ensures
        first_line_len(s) == n,
    decreases n,
{
    if n > 0 {
        assert forall|i: int| 0 <= i < n - 1 implies s.skip(1)[i] != '\n' by {
            assert(s.skip(1)[i] == s[i + 1]);
        }
        if n - 1 < s.skip(1).len() {
            assert(s.skip(1)[n - 1] == s[n]);
        }
        lemma_first_line_found(s.skip(1), n - 1);
    }
}

fn is_space_at(cs: &Vec<char>, i: usize) -> (b: bool)
    requires
        i < cs@.len(),
    ensures
        b == is_space(cs@[i as int]),
{
    let u: u32 = cs[i] as u32;
    (0x09 <= u && u <= 0x0d) || u == 0x20 || u == 0x85 || u == 0xa0 || u == 0x1680 || (0x2000 <= u
        && u <= 0x200a) || u == 0x2028 || u == 0x2029 || u == 0x202f || u == 0x205f || u == 0x3000
}

/// Splits a snapshot's text into its lines, leaving out the blank ones.
pub fn lines_of_snapshot(text: &str) -> (lines: Vec<String>)
    ensures
        texts(lines@) == nonblank_lines(text@),
{
    let cs = chars_of(text);
    let n: usize = cs.len();
    let mut lines: Vec<String> = Vec::new();
    let mut pos: usize = 0;
    assert(cs@.skip(0) =~= cs@);
    assert(texts(lines@) + nonblank_lines(cs@) =~= nonblank_lines(cs@));
    while pos < n
        invariant
            pos <= n,
            n == cs@.len(),
            cs@ == text@,
            texts(lines@) + nonblank_lines(cs@.skip(pos as int)) == nonblank_lines(cs@),
        decreases n - pos,
    {
        let ghost rest = cs@.skip(pos as int);
        let mut end: usize = pos;
        while end < n && cs[end] != '\n'
            invariant
                pos <= end <= n,
                n == cs@.len(),
                forall|i: int| pos <= i < end ==> cs@[i] != '\n',
            decreases n - end,
        {
            end += 1;
        }
        proof {
            assert forall|i: int| 0 <= i < end - pos implies rest[i] != '\n' by {
                assert(rest[i] == cs@[pos + i]);
            }
            if end - pos < rest.len() {
                assert(rest[end - pos] == cs@[end as int]);
            }
            lemma_first_line_found(rest, end - pos);
            assert(rest.take(end - pos) =~= cs@.subrange(pos as int, end as int));
        }
        let stop: usize = if end < n && end > pos && cs[end - 1] == '\r' {
            end - 1
        } else {
            end
        };
        let ghost line = cs@.subrange(pos as int, stop as int);
        proof {
            let whole = cs@.subrange(pos as int, end as int);
            if end > pos {
                assert(whole.last() == cs@[end - 1]);
            }
            if end < n {
                assert(without_cr(whole) =~= line);
            }
        }
        let mut blank: bool = true;
        let mut out = String::new();
        let mut i: usize = pos;
        assert(cs@.subrange(pos as int, pos as int) =~= Seq::<char>::empty());
        while i < stop
            invariant
                pos <= i <= stop <= n,
                n == cs@.len(),
                out@ == cs@.subrange(pos as int, i as int),
                blank == is_blank(cs@.subrange(pos as int, i as int)),
            decreases stop - i,
        {
            let ghost before = cs@.subrange(pos as int, i as int);
            let ghost after = cs@.subrange(pos as int, i + 1);
            proof {
                assert(after =~= before.push(cs@[i as int]));
                if is_blank(before) && is_space(cs@[i as int]) {
                    assert forall|k: int| 0 <= k < after.len() implies is_space(
                        #[trigger] after[k],
                    ) by {
                        if k < before.len() {
                            assert(after[k] == before[k]);
                        }
                    }
                }
                if !is_blank(before) {
                    let k = choose|k: int| 0 <= k < before.len() && !is_space(#[trigger] before[k]);
                    assert(after[k] == before[k]);
                }
                if !is_space(cs@[i as int]) {
                    assert(after[i - pos] == cs@[i as int]);
                }
            }
            if !is_space_at(&cs, i) {
                blank = false;
            }
            out.push(cs[i]);
            i += 1;
        }
        let ghost held = lines@;
        let next: usize = if end < n {
            end + 1
        } else {
            end
        };
        proof {
            if end < n {
                assert(rest.skip(end - pos + 1) =~= cs@.skip(next as int));
            } else {
                assert(cs@.skip(next as int) =~= Seq::<char>::empty());
            }
        }
        if !blank {
            lines.push(out);
            proof {
                assert(texts(held.push(out)) =~= texts(held).push(line));
                assert(texts(lines@) + nonblank_lines(cs@.skip(next as int)) =~= texts(held) + (
                seq![line] + nonblank_lines(cs@.skip(next as int))));
            }
        }
        pos = next;
    }
    proof {
        assert(cs@.skip(pos as int) =~= Seq::<char>::empty());
        assert(texts(lines@) + nonblank_lines(cs@.skip(pos as int)) =~= texts(lines@));
    }
    lines
}

/// Joins lines into one text, each followed by a line feed.
pub fn join_lines(lines: &Vec<String>) -> (text: String)
    ensures
        text@ == joined_lines(texts(lines@)),
{
    let mut text = String::new();
    let ghost all = texts(lines@);
    let mut i: usize = 0;
    assert(all.take(0) =~= Seq::<Seq<char>>::empty());
    while i < lines.len()
        invariant
            i <= lines@.len(),
            all == texts(lines@),
            text@ == joined_lines(all.take(i as int)),
        decreases lines@.len() - i,
    {
        proof {
            assert(all.take(i + 1).drop_last() =~= all.take(i as int));
            assert(all.take(i + 1).last() == lines@[i as int]@);
        }
        text.append(lines[i].as_str());
        text.push('\n');
        i += 1;
    }
    assert(all.take(i as int) =~= all);
    text
}

/// What the bytes of a snapshot file are for the lines `lines`.
pub open spec fn snapshot_bytes_of(lines: Seq<Seq<char>>) -> Option<Seq<u8>> {
    zstd_compressed(encode_utf8(joined_lines(lines)), SNAPSHOT_LEVEL)
}

/// What the lines of a snapshot file with the bytes `data` are: `None`
/// where the file is not in the compressed format or does not hold text.
pub open spec fn snapshot_lines_of(data: Seq<u8>) -> Option<Seq<Seq<char>>> {
    match zstd_decompressed(data) {
        Some(raw) => if valid_utf8(raw) {
            Some(nonblank_lines(decode_utf8(raw)))
        } else {
            None
        },
        None => None,
    }
}

/// Makes the bytes of a snapshot file: the lines, each followed by a line
/// feed, compressed. `None` where the compressor fails.
pub fn encode_snapshot(lines: &Vec<String>) -> (out: Option<Vec<u8>>)
    ensures
        opt_bytes(out) == snapshot_bytes_of(texts(lines@)),
{
    let text = join_lines(lines);
    compress(text.as_str().as_bytes(), SNAPSHOT_LEVEL)
}

/// Reads the lines of a snapshot file, leaving out the blank ones. `None`
/// where the file is not in the compressed format or does not hold text.
pub fn decode_snapshot(data: &[u8]) -> (out: Option<Vec<String>>)
    ensures
        match out {
            Some(lines) => snapshot_lines_of(data@) == Some(texts(lines@)),
            None => snapshot_lines_of(data@) is None,
        },
{
    let raw = match decompress(data) {
        Some(raw) => raw,
        None => {
            return None;
        },
    };
    let ghost bytes = raw@;
    let text = match text_from_utf8(raw) {
        Some(text) => text,
        None => {
            return None;
        },
    };
    proof {
        vstd::utf8::encode_utf8_decode_utf8(text@);
    }
    Some(lines_of_snapshot(text.as_str()))
}

/// What a restore reports.
#[derive(Debug, Clone, Copy, PartialEq, Eq, Structural)]
pub struct RestoreReport {
    /// The greatest commit sequence number among the versions restored;
    /// zero where there are none.
    pub last_seq: u64,
    /// The number of versions restored.
    pub objects: usize,
    /// Whether every record taken from the log passed its checksum. Records
    /// that do not are never taken, so this holds.
    pub crc_ok: bool,
    /// Whether the restored state is consistent with its indexes.
    pub index_consistent: bool,
}

/// The versions after one record of the log was applied: a put adds its
/// version, a delete removes every version of its object, anything else
/// leaves them as they are.
pub open spec fn restore_step(objs: Seq<ObjectView>, r: RecBodyView) -> Seq<ObjectView> {
    match r {
        RecBodyView::Put { ns, obj } => objs.push(obj),
        RecBodyView::Delete { ns, id } => objs.filter(|o: ObjectView| !(o.ns == ns && o.id == id)),
        _ => objs,
    }
}

/// The versions after the records of the log were applied in order.
pub open spec fn restored(objs: Seq<ObjectView>, tail: Seq<RecBodyView>) -> Seq<ObjectView>
    decreases tail.len(),
{
    if tail.len() == 0 {
        objs
    } else {
        restore_step(restored(objs, tail.drop_last()), tail.last())
    }
}

/// The greatest commit sequence number among the versions; zero where
/// there are none.
pub open spec fn greatest_seq(objs: Seq<ObjectView>) -> u64
    decreases objs.len(),
{
    if objs.len() == 0 {
        0
    } else if objs.last().commit_seq > greatest_seq(objs.drop_last()) {
        objs.last().commit_seq
    } else {
        greatest_seq(objs.drop_last())
    }
}

/// The views of a list of record bodies.
pub open spec fn body_views(v: Seq<RecBody>) -> Seq<RecBodyView> {
    v.map_values(|b: RecBody| b@)
}

/// Removes every version of the object `id` of `ns`.
fn without_object(objs: Vec<Object>, ns: &str, id: &str) -> (out: Vec<Object>)
    ensures
        object_views(out@) == object_views(objs@).filter(
            |o: ObjectView| !(o.ns == ns@ && o.id == id@),
        ),
{
    let ghost all = object_views(objs@);
    let ghost keep = |o: ObjectView| !(o.ns == ns@ && o.id == id@);
    let mut out: Vec<Object> = Vec::new();
    proof {
        reveal(Seq::filter);
        assert(all.take(0).filter(keep) =~= object_views(out@));
    }
    for o in it: objs
        invariant
            all == object_views(it.seq()),
            keep == |o: ObjectView| !(o.ns == ns@ && o.id == id@),
            object_views(out@) == all.take(it.index() as int).filter(keep),
    {
        let ghost k = it.index() as int;
        let ghost before = out@;
        proof {
            reveal(Seq::filter);
            assert(all.take(k + 1).drop_last() =~= all.take(k));
            assert(all.take(k + 1).last() == o@);
        }
        if !(o.ns.as_str().eq(ns) && o.id.as_str().eq(id)) {
            out.push(o);
            proof {
                assert(object_views(before.push(o)) =~= object_views(before).push(o@));
            }
        }
    }
    assert(all.take(all.len() as int) =~= all);
    out
}

/// The greatest commit sequence number among the versions.
fn greatest_commit_seq(objs: &Vec<Object>) -> (seq: u64)
    ensures
        seq == greatest_seq(object_views(objs@)),
{
    let ghost all = object_views(objs@);
    let mut seq: u64 = 0;
    let mut i: usize = 0;
    assert(all.take(0) =~= Seq::<ObjectView>::empty());
    while i < objs.len()
        invariant
            i <= objs@.len(),
            all == object_views(objs@),
            seq == greatest_seq(all.take(i as int)),
        decreases objs@.len() - i,
    {
        proof {
            assert(all.take(i + 1).drop_last() =~= all.take(i as int));
            assert(all.take(i + 1).last() == objs@[i as int]@);
        }
        if objs[i].commit_seq > seq {
            seq = objs[i].commit_seq;
        }
        i += 1;
    }
    assert(all.take(i as int) =~= all);
    seq
}

/// Restores the versions of a store from the versions of a snapshot and
/// the records of the log written after it, and reports on them.
pub fn restore(seed: Vec<Object>, tail: Vec<RecBody>) -> (out: (Vec<Object>, RestoreReport))
    ensures
        object_views(out.0@) == restored(object_views(seed@), body_views(tail@)),
        out.1 == (RestoreReport {
            last_seq: greatest_seq(object_views(out.0@)),
            objects: out.0@.len() as usize,
            crc_ok: true,
            index_consistent: true,
        }),
{
    let ghost start = object_views(seed@);
    let ghost all = body_views(tail@);
    let mut objs = seed;
    assert(all.take(0) =~= Seq::<RecBodyView>::empty());
    for r in it: tail
        invariant
            all == body_views(it.seq()),
            object_views(objs@) == restored(start, all.take(it.index() as int)),
    {
        proof {
            let k = it.index() as int;
            assert(all.take(k + 1).drop_last() =~= all.take(k));
            assert(all.take(k + 1).last() == r@);
        }
        match r {
            RecBody::Put { ns, obj } => {
                let ghost before = objs@;
                objs.push(obj);
                proof {
                    assert(object_views(before.push(obj)) =~= object_views(before).push(obj@));
                }
            },
            RecBody::Delete { ns, id } => {
                objs = without_object(objs, ns.as_str(), id.as_str());
            },
            _ => {},
        }
    }
    assert(all.take(all.len() as int) =~= all);
    let report = RestoreReport {
        last_seq: greatest_commit_seq(&objs),
        objects: objs.len(),
        crc_ok: true,
        index_consistent: true,
    };
    (objs, report)
}

/// A snapshot alone restores to itself: with no log written after it, the
/// versions restored are exactly the versions it holds.
pub proof fn lemma_restore_of_snapshot_alone(objs: Seq<ObjectView>)
    ensures
        restored(objs, Seq::empty()) == objs,
{
}

} // verus!
