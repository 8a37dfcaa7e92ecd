//! The manifest of the write-ahead log: which segments exist, up to which
//! sequence number each reaches, and which snapshot is current.
//!
//! Segments are named by an eight-digit number and the suffix `.wal`; each
//! new segment takes the number after the last one's.

use vstd::prelude::*;
use vstd::string::*;
use crate::errors::StateError;
use crate::util::{chars_of, copy_opt_text};

verus! {

/// Whether `c` is a decimal digit.
pub open spec fn is_digit(c: char) -> bool {
    c == '0' || c == '1' || c == '2' || c == '3' || c == '4' || c == '5' || c == '6' || c == '7'
        || c == '8' || c == '9'
}

/// The value of the decimal digit `c`.
pub open spec fn digit_value(c: char) -> nat {
    if c == '1' {
        1
    } else if c == '2' {
        2
    } else if c == '3' {
        3
    } else if c == '4' {
        4
    } else if c == '5' {
        5
    } else if c == '6' {
        6
    } else if c == '7' {
        7
    } else if c == '8' {
        8
    } else if c == '9' {
        9
    } else {
        0
    }
}

/// The decimal digit for `d`, which is below ten.
pub open spec fn digit_char(d: nat) -> char {
    if d == 1 {
        '1'
    } else if d == 2 {
        '2'
    } else if d == 3 {
        '3'
    } else if d == 4 {
        '4'
    } else if d == 5 {
        '5'
    } else if d == 6 {
        '6'
    } else if d == 7 {
        '7'
    } else if d == 8 {
        '8'
    } else if d == 9 {
        '9'
    } else {
        '0'
    }
}

/// Whether `s` holds decimal digits only.
pub open spec fn all_digits(s: Seq<char>) -> bool {
    forall|i: int| 0 <= i < s.len() ==> is_digit(#[trigger] s[i])
}

/// The number that the decimal digits `s` write.
pub open spec fn digits_value(s: Seq<char>) -> nat
    decreases s.len(),
{
    if s.len() == 0 {
        0
    } else {
        digits_value(s.drop_last()) * 10 + digit_value(s.last())
    }
}

/// The number that `s` writes in decimal, if it writes one that fits 64
/// bits: digits only, at least one, behind at most one plus sign.
pub open spec fn parse_decimal(s: Seq<char>) -> Option<u64> {
    let t = if s.len() > 0 && s[0] == '+' {
        s.skip(1)
    } else {
        s
    };
    if t.len() > 0 && all_digits(t) && digits_value(t) <= u64::MAX {
        Some(digits_value(t) as u64)
    } else {
        None
    }
}

/// `n` in decimal, without leading zeros.
pub open spec fn decimal_text(n: nat) -> Seq<char>
    decreases n,
{
    if n < 10 {
        seq![digit_char(n)]
    } else {
        decimal_text(n / 10).push(digit_char(n % 10))
    }
}

/// `n` in decimal, with zeros in front up to `width` characters.
pub open spec fn zero_padded(n: nat, width: nat) -> Seq<char> {
    let text = decimal_text(n);
    if text.len() >= width {
        text
    } else {
        Seq::new((width - text.len()) as nat, |i: int| '0') + text
    }
}

/// The suffix of segment names.
pub open spec fn wal_suffix() -> Seq<char> {
    seq!['.', 'w', 'a', 'l']
}

/// `s` without the suffixes `.wal` it ends with, however many.
pub open spec fn without_wal_suffix(s: Seq<char>) -> Seq<char>
    decreases s.len(),
{
    if s.len() >= 4 && s.subrange(s.len() - 4, s.len() as int) == wal_suffix() {
        without_wal_suffix(s.take(s.len() - 4))
    } else {
        s
    }
}

/// The name of the segment with the number `n`.
pub open spec fn segment_name_of(n: u64) -> Seq<char> {
    zero_padded(n as nat, 8) + wal_suffix()
}

/// The number in the segment name `name`, if it has one.
pub open spec fn segment_number(name: Seq<char>) -> Option<u64> {
    parse_decimal(without_wal_suffix(name))
}

/// The name of the segment that follows the one named `prev`: the number
/// after its number. The first name, with the number one, where there is no
/// segment before or its name has no number that can be raised.
pub open spec fn next_segment_name(prev: Option<Seq<char>>) -> Seq<char> {
    match prev {
        Some(name) => match segment_number(name) {
            Some(n) => if n < u64::MAX {
                segment_name_of((n + 1) as u64)
            } else {
                segment_name_of(1)
            },
            None => segment_name_of(1),
        },
        None => segment_name_of(1),
    }
}

/// The digits written so far never write more than all of them.
proof fn lemma_digits_value_grows(s: Seq<char>, k: int)
    requires
        0 <= k <= s.len(),
    ensures
        digits_value(s.take(k)) <= digits_value(s),
    decreases s.len() - k,
{
    if k == s.len() {
        assert(s.take(k) =~= s);
    } else {
        lemma_digits_value_grows(s, k + 1);
        assert(s.take(k + 1).drop_last() =~= s.take(k));
    }
}

fn digit_of(c: char) -> (d: Option<u8>)
    ensures
        match d {
            Some(v) => is_digit(c) && v == digit_value(c) && v < 10,
            None => !is_digit(c),
        },
{
    if c == '0' {
        Some(0)
    } else if c == '1' {
        Some(1)
    } else if c == '2' {
        Some(2)
    } else if c == '3' {
        Some(3)
    } else if c == '4' {
        Some(4)
    } else if c == '5' {
        Some(5)
    } else if c == '6' {
        Some(6)
    } else if c == '7' {
        Some(7)
    } else if c == '8' {
        Some(8)
    } else if c == '9' {
        Some(9)
    } else {
        None
    }
}

fn char_of_digit(d: u8) -> (c: char)
    requires
        d < 10,
    ensures
        c == digit_char(d as nat),
{
    if d == 1 {
        '1'
    } else if d == 2 {
        '2'
    } else if d == 3 {
        '3'
    } else if d == 4 {
        '4'
    } else if d == 5 {
        '5'
    } else if d == 6 {
        '6'
    } else if d == 7 {
        '7'
    } else if d == 8 {
        '8'
    } else if d == 9 {
        '9'
    } else {
        '0'
    }
}

/// Reads the number in a segment name.
pub fn parse_segment_number(name: &str) -> (n: Option<u64>)
    ensures
        n == segment_number(name@),
{
    let cs = chars_of(name);
    let mut end: usize = cs.len();
    assert(cs@.take(end as int) =~= cs@);
    while end >= 4 && cs[end - 4] == '.' && cs[end - 3] == 'w' && cs[end - 2] == 'a' && cs[end - 1]
        == 'l'
        invariant
            end <= cs@.len(),
            without_wal_suffix(cs@) == without_wal_suffix(cs@.take(end as int)),
        decreases end,
    {
        proof {
            let s = cs@.take(end as int);
            assert(s.subrange(s.len() - 4, s.len() as int) =~= wal_suffix());
            assert(s.take(s.len() - 4) =~= cs@.take(end - 4));
        }
        end -= 4;
    }
    let ghost stem = cs@.take(end as int);
    proof {
        if end >= 4 {
            let tail = stem.subrange(stem.len() - 4, stem.len() as int);
            assert(tail[0] == cs@[end - 4] && tail[1] == cs@[end - 3] && tail[2] == cs@[end - 2]
                && tail[3] == cs@[end - 1]);
            assert(wal_suffix()[0] == '.' && wal_suffix()[1] == 'w' && wal_suffix()[2] == 'a'
                && wal_suffix()[3] == 'l');
        }
        assert(without_wal_suffix(stem) == stem);
    }
    let start: usize = if end > 0 && cs[0] == '+' {
        1
    } else {
        0
    };
    let ghost t = stem.skip(start as int);
    assert(stem.len() > 0 ==> stem[0] == cs@[0]);
    assert(stem.skip(0) =~= stem);
    if start == end {
        return None;
    }
    let mut value: u64 = 0;
    let mut i: usize = start;
    assert(t.take(0) =~= Seq::<char>::empty());
    while i < end
        invariant
            start <= i <= end <= cs@.len(),
            start < end,
            stem == cs@.take(end as int),
            t == stem.skip(start as int),
            start == 0 ==> t == stem,
            segment_number(name@) == parse_decimal(stem),
            start == if stem.len() > 0 && stem[0] == '+' {
                1int
            } else {
                0int
            },
            all_digits(t.take(i - start)),
            value == digits_value(t.take(i - start)),
        decreases end - i,
    {
        proof {
            assert(t.take(i - start + 1).drop_last() =~= t.take(i - start));
            assert(t.take(i - start + 1).last() == cs@[i as int]);
            lemma_digits_value_grows(t, i - start + 1);
        }
        let d: u8 = match digit_of(cs[i]) {
            Some(d) => d,
            None => {
                assert(!is_digit(t[i - start]));
                return None;
            },
        };
        if value > (u64::MAX - d as u64) / 10 {
            proof {
                let grown = t.take(i - start + 1);
                assert(digit_value(grown.last()) == d);
                assert(digits_value(grown) == value * 10 + d);
                assert(value * 10 + d > u64::MAX);
            }
            return None;
        }
        value = value * 10 + d as u64;
        proof {
            let grown = t.take(i - start + 1);
            assert forall|j: int| 0 <= j < grown.len() implies is_digit(#[trigger] grown[j]) by {
                if j < i - start {
                    assert(grown[j] == t.take(i - start)[j]);
                }
            }
        }
        i += 1;
    }
    assert(t.take(i - start) =~= t);
    Some(value)
}

/// Appends `n` in decimal, without leading zeros, to `out`.
fn push_decimal(out: &mut String, n: u64)
    ensures
        final(out)@ == old(out)@ + decimal_text(n as nat),
    decreases n,
{
    if n >= 10 {
        push_decimal(out, n / 10);
    }
    out.push(char_of_digit((n % 10) as u8));
    proof {
        if n >= 10 {
            assert(out@ =~= old(out)@ + decimal_text(n as nat));
        } else {
            assert(out@ =~= old(out)@ + decimal_text(n as nat));
        }
    }
}

/// The number of digits `n` has in decimal.
fn decimal_width(n: u64) -> (w: usize)
    ensures
        w == decimal_text(n as nat).len(),
        1 <= w <= 20,
    decreases n,
{
    if n >= 10 {
        let rest = decimal_width(n / 10);
        proof {
            lemma_width_bound(n);
        }
        rest + 1
    } else {
        1
    }
}

/// A 64-bit number has at most twenty decimal digits.
proof fn lemma_width_bound(n: u64)
    ensures
        decimal_text(n as nat).len() <= 20,
{
    reveal_with_fuel(decimal_text, 22);
}

/// The name of the segment with the number `n`.
pub fn segment_name(n: u64) -> (name: String)
    ensures
        name@ == segment_name_of(n),
{
    let mut name = String::new();
    let w: usize = decimal_width(n);
    let mut i: usize = w;
    while i < 8
        invariant
            w <= i,
            w < 8 ==> i <= 8,
            w >= 8 ==> i == w,
            name@ == Seq::new((i - w) as nat, |k: int| '0'),
        decreases 8 - i,
    {
        name.push('0');
        assert(name@ =~= Seq::new((i + 1 - w) as nat, |k: int| '0'));
        i += 1;
    }
    let ghost zeros = name@;
    push_decimal(&mut name, n);
    proof {
        assert(name@ == zeros + decimal_text(n as nat));
        if w >= 8 {
            assert(zeros =~= Seq::<char>::empty());
            assert(name@ =~= zero_padded(n as nat, 8));
        }
    }
    name.push('.');
    name.push('w');
    name.push('a');
    name.push('l');
    assert(name@ =~= segment_name_of(n));
    name
}

/// What the manifest records of one segment.
#[derive(Debug)]
pub struct WalSegmentMeta {
    /// The segment's file name.
    pub name: String,
    /// The greatest sequence number known to be in the segment.
    pub max_seq: u64,
}

/// A segment record, as plain mathematical values.
pub struct SegmentView {
    pub name: Seq<char>,
    pub max_seq: u64,
}

impl View for WalSegmentMeta {
    type V = SegmentView;

    open spec fn view(&self) -> SegmentView {
        SegmentView { name: self.name@, max_seq: self.max_seq }
    }
}

impl Clone for WalSegmentMeta {
    fn clone(&self) -> (out: Self)
        ensures
            out@ == self@,
    {
        WalSegmentMeta { name: self.name.clone(), max_seq: self.max_seq }
    }
}

impl Default for WalSegmentMeta {
    fn default() -> (out: Self)
        ensures
            out@ == (SegmentView { name: Seq::empty(), max_seq: 0 }),
    {
        WalSegmentMeta { name: String::new(), max_seq: 0 }
    }
}

/// The views of a list of segment records.
pub open spec fn segment_views(v: Seq<WalSegmentMeta>) -> Seq<SegmentView> {
    v.map_values(|m: WalSegmentMeta| m@)
}

/// The durable state of the log.
#[derive(Debug)]
pub struct Manifest {
    /// The version of the manifest's layout.
    pub version: u32,
    /// The file name of the current snapshot.
    pub current_snapshot: Option<String>,
    /// The last sequence number the current snapshot covers.
    pub snapshot_bookmark: Option<u64>,
    /// The greatest sequence number made durable.
    pub last_seq: u64,
    /// The name of the segment being written.
    pub current_segment: String,
    /// The segments, oldest first.
    pub segments: Vec<WalSegmentMeta>,
}

/// A manifest, as plain mathematical values.
pub struct ManifestView {
    pub version: u32,
    pub current_snapshot: Option<Seq<char>>,
    pub snapshot_bookmark: Option<u64>,
    pub last_seq: u64,
    pub current_segment: Seq<char>,
    pub segments: Seq<SegmentView>,
}

impl View for Manifest {
    type V = ManifestView;

    open spec fn view(&self) -> ManifestView {
        ManifestView {
            version: self.version,
            current_snapshot: match self.current_snapshot {
                Some(name) => Some(name@),
                None => None,
            },
            snapshot_bookmark: self.snapshot_bookmark,
            last_seq: self.last_seq,
            current_segment: self.current_segment@,
            segments: segment_views(self.segments@),
        }
    }
}

/// The greater of two sequence numbers.
pub open spec fn max_seq_of(a: u64, b: u64) -> u64 {
    if a >= b {
        a
    } else {
        b
    }
}

/// Whether the `i`-th segment lies wholly before the sequence number
/// `cutoff`.
pub open spec fn is_before(segs: Seq<SegmentView>, cutoff: u64, i: int) -> bool {
    0 <= i < segs.len() && segs[i].max_seq < cutoff
}

/// Whether trimming up to `cutoff` drops the `i`-th segment: it lies
/// before the cutoff and so does a later one. The last segment before the
/// cutoff is kept as a margin.
pub open spec fn is_dropped(segs: Seq<SegmentView>, cutoff: u64, i: int) -> bool {
    is_before(segs, cutoff, i) && exists|j: int| i < j && #[trigger] is_before(segs, cutoff, j)
}

/// Of the first `n` segments, those that trimming up to `cutoff` keeps,
/// in order.
pub open spec fn kept_segments(segs: Seq<SegmentView>, cutoff: u64, n: int) -> Seq<SegmentView>
    decreases n,
{
    if n <= 0 {
        Seq::empty()
    } else if is_dropped(segs, cutoff, n - 1) {
        kept_segments(segs, cutoff, n - 1)
    } else {
        kept_segments(segs, cutoff, n - 1).push(segs[n - 1])
    }
}

/// Of the first `n` segments, the names of those that trimming up to
/// `cutoff` drops, in order.
pub open spec fn dropped_names(segs: Seq<SegmentView>, cutoff: u64, n: int) -> Seq<Seq<char>>
    decreases n,
{
    if n <= 0 {
        Seq::empty()
    } else if is_dropped(segs, cutoff, n - 1) {
        dropped_names(segs, cutoff, n - 1).push(segs[n - 1].name)
    } else {
        dropped_names(segs, cutoff, n - 1)
    }
}

impl ManifestView {
    /// The manifest of a log that was never written.
    pub open spec fn fresh() -> ManifestView {
        ManifestView {
            version: 1,
            current_snapshot: None,
            snapshot_bookmark: None,
            last_seq: 0,
            current_segment: Seq::empty(),
            segments: Seq::empty(),
        }
    }

    /// The name of the segment to write when the log is opened: the current
    /// one, or else the one after the last.
    pub open spec fn segment_to_open(self) -> Seq<char> {
        if self.current_segment.len() == 0 {
            next_segment_name(
                if self.segments.len() > 0 {
                    Some(self.segments.last().name)
                } else {
                    None
                },
            )
        } else {
            self.current_segment
        }
    }

    /// The manifest after the log was opened.
    pub open spec fn opened(self) -> ManifestView {
        ManifestView {
            current_segment: self.segment_to_open(),
            segments: if self.segments.len() == 0 {
                seq![SegmentView { name: self.segment_to_open(), max_seq: 0 }]
            } else {
                self.segments
            },
            ..self
        }
    }

    /// The manifest after a batch was made durable whose greatest sequence
    /// number is `seq`.
    pub open spec fn committed(self, seq: u64) -> ManifestView {
        ManifestView {
            last_seq: max_seq_of(self.last_seq, seq),
            segments: if self.segments.len() > 0 {
                self.segments.update(
                    self.segments.len() - 1,
                    SegmentView {
                        max_seq: max_seq_of(self.segments.last().max_seq, seq),
                        ..self.segments.last()
                    },
                )
            } else {
                self.segments
            },
            ..self
        }
    }

    /// The name of the segment that a rotation starts.
    pub open spec fn segment_to_rotate_to(self) -> Seq<char> {
        next_segment_name(
            if self.segments.len() > 0 {
                Some(self.segments.last().name)
            } else {
                None
            },
        )
    }

    /// The manifest after the log was rotated: a new segment, named after
    /// the last, starts at the last durable sequence number.
    pub open spec fn rotated(self) -> ManifestView {
        ManifestView {
            current_segment: self.segment_to_rotate_to(),
            segments: self.segments.push(
                SegmentView { name: self.segment_to_rotate_to(), max_seq: self.last_seq },
            ),
            ..self
        }
    }

    /// The manifest after the snapshot in the file `name` was taken: it
    /// covers everything up to the last durable sequence number.
    pub open spec fn snapshotted(self, name: Seq<char>) -> ManifestView {
        ManifestView {
            current_snapshot: Some(name),
            snapshot_bookmark: Some(self.last_seq),
            ..self
        }
    }

    /// The sequence number up to which the current snapshot allows
    /// trimming.
    pub open spec fn cutoff(self) -> u64 {
        match self.snapshot_bookmark {
            Some(seq) => seq,
            None => 0,
        }
    }

    /// The manifest after the log was trimmed up to the current snapshot.
    pub open spec fn trimmed(self) -> ManifestView {
        ManifestView {
            segments: kept_segments(self.segments, self.cutoff(), self.segments.len() as int),
            ..self
        }
    }
}

/// The name of the segment that follows `prev`.
pub fn new_segment_name(prev: Option<&WalSegmentMeta>) -> (name: String)
    ensures
        name@ == next_segment_name(
            match prev {
                Some(p) => Some(p@.name),
                None => None,
            },
        ),
{
    match prev {
        Some(p) => match parse_segment_number(p.name.as_str()) {
            Some(n) => {
                if n < u64::MAX {
                    segment_name(n + 1)
                } else {
                    segment_name(1)
                }
            },
            None => segment_name(1),
        },
        None => segment_name(1),
    }
}

impl Clone for Manifest {
    fn clone(&self) -> (out: Self)
        ensures
            out@ == self@,
    {
        let mut segments: Vec<WalSegmentMeta> = Vec::new();
        let mut i: usize = 0;
        while i < self.segments.len()
            invariant
                i <= self.segments@.len(),
                segments@.len() == i,
                forall|j: int| 0 <= j < i ==> (#[trigger] segments@[j])@ == self.segments@[j]@,
            decreases self.segments@.len() - i,
        {
            segments.push(self.segments[i].clone());
            i += 1;
        }
        assert(segment_views(segments@) =~= segment_views(self.segments@));
        Manifest {
            version: self.version,
            current_snapshot: copy_opt_text(&self.current_snapshot),
            snapshot_bookmark: self.snapshot_bookmark,
            last_seq: self.last_seq,
            current_segment: self.current_segment.clone(),
            segments,
        }
    }
}

impl Default for Manifest {
    /// The manifest that stands in for one that cannot be read: all zero
    /// and empty.
    fn default() -> (out: Self)
        ensures
            out@ == (ManifestView { version: 0, ..ManifestView::fresh() }),
    {
        let out = Manifest {
            version: 0,
            current_snapshot: None,
            snapshot_bookmark: None,
            last_seq: 0,
            current_segment: String::new(),
            segments: Vec::new(),
        };
        assert(out@.segments =~= Seq::empty());
        out
    }
}

impl Manifest {
    /// The manifest of a log that was never written.
    pub fn fresh() -> (out: Manifest)
        ensures
            out@ == ManifestView::fresh(),
    {
        let out = Manifest {
            version: 1,
            current_snapshot: None,
            snapshot_bookmark: None,
            last_seq: 0,
            current_segment: String::new(),
            segments: Vec::new(),
        };
        assert(out@.segments =~= Seq::empty());
        out
    }

    fn last_segment(&self) -> (last: Option<&WalSegmentMeta>)
        ensures
            match last {
                Some(m) => self@.segments.len() > 0 && m@ == self@.segments.last(),
                None => self@.segments.len() == 0,
            },
    {
        if self.segments.len() > 0 {
            Some(&self.segments[self.segments.len() - 1])
        } else {
            None
        }
    }

    /// Settles which segment the log is written to when it is opened, and
    /// names it: the current segment, or else a new one after the last. A
    /// manifest without segments gets its first.
    pub fn open_segment(&mut self) -> (name: String)
        ensures
            name@ == old(self)@.segment_to_open(),
            final(self)@ == old(self)@.opened(),
    {
        let name = if self.current_segment.as_str().is_empty() {
            new_segment_name(self.last_segment())
        } else {
            self.current_segment.clone()
        };
        if self.segments.len() == 0 {
            self.segments.push(WalSegmentMeta { name: name.clone(), max_seq: 0 });
            assert(self@.segments =~= old(self)@.opened().segments);
        }
        self.current_segment = name.clone();
        name
    }

    /// Records that a batch was made durable whose greatest sequence number
    /// is `seq`: the last durable sequence number and the reach of the last
    /// segment are raised to it where they are lower.
    pub fn commit_batch(&mut self, seq: u64)
        ensures
            final(self)@ == old(self)@.committed(seq),
    {
        if self.last_seq < seq {
            self.last_seq = seq;
        }
        let n: usize = self.segments.len();
        if n > 0 {
            if self.segments[n - 1].max_seq < seq {
                self.segments[n - 1].max_seq = seq;
            }
            assert(self@.segments =~= old(self)@.committed(seq).segments);
        }
    }

    /// Starts a new segment after the last and names it.
    pub fn rotate(&mut self) -> (name: String)
        ensures
            name@ == old(self)@.segment_to_rotate_to(),
            final(self)@ == old(self)@.rotated(),
    {
        let name = new_segment_name(self.last_segment());
        self.current_segment = name.clone();
        let ghost before = self.segments@;
        let meta = WalSegmentMeta { name: name.clone(), max_seq: self.last_seq };
        self.segments.push(meta);
        assert(segment_views(before.push(meta)) =~= segment_views(before).push(meta@));
        name
    }

    /// Records that the snapshot in the file `name` is now the current one.
    pub fn note_snapshot(&mut self, name: String)
        ensures
            final(self)@ == old(self)@.snapshotted(name@),
    {
        self.snapshot_bookmark = Some(self.last_seq);
        self.current_snapshot = Some(name);
    }

    /// Trims the log up to the snapshot named `snapshot_id`, which must be
    /// the current one: every segment that lies wholly before the snapshot's
    /// bookmark is dropped from the manifest, except the last of them, which
    /// is kept as a margin. Returns the names of the segments dropped, whose
    /// files may now be deleted.
    ///
    /// Another snapshot id is refused and nothing changes.
    pub fn trim_wal(&mut self, snapshot_id: &str) -> (out: Result<Vec<String>, StateError>)
        ensures
            match out {
                Ok(names) => old(self)@.current_snapshot == Some(snapshot_id@) && final(self)@
                    == old(self)@.trimmed() && crate::util::texts(names@) == dropped_names(
                    old(self)@.segments,
                    old(self)@.cutoff(),
                    old(self)@.segments.len() as int,
                ),
                Err(e) => old(self)@.current_snapshot != Some(snapshot_id@) && final(self)@ == old(
                    self,
                )@ && e.is_invalid("snapshot id mismatch"@),
            },
    {
        let current = match &self.current_snapshot {
            Some(name) => name.as_str().eq(snapshot_id),
            None => false,
        };
        if !current {
            return Err(StateError::invalid("snapshot id mismatch"));
        }
        let cutoff: u64 = match self.snapshot_bookmark {
            Some(seq) => seq,
            None => 0,
        };
        let ghost segs = self@.segments;
        let n: usize = self.segments.len();
        let mut last_before: Option<usize> = None;
        let mut i: usize = 0;
        while i < n
            invariant
                i <= n,
                n == self.segments@.len(),
                segs == segment_views(self.segments@),
                match last_before {
                    Some(b) => b < i && is_before(segs, cutoff, b as int) && forall|j: int|
                        b < j < i ==> !is_before(segs, cutoff, j),
                    None => forall|j: int| 0 <= j < i ==> !is_before(segs, cutoff, j),
                },
            decreases n - i,
        {
            if self.segments[i].max_seq < cutoff {
                last_before = Some(i);
            }
            i += 1;
        }
        let mut deleted: Vec<String> = Vec::new();
        let mut retain: Vec<WalSegmentMeta> = Vec::new();
        let mut k: usize = 0;
        assert(crate::util::texts(deleted@) =~= dropped_names(segs, cutoff, 0));
        assert(segment_views(retain@) =~= kept_segments(segs, cutoff, 0));
        while k < n
            invariant
                k <= n,
                n == self.segments@.len(),
                segs == segment_views(self.segments@),
                match last_before {
                    Some(b) => b < n && is_before(segs, cutoff, b as int) && forall|j: int|
                        b < j < n ==> !is_before(segs, cutoff, j),
                    None => forall|j: int| 0 <= j < n ==> !is_before(segs, cutoff, j),
                },
                crate::util::texts(deleted@) == dropped_names(segs, cutoff, k as int),
                segment_views(retain@) == kept_segments(segs, cutoff, k as int),
            decreases n - k,
        {
            let seg = &self.segments[k];
            assert(seg@ == segs[k as int]);
            let is_last_before = match last_before {
                Some(b) => b == k,
                None => false,
            };
            let ghost before_deleted = deleted@;
            let ghost before_retain = retain@;
            if seg.max_seq < cutoff && !is_last_before {
                proof {
                    let b = last_before->0 as int;
                    assert(is_before(segs, cutoff, k as int));
                    assert(k < b) by {
                        if b < k {
                            assert(!is_before(segs, cutoff, k as int));
                        }
                    }
                    assert(is_dropped(segs, cutoff, k as int));
                }
                let name = seg.name.clone();
                deleted.push(name);
                proof {
                    assert(crate::util::texts(before_deleted.push(name)) =~= crate::util::texts(
                        before_deleted,
                    ).push(name@));
                }
            } else {
                proof {
                    if is_dropped(segs, cutoff, k as int) {
                        let j = choose|j: int| k < j && #[trigger] is_before(segs, cutoff, j);
                        assert(is_last_before);
                        assert(!is_before(segs, cutoff, j));
                    }
                }
                let copy = seg.clone();
                retain.push(copy);
                proof {
                    assert(segment_views(before_retain.push(copy)) =~= segment_views(
                        before_retain,
                    ).push(copy@));
                }
            }
            k += 1;
        }
        self.segments = retain;
        Ok(deleted)
    }
}

/// Trim safety of the manifest: trimming keeps every segment that reaches
/// the snapshot's bookmark or beyond, and the last segment before it, and
/// drops segments only from among those that lie wholly before it.
pub proof fn lemma_trim_keeps_what_follows(segs: Seq<SegmentView>, cutoff: u64, n: int)
    requires
        0 <= n <= segs.len(),
    ensures
        forall|i: int|
            0 <= i < n && !is_dropped(segs, cutoff, i) ==> kept_segments(segs, cutoff, n).contains(
                #[trigger] segs[i],
            ),
        forall|i: int|
            0 <= i < n && segs[i].max_seq >= cutoff ==> kept_segments(segs, cutoff, n).contains(
                #[trigger] segs[i],
            ),
        forall|i: int|
            0 <= i < kept_segments(segs, cutoff, n).len() ==> segs.contains(
                #[trigger] kept_segments(segs, cutoff, n)[i],
            ),
    decreases n,
{
    if n > 0 {
        lemma_trim_keeps_what_follows(segs, cutoff, n - 1);
        let before = kept_segments(segs, cutoff, n - 1);
        let after = kept_segments(segs, cutoff, n);
        assert forall|i: int| 0 <= i < n && !is_dropped(segs, cutoff, i) implies after.contains(
            #[trigger] segs[i],
        ) by {
            if i < n - 1 {
                assert(before.contains(segs[i]));
                let j = choose|j: int| 0 <= j < before.len() && before[j] == segs[i];
                assert(after[j] == segs[i]);
            } else {
                assert(after[after.len() - 1] == segs[i]);
            }
        }
        assert forall|i: int| 0 <= i < after.len() implies segs.contains(#[trigger] after[i]) by {
            if i < before.len() {
                assert(after[i] == before[i]);
            } else {
                assert(after[i] == segs[n - 1]);
            }
        }
    }
}

} // verus!
