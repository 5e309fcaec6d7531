//! Rules of the multi-stream file transfer: how a file is cut into byte
//! ranges, how a receiver tracks which ranges have landed, how one range is
//! copied off a connection, and the pool of reusable buffers.

use vstd::prelude::*;
use vstd::arithmetic::div_mod::lemma_fundamental_div_mod;
use vstd::arithmetic::mul::lemma_mul_inequality;
use vstd::arithmetic::mul::lemma_mul_strict_inequality;
use crate::text::decimal;
use crate::text::push_decimal;
use vstd::string::StringExecFns;
use crate::codec::TransferHeader;

verus! {

/// Bytes per I/O operation when nothing else is configured (1 MiB).
pub const DEFAULT_CHUNK_SIZE: usize = 1048576;

/// Listener port when nothing else is configured.
pub const DEFAULT_PORT: u16 = 7879;

/// Parallel ranges per send when nothing else is configured.
pub const DEFAULT_CONCURRENT_STREAMS: usize = 4;

/// Number of buffers a pool keeps.
pub const BUFFER_POOL_SIZE: usize = 8;

/// `a / b` rounded up, for `b > 0`.
pub open spec fn ceil_div(a: nat, b: nat) -> nat {
    if a % b == 0 {
        a / b
    } else {
        a / b + 1
    }
}

/// Number of chunks of `chunk_size` bytes that cover `file_size` bytes.
pub open spec fn chunk_count(file_size: nat, chunk_size: nat) -> nat {
    ceil_div(file_size, chunk_size)
}

/// Number of chunks each stream carries.
pub open spec fn chunks_per_stream(file_size: nat, chunk_size: nat, streams: nat) -> nat {
    ceil_div(chunk_count(file_size, chunk_size), streams)
}

pub open spec fn min_nat(a: nat, b: nat) -> nat {
    if a <= b {
        a
    } else {
        b
    }
}

/// The byte range `[start, end)` that stream `i` carries.
pub open spec fn planned_range(file_size: nat, chunk_size: nat, streams: nat, i: nat) -> (nat, nat) {
    let cc = chunk_count(file_size, chunk_size);
    let cps = chunks_per_stream(file_size, chunk_size, streams);
    let end_chunk = min_nat((i + 1) * cps, cc);
    (i * cps * chunk_size, min_nat(end_chunk * chunk_size, file_size))
}

/// `r` is the plan of ranges for a file: stream `i` gets
/// `planned_range(.., i)` for as long as its first chunk lies in the file,
/// and at most `streams` streams are used.
pub open spec fn is_range_plan(r: Seq<(u64, u64)>, file_size: nat, chunk_size: nat, streams: nat) -> bool {
    let cc = chunk_count(file_size, chunk_size);
    let cps = chunks_per_stream(file_size, chunk_size, streams);
    &&& r.len() <= streams
    &&& forall|i: int|
        0 <= i < r.len() ==> #[trigger] (i * cps) < cc && (r[i].0 as nat, r[i].1 as nat)
            == planned_range(file_size, chunk_size, streams, i as nat)
    &&& r.len() < streams ==> r.len() * cps >= cc
}

/// `r` cuts `[0, file_size)` into non-empty ranges that follow each other.
pub open spec fn tiles(r: Seq<(u64, u64)>, file_size: nat) -> bool {
    &&& file_size == 0 ==> r.len() == 0
    &&& file_size > 0 ==> {
        &&& r.len() > 0
        &&& r[0].0 == 0
        &&& r.last().1 == file_size
    }
    &&& forall|i: int| 0 <= i < r.len() ==> #[trigger] r[i].0 < r[i].1
    &&& forall|i: int| 0 <= i < r.len() - 1 ==> #[trigger] r[i].1 == r[i + 1].0
}

proof fn lemma_ceil_div_bounds(a: nat, b: nat)
    requires
        b > 0,
    ensures
        ceil_div(a, b) * b >= a,
        a > 0 ==> ceil_div(a, b) >= 1 && (ceil_div(a, b) - 1) * b < a,
        a == 0 ==> ceil_div(a, b) == 0,
{
    lemma_fundamental_div_mod(a as int, b as int);
    let q = a / b;
    assert(a == b * q + a % b);
    assert(q * b == b * q) by (nonlinear_arith);
    if a % b != 0 {
        assert((q + 1) * b == q * b + b) by (nonlinear_arith);
    } else if a > 0 {
        assert(q > 0) by (nonlinear_arith)
            requires
                a == b * q,
                a > 0,
                b > 0,
        ;
        assert((q - 1) * b == q * b - b) by (nonlinear_arith);
    } else {
        assert(q == 0) by (nonlinear_arith)
            requires
                0 == b * q,
                b > 0,
        ;
    }
}

/// A quotient that leaves a remainder is below the dividend.
proof fn lemma_quotient_room(a: nat, b: nat)
    requires
        b > 0,
    ensures
        a % b != 0 ==> a / b < a,
{
    lemma_fundamental_div_mod(a as int, b as int);
    let q = a / b;
    assert(q <= b * q) by (nonlinear_arith)
        requires
            b >= 1,
            q >= 0,
    ;
}

/// The range plan of any file cuts it into non-empty ranges that follow
/// each other from its first byte to its last, whatever the number of
/// streams.
pub proof fn lemma_plan_tiles(r: Seq<(u64, u64)>, file_size: nat, chunk_size: nat, streams: nat)
    requires
        chunk_size > 0,
        streams > 0,
        is_range_plan(r, file_size, chunk_size, streams),
    ensures
        tiles(r, file_size),
{
    let cc = chunk_count(file_size, chunk_size);
    let cps = chunks_per_stream(file_size, chunk_size, streams);
    lemma_ceil_div_bounds(file_size, chunk_size);
    lemma_ceil_div_bounds(cc, streams);
    assert(cps * streams == streams * cps) by (nonlinear_arith);
    if file_size == 0 {
        if r.len() > 0 {
            assert(0 * cps < cc);
        }
    } else {
        if r.len() == 0 {
            assert(0 * cps == 0);
        }
        assert(r[0].0 == 0) by {
            assert(0 * cps < cc);
            assert(0 * cps * chunk_size == 0);
        }
        let l = r.len() - 1;
        assert(l * cps < cc);
        assert((l + 1) * cps >= cc) by {
            if r.len() < streams {
            } else {
                assert(r.len() == streams);
            }
        }
        assert(cc * chunk_size >= file_size);
        assert(r.last().1 == file_size);
    }
    assert forall|i: int| 0 <= i < r.len() implies #[trigger] r[i].0 < r[i].1 by {
        assert(i * cps < cc);
        assert(i * cps >= 0) by (nonlinear_arith)
            requires
                i >= 0,
                cps >= 0,
        ;
        assert(cps > 0);
        let end_chunk = min_nat(((i + 1) * cps) as nat, cc);
        assert((i + 1) * cps == i * cps + cps) by (nonlinear_arith);
        assert(end_chunk > i * cps);
        lemma_mul_strict_inequality(i * cps, end_chunk as int, chunk_size as int);
        assert(i * cps <= cc - 1);
        lemma_mul_inequality(i * cps, cc - 1, chunk_size as int);
    }
    assert forall|i: int| 0 <= i < r.len() - 1 implies #[trigger] r[i].1 == r[i + 1].0 by {
        assert((i + 1) * cps < cc);
        assert(i * cps < cc);
        assert((i + 1) * cps <= cc - 1);
        lemma_mul_inequality((i + 1) * cps, cc - 1, chunk_size as int);
    }
}

/// `file` after the bytes `[start, end)` of `content` were written into it
/// at their own offsets.
pub open spec fn write_range(file: Seq<u8>, content: Seq<u8>, start: nat, end: nat) -> Seq<u8> {
    Seq::new(
        file.len(),
        |i: int|
            if start <= i < end {
                content[i]
            } else {
                file[i]
            },
    )
}

/// `file` after each range of `r` was written into it, in order.
pub open spec fn write_ranges(file: Seq<u8>, content: Seq<u8>, r: Seq<(u64, u64)>) -> Seq<u8>
    decreases r.len(),
{
    if r.len() == 0 {
        file
    } else {
        write_range(write_ranges(file, content, r.drop_last()), content, r.last().0 as nat, r.last().1 as nat)
    }
}

proof fn lemma_write_prefix(file: Seq<u8>, content: Seq<u8>, r: Seq<(u64, u64)>, size: nat, k: int)
    requires
        file.len() == size,
        content.len() == size,
        tiles(r, size),
        size > 0,
        0 < k <= r.len(),
    ensures
        write_ranges(file, content, r.subrange(0, k)) =~= Seq::new(
            size,
            |i: int|
                if i < r[k - 1].1 {
                    content[i]
                } else {
                    file[i]
                },
        ),
    decreases k,
{
    let p = r.subrange(0, k);
    assert(p.drop_last() =~= r.subrange(0, k - 1));
    assert(p.last() == r[k - 1]);
    let inner = write_ranges(file, content, r.subrange(0, k - 1));
    let w = write_ranges(file, content, p);
    assert(w == write_range(inner, content, r[k - 1].0 as nat, r[k - 1].1 as nat));
    if k == 1 {
        assert(r.subrange(0, 0) =~= Seq::<(u64, u64)>::empty());
        assert(inner == file);
        assert(r[0].0 == 0);
    } else {
        lemma_write_prefix(file, content, r, size, k - 1);
        assert(r[k - 2].1 == r[k - 1].0);
        assert(inner.len() == size);
    }
}

/// Writing the ranges of a file's plan into a file of its size, one after
/// the other, leaves exactly the file's bytes, whatever was there before.
pub proof fn lemma_plan_rebuilds_file(
    file: Seq<u8>,
    content: Seq<u8>,
    r: Seq<(u64, u64)>,
    chunk_size: nat,
    streams: nat,
)
    requires
        chunk_size > 0,
        streams > 0,
        is_range_plan(r, content.len(), chunk_size, streams),
        file.len() == content.len(),
    ensures
        write_ranges(file, content, r) == content,
{
    lemma_plan_tiles(r, content.len(), chunk_size, streams);
    if content.len() == 0 {
        assert(file =~= content);
    } else {
        lemma_write_prefix(file, content, r, content.len(), r.len() as int);
        assert(r.subrange(0, r.len() as int) =~= r);
        assert(write_ranges(file, content, r) =~= content);
    }
}

/// A range delivered twice leaves the file as one delivery does.
pub proof fn lemma_write_twice(file: Seq<u8>, content: Seq<u8>, start: nat, end: nat)
    ensures
        write_range(write_range(file, content, start, end), content, start, end) == write_range(
            file,
            content,
            start,
            end,
        ),
{
    assert(write_range(write_range(file, content, start, end), content, start, end) =~= write_range(
        file,
        content,
        start,
        end,
    ));
}

/// Ranges of one file may land in either order: the file ends the same.
pub proof fn lemma_writes_commute(file: Seq<u8>, content: Seq<u8>, a: (nat, nat), b: (nat, nat))
    ensures
        write_range(write_range(file, content, a.0, a.1), content, b.0, b.1) == write_range(
            write_range(file, content, b.0, b.1),
            content,
            a.0,
            a.1,
        ),
{
    assert(write_range(write_range(file, content, a.0, a.1), content, b.0, b.1) =~= write_range(
        write_range(file, content, b.0, b.1),
        content,
        a.0,
        a.1,
    ));
}

/// Cuts a file of `file_size` bytes into the byte ranges that the streams
/// of one send carry: `ceil(chunk_count / streams)` chunks each, the last
/// range possibly shorter, and no range for a stream whose first chunk lies
/// past the end of the file.
pub fn plan_ranges(file_size: u64, chunk_size: u64, streams: u64) -> (r: Vec<(u64, u64)>)
    requires
        chunk_size > 0,
        streams > 0,
    ensures
        is_range_plan(r@, file_size as nat, chunk_size as nat, streams as nat),
{
    proof {
        lemma_quotient_room(file_size as nat, chunk_size as nat);
    }
    let cc: u64 = if file_size % chunk_size == 0 {
        file_size / chunk_size
    } else {
        file_size / chunk_size + 1
    };
    proof {
        lemma_quotient_room(cc as nat, streams as nat);
    }
    let cps: u64 = if cc % streams == 0 {
        cc / streams
    } else {
        cc / streams + 1
    };
    let ghost fs = file_size as nat;
    let ghost cs = chunk_size as nat;
    let ghost st = streams as nat;
    proof {
        lemma_ceil_div_bounds(fs, cs);
        lemma_ceil_div_bounds(cc as nat, st);
        assert(cc as nat == chunk_count(fs, cs));
        assert(cps as nat == chunks_per_stream(fs, cs, st));
    }
    let mut out: Vec<(u64, u64)> = Vec::new();
    let mut i: u64 = 0;
    let mut start_chunk: u64 = 0;
    while i < streams
        invariant
            cc as nat == chunk_count(fs, cs),
            cps as nat == chunks_per_stream(fs, cs, st),
            fs == file_size,
            cs == chunk_size,
            st == streams,
            chunk_size > 0,
            cc * chunk_size >= file_size,
            cc > 0 ==> (cc - 1) * chunk_size < file_size,
            i <= streams,
            out@.len() == i,
            start_chunk as int == min_nat((i * cps) as nat, cc as nat),
            forall|j: int|
                0 <= j < out@.len() ==> #[trigger] (j * cps) < cc && (
                out@[j].0 as nat,
                out@[j].1 as nat,
            ) == planned_range(fs, cs, st, j as nat),
        ensures
            i == streams || start_chunk >= cc,
        decreases streams - i,
    {
        if start_chunk >= cc {
            break;
        }
        assert(start_chunk == i * cps);
        let end_chunk: u64 = if cc - start_chunk < cps {
            cc
        } else {
            start_chunk + cps
        };
        proof {
            assert((i + 1) * cps == i * cps + cps) by (nonlinear_arith);
            assert(end_chunk as nat == min_nat(((i + 1) * cps) as nat, cc as nat));
            lemma_mul_inequality(start_chunk as int, cc - 1, chunk_size as int);
            if end_chunk < cc {
                lemma_mul_inequality(end_chunk as int, cc - 1, chunk_size as int);
            }
        }
        let start = start_chunk * chunk_size;
        let end = if end_chunk == cc {
            file_size
        } else {
            end_chunk * chunk_size
        };
        out.push((start, end));
        start_chunk = end_chunk;
        i = i + 1;
    }
    proof {
        if out@.len() < st {
            assert(out@.len() * cps >= cc);
        }
    }
    out
}

/// The record key of the byte range `[start, end)`: `"{start}-{end}"`.
pub open spec fn range_key_text(start: nat, end: nat) -> Seq<char> {
    decimal(start) + seq!['-'] + decimal(end)
}

/// The record key of the byte range `[start, end)`.
pub fn range_key(start: u64, end: u64) -> (r: String)
    ensures
        r@ == range_key_text(start as nat, end as nat),
{
    let mut s = String::new();
    push_decimal(&mut s, start);
    proof {
        reveal_strlit("-");
    }
    s.append("-");
    push_decimal(&mut s, end);
    assert(s@ =~= range_key_text(start as nat, end as nat));
    s
}

/// The map that a list of `(key, completed)` entries stands for; a later
/// entry for a key replaces an earlier one.
pub open spec fn entries_map(s: Seq<(String, bool)>) -> Map<Seq<char>, bool>
    decreases s.len(),
{
    if s.len() == 0 {
        Map::empty()
    } else {
        entries_map(s.drop_last()).insert(s.last().0@, s.last().1)
    }
}

/// No two entries share a key.
pub open spec fn distinct_keys(s: Seq<(String, bool)>) -> bool {
    forall|i: int, j: int| 0 <= i < j < s.len() ==> s[i].0@ != s[j].0@
}

/// Every range in the record has landed.
pub open spec fn record_complete(m: Map<Seq<char>, bool>) -> bool {
    forall|k: Seq<char>| m.contains_key(k) ==> m[k]
}

proof fn lemma_entries_map_facts(s: Seq<(String, bool)>)
    requires
        distinct_keys(s),
    ensures
        forall|i: int|
            0 <= i < s.len() ==> entries_map(s).contains_key(#[trigger] s[i].0@) && entries_map(s)[s[i].0@]
                == s[i].1,
        forall|k: Seq<char>|
            #[trigger] entries_map(s).contains_key(k) ==> exists|i: int| 0 <= i < s.len() && s[i].0@ == k,
    decreases s.len(),
{
    if s.len() > 0 {
        let t = s.drop_last();
        lemma_entries_map_facts(t);
        assert forall|k: Seq<char>| #[trigger] entries_map(s).contains_key(k) implies exists|i: int|
            0 <= i < s.len() && s[i].0@ == k by {
            if k != s.last().0@ {
                assert(entries_map(t).contains_key(k));
                let i = choose|i: int| 0 <= i < t.len() && t[i].0@ == k;
                assert(t[i] == s[i]);
                assert(s[i].0@ == k);
            } else {
                assert(s[s.len() - 1].0@ == k);
            }
        }
        assert forall|i: int| 0 <= i < s.len() implies entries_map(s).contains_key(#[trigger] s[i].0@)
            && entries_map(s)[s[i].0@] == s[i].1 by {
            if i < s.len() - 1 {
                assert(t[i] == s[i]);
            }
        }
    }
}

proof fn lemma_entries_map_update(s: Seq<(String, bool)>, i: int, e: (String, bool))
    requires
        distinct_keys(s),
        0 <= i < s.len(),
        s[i].0@ == e.0@,
    ensures
        entries_map(s.update(i, e)) == entries_map(s).insert(e.0@, e.1),
        distinct_keys(s.update(i, e)),
    decreases s.len(),
{
    let u = s.update(i, e);
    if i == s.len() - 1 {
        assert(u.drop_last() =~= s.drop_last());
        assert(entries_map(u) =~= entries_map(s).insert(e.0@, e.1));
    } else {
        let t = s.drop_last();
        assert(u.drop_last() =~= t.update(i, e));
        lemma_entries_map_update(t, i, e);
        assert(s.last().0@ != e.0@) by {
            assert(s[i].0@ != s[s.len() - 1].0@);
        }
        assert(entries_map(u) =~= entries_map(s).insert(e.0@, e.1));
    }
}

/// The byte ranges that a list of `(start, end, completed)` entries stands
/// for; a later entry for a range replaces an earlier one.
pub open spec fn spans_map(s: Seq<(u64, u64, bool)>) -> Map<(u64, u64), bool>
    decreases s.len(),
{
    if s.len() == 0 {
        Map::empty()
    } else {
        spans_map(s.drop_last()).insert((s.last().0, s.last().1), s.last().2)
    }
}

/// Byte `x` lies in a range marked complete.
pub open spec fn covered_at(ranges: Map<(u64, u64), bool>, x: nat) -> bool {
    exists|s: u64, e: u64| #[trigger] ranges.contains_key((s, e)) && ranges[(s, e)] && s <= x < e
}

/// Every byte of `[0, size)` lies in a range marked complete.
pub open spec fn covers(ranges: Map<(u64, u64), bool>, size: nat) -> bool {
    forall|x: nat| x < size ==> #[trigger] covered_at(ranges, x)
}

proof fn lemma_spans_map_keys(s: Seq<(u64, u64, bool)>)
    ensures
        forall|k: (u64, u64)|
            #[trigger] spans_map(s).contains_key(k) ==> exists|i: int|
                0 <= i < s.len() && (s[i].0, s[i].1) == k,
    decreases s.len(),
{
    if s.len() > 0 {
        let t = s.drop_last();
        lemma_spans_map_keys(t);
        assert forall|k: (u64, u64)| #[trigger] spans_map(s).contains_key(k) implies exists|i: int|
            0 <= i < s.len() && (s[i].0, s[i].1) == k by {
            if k != (s.last().0, s.last().1) {
                assert(spans_map(t).contains_key(k));
                let i = choose|i: int| 0 <= i < t.len() && (t[i].0, t[i].1) == k;
                assert(t[i] == s[i]);
            } else {
                assert((s[s.len() - 1].0, s[s.len() - 1].1) == k);
            }
        }
    }
}

/// What the receiver knows of one transfer: the file size, and each byte
/// range seen with whether it has fully landed. Ranges are known both by
/// their record key (the stored side-record) and by their offsets.
pub struct RangeRecord {
    file_size: u64,
    entries: Vec<(String, bool)>,
    spans: Vec<(u64, u64, bool)>,
}

impl RangeRecord {
    /// The record as a map from range key to completion.
    pub closed spec fn view(&self) -> Map<Seq<char>, bool> {
        entries_map(self.entries@)
    }

    /// The record as a map from byte range to completion.
    pub closed spec fn ranges(&self) -> Map<(u64, u64), bool> {
        spans_map(self.spans@)
    }

    /// Size of the file being received.
    pub closed spec fn size(&self) -> nat {
        self.file_size as nat
    }

    pub closed spec fn wf(&self) -> bool {
        distinct_keys(self.entries@)
    }

    /// An empty record for a file of `file_size` bytes.
    pub fn new(file_size: u64) -> (r: Self)
        ensures
            r.wf(),
            r.view() == Map::<Seq<char>, bool>::empty(),
            r.ranges() == Map::<(u64, u64), bool>::empty(),
            r.size() == file_size,
    {
        RangeRecord { file_size, entries: Vec::new(), spans: Vec::new() }
    }

    /// Size of the file being received.
    pub fn file_size(&self) -> (r: u64)
        ensures
            r == self.size(),
    {
        self.file_size
    }

    /// Sets the completion of the range `[start, end)`, adding it if it is
    /// new and replacing its flag if it is there.
    pub fn mark(&mut self, start: u64, end: u64, completed: bool)
        requires
            old(self).wf(),
        ensures
            final(self).wf(),
            final(self).size() == old(self).size(),
            final(self).view() == old(self).view().insert(range_key_text(start as nat, end as nat), completed),
            final(self).ranges() == old(self).ranges().insert((start, end), completed),
    {
        let key = range_key(start, end);
        self.mark_key(key, completed);
        let ghost before = self.spans@;
        self.spans.push((start, end, completed));
        assert(self.spans@.drop_last() =~= before);
    }

    fn mark_key(&mut self, key: String, completed: bool)
        requires
            old(self).wf(),
        ensures
            final(self).wf(),
            final(self).file_size == old(self).file_size,
            final(self).spans == old(self).spans,
            final(self).view() == old(self).view().insert(key@, completed),
    {
        let mut i: usize = 0;
        while i < self.entries.len()
            invariant
                self.entries@ == old(self).entries@,
                self.file_size == old(self).file_size,
                self.spans == old(self).spans,
                old(self).wf(),
                i <= self.entries@.len(),
                forall|j: int| 0 <= j < i ==> self.entries@[j].0@ != key@,
            decreases self.entries.len() - i,
        {
            if self.entries[i].0 == key {
                proof {
                    lemma_entries_map_update(self.entries@, i as int, (key, completed));
                }
                self.entries[i] = (key, completed);
                return;
            }
            i = i + 1;
        }
        let ghost before = self.entries@;
        self.entries.push((key, completed));
        assert(self.entries@.drop_last() =~= before);
    }

    /// Whether every range in the record has landed, keys only.
    fn all_keys_complete(&self) -> (r: bool)
        requires
            self.wf(),
        ensures
            r == record_complete(self.view()),
    {
        let mut i: usize = 0;
        while i < self.entries.len()
            invariant
                self.wf(),
                i <= self.entries@.len(),
                forall|j: int| 0 <= j < i ==> self.entries@[j].1,
            decreases self.entries.len() - i,
        {
            if !self.entries[i].1 {
                proof {
                    lemma_entries_map_facts(self.entries@);
                    assert(self.view().contains_key(self.entries@[i as int].0@));
                }
                return false;
            }
            i = i + 1;
        }
        proof {
            lemma_entries_map_facts(self.entries@);
            assert forall|k: Seq<char>| self.view().contains_key(k) implies self.view()[k] by {
                assert(entries_map(self.entries@).contains_key(k));
                let j = choose|j: int| 0 <= j < self.entries@.len() && self.entries@[j].0@ == k;
                assert(self.entries@[j].1);
            }
        }
        true
    }

    /// The completion of the range `[start, end)`, if it is in the record.
    fn lookup_range(&self, start: u64, end: u64) -> (r: Option<bool>)
        ensures
            r is Some <==> self.ranges().contains_key((start, end)),
            r is Some ==> r->0 == self.ranges()[(start, end)],
    {
        let ghost s = self.spans@;
        let ghost k = (start, end);
        let mut i: usize = self.spans.len();
        assert(s.subrange(0, i as int) =~= s);
        while i > 0
            invariant
                s == self.spans@,
                k == (start, end),
                i <= s.len(),
                spans_map(s).contains_key(k) == spans_map(s.subrange(0, i as int)).contains_key(k),
                spans_map(s).contains_key(k) ==> spans_map(s)[k] == spans_map(s.subrange(0, i as int))[k],
            decreases i,
        {
            let ghost sub = s.subrange(0, i as int);
            assert(sub.drop_last() =~= s.subrange(0, i - 1));
            assert(sub.last() == s[i - 1]);
            let (a, b, done) = self.spans[i - 1];
            if a == start && b == end {
                return Some(done);
            }
            i = i - 1;
        }
        assert(s.subrange(0, 0) =~= Seq::<(u64, u64, bool)>::empty());
        None
    }

    /// Whether the ranges marked complete cover every byte of the file.
    fn covers_file(&self) -> (r: bool)
        ensures
            r == covers(self.ranges(), self.size()),
    {
        let ghost m = self.ranges();
        let ghost s = self.spans@;
        proof {
            lemma_spans_map_keys(s);
        }
        let mut pos: u64 = 0;
        while pos < self.file_size
            invariant
                m == self.ranges(),
                s == self.spans@,
                m == spans_map(s),
                forall|k: (u64, u64)|
                    #[trigger] m.contains_key(k) ==> exists|i: int| 0 <= i < s.len() && (s[i].0, s[i].1) == k,
                forall|x: nat| x < pos ==> #[trigger] covered_at(m, x),
                pos <= self.file_size,
            decreases self.file_size - pos,
        {
            let mut j: usize = 0;
            let mut found = false;
            let mut reach: u64 = 0;
            let ghost mut from: u64 = 0;
            while j < self.spans.len()
                invariant
                    m == self.ranges(),
                    s == self.spans@,
                    j <= s.len(),
                    !found ==> forall|i: int|
                        0 <= i < j ==> !(#[trigger] s[i].0 <= pos < s[i].1 && m.contains_key((s[i].0, s[i].1))
                            && m[(s[i].0, s[i].1)]),
                    found ==> from <= pos < reach && m.contains_key((from, reach)) && m[(from, reach)],
                decreases self.spans.len() - j,
            {
                if !found {
                    let (a, b, _) = self.spans[j];
                    if a <= pos && pos < b {
                        match self.lookup_range(a, b) {
                            Some(true) => {
                                found = true;
                                reach = b;
                                proof {
                                    from = a;
                                }
                            },
                            _ => {},
                        }
                    }
                }
                j = j + 1;
            }
            if !found {
                proof {
                    if covered_at(m, pos as nat) {
                        let (ws, we) = choose|ws: u64, we: u64|
                            #[trigger] m.contains_key((ws, we)) && m[(ws, we)] && ws <= pos < we;
                        let i = choose|i: int| 0 <= i < s.len() && (s[i].0, s[i].1) == (ws, we);
                        assert(!(s[i].0 <= pos < s[i].1 && m.contains_key((s[i].0, s[i].1)) && m[(
                            s[i].0,
                            s[i].1,
                        )]));
                    }
                    assert(!covered_at(m, pos as nat));
                }
                return false;
            }
            proof {
                assert forall|x: nat| x < reach implies #[trigger] covered_at(m, x) by {
                    if x >= pos {
                        assert(m.contains_key((from, reach)));
                    }
                }
            }
            pos = if reach > self.file_size {
                self.file_size
            } else {
                reach
            };
        }
        proof {
            assert forall|x: nat| x < self.size() implies #[trigger] covered_at(m, x) by {}
        }
        true
    }

    /// Whether the whole file has landed: every range in the record is
    /// complete and the complete ranges cover every byte of the file.
    pub fn is_complete(&self) -> (r: bool)
        requires
            self.wf(),
        ensures
            r == (record_complete(self.view()) && covers(self.ranges(), self.size())),
    {
        self.all_keys_complete() && self.covers_file()
    }

    /// The entries by range key, one per key, for storing the record.
    pub fn entries(&self) -> (r: &Vec<(String, bool)>)
        requires
            self.wf(),
        ensures
            distinct_keys(r@),
            entries_map(r@) == self.view(),
    {
        &self.entries
    }

    /// Whether no range has been seen yet.
    pub fn is_empty(&self) -> (r: bool)
        ensures
            r == (self.view() == Map::<Seq<char>, bool>::empty()),
    {
        if self.entries.len() == 0 {
            assert(self.view() =~= Map::<Seq<char>, bool>::empty());
            true
        } else {
            assert(self.view().contains_key(self.entries@.last().0@));
            false
        }
    }

    /// The record as stored text: a map from range key to completion.
    pub fn to_json(&self) -> (r: String)
        requires
            self.wf(),
        ensures
            record_of_json(r@) == self.view(),
    {
        record_json(&self.entries)
    }
}

/// The map from range key to completion that `serde_json` reads from a
/// text.
pub uninterp spec fn record_of_json(text: Seq<char>) -> Map<Seq<char>, bool>;

/// Relies on `serde_json::to_string` of a `HashMap<String, bool>`: it cannot
/// fail for text keys, and whatever order the keys come out in, the text
/// reads back as the same map.
#[verifier::external_body]
fn record_json(entries: &Vec<(String, bool)>) -> (r: String)
    requires
        distinct_keys(entries@),
    ensures
        record_of_json(r@) == entries_map(entries@),
{
    let map: std::collections::HashMap<String, bool> = entries.iter().cloned().collect();
    serde_json::to_string(&map).unwrap_or_default()
}

/// Marking a range complete a second time (a duplicate delivery) leaves the
/// record exactly as the first marking left it.
pub proof fn lemma_mark_complete_idempotent(m: Map<Seq<char>, bool>, key: Seq<char>)
    ensures
        m.insert(key, true).insert(key, true) == m.insert(key, true),
{
    assert(m.insert(key, true).insert(key, true) =~= m.insert(key, true));
}

/// While a range in the record has not fully landed, the record is not
/// complete, so whole-file verification does not run.
pub proof fn lemma_no_verification_while_pending(m: Map<Seq<char>, bool>, key: Seq<char>)
    requires
        m.contains_key(key),
        !m[key],
    ensures
        !record_complete(m),
{
}

/// While a range is marked in progress the record is not complete; marking
/// it complete makes the record complete exactly when every other range is.
pub proof fn lemma_completion_follows_ranges(m: Map<Seq<char>, bool>, key: Seq<char>)
    ensures
        !record_complete(m.insert(key, false)),
        record_complete(m.insert(key, true)) <==> (forall|k: Seq<char>|
            m.contains_key(k) && k != key ==> m[k]),
{
    let pending = m.insert(key, false);
    let done = m.insert(key, true);
    assert(pending.contains_key(key) && !pending[key]);
    if record_complete(done) {
        assert forall|k: Seq<char>| m.contains_key(k) && k != key implies m[k] by {
            assert(done.contains_key(k));
            assert(done[k] == m[k]);
        }
    }
}

/// Why a transfer or one of its ranges failed.
#[derive(Debug, Clone, Copy, PartialEq, Eq)]
pub enum TransferError {
    /// The target could not be reached for a range.
    ConnectionFailure,
    /// Fewer bytes arrived than the header declared.
    ConnectionClosedEarly,
    /// The whole file does not have the hash the sender declared.
    HashMismatch,
    /// The header declares a range that ends before it starts.
    InvalidRange,
}

/// Direction of a file transfer.
#[derive(Debug, Clone, Copy, PartialEq, Eq)]
pub enum TransferDirection {
    /// Sending a file.
    Send,
    /// Receiving a file.
    Receive,
}

/// Progress of copying one byte range `[start, end)` between a connection
/// and a file.
pub struct RangeCopy {
    pub start: u64,
    pub end: u64,
    pub copied: u64,
}

impl RangeCopy {
    pub open spec fn wf(&self) -> bool {
        self.start <= self.end && self.copied <= self.end - self.start
    }

    /// Bytes still to copy.
    pub open spec fn left(&self) -> nat {
        (self.end - self.start - self.copied) as nat
    }

    /// A copy of `[start, end)` with nothing copied yet; none when the range
    /// ends before it starts.
    pub fn new(start: u64, end: u64) -> (r: Option<Self>)
        ensures
            r is Some <==> start <= end,
            r is Some ==> r->0.wf() && r->0.start == start && r->0.end == end && r->0.copied == 0,
    {
        if start <= end {
            Some(RangeCopy { start, end, copied: 0 })
        } else {
            None
        }
    }

    /// Bytes still to copy.
    pub fn remaining(&self) -> (r: u64)
        requires
            self.wf(),
        ensures
            r == self.left(),
    {
        self.end - self.start - self.copied
    }

    /// Whether the whole range has been copied.
    pub fn is_finished(&self) -> (r: bool)
        requires
            self.wf(),
        ensures
            r == (self.left() == 0),
    {
        self.copied == self.end - self.start
    }

    /// How many bytes the next read may take with a buffer of `buffer_len`
    /// bytes: never past the end of the range.
    pub fn next_read_len(&self, buffer_len: usize) -> (r: usize)
        requires
            self.wf(),
        ensures
            r as nat == min_nat(buffer_len as nat, self.left()),
    {
        let left = self.end - self.start - self.copied;
        if (buffer_len as u64) < left {
            buffer_len
        } else {
            left as usize
        }
    }

    /// Absolute file offset up to which bytes have been copied.
    pub fn position(&self) -> (r: u64)
        requires
            self.wf(),
        ensures
            r == self.start + self.copied,
    {
        self.start + self.copied
    }

    /// Accounts for a read of `n` bytes. A read of no bytes before the range
    /// is finished means the peer closed the connection early.
    pub fn record_read(&mut self, n: usize) -> (r: Result<u64, TransferError>)
        requires
            old(self).wf(),
            n <= old(self).left(),
        ensures
            final(self).wf(),
            final(self).start == old(self).start,
            final(self).end == old(self).end,
            n == 0 && old(self).left() > 0 ==> r == Err::<u64, TransferError>(
                TransferError::ConnectionClosedEarly,
            ) && final(self).copied == old(self).copied,
            !(n == 0 && old(self).left() > 0) ==> final(self).copied == old(self).copied + n && r
                is Ok && r->Ok_0 == final(self).start + final(self).copied,
    {
        if n == 0 && self.copied < self.end - self.start {
            return Err(TransferError::ConnectionClosedEarly);
        }
        self.copied = self.copied + n as u64;
        Ok(self.start + self.copied)
    }
}

/// Starts receiving the range that `header` declares: checks that it
/// neither ends before it starts nor past the end of the file, marks it as
/// in progress in the record, and says whether it is the first range seen
/// of the file (so the start of the transfer is to be announced).
pub fn begin_range(record: &mut RangeRecord, header: &TransferHeader) -> (r: Result<
    (RangeCopy, bool),
    TransferError,
>)
    requires
        old(record).wf(),
    ensures
        final(record).wf(),
        final(record).size() == old(record).size(),
        r is Err <==> header.range_end < header.range_start || header.range_end > header.file_size,
        r is Err ==> r->Err_0 == TransferError::InvalidRange && final(record).view() == old(
            record,
        ).view() && final(record).ranges() == old(record).ranges(),
        r is Ok ==> {
            let (copy, first) = r->Ok_0;
            &&& copy.wf() && copy.start == header.range_start && copy.end == header.range_end
            &&& copy.copied == 0
            &&& first == (old(record).view() == Map::<Seq<char>, bool>::empty())
            &&& final(record).view() == old(record).view().insert(
                range_key_text(header.range_start as nat, header.range_end as nat),
                false,
            )
            &&& final(record).ranges() == old(record).ranges().insert(
                (header.range_start, header.range_end),
                false,
            )
        },
{
    if header.range_end > header.file_size {
        return Err(TransferError::InvalidRange);
    }
    let copy = match RangeCopy::new(header.range_start, header.range_end) {
        Some(c) => c,
        None => return Err(TransferError::InvalidRange),
    };
    let first = record.is_empty();
    record.mark(header.range_start, header.range_end, false);
    Ok((copy, first))
}

/// Marks the fully received range `[start, end)` as complete and says
/// whether the whole file has now landed, that is whether it is to be
/// verified now: every range in the record is complete and the complete
/// ranges cover every byte of the file.
pub fn finish_range(record: &mut RangeRecord, start: u64, end: u64) -> (r: bool)
    requires
        old(record).wf(),
    ensures
        final(record).wf(),
        final(record).size() == old(record).size(),
        final(record).view() == old(record).view().insert(range_key_text(start as nat, end as nat), true),
        final(record).ranges() == old(record).ranges().insert((start, end), true),
        r == (record_complete(final(record).view()) && covers(final(record).ranges(), final(record).size())),
{
    record.mark(start, end, true);
    record.is_complete()
}

/// While some byte of the file lies in no range marked complete, the file
/// is not complete, so whole-file verification does not run.
pub proof fn lemma_no_verification_with_gap(
    keys: Map<Seq<char>, bool>,
    ranges: Map<(u64, u64), bool>,
    size: nat,
    x: nat,
)
    requires
        x < size,
        !covered_at(ranges, x),
    ensures
        !(record_complete(keys) && covers(ranges, size)),
{
}

/// Lower-case hexadecimal digit.
pub open spec fn is_lower_hex(c: char) -> bool {
    ('0' <= c && c <= '9') || ('a' <= c && c <= 'f')
}

/// The lower-case hex SHA-256 digest of `data`.
pub uninterp spec fn sha256_hex_of(data: Seq<u8>) -> Seq<char>;

/// Relies on `sha2::Sha256::digest` and the lower-hex form of its 32-byte
/// output: 64 hex digits that depend on the bytes alone.
#[verifier::external_body]
fn sha256_hex(data: &[u8]) -> (r: String)
    ensures
        r@ == sha256_hex_of(data@),
        r@.len() == 64,
        forall|i: int| 0 <= i < 64 ==> is_lower_hex(#[trigger] r@[i]),
{
    format!("{:x}", <sha2::Sha256 as sha2::Digest>::digest(data))
}

/// The whole-file hash of `content`: its SHA-256 digest in lower-case hex.
pub fn file_hash(content: &[u8]) -> (r: String)
    ensures
        r@ == sha256_hex_of(content@),
        r@.len() == 64,
        forall|i: int| 0 <= i < 64 ==> is_lower_hex(#[trigger] r@[i]),
{
    sha256_hex(content)
}

/// Compares a computed whole-file hash with the one the sender declared.
pub fn check_hash(actual: &String, expected: &String) -> (r: Result<(), TransferError>)
    ensures
        r is Ok <==> actual@ == expected@,
        r is Err ==> r->Err_0 == TransferError::HashMismatch,
{
    if *actual == *expected {
        Ok(())
    } else {
        Err(TransferError::HashMismatch)
    }
}

/// Verifies a fully received file against the hash its sender declared.
pub fn verify_file(content: &[u8], expected: &String) -> (r: Result<(), TransferError>)
    ensures
        r is Ok <==> sha256_hex_of(content@) == expected@,
        r is Err ==> r->Err_0 == TransferError::HashMismatch,
{
    let actual = file_hash(content);
    check_hash(&actual, expected)
}

/// A buffer of `n` zero bytes.
pub open spec fn zeroes(n: nat) -> Seq<u8> {
    Seq::new(n, |_i: int| 0u8)
}

/// Fills `buf` with exactly `n` zero bytes.
fn reset_buffer(buf: &mut Vec<u8>, n: usize)
    ensures
        final(buf)@ == zeroes(n as nat),
{
    buf.clear();
    let mut i: usize = 0;
    while i < n
        invariant
            i <= n,
            buf@ == zeroes(i as nat),
        decreases n - i,
    {
        buf.push(0u8);
        i = i + 1;
        assert(buf@ =~= zeroes(i as nat));
    }
}

/// A bounded free-list of reusable zero-filled buffers of one size. Taking
/// from an empty pool hands out a fresh buffer, so it never blocks.
pub struct BufferPool {
    buffers: Vec<Vec<u8>>,
    chunk_size: usize,
}

impl BufferPool {
    pub closed spec fn wf(&self) -> bool {
        &&& self.buffers@.len() <= BUFFER_POOL_SIZE
        &&& forall|i: int| 0 <= i < self.buffers@.len() ==> #[trigger] self.buffers@[i]@ == zeroes(
            self.chunk_size as nat,
        )
    }

    /// Number of buffers held.
    pub closed spec fn held(&self) -> nat {
        self.buffers@.len()
    }

    /// Size of each buffer.
    pub closed spec fn size(&self) -> nat {
        self.chunk_size as nat
    }

    /// A full pool of buffers of `chunk_size` bytes.
    pub fn new(chunk_size: usize) -> (r: Self)
        ensures
            r.wf(),
            r.held() == BUFFER_POOL_SIZE,
            r.size() == chunk_size,
    {
        let mut buffers: Vec<Vec<u8>> = Vec::new();
        let mut i: usize = 0;
        while i < BUFFER_POOL_SIZE
            invariant
                i <= BUFFER_POOL_SIZE,
                buffers@.len() == i,
                forall|j: int| 0 <= j < i ==> #[trigger] buffers@[j]@ == zeroes(chunk_size as nat),
            decreases BUFFER_POOL_SIZE - i,
        {
            let mut b: Vec<u8> = Vec::new();
            reset_buffer(&mut b, chunk_size);
            buffers.push(b);
            i = i + 1;
        }
        BufferPool { buffers, chunk_size }
    }

    /// Number of buffers held.
    pub fn available(&self) -> (r: usize)
        ensures
            r == self.held(),
    {
        self.buffers.len()
    }

    /// Size of each buffer.
    pub fn chunk_size(&self) -> (r: usize)
        ensures
            r == self.size(),
    {
        self.chunk_size
    }

    /// Takes a zero-filled buffer: one of the pool's if it holds any, else a
    /// fresh one.
    pub fn take(&mut self) -> (r: Vec<u8>)
        requires
            old(self).wf(),
        ensures
            final(self).wf(),
            r@ == zeroes(old(self).size()),
            final(self).size() == old(self).size(),
            final(self).held() == if old(self).held() > 0 {
                old(self).held() - 1
            } else {
                0
            },
    {
        match self.buffers.pop() {
            Some(b) => {
                assert(b@ == old(self).buffers@[old(self).buffers@.len() - 1]@);
                assert forall|i: int| 0 <= i < self.buffers@.len() implies #[trigger] self.buffers@[i]@
                    == zeroes(self.chunk_size as nat) by {
                    assert(self.buffers@[i] == old(self).buffers@[i]);
                }
                b
            },
            None => {
                let mut b: Vec<u8> = Vec::new();
                reset_buffer(&mut b, self.chunk_size);
                b
            },
        }
    }

    /// Returns a buffer: it is zero-filled to the pool's size and kept if
    /// the pool is not full, else dropped.
    pub fn give_back(&mut self, buf: Vec<u8>)
        requires
            old(self).wf(),
        ensures
            final(self).wf(),
            final(self).size() == old(self).size(),
            final(self).held() == min_nat(old(self).held() + 1, BUFFER_POOL_SIZE as nat),
    {
        if self.buffers.len() < BUFFER_POOL_SIZE {
            let mut b = buf;
            reset_buffer(&mut b, self.chunk_size);
            self.buffers.push(b);
            assert forall|i: int| 0 <= i < self.buffers@.len() implies #[trigger] self.buffers@[i]@
                == zeroes(self.chunk_size as nat) by {
                if i < self.buffers@.len() - 1 {
                    assert(self.buffers@[i] == old(self).buffers@[i]);
                }
            }
        }
    }
}

/// Settings of the transfer engine.
pub struct FileTransferConfig {
    /// Bytes per I/O operation.
    pub chunk_size: usize,
    /// Listener port; 0 asks for an ephemeral one.
    pub port: u16,
    /// Directory that received files are written to.
    pub receive_dir: String,
    /// Parallel ranges per send.
    pub concurrent_streams: usize,
}

impl FileTransferConfig {
    /// The default settings, receiving into `receive_dir`.
    pub fn with_receive_dir(receive_dir: String) -> (r: Self)
        ensures
            r.chunk_size == DEFAULT_CHUNK_SIZE,
            r.port == DEFAULT_PORT,
            r.receive_dir@ == receive_dir@,
            r.concurrent_streams == DEFAULT_CONCURRENT_STREAMS,
    {
        FileTransferConfig {
            chunk_size: DEFAULT_CHUNK_SIZE,
            port: DEFAULT_PORT,
            receive_dir,
            concurrent_streams: DEFAULT_CONCURRENT_STREAMS,
        }
    }
}

/// The report line of a failed stream: `Stream {index} failed: {reason}`.
pub open spec fn failure_line(index: nat, reason: Seq<char>) -> Seq<char> {
    "Stream "@ + decimal(index) + " failed: "@ + reason
}

/// The report lines of failed streams, joined with `, `.
pub open spec fn failure_report(f: Seq<(u64, Seq<char>)>) -> Seq<char>
    decreases f.len(),
{
    if f.len() == 0 {
        Seq::empty()
    } else if f.len() == 1 {
        failure_line(f[0].0 as nat, f[0].1)
    } else {
        failure_report(f.drop_last()) + ", "@ + failure_line(f.last().0 as nat, f.last().1)
    }
}

/// The failures of one send as plain values.
pub open spec fn failure_views(f: Seq<(u64, String)>) -> Seq<(u64, Seq<char>)> {
    f.map_values(|e: (u64, String)| (e.0, e.1@))
}

/// The single error of a send whose streams failed: one line per failed
/// stream, in the order given; none when no stream failed.
pub fn failure_summary(failures: &Vec<(u64, String)>) -> (r: Option<String>)
    ensures
        r is None <==> failures@.len() == 0,
        r is Some ==> r->0@ == failure_report(failure_views(failures@)),
{
    if failures.len() == 0 {
        return None;
    }
    let mut out = String::new();
    let mut i: usize = 0;
    assert(failure_views(failures@.subrange(0, 0)) =~= Seq::<(u64, Seq<char>)>::empty());
    while i < failures.len()
        invariant
            i <= failures@.len(),
            out@ == failure_report(failure_views(failures@.subrange(0, i as int))),
        decreases failures.len() - i,
    {
        let ghost fv = failure_views(failures@.subrange(0, i + 1));
        assert(fv.drop_last() =~= failure_views(failures@.subrange(0, i as int)));
        assert(fv.last() == (failures@[i as int].0, failures@[i as int].1@));
        if i > 0 {
            out.append(", ");
        }
        let ghost before = out@;
        out.append("Stream ");
        push_decimal(&mut out, failures[i].0);
        out.append(" failed: ");
        out.append(failures[i].1.as_str());
        assert(out@ =~= before + failure_line(failures@[i as int].0 as nat, failures@[i as int].1@));
        assert(out@ =~= failure_report(fv));
        i = i + 1;
    }
    assert(failures@.subrange(0, i as int) =~= failures@);
    Some(out)
}

/// Bytes sent so far by all streams of one send, against the file size.
pub struct SendProgress {
    pub total: u64,
    pub sent: u64,
}

impl SendProgress {
    /// Nothing sent yet of `total` bytes.
    pub fn new(total: u64) -> (r: Self)
        ensures
            r.total == total,
            r.sent == 0,
    {
        SendProgress { total, sent: 0 }
    }

    /// Counts `n` more bytes as sent; the count stops at `u64::MAX`.
    pub fn add(&mut self, n: u64)
        ensures
            final(self).total == old(self).total,
            final(self).sent == if old(self).sent + n <= u64::MAX {
                old(self).sent + n
            } else {
                u64::MAX as int
            },
    {
        if self.sent <= u64::MAX - n {
            self.sent = self.sent + n;
        } else {
            self.sent = u64::MAX;
        }
    }

    /// Whether progress is still to be reported: not every byte has been
    /// sent yet.
    pub fn in_progress(&self) -> (r: bool)
        ensures
            r == (self.sent < self.total),
    {
        self.sent < self.total
    }
}

} // verus!
