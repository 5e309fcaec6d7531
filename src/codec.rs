//! The framed header that opens every transfer connection.
//!
//! Layout (big-endian integers): `id_len: u32`, `file_id`, `name_len: u32`,
//! `file_name`, `file_size: u64`, `range_start: u64`, `range_end: u64`,
//! `hash_len: u32`, `file_hash`; the raw bytes of the range follow it.

use vstd::prelude::*;
use vstd::utf8::*;
use vstd::arithmetic::div_mod::lemma_mod_breakdown;
use vstd::arithmetic::div_mod::lemma_small_mod;
use crate::text::text_from_utf8;

verus! {

broadcast use vstd::utf8::encode_utf8_valid_utf8, vstd::utf8::encode_utf8_decode_utf8;

/// `256` to the power `n`.
pub open spec fn pow256(n: nat) -> nat
    decreases n,
{
    if n == 0 {
        1
    } else {
        256 * pow256((n - 1) as nat)
    }
}

/// The `n` low bytes of `x`, most significant first.
pub open spec fn be_bytes(x: nat, n: nat) -> Seq<u8>
    decreases n,
{
    if n == 0 {
        Seq::empty()
    } else {
        be_bytes(x / 256, (n - 1) as nat).push((x % 256) as u8)
    }
}

/// The number that the bytes `s` spell, most significant first.
pub open spec fn be_value(s: Seq<u8>) -> nat
    decreases s.len(),
{
    if s.len() == 0 {
        0
    } else {
        be_value(s.drop_last()) * 256 + s.last() as nat
    }
}

pub proof fn lemma_pow256_positive(n: nat)
    ensures
        pow256(n) > 0,
    decreases n,
{
    if n > 0 {
        lemma_pow256_positive((n - 1) as nat);
    }
}

pub proof fn lemma_pow256_monotonic(a: nat, b: nat)
    requires
        a <= b,
    ensures
        pow256(a) <= pow256(b),
    decreases b,
{
    if a < b {
        lemma_pow256_monotonic(a, (b - 1) as nat);
        lemma_pow256_positive((b - 1) as nat);
    }
}

pub proof fn lemma_be_bytes_len(x: nat, n: nat)
    ensures
        be_bytes(x, n).len() == n,
    decreases n,
{
    if n > 0 {
        lemma_be_bytes_len(x / 256, (n - 1) as nat);
    }
}

pub proof fn lemma_be_value_bound(s: Seq<u8>)
    ensures
        be_value(s) < pow256(s.len()),
    decreases s.len(),
{
    if s.len() > 0 {
        lemma_be_value_bound(s.drop_last());
    }
}

/// Reading back `n` bytes of `x` gives `x` modulo `256^n`.
pub proof fn lemma_be_round_trip(x: nat, n: nat)
    ensures
        be_value(be_bytes(x, n)) == x % pow256(n),
    decreases n,
{
    if n == 0 {
        lemma_small_mod(0, 1);
        assert(x % 1 == 0);
    } else {
        let m = (n - 1) as nat;
        lemma_be_round_trip(x / 256, m);
        lemma_be_bytes_len(x / 256, m);
        assert(be_bytes(x, n).drop_last() =~= be_bytes(x / 256, m));
        lemma_pow256_positive(m);
        lemma_mod_breakdown(x as int, 256, pow256(m) as int);
    }
}

/// Reading back `n` bytes of a number below `256^n` gives the number.
pub proof fn lemma_be_exact(x: nat, n: nat)
    requires
        x < pow256(n),
    ensures
        be_value(be_bytes(x, n)) == x,
        be_bytes(x, n).len() == n,
{
    lemma_be_round_trip(x, n);
    lemma_small_mod(x, pow256(n));
    lemma_be_bytes_len(x, n);
}

pub proof fn lemma_pow256_widths()
    ensures
        pow256(4) == 0x1_0000_0000,
        pow256(8) == 0x1_0000_0000_0000_0000,
{
    reveal_with_fuel(pow256, 9);
}

/// A header as plain values.
pub struct HeaderView {
    pub file_id: Seq<char>,
    pub file_name: Seq<char>,
    pub file_size: u64,
    pub range_start: u64,
    pub range_end: u64,
    pub file_hash: Seq<char>,
}

/// The header sent at the start of each transfer connection.
pub struct TransferHeader {
    pub file_id: String,
    pub file_name: String,
    pub file_size: u64,
    pub range_start: u64,
    pub range_end: u64,
    pub file_hash: String,
}

impl View for TransferHeader {
    type V = HeaderView;

    open spec fn view(&self) -> HeaderView {
        HeaderView {
            file_id: self.file_id@,
            file_name: self.file_name@,
            file_size: self.file_size,
            range_start: self.range_start,
            range_end: self.range_end,
            file_hash: self.file_hash@,
        }
    }
}

/// Why a header could not be encoded or decoded.
#[derive(Debug, Clone, Copy, PartialEq, Eq)]
pub enum HeaderError {
    /// The buffer ends before the header does.
    IncompleteHeader,
    /// A text field is not valid UTF-8.
    InvalidText,
    /// A text field is longer than a `u32` length can state.
    FieldTooLong,
}

/// A text field on the wire: its UTF-8 byte length, then the bytes.
pub open spec fn text_field(t: Seq<char>) -> Seq<u8> {
    be_bytes(encode_utf8(t).len(), 4) + encode_utf8(t)
}

/// The bytes of a header on the wire.
pub open spec fn header_bytes(h: HeaderView) -> Seq<u8> {
    text_field(h.file_id) + text_field(h.file_name) + be_bytes(h.file_size as nat, 8) + be_bytes(
        h.range_start as nat,
        8,
    ) + be_bytes(h.range_end as nat, 8) + text_field(h.file_hash)
}

/// Each text field's length fits the `u32` that carries it.
pub open spec fn encodable(h: HeaderView) -> bool {
    &&& encode_utf8(h.file_id).len() <= u32::MAX
    &&& encode_utf8(h.file_name).len() <= u32::MAX
    &&& encode_utf8(h.file_hash).len() <= u32::MAX
}

/// Reads a length-prefixed text field at `pos`; on success, the text and
/// the position after it.
pub open spec fn parse_text(b: Seq<u8>, pos: nat) -> Result<(Seq<char>, nat), HeaderError> {
    if b.len() < pos + 4 {
        Err(HeaderError::IncompleteHeader)
    } else {
        let n = be_value(b.subrange(pos as int, pos + 4int));
        if b.len() < pos + 4 + n {
            Err(HeaderError::IncompleteHeader)
        } else {
            let raw = b.subrange(pos + 4int, pos + 4int + n);
            if valid_utf8(raw) {
                Ok((decode_utf8(raw), pos + 4 + n))
            } else {
                Err(HeaderError::InvalidText)
            }
        }
    }
}

/// Reads a `u64` at `pos`; on success, the number and the position after it.
pub open spec fn parse_u64(b: Seq<u8>, pos: nat) -> Result<(u64, nat), HeaderError> {
    if b.len() < pos + 8 {
        Err(HeaderError::IncompleteHeader)
    } else {
        Ok((be_value(b.subrange(pos as int, pos + 8int)) as u64, pos + 8))
    }
}

/// Reads a header from the front of `b`; on success, the header and its
/// length in bytes. Fields are read in wire order and the first failure is
/// the result.
pub open spec fn parse_header(b: Seq<u8>) -> Result<(HeaderView, nat), HeaderError> {
    match parse_text(b, 0) {
        Err(e) => Err(e),
        Ok((file_id, o1)) => match parse_text(b, o1) {
            Err(e) => Err(e),
            Ok((file_name, o2)) => match parse_u64(b, o2) {
                Err(e) => Err(e),
                Ok((file_size, o3)) => match parse_u64(b, o3) {
                    Err(e) => Err(e),
                    Ok((range_start, o4)) => match parse_u64(b, o4) {
                        Err(e) => Err(e),
                        Ok((range_end, o5)) => match parse_text(b, o5) {
                            Err(e) => Err(e),
                            Ok((file_hash, o6)) => Ok(
                                (
                                    HeaderView {
                                        file_id,
                                        file_name,
                                        file_size,
                                        range_start,
                                        range_end,
                                        file_hash,
                                    },
                                    o6,
                                ),
                            ),
                        },
                    },
                },
            },
        },
    }
}

/// Appends `x` as four big-endian bytes.
pub fn push_u32_be(out: &mut Vec<u8>, x: u32)
    ensures
        final(out)@ == old(out)@ + be_bytes(x as nat, 4),
{
    let x1 = x / 256;
    let x2 = x1 / 256;
    let x3 = x2 / 256;
    out.push((x3 % 256) as u8);
    out.push((x2 % 256) as u8);
    out.push((x1 % 256) as u8);
    out.push((x % 256) as u8);
    proof {
        reveal_with_fuel(be_bytes, 5);
        assert(final(out)@ =~= old(out)@ + be_bytes(x as nat, 4));
    }
}

/// Appends `x` as eight big-endian bytes.
pub fn push_u64_be(out: &mut Vec<u8>, x: u64)
    ensures
        final(out)@ == old(out)@ + be_bytes(x as nat, 8),
{
    let x1 = x / 256;
    let x2 = x1 / 256;
    let x3 = x2 / 256;
    let x4 = x3 / 256;
    let x5 = x4 / 256;
    let x6 = x5 / 256;
    let x7 = x6 / 256;
    out.push((x7 % 256) as u8);
    out.push((x6 % 256) as u8);
    out.push((x5 % 256) as u8);
    out.push((x4 % 256) as u8);
    out.push((x3 % 256) as u8);
    out.push((x2 % 256) as u8);
    out.push((x1 % 256) as u8);
    out.push((x % 256) as u8);
    proof {
        reveal_with_fuel(be_bytes, 9);
        assert(final(out)@ =~= old(out)@ + be_bytes(x as nat, 8));
    }
}

/// Appends every byte of `src`.
pub fn push_bytes(out: &mut Vec<u8>, src: &[u8])
    ensures
        final(out)@ == old(out)@ + src@,
{
    let ghost start = out@;
    let mut i: usize = 0;
    while i < src.len()
        invariant
            i <= src@.len(),
            out@ == start + src@.subrange(0, i as int),
        decreases src.len() - i,
    {
        out.push(src[i]);
        i = i + 1;
        assert(out@ =~= start + src@.subrange(0, i as int));
    }
    assert(src@.subrange(0, i as int) =~= src@);
}

/// The bytes `buf[from..to]` as a vector.
pub fn copy_range(buf: &[u8], from: usize, to: usize) -> (r: Vec<u8>)
    requires
        from <= to <= buf@.len(),
    ensures
        r@ == buf@.subrange(from as int, to as int),
{
    let mut out: Vec<u8> = Vec::new();
    let mut i: usize = from;
    while i < to
        invariant
            from <= i <= to,
            to <= buf@.len(),
            out@ == buf@.subrange(from as int, i as int),
        decreases to - i,
    {
        out.push(buf[i]);
        i = i + 1;
        assert(out@ =~= buf@.subrange(from as int, i as int));
    }
    out
}

/// The number spelled by the `n <= 8` big-endian bytes at `pos`.
pub fn read_be(buf: &[u8], pos: usize, n: usize) -> (r: u64)
    requires
        pos + n <= buf@.len(),
        n <= 8,
    ensures
        r as nat == be_value(buf@.subrange(pos as int, pos + n)),
{
    let bl = buf.len();
    let mut acc: u64 = 0;
    let mut k: usize = 0;
    proof {
        assert(buf@.subrange(pos as int, pos as int) =~= Seq::<u8>::empty());
    }
    while k < n
        invariant
            bl == buf@.len(),
            pos + n <= buf@.len(),
            n <= 8,
            k <= n,
            acc as nat == be_value(buf@.subrange(pos as int, pos + k)),
        decreases n - k,
    {
        proof {
            let s = buf@.subrange(pos as int, pos + k);
            lemma_be_value_bound(s);
            lemma_pow256_monotonic(k as nat, 7);
            lemma_pow256_widths();
            assert(pow256(8) == 256 * pow256(7));
            assert(buf@.subrange(pos as int, pos + k + 1).drop_last() =~= s);
        }
        acc = acc * 256 + buf[pos + k] as u64;
        k = k + 1;
    }
    acc
}

/// Reads a length-prefixed text field at `pos`.
pub fn read_text(buf: &[u8], pos: usize) -> (r: Result<(String, usize), HeaderError>)
    requires
        pos <= buf@.len(),
    ensures
        match parse_text(buf@, pos as nat) {
            Ok((t, p)) => r is Ok && r->Ok_0.0@ == t && r->Ok_0.1 as nat == p,
            Err(e) => r is Err && r->Err_0 == e,
        },
{
    if buf.len() - pos < 4 {
        return Err(HeaderError::IncompleteHeader);
    }
    let n = read_be(buf, pos, 4);
    proof {
        lemma_be_value_bound(buf@.subrange(pos as int, pos + 4int));
        lemma_pow256_widths();
    }
    let n = n as usize;
    if buf.len() - pos - 4 < n {
        return Err(HeaderError::IncompleteHeader);
    }
    let raw = copy_range(buf, pos + 4, pos + 4 + n);
    match text_from_utf8(raw) {
        Some(t) => Ok((t, pos + 4 + n)),
        None => Err(HeaderError::InvalidText),
    }
}

/// Reads a big-endian `u64` at `pos`.
pub fn read_u64(buf: &[u8], pos: usize) -> (r: Result<(u64, usize), HeaderError>)
    requires
        pos <= buf@.len(),
    ensures
        match parse_u64(buf@, pos as nat) {
            Ok((v, p)) => r is Ok && r->Ok_0.0 == v && r->Ok_0.1 as nat == p,
            Err(e) => r is Err && r->Err_0 == e,
        },
{
    if buf.len() - pos < 8 {
        return Err(HeaderError::IncompleteHeader);
    }
    let v = read_be(buf, pos, 8);
    Ok((v, pos + 8))
}

/// Decodes the header at the front of `buf`, giving the header and the
/// number of bytes it took. A buffer that ends inside the header gives
/// `IncompleteHeader`.
pub fn decode_header(buf: &[u8]) -> (r: Result<(TransferHeader, usize), HeaderError>)
    ensures
        match parse_header(buf@) {
            Ok((v, n)) => r is Ok && r->Ok_0.0@ == v && r->Ok_0.1 as nat == n,
            Err(e) => r is Err && r->Err_0 == e,
        },
{
    let (file_id, o1) = match read_text(buf, 0) {
        Ok(x) => x,
        Err(e) => return Err(e),
    };
    let (file_name, o2) = match read_text(buf, o1) {
        Ok(x) => x,
        Err(e) => return Err(e),
    };
    let (file_size, o3) = match read_u64(buf, o2) {
        Ok(x) => x,
        Err(e) => return Err(e),
    };
    let (range_start, o4) = match read_u64(buf, o3) {
        Ok(x) => x,
        Err(e) => return Err(e),
    };
    let (range_end, o5) = match read_u64(buf, o4) {
        Ok(x) => x,
        Err(e) => return Err(e),
    };
    let (file_hash, o6) = match read_text(buf, o5) {
        Ok(x) => x,
        Err(e) => return Err(e),
    };
    Ok((TransferHeader { file_id, file_name, file_size, range_start, range_end, file_hash }, o6))
}

/// Appends a text field: its UTF-8 length as a `u32`, then its bytes.
pub fn push_text(out: &mut Vec<u8>, s: &String)
    requires
        encode_utf8(s@).len() <= u32::MAX,
    ensures
        final(out)@ == old(out)@ + text_field(s@),
{
    let b = s.as_str().as_bytes();
    let n = b.len();
    push_u32_be(out, n as u32);
    push_bytes(out, b);
    assert(final(out)@ =~= old(out)@ + text_field(s@));
}

/// Encodes a header for the wire. Fails with `FieldTooLong` when a text
/// field is longer than a `u32` length can state.
pub fn encode_header(h: &TransferHeader) -> (r: Result<Vec<u8>, HeaderError>)
    ensures
        r is Ok <==> encodable(h@),
        r is Ok ==> r->Ok_0@ == header_bytes(h@),
        r is Err ==> r->Err_0 == HeaderError::FieldTooLong,
{
    if h.file_id.as_str().as_bytes().len() > 0xffff_ffff
        || h.file_name.as_str().as_bytes().len() > 0xffff_ffff
        || h.file_hash.as_str().as_bytes().len() > 0xffff_ffff {
        return Err(HeaderError::FieldTooLong);
    }
    let mut out: Vec<u8> = Vec::new();
    push_text(&mut out, &h.file_id);
    push_text(&mut out, &h.file_name);
    push_u64_be(&mut out, h.file_size);
    push_u64_be(&mut out, h.range_start);
    push_u64_be(&mut out, h.range_end);
    push_text(&mut out, &h.file_hash);
    assert(out@ =~= header_bytes(h@));
    Ok(out)
}

/// `b` holds `seg` from `pos` on, as far as `b` reaches.
pub open spec fn agrees_from(b: Seq<u8>, pos: nat, seg: Seq<u8>) -> bool {
    &&& pos <= b.len()
    &&& forall|i: int| 0 <= i < seg.len() && pos + i < b.len() ==> b[pos + i] == #[trigger] seg[i]
}

proof fn lemma_parse_text_agrees(b: Seq<u8>, pos: nat, t: Seq<char>)
    requires
        encode_utf8(t).len() <= u32::MAX,
        agrees_from(b, pos, text_field(t)),
    ensures
        b.len() >= pos + text_field(t).len() ==> parse_text(b, pos) == Ok::<
            (Seq<char>, nat),
            HeaderError,
        >((t, pos + text_field(t).len())),
        b.len() < pos + text_field(t).len() ==> parse_text(b, pos) == Err::<
            (Seq<char>, nat),
            HeaderError,
        >(HeaderError::IncompleteHeader),
{
    let bytes = encode_utf8(t);
    let n = bytes.len();
    lemma_pow256_widths();
    lemma_be_exact(n, 4);
    let tf = text_field(t);
    assert(tf.len() == 4 + n);
    if b.len() >= pos + 4 {
        assert(b.subrange(pos as int, pos + 4int) =~= be_bytes(n, 4)) by {
            assert forall|i: int| 0 <= i < 4 implies b.subrange(pos as int, pos + 4int)[i]
                == be_bytes(n, 4)[i] by {
                assert(tf[i] == be_bytes(n, 4)[i]);
            }
        }
        if b.len() >= pos + 4 + n {
            assert(b.subrange(pos + 4int, pos + 4int + n) =~= bytes) by {
                assert forall|i: int| 0 <= i < n implies b.subrange(pos + 4int, pos + 4int + n)[i]
                    == bytes[i] by {
                    assert(tf[4 + i] == bytes[i]);
                }
            }
        }
    }
}

proof fn lemma_parse_u64_agrees(b: Seq<u8>, pos: nat, x: u64)
    requires
        agrees_from(b, pos, be_bytes(x as nat, 8)),
    ensures
        b.len() >= pos + 8 ==> parse_u64(b, pos) == Ok::<(u64, nat), HeaderError>((x, pos + 8)),
        b.len() < pos + 8 ==> parse_u64(b, pos) == Err::<(u64, nat), HeaderError>(
            HeaderError::IncompleteHeader,
        ),
{
    lemma_pow256_widths();
    lemma_be_exact(x as nat, 8);
    if b.len() >= pos + 8 {
        assert(b.subrange(pos as int, pos + 8int) =~= be_bytes(x as nat, 8)) by {
            assert forall|i: int| 0 <= i < 8 implies b.subrange(pos as int, pos + 8int)[i]
                == be_bytes(x as nat, 8)[i] by {
                assert(be_bytes(x as nat, 8)[i] == be_bytes(x as nat, 8)[i]);
            }
        }
    }
}

proof fn lemma_agrees_shift(b: Seq<u8>, whole: Seq<u8>, pos: nat, seg: Seq<u8>)
    requires
        agrees_from(b, 0, whole),
        pos <= b.len(),
        pos + seg.len() <= whole.len(),
        whole.subrange(pos as int, pos + seg.len() as int) == seg,
    ensures
        agrees_from(b, pos, seg),
{
    assert forall|i: int| 0 <= i < seg.len() && pos + i < b.len() implies b[pos + i] == #[trigger] seg[i] by {
        assert(whole.subrange(pos as int, pos + seg.len() as int)[i] == whole[pos + i]);
        assert(whole[pos + i] == b[0 + (pos + i)]);
    }
}

/// A buffer that agrees with the encoding of `h` as far as it reaches
/// decodes to `h` when it holds all of it, and to `IncompleteHeader` when it
/// ends early.
proof fn lemma_parse_header_agrees(b: Seq<u8>, h: HeaderView)
    requires
        encodable(h),
        agrees_from(b, 0, header_bytes(h)),
    ensures
        b.len() >= header_bytes(h).len() ==> parse_header(b) == Ok::<(HeaderView, nat), HeaderError>(
            (h, header_bytes(h).len()),
        ),
        b.len() < header_bytes(h).len() ==> parse_header(b) == Err::<(HeaderView, nat), HeaderError>(
            HeaderError::IncompleteHeader,
        ),
{
    let s1 = text_field(h.file_id);
    let s2 = text_field(h.file_name);
    let s3 = be_bytes(h.file_size as nat, 8);
    let s4 = be_bytes(h.range_start as nat, 8);
    let s5 = be_bytes(h.range_end as nat, 8);
    let s6 = text_field(h.file_hash);
    let hb = header_bytes(h);
    lemma_be_bytes_len(h.file_size as nat, 8);
    lemma_be_bytes_len(h.range_start as nat, 8);
    lemma_be_bytes_len(h.range_end as nat, 8);
    let o1 = s1.len();
    let o2 = o1 + s2.len();
    let o3 = o2 + 8;
    let o4 = o3 + 8;
    let o5 = o4 + 8;
    let o6 = o5 + s6.len();
    assert(hb.len() == o6);
    assert(hb.subrange(0, o1 as int) =~= s1);
    assert(hb.subrange(o1 as int, o2 as int) =~= s2);
    assert(hb.subrange(o2 as int, o3 as int) =~= s3);
    assert(hb.subrange(o3 as int, o4 as int) =~= s4);
    assert(hb.subrange(o4 as int, o5 as int) =~= s5);
    assert(hb.subrange(o5 as int, o6 as int) =~= s6);
    lemma_agrees_shift(b, hb, 0, s1);
    lemma_parse_text_agrees(b, 0, h.file_id);
    if b.len() >= o1 {
        lemma_agrees_shift(b, hb, o1, s2);
        lemma_parse_text_agrees(b, o1, h.file_name);
        if b.len() >= o2 {
            lemma_agrees_shift(b, hb, o2, s3);
            lemma_parse_u64_agrees(b, o2, h.file_size);
            if b.len() >= o3 {
                lemma_agrees_shift(b, hb, o3, s4);
                lemma_parse_u64_agrees(b, o3, h.range_start);
                if b.len() >= o4 {
                    lemma_agrees_shift(b, hb, o4, s5);
                    lemma_parse_u64_agrees(b, o4, h.range_end);
                    if b.len() >= o5 {
                        lemma_agrees_shift(b, hb, o5, s6);
                        lemma_parse_text_agrees(b, o5, h.file_hash);
                    }
                }
            }
        }
    }
}

/// Decoding an encoded header, with any bytes after it, gives back every
/// field exactly and the header's length.
pub proof fn lemma_header_round_trip(h: HeaderView, rest: Seq<u8>)
    requires
        encodable(h),
    ensures
        parse_header(header_bytes(h) + rest) == Ok::<(HeaderView, nat), HeaderError>(
            (h, header_bytes(h).len()),
        ),
{
    let b = header_bytes(h) + rest;
    assert(agrees_from(b, 0, header_bytes(h)));
    lemma_parse_header_agrees(b, h);
}

/// Every proper prefix of an encoded header decodes to `IncompleteHeader`.
pub proof fn lemma_header_truncated(h: HeaderView, k: nat)
    requires
        encodable(h),
        k < header_bytes(h).len(),
    ensures
        parse_header(header_bytes(h).subrange(0, k as int)) == Err::<(HeaderView, nat), HeaderError>(
            HeaderError::IncompleteHeader,
        ),
{
    let b = header_bytes(h).subrange(0, k as int);
    assert(agrees_from(b, 0, header_bytes(h)));
    lemma_parse_header_agrees(b, h);
}

} // verus!
