//! The on-flash format: clusters of 4096 bytes, big-endian words, header and
//! continuation images, and the pure arithmetic of how a file is split.
//!
//! Every cluster keeps its last 8 bytes for the chain mark:
//! `[4088..4092)` holds `CONT_A` when the file goes on, `[4092..4096)` the
//! absolute address of the next cluster.
//!
//! First cluster of a file: `MAGIC`, name length, data length, generation,
//! CRC of the three fields, the name, the CRC of the name, the CRC of the
//! data, then data up to byte 4088.
//!
//! Continuation cluster: `CONT_B`, the address of the previous cluster, then
//! data from byte 8 up to byte 4088.

use vstd::prelude::*;
use vstd::utf8::*;
use crate::crc::{crc32, spec_crc32};
use crate::text::utf8_valid;

verus! {

pub const CLUSTER_SIZE: usize = 4096;
pub const DATA_AREA_END: usize = 4088;
pub const MAGIC: u32 = 0x01312AAB;
pub const CONT_A: u32 = 0x01312AAC;
pub const CONT_B: u32 = 0x01312AAD;
pub const HEADER_FIXED: usize = 20;
pub const FIRST_META: usize = 28;
pub const CONT_DATA_START: usize = 8;
pub const CONT_CAPACITY: usize = 4080;

/// Maximum file name length in bytes (the header, name and CRCs must fit in the first cluster).
pub const MAX_NAME_LEN: usize = 4060;

/// The big-endian word at `off` of `s`.
pub open spec fn spec_word(s: Seq<u8>, off: int) -> u32 {
    ((s[off] as u32) << 24u32) | ((s[off + 1] as u32) << 16u32) | ((s[off + 2] as u32) << 8u32) | (
    s[off + 3] as u32)
}

/// The four big-endian bytes of `w`.
pub open spec fn be(w: u32) -> Seq<u8> {
    seq![(w >> 24u32) as u8, (w >> 16u32) as u8, (w >> 8u32) as u8, w as u8]
}

/// `n` erased bytes.
pub open spec fn ff(n: nat) -> Seq<u8> {
    Seq::new(n, |i: int| 0xFFu8)
}

/// A word written big-endian reads back as itself.
pub proof fn lemma_word_of_be(w: u32)
    ensures
        spec_word(be(w), 0) == w,
{
    let b0 = (w >> 24u32) as u8;
    let b1 = (w >> 16u32) as u8;
    let b2 = (w >> 8u32) as u8;
    let b3 = w as u8;
    assert(((b0 as u32) << 24u32) | ((b1 as u32) << 16u32) | ((b2 as u32) << 8u32) | (b3 as u32)
        == w) by (bit_vector)
        requires
            b0 == (w >> 24u32) as u8,
            b1 == (w >> 16u32) as u8,
            b2 == (w >> 8u32) as u8,
            b3 == w as u8,
    ;
}

/// A word depends only on its four bytes.
pub proof fn lemma_word_at_sub(s: Seq<u8>, off: int, w: u32)
    requires
        0 <= off,
        off + 4 <= s.len(),
        s.subrange(off, off + 4) == be(w),
    ensures
        spec_word(s, off) == w,
{
    lemma_word_of_be(w);
    assert(s[off] == be(w)[0]);
    assert(s[off + 1] == be(w)[1]);
    assert(s[off + 2] == be(w)[2]);
    assert(s[off + 3] == be(w)[3]);
}

/// Four erased bytes read as the word `0xFFFF_FFFF`.
pub proof fn lemma_word_ff(s: Seq<u8>, off: int)
    requires
        0 <= off,
        off + 4 <= s.len(),
        s.subrange(off, off + 4) == ff(4),
    ensures
        spec_word(s, off) == 0xFFFF_FFFFu32,
{
    assert(s[off] == ff(4)[0]);
    assert(s[off + 1] == ff(4)[1]);
    assert(s[off + 2] == ff(4)[2]);
    assert(s[off + 3] == ff(4)[3]);
    let b: u8 = 0xFF;
    assert(((b as u32) << 24u32) | ((b as u32) << 16u32) | ((b as u32) << 8u32) | (b as u32)
        == 0xFFFF_FFFFu32) by (bit_vector)
        requires
            b == 0xFFu8,
    ;
}

/// The top byte of a big-endian word is its first byte.
pub proof fn lemma_word_top(s: Seq<u8>, off: int)
    ensures
        (spec_word(s, off) >> 24u32) as u8 == s[off],
{
    let b0 = s[off];
    let b1 = s[off + 1];
    let b2 = s[off + 2];
    let b3 = s[off + 3];
    assert(((((b0 as u32) << 24u32) | ((b1 as u32) << 16u32) | ((b2 as u32) << 8u32) | (b3 as u32)) >> 24u32) as u8 == b0) by (bit_vector);
}

/// Reads the big-endian word at `offset`.
pub fn word_at(buf: &[u8], offset: usize) -> (w: u32)
    requires
        offset + 4 <= buf@.len(),
    ensures
        w == spec_word(buf@, offset as int),
{
    ((buf[offset] as u32) << 24) | ((buf[offset + 1] as u32) << 16) | ((buf[offset + 2] as u32)
        << 8) | (buf[offset + 3] as u32)
}

/// Appends the four big-endian bytes of `w`.
pub fn push_word(v: &mut Vec<u8>, w: u32)
    ensures
        final(v)@ == old(v)@ + be(w),
{
    v.push((w >> 24) as u8);
    v.push((w >> 16) as u8);
    v.push((w >> 8) as u8);
    v.push(w as u8);
    assert(final(v)@ =~= old(v)@ + be(w));
}

/// Appends `n` erased bytes.
pub fn push_ff(v: &mut Vec<u8>, n: usize)
    ensures
        final(v)@ == old(v)@ + ff(n as nat),
{
    let ghost start = v@;
    let mut i: usize = 0;
    while i < n
        invariant
            i <= n,
            v@ == start + ff(i as nat),
        decreases n - i,
    {
        v.push(0xFF);
        i = i + 1;
        assert(v@ =~= start + ff(i as nat));
    }
}

/// Whether generation `a` is newer than generation `b` (wrapping comparison).
pub open spec fn spec_gen_newer(a: u32, b: u32) -> bool {
    let d = if a >= b {
        a - b
    } else {
        a - b + 0x1_0000_0000
    };
    0 < d < 0x8000_0000
}

/// Whether generation `a` is newer than generation `b`: `a - b`, wrapping, is
/// positive as a signed number.
pub fn gen_newer(a: u32, b: u32) -> (r: bool)
    ensures
        r == spec_gen_newer(a, b),
{
    let d = a.wrapping_sub(b);
    assert(((d as i32) > 0) == (0 < d && d < 0x8000_0000u32)) by (bit_vector);
    (d as i32) > 0
}

/// Data bytes that fit in the first cluster next to a name of `name_len` bytes.
pub open spec fn spec_cap0(name_len: nat) -> int {
    MAX_NAME_LEN - name_len
}

/// Data bytes that fit in the first cluster next to a name of `name_len` bytes.
pub fn first_data_capacity(name_len: usize) -> (c: usize)
    requires
        name_len <= MAX_NAME_LEN,
    ensures
        c == spec_cap0(name_len as nat),
{
    DATA_AREA_END - FIRST_META - name_len
}

/// How many clusters a file with this name length and data length occupies.
pub open spec fn spec_need(name_len: nat, data_len: nat) -> nat {
    let cap0 = spec_cap0(name_len);
    if data_len <= cap0 {
        1
    } else {
        (1 + (data_len - cap0 + (CONT_CAPACITY - 1)) / (CONT_CAPACITY as int)) as nat
    }
}

/// How many clusters a file with this name length and data length occupies.
pub fn need_clusters(name_len: usize, data_len: usize) -> (q: u32)
    requires
        name_len <= MAX_NAME_LEN,
        spec_need(name_len as nat, data_len as nat) <= u32::MAX,
    ensures
        q == spec_need(name_len as nat, data_len as nat),
        q >= 1,
{
    let cap0 = first_data_capacity(name_len) as u64;
    let d = data_len as u64;
    if d <= cap0 {
        1
    } else {
        let r = d - cap0;
        let x = r / (CONT_CAPACITY as u64) + if r % (CONT_CAPACITY as u64) == 0 {
            0
        } else {
            1
        };
        assert(x == (r + 4079) / 4080) by (nonlinear_arith)
            requires
                x == r / 4080 + (if r % 4080 == 0 { 0int } else { 1int }),
                r > 0,
        ;
        1 + x as u32
    }
}

/// Where the data stored in the `i`-th cluster of a file starts (offset in the file).
pub open spec fn span_start(name_len: nat, i: nat) -> int {
    if i == 0 {
        0
    } else {
        spec_cap0(name_len) + (i - 1) * (CONT_CAPACITY as int)
    }
}

/// Where the data stored in the `i`-th cluster of a file ends.
pub open spec fn span_end(name_len: nat, data_len: nat, i: nat) -> int {
    let e = span_start(name_len, i + 1);
    if data_len <= e {
        data_len as int
    } else {
        e
    }
}

/// The spans of the clusters of a file lie end to end and cover its data.
pub proof fn lemma_spans(name_len: nat, data_len: nat, i: nat)
    requires
        name_len <= MAX_NAME_LEN,
        i < spec_need(name_len, data_len),
    ensures
        0 <= span_start(name_len, i) <= span_end(name_len, data_len, i) <= data_len,
        span_end(name_len, data_len, i) - span_start(name_len, i) <= (if i == 0 {
            spec_cap0(name_len)
        } else {
            CONT_CAPACITY as int
        }),
        i + 1 < spec_need(name_len, data_len) ==> span_end(name_len, data_len, i) == span_start(
            name_len,
            i + 1,
        ) && span_end(name_len, data_len, i) - span_start(name_len, i) == (if i == 0 {
            spec_cap0(name_len)
        } else {
            CONT_CAPACITY as int
        }),
        i + 1 == spec_need(name_len, data_len) ==> span_end(name_len, data_len, i) == data_len,
        i >= 1 ==> span_start(name_len, i) < data_len,
{
    let cap0 = spec_cap0(name_len);
    let q = spec_need(name_len, data_len);
    if data_len > cap0 {
        let x = (data_len - cap0 + 4079) / 4080;
        assert(q == 1 + x);
        assert((x - 1) * 4080 < data_len - cap0 <= x * 4080) by (nonlinear_arith)
            requires
                x == (data_len - cap0 + 4079) / 4080,
                data_len - cap0 > 0,
        ;
        if i >= 1 {
            assert((i - 1) * 4080 <= (x - 1) * 4080) by (nonlinear_arith)
                requires
                    1 <= i <= x,
            ;
            assert(i * 4080 == (i - 1) * 4080 + 4080) by (nonlinear_arith);
            if i + 1 < q {
                assert(i * 4080 <= (x - 1) * 4080) by (nonlinear_arith)
                    requires
                        i + 1 <= x,
                ;
            }
        } else {
        }
    }
}

/// The range of file offsets stored in the `i`-th cluster.
pub fn data_span(name_len: usize, data_len: usize, i: usize) -> (r: (usize, usize))
    requires
        name_len <= MAX_NAME_LEN,
        i < spec_need(name_len as nat, data_len as nat),
    ensures
        r.0 == span_start(name_len as nat, i as nat),
        r.1 == span_end(name_len as nat, data_len as nat, i as nat),
{
    proof {
        lemma_spans(name_len as nat, data_len as nat, i as nat);
    }
    let cap0 = first_data_capacity(name_len);
    if i == 0 {
        (0, if data_len <= cap0 {
            data_len
        } else {
            cap0
        })
    } else {
        let s = cap0 + (i - 1) * CONT_CAPACITY;
        let e = if data_len - s <= CONT_CAPACITY {
            data_len
        } else {
            s + CONT_CAPACITY
        };
        assert(s + CONT_CAPACITY == span_start(name_len as nat, (i + 1) as nat)) by (
        nonlinear_arith)
            requires
                s == cap0 + (i - 1) * 4080,
                cap0 == spec_cap0(name_len as nat),
                i >= 1,
        ;
        (s, e)
    }
}

/// The fixed part of a header that its CRC covers.
pub open spec fn header_fields(name_len: u32, data_len: u32, generation: u32) -> Seq<u8> {
    be(name_len) + be(data_len) + be(generation)
}

/// The chain mark at the end of a cluster.
pub open spec fn tail_image(next: Option<u32>) -> Seq<u8> {
    match next {
        Some(addr) => be(CONT_A) + be(addr),
        None => ff(8),
    }
}

/// The first cluster of a file.
#[verifier::opaque]
pub open spec fn first_image(
    name: Seq<u8>,
    data_len: u32,
    generation: u32,
    data_crc: u32,
    chunk: Seq<u8>,
    next: Option<u32>,
) -> Seq<u8> {
    let fields = header_fields(name.len() as u32, data_len, generation);
    be(MAGIC) + fields + be(spec_crc32(fields)) + name + be(spec_crc32(name)) + be(data_crc) + chunk
        + ff((DATA_AREA_END - FIRST_META - name.len() - chunk.len()) as nat) + tail_image(next)
}

/// A continuation cluster of a file.
#[verifier::opaque]
pub open spec fn cont_image(prev: u32, chunk: Seq<u8>, next: Option<u32>) -> Seq<u8> {
    be(CONT_B) + be(prev) + chunk + ff((CONT_CAPACITY - chunk.len()) as nat) + tail_image(next)
}

/// What a header says.
#[derive(Clone, Copy)]
pub struct ParsedHeader {
    pub name_len: usize,
    pub data_len: usize,
    pub generation: u32,
    pub data_crc: u32,
}

impl ParsedHeader {
    /// Where the data starts in the first cluster.
    pub open spec fn spec_data_start(&self) -> int {
        FIRST_META + self.name_len
    }

    /// Where the data starts in the first cluster.
    pub fn data_start(&self) -> (r: usize)
        requires
            self.name_len <= MAX_NAME_LEN,
        ensures
            r == self.spec_data_start(),
    {
        FIRST_META + self.name_len
    }
}

/// The header of a cluster, when it holds a valid one.
pub open spec fn spec_parse_header(c: Seq<u8>, flash_size: u32) -> Option<ParsedHeader> {
    let name_len = spec_word(c, 4);
    let data_len = spec_word(c, 8);
    let name_end = HEADER_FIXED + name_len;
    if spec_word(c, 0) == MAGIC && spec_crc32(c.subrange(4, 16)) == spec_word(c, 16) && name_len
        <= MAX_NAME_LEN && data_len <= flash_size && spec_crc32(c.subrange(20, name_end))
        == spec_word(c, name_end) && valid_utf8(c.subrange(20, name_end)) {
        Some(
            ParsedHeader {
                name_len: name_len as usize,
                data_len: data_len as usize,
                generation: spec_word(c, 12),
                data_crc: spec_word(c, name_end + 4),
            },
        )
    } else {
        None
    }
}

/// The name bytes of a header with a name of `name_len` bytes.
pub open spec fn header_name(c: Seq<u8>, name_len: nat) -> Seq<u8> {
    c.subrange(HEADER_FIXED as int, HEADER_FIXED + name_len)
}

/// Parses and checks the header of a first cluster: magic, header CRC, name length,
/// data length against the partition size, name CRC and UTF-8 name.
pub fn parse_header(buf: &[u8], flash_size: u32) -> (r: Option<ParsedHeader>)
    requires
        buf@.len() == CLUSTER_SIZE,
    ensures
        r == spec_parse_header(buf@, flash_size),
{
    if word_at(buf, 0) != MAGIC {
        return None;
    }
    let name_len = word_at(buf, 4) as usize;
    let data_len = word_at(buf, 8) as usize;
    let generation = word_at(buf, 12);
    if crc32(slice_range(buf, 4, 16)) != word_at(buf, 16) {
        return None;
    }
    if name_len > MAX_NAME_LEN {
        return None;
    }
    if data_len > flash_size as usize {
        return None;
    }
    let name_end = HEADER_FIXED + name_len;
    if crc32(slice_range(buf, HEADER_FIXED, name_end)) != word_at(buf, name_end) {
        return None;
    }
    if !utf8_valid(slice_range(buf, HEADER_FIXED, name_end)) {
        return None;
    }
    let data_crc = word_at(buf, name_end + 4);
    Some(ParsedHeader { name_len, data_len, generation, data_crc })
}

/// The sub-slice `[start, end)`.
pub fn slice_range(buf: &[u8], start: usize, end: usize) -> (r: &[u8])
    requires
        start <= end <= buf@.len(),
    ensures
        r@ == buf@.subrange(start as int, end as int),
{
    vstd::slice::slice_subrange(buf, start, end)
}

/// Where the chain of clusters goes after a cluster.
#[derive(Clone, Copy)]
pub enum ChainNext {
    Next(u32),
    End,
    Broken,
}

/// The cluster index of an absolute address, when it is the start of a cluster of the partition.
pub open spec fn spec_addr_to_index(addr: u32, base: u32, n: u32) -> Option<u32> {
    if addr < base {
        None
    } else if (addr - base) % 4096 != 0 {
        None
    } else if (addr - base) / 4096 >= n {
        None
    } else {
        Some(((addr - base) / 4096) as u32)
    }
}

/// The cluster index of an absolute address, when it is the start of a cluster of the partition.
pub fn addr_to_cluster_index(addr: u32, base: u32, n: u32) -> (r: Option<u32>)
    ensures
        r == spec_addr_to_index(addr, base, n),
{
    if addr < base {
        return None;
    }
    let offset = addr - base;
    if offset % (CLUSTER_SIZE as u32) != 0 {
        return None;
    }
    let idx = offset / CLUSTER_SIZE as u32;
    if idx >= n {
        return None;
    }
    Some(idx)
}

/// The absolute address of cluster `i`.
pub open spec fn cluster_addr(base: u32, i: int) -> int {
    base + i * 4096
}

/// The address of a cluster maps back to its index.
pub proof fn lemma_addr_to_index(base: u32, n: u32, i: u32)
    requires
        i < n,
        base + n * 4096 <= 0x1_0000_0000,
    ensures
        spec_addr_to_index((base + i * 4096) as u32, base, n) == Some(i),
{
    assert(i * 4096 < n * 4096) by (nonlinear_arith)
        requires
            i < n,
    ;
    let a = (base + i * 4096) as u32;
    assert(a - base == i * 4096);
    assert((i * 4096) % 4096 == 0 && (i * 4096) / 4096 == i) by (nonlinear_arith);
}

/// The chain mark in the last 8 bytes `tail` of a cluster.
pub open spec fn spec_chain_next(tail: Seq<u8>, base: u32, n: u32) -> ChainNext {
    if spec_word(tail, 0) != CONT_A {
        ChainNext::End
    } else {
        match spec_addr_to_index(spec_word(tail, 4), base, n) {
            Some(i) => ChainNext::Next(i),
            None => ChainNext::Broken,
        }
    }
}

/// The chain mark in the last 8 bytes `tail` of a cluster.
pub fn chain_next(tail: &[u8], base: u32, n: u32) -> (r: ChainNext)
    requires
        tail@.len() == 8,
    ensures
        r == spec_chain_next(tail@, base, n),
{
    if word_at(tail, 0) != CONT_A {
        return ChainNext::End;
    }
    match addr_to_cluster_index(word_at(tail, 4), base, n) {
        Some(idx) => ChainNext::Next(idx),
        None => ChainNext::Broken,
    }
}

/// Builds the first cluster of a file.
pub fn first_cluster_image(
    name: &[u8],
    data_len: u32,
    generation: u32,
    data_crc: u32,
    chunk: &[u8],
    next: Option<u32>,
) -> (v: Vec<u8>)
    requires
        name@.len() <= MAX_NAME_LEN,
        chunk@.len() <= spec_cap0(name@.len()),
    ensures
        v@ == first_image(name@, data_len, generation, data_crc, chunk@, next),
        v@.len() == CLUSTER_SIZE,
{
    let mut fields: Vec<u8> = Vec::new();
    push_word(&mut fields, name.len() as u32);
    push_word(&mut fields, data_len);
    push_word(&mut fields, generation);
    assert(fields@ =~= header_fields(name@.len() as u32, data_len, generation));
    let mut v: Vec<u8> = Vec::new();
    push_word(&mut v, MAGIC);
    v.extend_from_slice(fields.as_slice());
    push_word(&mut v, crc32(fields.as_slice()));
    v.extend_from_slice(name);
    push_word(&mut v, crc32(name));
    push_word(&mut v, data_crc);
    v.extend_from_slice(chunk);
    push_ff(&mut v, DATA_AREA_END - FIRST_META - name.len() - chunk.len());
    push_tail(&mut v, next);
    proof {
        reveal(first_image);
    }
    v
}

/// Builds a continuation cluster of a file.
pub fn cont_cluster_image(prev: u32, chunk: &[u8], next: Option<u32>) -> (v: Vec<u8>)
    requires
        chunk@.len() <= CONT_CAPACITY,
    ensures
        v@ == cont_image(prev, chunk@, next),
        v@.len() == CLUSTER_SIZE,
{
    let mut v: Vec<u8> = Vec::new();
    push_word(&mut v, CONT_B);
    push_word(&mut v, prev);
    v.extend_from_slice(chunk);
    push_ff(&mut v, CONT_CAPACITY - chunk.len());
    push_tail(&mut v, next);
    proof {
        reveal(cont_image);
    }
    v
}

/// Appends the chain mark.
pub fn push_tail(v: &mut Vec<u8>, next: Option<u32>)
    ensures
        final(v)@ == old(v)@ + tail_image(next),
{
    match next {
        Some(addr) => {
            push_word(v, CONT_A);
            push_word(v, addr);
        },
        None => {
            push_ff(v, 8);
        },
    }
}

/// What can be read back from a first-cluster image.
pub proof fn lemma_first_image(
    name: Seq<u8>,
    data_len: u32,
    generation: u32,
    data_crc: u32,
    chunk: Seq<u8>,
    next: Option<u32>,
    flash_size: u32,
)
    requires
        name.len() <= MAX_NAME_LEN,
        chunk.len() <= spec_cap0(name.len()),
        data_len <= flash_size,
        valid_utf8(name),
    ensures
        ({
            let img = first_image(name, data_len, generation, data_crc, chunk, next);
            &&& img.len() == CLUSTER_SIZE
            &&& spec_word(img, 0) == MAGIC
            &&& spec_parse_header(img, flash_size) == Some(
                ParsedHeader {
                    name_len: name.len() as usize,
                    data_len: data_len as usize,
                    generation,
                    data_crc,
                },
            )
            &&& header_name(img, name.len()) == name
            &&& img.subrange(FIRST_META + name.len(), FIRST_META + name.len() + chunk.len())
                == chunk
            &&& img.subrange(DATA_AREA_END as int, CLUSTER_SIZE as int) == tail_image(next)
        }),
{
    reveal(first_image);
    let l = name.len() as int;
    let fields = header_fields(l as u32, data_len, generation);
    let img = first_image(name, data_len, generation, data_crc, chunk, next);
    let fill = ff((DATA_AREA_END - FIRST_META - l - chunk.len()) as nat);
    let p1 = be(MAGIC) + fields;
    let p2 = p1 + be(spec_crc32(fields));
    let p3 = p2 + name;
    let p4 = p3 + be(spec_crc32(name));
    let p5 = p4 + be(data_crc);
    let p6 = p5 + chunk;
    let p7 = p6 + fill;
    assert(img == p7 + tail_image(next));
    assert(tail_image(next).len() == 8);
    assert(img.subrange(0, 4) =~= be(MAGIC));
    assert(img.subrange(4, 8) =~= be(l as u32));
    assert(img.subrange(8, 12) =~= be(data_len));
    assert(img.subrange(12, 16) =~= be(generation));
    assert(img.subrange(4, 16) =~= fields);
    assert(img.subrange(16, 20) =~= be(spec_crc32(fields)));
    assert(img.subrange(20, 20 + l) =~= name);
    assert(img.subrange(20 + l, 24 + l) =~= be(spec_crc32(name)));
    assert(img.subrange(24 + l, 28 + l) =~= be(data_crc));
    assert(img.subrange(28 + l, 28 + l + chunk.len() as int) =~= chunk);
    assert(img.subrange(4088, 4096) =~= tail_image(next));
    lemma_word_at_sub(img, 0, MAGIC);
    lemma_word_at_sub(img, 4, l as u32);
    lemma_word_at_sub(img, 8, data_len);
    lemma_word_at_sub(img, 12, generation);
    lemma_word_at_sub(img, 16, spec_crc32(fields));
    lemma_word_at_sub(img, 20 + l, spec_crc32(name));
    lemma_word_at_sub(img, 24 + l, data_crc);
}

/// What can be read back from a continuation-cluster image.
pub proof fn lemma_cont_image(prev: u32, chunk: Seq<u8>, next: Option<u32>)
    requires
        chunk.len() <= CONT_CAPACITY,
    ensures
        ({
            let img = cont_image(prev, chunk, next);
            &&& img.len() == CLUSTER_SIZE
            &&& spec_word(img, 0) == CONT_B
            &&& img.subrange(CONT_DATA_START as int, CONT_DATA_START + chunk.len()) == chunk
            &&& img.subrange(DATA_AREA_END as int, CLUSTER_SIZE as int) == tail_image(next)
        }),
{
    reveal(cont_image);
    let img = cont_image(prev, chunk, next);
    assert(tail_image(next).len() == 8);
    assert(img.subrange(0, 4) =~= be(CONT_B));
    assert(img.subrange(8, 8 + chunk.len() as int) =~= chunk);
    assert(img.subrange(4088, 4096) =~= tail_image(next));
    lemma_word_at_sub(img, 0, CONT_B);
}

/// The chain mark written for `next` reads back as `next`.
pub proof fn lemma_tail_image(next: Option<u32>, base: u32, n: u32)
    requires
        next matches Some(a) ==> spec_addr_to_index(a, base, n) is Some,
    ensures
        spec_chain_next(tail_image(next), base, n) == (match next {
            Some(a) => ChainNext::Next(spec_addr_to_index(a, base, n).unwrap()),
            None => ChainNext::End,
        }),
{
    let t = tail_image(next);
    match next {
        Some(a) => {
            assert(t.subrange(0, 4) =~= be(CONT_A));
            assert(t.subrange(4, 8) =~= be(a));
            lemma_word_at_sub(t, 0, CONT_A);
            lemma_word_at_sub(t, 4, a);
        },
        None => {
            assert(t.subrange(0, 4) =~= ff(4));
            lemma_word_ff(t, 0);
        },
    }
}

} // verus!
