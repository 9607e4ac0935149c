//! Read-only parsing of the older storage format, for the migration at start-up.
//!
//! Layout of that format:
//! - a single-cluster file starts with a run of `0xFF` padding of any length, then
//!   `[magic][name length][data length][CRC of the two lengths][name][name CRC][data][data CRC]`;
//!   the whole payload fits in 4088 bytes and the last 8 bytes stay `0xFF`;
//! - a file of several clusters fills its first cluster from byte 0 with payload
//!   bytes `[0..4088)` and ends it with `[CONT_A][address of the next cluster]`;
//!   a continuation cluster holds `[CONT_B][address of the previous cluster]` and then
//!   4080 payload bytes (the last one holds what is left).
//!
//! The data CRC sits at the end of the payload and may straddle a cluster boundary,
//! so the payload is always put back together before its fields are split.

use vstd::prelude::*;
use vstd::utf8::valid_utf8;
use crate::crc::{crc32, spec_crc32};
use crate::format::{be, spec_word, word_at, slice_range, CLUSTER_SIZE};
use crate::text::utf8_valid;

verus! {

pub const V1_MAGIC: u32 = 0x01311AAB;
pub const V1_CONT_A: u32 = 0x01311AAC;
pub const V1_CONT_B: u32 = 0x01311AAD;

/// End of the payload area of a cluster.
pub const V1_DATA_AREA_END: usize = 4088;
/// Payload bytes a first cluster holds.
pub const V1_FIRST_CAPACITY: usize = 4088;
/// Payload bytes a continuation cluster holds.
pub const V1_CONT_CAPACITY: usize = 4080;

/// The header of a file in the older format.
#[derive(Clone, Copy)]
pub struct V1Header {
    /// Where the magic starts in the first cluster (after the padding).
    pub start: usize,
    pub name_len: usize,
    pub data_len: usize,
}

/// The length of the payload of a file: 16 bytes of header, the name, its CRC, the
/// data and its CRC.
pub open spec fn spec_payload_len(name_len: nat, data_len: nat) -> nat {
    24 + name_len + data_len
}

/// How many clusters a payload of `p` bytes takes: 4088 in the first cluster, 4080 in
/// each later one.
pub open spec fn spec_v1_need(p: nat) -> nat {
    if p <= V1_FIRST_CAPACITY {
        1
    } else {
        (1 + (p - V1_FIRST_CAPACITY + (V1_CONT_CAPACITY - 1)) / (V1_CONT_CAPACITY as int)) as nat
    }
}

impl V1Header {
    /// The clusters this file takes.
    pub open spec fn spec_need(&self) -> nat {
        spec_v1_need(spec_payload_len(self.name_len as nat, self.data_len as nat))
    }

    /// Length of the whole payload (header 16 + name + name CRC 4 + data + data CRC 4).
    pub fn payload_len(&self) -> (r: usize)
        requires
            self.name_len + self.data_len + 24 <= usize::MAX,
        ensures
            r == spec_payload_len(self.name_len as nat, self.data_len as nat),
    {
        24 + self.name_len + self.data_len
    }

    /// How many clusters this file takes (4088 payload bytes in the first, 4080 in each
    /// later one).
    pub fn need_clusters(&self) -> (r: u32)
        requires
            self.name_len <= u32::MAX,
            self.data_len <= u32::MAX,
        ensures
            r == self.spec_need(),
            r >= 1,
    {
        let p = 24u64 + self.name_len as u64 + self.data_len as u64;
        if p <= V1_FIRST_CAPACITY as u64 {
            1
        } else {
            let x = (p - V1_FIRST_CAPACITY as u64 + (V1_CONT_CAPACITY as u64 - 1)) / V1_CONT_CAPACITY as u64;
            assert(x <= 3000000) by (nonlinear_arith)
                requires
                    x == (p - 4088 + 4079) / 4080,
                    p <= 24 + 2 * 0xFFFF_FFFFu64,
                    p > 4088,
            ;
            1 + x as u32
        }
    }
}

/// `i` is where the leading run of `0xFF` bytes of `buf` ends.
pub open spec fn ff_run_end(buf: Seq<u8>, i: int) -> bool {
    &&& 0 <= i <= buf.len()
    &&& forall|t: int| 0 <= t < i ==> buf[t] == 0xFFu8
    &&& i < buf.len() ==> buf[i] != 0xFFu8
}

/// Where a file of the older format starts in a first cluster: after the padding, on
/// the magic.
pub fn find_v1_file_start(buf: &[u8]) -> (r: Option<usize>)
    requires
        buf@.len() == CLUSTER_SIZE,
    ensures
        match r {
            Some(i) => ff_run_end(buf@, i as int) && i + 4 <= buf@.len() && spec_word(buf@, i as int) == V1_MAGIC,
            None => forall|i: int| #[trigger] ff_run_end(buf@, i) ==> !(i + 4 <= buf@.len() && spec_word(buf@, i) == V1_MAGIC),
        },
{
    let mut i: usize = 0;
    while i < buf.len() && buf[i] == 0xFF
        invariant
            i <= buf@.len(),
            buf@.len() == CLUSTER_SIZE,
            forall|t: int| 0 <= t < i ==> buf@[t] == 0xFFu8,
        decreases buf@.len() - i,
    {
        i = i + 1;
    }
    proof {
        assert(ff_run_end(buf@, i as int));
        assert forall|j: int| #[trigger] ff_run_end(buf@, j) implies j == i by {
            if j < i {
                assert(buf@[j] == 0xFFu8);
            }
            if i < j {
                assert(buf@[i as int] == 0xFFu8);
            }
        }
    }
    if i + 4 > buf.len() {
        return None;
    }
    if word_at(buf, i) == V1_MAGIC {
        Some(i)
    } else {
        None
    }
}

/// The header of a file of the older format whose magic starts at `start`, when its
/// length CRC, name CRC and name are good, its name and name CRC lie in the first
/// cluster, its data fits the partition, and a file of several clusters starts at 0.
pub open spec fn spec_parse_v1_header(buf: Seq<u8>, start: int, partition_size: int) -> Option<V1Header> {
    let name_len = spec_word(buf, start + 4);
    let data_len = spec_word(buf, start + 8);
    let name_end: int = start + 16 + name_len;
    let header = V1Header { start: start as usize, name_len: name_len as usize, data_len: data_len as usize };
    if start + 20 <= CLUSTER_SIZE && spec_crc32(be(name_len) + be(data_len)) == spec_word(buf, start + 12)
        && name_end + 4 <= V1_DATA_AREA_END && data_len <= partition_size && spec_crc32(
        buf.subrange(start + 16, name_end),
    ) == spec_word(buf, name_end) && valid_utf8(buf.subrange(start + 16, name_end)) && !(
    header.spec_need() > 1 && start != 0) {
        Some(header)
    } else {
        None
    }
}

/// Parses and checks the header of a file of the older format that starts at `start`.
pub fn parse_v1_header(buf: &[u8], start: usize, partition_size: usize) -> (r: Option<V1Header>)
    requires
        buf@.len() == CLUSTER_SIZE,
    ensures
        r == spec_parse_v1_header(buf@, start as int, partition_size as int),
        r matches Some(h) ==> h.name_len <= 4068 && h.data_len <= partition_size && h.data_len <= u32::MAX && h.start == start,
{
    if start > CLUSTER_SIZE - 20 {
        return None;
    }
    let name_len_w = word_at(buf, start + 4);
    let data_len_w = word_at(buf, start + 8);
    let mut len_block: Vec<u8> = Vec::new();
    crate::format::push_word(&mut len_block, name_len_w);
    crate::format::push_word(&mut len_block, data_len_w);
    assert(len_block@ =~= be(name_len_w) + be(data_len_w));
    if crc32(len_block.as_slice()) != word_at(buf, start + 12) {
        return None;
    }
    let name_len = name_len_w as usize;
    let data_len = data_len_w as usize;
    if name_len > V1_DATA_AREA_END {
        return None;
    }
    let name_end = start + 16 + name_len;
    if name_end + 4 > V1_DATA_AREA_END {
        return None;
    }
    if data_len > partition_size {
        return None;
    }
    if crc32(slice_range(buf, start + 16, name_end)) != word_at(buf, name_end) {
        return None;
    }
    if !utf8_valid(slice_range(buf, start + 16, name_end)) {
        return None;
    }
    let header = V1Header { start, name_len, data_len };
    if header.need_clusters() > 1 && start != 0 {
        return None;
    }
    Some(header)
}

/// Where the data lies in a payload put back together, when the data CRC matches.
pub open spec fn spec_split_v1_payload(payload: Seq<u8>, h: V1Header) -> Option<(usize, usize)> {
    let ds: int = 20 + h.name_len;
    let de: int = ds + h.data_len;
    if de + 4 <= payload.len() && spec_crc32(payload.subrange(ds, de)) == spec_word(payload, de) {
        Some((ds as usize, de as usize))
    } else {
        None
    }
}

/// Takes the data out of a payload put back together, checking the data CRC.
/// Returns where the data lies in the payload.
pub fn split_v1_payload(payload: &[u8], header: &V1Header) -> (r: Option<(usize, usize)>)
    requires
        header.name_len + header.data_len + 24 <= usize::MAX,
    ensures
        r == spec_split_v1_payload(payload@, *header),
{
    let name_end = 16 + header.name_len;
    let data_start = name_end + 4;
    let data_end = data_start + header.data_len;
    if data_end + 4 > payload.len() {
        return None;
    }
    if crc32(slice_range(payload, data_start, data_end)) != word_at(payload, data_end) {
        return None;
    }
    Some((data_start, data_end))
}

} // verus!
